//! The FIFO scheduler's state and the steps of its rounds: transactions
//! wait in a queue in arrival order; each round hands them, front first, to
//! the least busy worker that may take their account locks, and puts back
//! at the end of the queue those that no worker may take yet. Workers give
//! transactions back when they are done with them, which releases their
//! locks.
use vstd::prelude::*;
use vstd::multiset::Multiset;
use std::collections::{HashMap, VecDeque};
use agave_scheduling_utils::thread_aware_account_locks::ThreadAwareAccountLocks;
use crate::account_keys::{
    MessageVersion, TransactionEntry, TransactionLayout, lemma_fee_payer_written, parse_transaction, sanitized_layout,
};
use crate::locks::{Account, AccountAccess, conflicts};
use crate::legacy::{
    BatchPlanner, Placement, MAX_ATTEMPTED, QUEUE_CAPACITY, is_cost_limit_reason, is_least_busy, note_in_progress,
    release_in_progress, resolve_disposition, spec_is_cost_limit_reason, spec_resolution_failed, classify_tpu_transaction,
    ResolveBatcher, ResolveDisposition, TpuDisposition,
};
use crate::protocol::{CheckFlags, MAX_TRANSACTIONS_PER_MESSAGE, PubkeysRegion, RESOLVE_PERFORMED, RESOLVE_REQUESTED, TransactionRegion};
use crate::thread_locks::{
    LockGrant, MAX_THREADS, locks_consistent, locks_within, schedulable, schedulable_threads, thread_locks_held,
    thread_locks_new, thread_locks_try_lock, thread_locks_unlock, thread_locks_workers, transaction_grants, lemma_lock_keeps_consistent,
    lemma_schedulable_threads, lemma_transaction_grants, lemma_unlock_keeps_consistent,
};

verus! {

broadcast use vstd::multiset::group_multiset_axioms, vstd::std_specs::hash::group_hash_axioms;

/// What the FIFO scheduler keeps of a transaction: the transaction, and
/// where the addresses resolved from its lookup tables lie, if any were.
#[derive(Debug)]
pub struct FifoEntry {
    pub transaction: TransactionEntry,
    pub resolved_pubkeys: Option<PubkeysRegion>,
}

/// The accounts a transaction writes and reads.
pub open spec fn fifo_access(entry: FifoEntry) -> AccountAccess {
    (entry.transaction.writable_keys(), entry.transaction.readonly_keys())
}

/// The locks a transaction holds while `worker` has it.
pub open spec fn entry_grants(entry: FifoEntry, worker: usize) -> Multiset<LockGrant> {
    transaction_grants(entry.transaction.writable_keys(), entry.transaction.readonly_keys(), worker)
}

/// The locks held by the transactions of `order`, each on its worker.
pub open spec fn flight_grants(order: Seq<usize>, entries: Map<usize, FifoEntry>, workers: Map<usize, usize>) -> Multiset<LockGrant>
    decreases order.len(),
{
    if order.len() == 0 {
        Multiset::empty()
    } else {
        flight_grants(order.drop_last(), entries, workers).add(entry_grants(entries[order.last()], workers[order.last()]))
    }
}

/// How many of the transactions of `order` `worker` has.
pub open spec fn flight_count(order: Seq<usize>, workers: Map<usize, usize>, worker: usize) -> nat
    decreases order.len(),
{
    if order.len() == 0 {
        0
    } else {
        flight_count(order.drop_last(), workers, worker) + (if workers[order.last()] == worker { 1nat } else { 0nat })
    }
}

/// A kept transaction is filed under the offset of its region and has a
/// sanitized header.
pub open spec fn entry_ok(offset: usize, entry: FifoEntry) -> bool {
    &&& entry.transaction.sharable_transaction.offset == offset
    &&& entry.transaction.layout.header_valid()
}

/// The FIFO scheduler's state: the queue of waiting transactions (by the
/// offset of their region), every transaction it keeps, the account locks
/// of the transactions the workers have, and how many each worker has.
pub struct FifoState {
    queue: VecDeque<usize>,
    offset_to_entry: HashMap<usize, FifoEntry>,
    account_locks: ThreadAwareAccountLocks,
    in_progress: Vec<u64>,
    in_flight: HashMap<usize, usize>,
    locks_held: u64,
    flight_order: Ghost<Seq<usize>>,
}

impl FifoState {
    /// The waiting transactions, front first.
    pub closed spec fn queue(&self) -> Seq<usize> {
        self.queue@
    }

    /// Every transaction kept, by offset.
    pub closed spec fn entries(&self) -> Map<usize, FifoEntry> {
        self.offset_to_entry@
    }

    /// The transactions a worker has, each with its worker.
    pub closed spec fn in_flight(&self) -> Map<usize, usize> {
        self.in_flight@
    }

    /// How many transactions each worker has.
    pub closed spec fn in_progress(&self) -> Seq<u64> {
        self.in_progress@
    }

    /// The account locks held.
    pub closed spec fn held_locks(&self) -> Multiset<LockGrant> {
        thread_locks_held(self.account_locks)
    }

    /// The transactions the workers have, in the order they were handed out.
    pub closed spec fn in_flight_order(&self) -> Seq<usize> {
        self.flight_order@
    }

    /// The state's invariant: the queue holds at most `QUEUE_CAPACITY`
    /// offsets; every kept transaction either waits in the
    /// queue (once) or is with a worker, never both; the locks held are
    /// exactly those of the transactions with the workers, each on its
    /// worker, and they never conflict across workers; each worker's count
    /// is the number of transactions it has.
    pub closed spec fn wf(&self) -> bool {
        let n = self.in_progress@.len();
        let order = self.flight_order@;
        let held = thread_locks_held(self.account_locks);
        &&& 0 < n <= MAX_THREADS
        &&& thread_locks_workers(self.account_locks) == n
        &&& self.queue@.no_duplicates()
        &&& self.queue@.len() <= QUEUE_CAPACITY
        &&& forall|i: int| 0 <= i < self.queue@.len() ==> {
            &&& self.offset_to_entry@.contains_key(#[trigger] self.queue@[i])
            &&& !self.in_flight@.contains_key(self.queue@[i])
        }
        &&& order.no_duplicates()
        &&& forall|i: int| 0 <= i < order.len() ==> self.in_flight@.contains_key(#[trigger] order[i])
        &&& forall|o: usize| #[trigger] self.in_flight@.contains_key(o) ==> order.contains(o)
        &&& forall|o: usize| #[trigger] self.in_flight@.contains_key(o) ==> {
            &&& self.offset_to_entry@.contains_key(o)
            &&& self.in_flight@[o] < n
        }
        &&& forall|o: usize| #[trigger] self.offset_to_entry@.contains_key(o) ==> {
            &&& self.in_flight@.contains_key(o) || self.queue@.contains(o)
            &&& entry_ok(o, self.offset_to_entry@[o])
        }
        &&& held == flight_grants(order, self.offset_to_entry@, self.in_flight@)
        &&& locks_consistent(held)
        &&& locks_within(held, thread_locks_workers(self.account_locks))
        &&& self.locks_held == held.len()
        &&& self.locks_held <= u32::MAX
        &&& forall|t: int| 0 <= t < n ==> self.in_progress@[t] == flight_count(order, self.in_flight@, t as usize)
    }

    /// A state for `num_workers` workers with nothing queued and nothing
    /// with any worker.
    pub fn new(num_workers: usize) -> (s: Self)
        requires
            0 < num_workers <= MAX_THREADS,
        ensures
            s.wf(),
            s.queue() == Seq::<usize>::empty(),
            s.entries() == Map::<usize, FifoEntry>::empty(),
            s.in_flight() == Map::<usize, usize>::empty(),
            s.in_progress() == Seq::new(num_workers as nat, |i: int| 0u64),
    {
        let mut in_progress: Vec<u64> = Vec::new();
        let mut i: usize = 0;
        while i < num_workers
            invariant
                i <= num_workers,
                in_progress@ == Seq::new(i as nat, |k: int| 0u64),
            decreases num_workers - i,
        {
            in_progress.push(0);
            i = i + 1;
            assert(in_progress@ =~= Seq::new(i as nat, |k: int| 0u64));
        }
        let s = FifoState {
            queue: VecDeque::new(),
            offset_to_entry: HashMap::new(),
            account_locks: thread_locks_new(num_workers),
            in_progress,
            in_flight: HashMap::new(),
            locks_held: 0,
            flight_order: Ghost(Seq::empty()),
        };
        assert(s.in_flight@ =~= Map::<usize, usize>::empty());
        assert(s.offset_to_entry@ =~= Map::<usize, FifoEntry>::empty());
        s
    }

    /// The number of workers.
    pub fn num_workers(&self) -> (n: usize)
        requires
            self.wf(),
        ensures
            n == self.in_progress().len(),
            0 < n <= MAX_THREADS,
    {
        self.in_progress.len()
    }

    /// The number of waiting transactions.
    pub fn queue_len(&self) -> (n: usize)
        ensures
            n == self.queue().len(),
    {
        self.queue.len()
    }

    /// Whether a transaction is kept under `offset`.
    pub fn holds(&self, offset: usize) -> (b: bool)
        ensures
            b == self.entries().contains_key(offset),
    {
        self.offset_to_entry.contains_key(&offset)
    }

    /// Whether `worker` has the transaction at `offset`.
    pub fn in_flight_on(&self, offset: usize, worker: usize) -> (b: bool)
        ensures
            b == (self.in_flight().contains_key(offset) && self.in_flight()[offset] == worker),
    {
        match self.in_flight.get(&offset) {
            Some(w) => *w == worker,
            None => false,
        }
    }

    /// How many transactions `worker` has.
    pub fn worker_load(&self, worker: usize) -> (n: u64)
        requires
            worker < self.in_progress().len(),
        ensures
            n == self.in_progress()[worker as int],
    {
        self.in_progress[worker]
    }
}

/// The locks of the transactions in flight do not change with entries or
/// workers of transactions not in flight.
proof fn lemma_flight_frame(
    order: Seq<usize>,
    e1: Map<usize, FifoEntry>,
    w1: Map<usize, usize>,
    e2: Map<usize, FifoEntry>,
    w2: Map<usize, usize>,
)
    requires
        forall|i: int| 0 <= i < order.len() ==> e1[#[trigger] order[i]] == e2[order[i]] && w1[order[i]] == w2[order[i]],
    ensures
        flight_grants(order, e1, w1) == flight_grants(order, e2, w2),
        forall|t: usize| flight_count(order, w1, t) == #[trigger] flight_count(order, w2, t),
    decreases order.len(),
{
    if order.len() > 0 {
        let dl = order.drop_last();
        assert forall|i: int| 0 <= i < dl.len() implies e1[#[trigger] dl[i]] == e2[dl[i]] && w1[dl[i]] == w2[dl[i]] by {
            assert(dl[i] == order[i]);
        }
        lemma_flight_frame(dl, e1, w1, e2, w2);
        assert(order.last() == order[order.len() - 1]);
        assert forall|t: usize| flight_count(order, w1, t) == #[trigger] flight_count(order, w2, t) by {
            assert(flight_count(dl, w1, t) == flight_count(dl, w2, t));
        }
    }
}

/// Taking one transaction out of the flight: its locks and its worker's
/// count go with it.
proof fn lemma_flight_remove(order: Seq<usize>, entries: Map<usize, FifoEntry>, workers: Map<usize, usize>, i: int)
    requires
        0 <= i < order.len(),
    ensures
        flight_grants(order, entries, workers) =~= flight_grants(order.remove(i), entries, workers).add(
            entry_grants(entries[order[i]], workers[order[i]]),
        ),
        forall|t: usize| #[trigger] flight_count(order, workers, t) == flight_count(order.remove(i), workers, t) + (
            if workers[order[i]] == t { 1nat } else { 0nat }),
    decreases order.len(),
{
    if i == order.len() - 1 {
        assert(order.remove(i) =~= order.drop_last());
        assert(order.last() == order[i]);
    } else {
        let dl = order.drop_last();
        lemma_flight_remove(dl, entries, workers, i);
        assert(order.remove(i).drop_last() =~= dl.remove(i));
        assert(order.remove(i).last() == order.last());
        assert(dl[i] == order[i]);
        let a = flight_grants(dl.remove(i), entries, workers);
        let gi = entry_grants(entries[order[i]], workers[order[i]]);
        let gl = entry_grants(entries[order.last()], workers[order.last()]);
        assert(a.add(gi).add(gl) =~= a.add(gl).add(gi));
        assert forall|t: usize| #[trigger] flight_count(order, workers, t) == flight_count(order.remove(i), workers, t) + (
            if workers[order[i]] == t { 1nat } else { 0nat }) by {
            assert(flight_count(dl, workers, t) == flight_count(dl.remove(i), workers, t) + (
                if workers[dl[i]] == t { 1nat } else { 0nat }));
        }
    }
}

/// The locks of a transaction in flight are among those held.
proof fn lemma_flight_holds(order: Seq<usize>, entries: Map<usize, FifoEntry>, workers: Map<usize, usize>, i: int)
    requires
        0 <= i < order.len(),
    ensures
        entry_grants(entries[order[i]], workers[order[i]]).subset_of(flight_grants(order, entries, workers)),
{
    lemma_flight_remove(order, entries, workers, i);
}

/// No worker has more transactions than are in flight, and there are no
/// more transactions in flight than locks held, each holding at least the
/// write lock on its fee payer.
proof fn lemma_flight_sizes(order: Seq<usize>, entries: Map<usize, FifoEntry>, workers: Map<usize, usize>)
    requires
        forall|i: int| 0 <= i < order.len() ==> (#[trigger] entries[order[i]]).transaction.layout.header_valid(),
    ensures
        order.len() <= flight_grants(order, entries, workers).len(),
        forall|t: usize| #[trigger] flight_count(order, workers, t) <= order.len(),
    decreases order.len(),
{
    if order.len() > 0 {
        let dl = order.drop_last();
        assert forall|i: int| 0 <= i < dl.len() implies (#[trigger] entries[dl[i]]).transaction.layout.header_valid() by {
            assert(dl[i] == order[i]);
        }
        lemma_flight_sizes(dl, entries, workers);
        let e = entries[order.last()];
        assert(order.last() == order[order.len() - 1]);
        lemma_fee_payer_written(e.transaction);
        lemma_transaction_grants(e.transaction.writable_keys(), e.transaction.readonly_keys(), workers[order.last()]);
        assert forall|t: usize| #[trigger] flight_count(order, workers, t) <= order.len() by {
            assert(flight_count(dl, workers, t) <= dl.len());
        }
    }
}

/// Takes every waiting transaction out of the queue and out of the state,
/// front first, and hands them back so that their memory can be released.
pub fn clear_queue(state: &mut FifoState) -> (cleared: Vec<FifoEntry>)
    requires
        old(state).wf(),
    ensures
        final(state).wf(),
        cleared@.len() == old(state).queue().len(),
        forall|i: int| 0 <= i < cleared@.len() ==> #[trigger] cleared@[i] == old(state).entries()[old(state).queue()[i]],
        final(state).queue() == Seq::<usize>::empty(),
        forall|o: usize| #[trigger] final(state).entries().contains_key(o) <==> (
            old(state).entries().contains_key(o) && !old(state).queue().contains(o)),
        forall|o: usize| #[trigger] final(state).entries().contains_key(o) ==> final(state).entries()[o] == old(state).entries()[o],
        final(state).in_flight() == old(state).in_flight(),
        final(state).in_progress() == old(state).in_progress(),
        final(state).held_locks() == old(state).held_locks(),
{
    let ghost old_queue = state.queue@;
    let ghost old_entries = state.offset_to_entry@;
    let mut cleared: Vec<FifoEntry> = Vec::new();
    while state.queue.len() > 0
        invariant
            state.wf(),
            old_queue.no_duplicates(),
            cleared@.len() + state.queue@.len() == old_queue.len(),
            state.queue@ == old_queue.subrange(cleared@.len() as int, old_queue.len() as int),
            forall|i: int| 0 <= i < cleared@.len() ==> #[trigger] cleared@[i] == old_entries[old_queue[i]],
            forall|o: usize| #[trigger] state.offset_to_entry@.contains_key(o) <==> (
                old_entries.contains_key(o) && !old_queue.subrange(0, cleared@.len() as int).contains(o)),
            forall|o: usize| #[trigger] state.offset_to_entry@.contains_key(o) ==> state.offset_to_entry@[o] == old_entries[o],
            state.in_flight@ == old(state).in_flight@,
            state.in_progress@ == old(state).in_progress@,
            thread_locks_held(state.account_locks) == old(state).held_locks(),
            state.flight_order@ == old(state).flight_order@,
        decreases state.queue@.len(),
    {
        let ghost before = *state;
        let ghost k = cleared@.len() as int;
        let offset = match state.queue.pop_front() {
            Some(o) => o,
            None => {
                proof {
                    assert(false);
                }
                0
            },
        };
        assert(offset == old_queue[k]);
        let entry = match state.offset_to_entry.remove(&offset) {
            Some(e) => e,
            None => {
                proof {
                    assert(false);
                }
                return cleared;
            },
        };
        cleared.push(entry);
        proof {
            let order = state.flight_order@;
            assert forall|i: int| 0 <= i < order.len() implies before.offset_to_entry@[#[trigger] order[i]]
                == state.offset_to_entry@[order[i]] && before.in_flight@[order[i]] == state.in_flight@[order[i]] by {
                assert(before.in_flight@.contains_key(order[i]));
                assert(order[i] != offset);
            }
            lemma_flight_frame(order, before.offset_to_entry@, before.in_flight@, state.offset_to_entry@, state.in_flight@);
            assert forall|i: int| 0 <= i < state.queue@.len() implies {
                &&& state.offset_to_entry@.contains_key(#[trigger] state.queue@[i])
                &&& !state.in_flight@.contains_key(state.queue@[i])
            } by {
                assert(state.queue@[i] == before.queue@[i + 1]);
                assert(before.queue@[0] == offset);
            }
            assert forall|o: usize| #[trigger] state.offset_to_entry@.contains_key(o) implies {
                &&& state.in_flight@.contains_key(o) || state.queue@.contains(o)
                &&& entry_ok(o, state.offset_to_entry@[o])
            } by {
                if !state.in_flight@.contains_key(o) {
                    assert(before.queue@.contains(o));
                    let j = choose|j: int| 0 <= j < before.queue@.len() && before.queue@[j] == o;
                    assert(j != 0);
                    assert(state.queue@[j - 1] == o);
                }
            }
            assert forall|o: usize| #[trigger] state.offset_to_entry@.contains_key(o) <==> (
                old_entries.contains_key(o) && !old_queue.subrange(0, cleared@.len() as int).contains(o)) by {
                if old_queue.subrange(0, cleared@.len() as int).contains(o) && o != offset {
                    let j = choose|j: int| 0 <= j < cleared@.len() && old_queue.subrange(0, cleared@.len() as int)[j] == o;
                    assert(old_queue.subrange(0, k)[j] == o);
                }
                if old_queue.subrange(0, k).contains(o) {
                    let j = choose|j: int| 0 <= j < k && old_queue.subrange(0, k)[j] == o;
                    assert(old_queue.subrange(0, cleared@.len() as int)[j] == o);
                }
                if o == offset {
                    assert(old_queue.subrange(0, cleared@.len() as int)[k] == o);
                }
            }
            assert(state.queue@ =~= old_queue.subrange(cleared@.len() as int, old_queue.len() as int));
        }
    }
    proof {
        assert(cleared@.len() == old_queue.len());
        assert(old_queue.subrange(0, cleared@.len() as int) =~= old_queue);
    }
    cleared
}

/// A transaction handed to a worker during a round, and where it goes in
/// that worker's batch.
#[derive(Clone, Copy, Debug)]
pub struct ScheduledTransaction {
    pub worker: usize,
    pub region: TransactionRegion,
    pub placement: Placement,
}

/// What a round hands out: the transactions in the order they were taken,
/// the workers whose batch is still to be sent at the end, in increasing
/// order, and the transactions put back at the end of the queue, in order,
/// each with the number of transactions handed out before it was tried.
#[derive(Debug)]
pub struct SchedulePlan {
    pub scheduled: Vec<ScheduledTransaction>,
    pub open_batches: Vec<usize>,
    pub deferred: Vec<(usize, usize)>,
}

/// The locks the transactions of `s` take, each on its worker.
pub open spec fn plan_grants(entries: Map<usize, FifoEntry>, s: Seq<ScheduledTransaction>) -> Multiset<LockGrant>
    decreases s.len(),
{
    if s.len() == 0 {
        Multiset::empty()
    } else {
        plan_grants(entries, s.drop_last()).add(entry_grants(entries[s.last().region.offset], s.last().worker))
    }
}

/// The workers' counts once the transactions of `s` are added.
pub open spec fn plan_loads(in_progress: Seq<u64>, s: Seq<ScheduledTransaction>) -> Seq<u64> {
    Seq::new(in_progress.len(), |t: int| (in_progress[t] + scheduled_count(s, t as usize)) as u64)
}

/// The `i`-th transaction of `s` went to the least busy of the workers
/// below `num_schedulable` that could take its locks, given the locks held
/// at the start and those taken by the transactions before it.
pub open spec fn takes_least_busy(
    held: Multiset<LockGrant>,
    in_progress: Seq<u64>,
    entries: Map<usize, FifoEntry>,
    s: Seq<ScheduledTransaction>,
    i: int,
    num_schedulable: usize,
) -> bool {
    let before = s.subrange(0, i);
    let e = entries[s[i].region.offset].transaction;
    is_least_busy(
        schedulable_threads(held.add(plan_grants(entries, before)), e.writable_keys(), e.readonly_keys(), num_schedulable as nat),
        plan_loads(in_progress, before),
        s[i].worker,
    )
}

/// A transaction tried after the first `k` of `s` were handed out was put
/// back because no worker below `num_schedulable` could take its locks (or
/// its locks would have pushed the count of locks held past `u32::MAX`).
pub open spec fn deferral_forced(
    held: Multiset<LockGrant>,
    entries: Map<usize, FifoEntry>,
    s: Seq<ScheduledTransaction>,
    offset: usize,
    k: int,
    num_schedulable: usize,
) -> bool {
    let now = held.add(plan_grants(entries, s.subrange(0, k)));
    let e = entries[offset].transaction;
    ||| schedulable_threads(now, e.writable_keys(), e.readonly_keys(), num_schedulable as nat).len() == 0
    ||| now.len() + e.writable_keys().len() + e.readonly_keys().len() > u32::MAX
}

/// The offsets of deferred transactions.
pub open spec fn deferred_offsets(d: Seq<(usize, usize)>) -> Seq<usize> {
    d.map_values(|p: (usize, usize)| p.0)
}

/// How many deferrals of `d` were recorded while at most `i` transactions
/// had been handed out.
pub open spec fn deferred_before(d: Seq<(usize, usize)>, i: int) -> nat
    decreases d.len(),
{
    if d.len() == 0 {
        0
    } else {
        deferred_before(d.drop_last(), i) + (if d.last().1 <= i { 1nat } else { 0nat })
    }
}

/// The queue was tried front first: the offsets tried in turn are those of
/// the queue followed by those put back at its end (`q + deferred_offsets(d)`).
/// The `i`-th handed-out transaction was the one tried after `i` others were
/// handed out and `deferred_before(d, i)` were put back; the `j`-th deferral
/// was the one tried after `j` others were put back and `d[j].1` handed out.
pub open spec fn handed_in_order(q: Seq<usize>, s: Seq<ScheduledTransaction>, d: Seq<(usize, usize)>) -> bool {
    &&& forall|i: int| 0 <= i < s.len() ==> #[trigger] s[i].region.offset == (q + deferred_offsets(d))[i
        + deferred_before(d, i)]
    &&& forall|j: int| 0 <= j < d.len() ==> (#[trigger] d[j]).0 == (q + deferred_offsets(d))[j + d[j].1]
}

proof fn lemma_deferred_before_bounds(d: Seq<(usize, usize)>, i: int)
    ensures
        deferred_before(d, i) <= d.len(),
        (forall|j: int| 0 <= j < d.len() ==> (#[trigger] d[j]).1 <= i) ==> deferred_before(d, i) == d.len(),
    decreases d.len(),
{
    if d.len() > 0 {
        lemma_deferred_before_bounds(d.drop_last(), i);
        if forall|j: int| 0 <= j < d.len() ==> (#[trigger] d[j]).1 <= i {
            assert forall|j: int| 0 <= j < d.drop_last().len() implies (#[trigger] d.drop_last()[j]).1 <= i by {
                assert(d.drop_last()[j] == d[j]);
            }
            assert(d.last() == d[d.len() - 1]);
        }
    }
}

/// Putting the front back keeps the queue's order of trial.
proof fn lemma_order_after_defer(q: Seq<usize>, s: Seq<ScheduledTransaction>, d: Seq<(usize, usize)>, front: usize)
    requires
        handed_in_order(q, s, d),
        s.len() < q.len(),
        s.len() <= usize::MAX,
        forall|j: int| 0 <= j < d.len() ==> (#[trigger] d[j]).1 <= s.len(),
        front == (q + deferred_offsets(d))[(s.len() + d.len()) as int],
    ensures
        handed_in_order(q, s, d.push((front, s.len() as usize))),
{
    let d1 = d.push((front, s.len() as usize));
    let c = q + deferred_offsets(d);
    let c1 = q + deferred_offsets(d1);
    assert(deferred_offsets(d1) =~= deferred_offsets(d).push(front));
    assert(c1 =~= c.push(front));
    assert(d1.drop_last() =~= d);
    assert forall|i: int| 0 <= i < s.len() implies #[trigger] s[i].region.offset == c1[i + deferred_before(d1, i)] by {
        lemma_deferred_before_push(d, (front, s.len() as usize), i);
        lemma_deferred_before_bounds(d, i);
        assert(s[i].region.offset == c[i + deferred_before(d, i)]);
    }
    assert forall|j: int| 0 <= j < d1.len() implies (#[trigger] d1[j]).0 == c1[j + d1[j].1] by {
        if j < d.len() {
            assert(d1[j] == d[j]);
            assert(d[j].0 == c[j + d[j].1]);
        }
    }
}

proof fn lemma_deferred_before_push(d: Seq<(usize, usize)>, e: (usize, usize), i: int)
    ensures
        deferred_before(d.push(e), i) == deferred_before(d, i) + (if e.1 <= i { 1nat } else { 0nat }),
{
    assert(d.push(e).drop_last() =~= d);
}

/// Handing out the front keeps the queue's order of trial.
proof fn lemma_order_after_take(q: Seq<usize>, s: Seq<ScheduledTransaction>, d: Seq<(usize, usize)>, st: ScheduledTransaction)
    requires
        handed_in_order(q, s, d),
        forall|j: int| 0 <= j < d.len() ==> (#[trigger] d[j]).1 <= s.len(),
        st.region.offset == (q + deferred_offsets(d))[(s.len() + d.len()) as int],
    ensures
        handed_in_order(q, s.push(st), d),
{
    let s1 = s.push(st);
    lemma_deferred_before_bounds(d, s.len() as int);
    assert forall|i: int| 0 <= i < s1.len() implies #[trigger] s1[i].region.offset == (q + deferred_offsets(d))[i
        + deferred_before(d, i)] by {
        if i < s.len() {
            assert(s1[i] == s[i]);
        }
    }
}

/// How many of `s` go to `worker`.
pub open spec fn scheduled_count(s: Seq<ScheduledTransaction>, worker: usize) -> nat
    decreases s.len(),
{
    if s.len() == 0 {
        0
    } else {
        scheduled_count(s.drop_last(), worker) + (if s.last().worker == worker { 1nat } else { 0nat })
    }
}

/// The `i`-th transaction of `s` sits in its worker's batch right after the
/// ones that went to that worker before it, batches holding a message's
/// worth each: a new batch opens at position 0 and is sent when it is full.
pub open spec fn placed_in_order(s: Seq<ScheduledTransaction>, i: int) -> bool {
    let position = scheduled_count(s.subrange(0, i), s[i].worker) % (MAX_TRANSACTIONS_PER_MESSAGE as nat);
    &&& s[i].placement.position == position
    &&& s[i].placement.open_batch == (position == 0)
    &&& s[i].placement.send_now == (position + 1 == MAX_TRANSACTIONS_PER_MESSAGE)
}

/// The open batch of each worker, as the planner tracks it.
pub open spec fn planner_matches(counts: Seq<Option<u8>>, s: Seq<ScheduledTransaction>) -> bool {
    forall|t: int| 0 <= t < counts.len() ==> #[trigger] counts[t] == (
        if scheduled_count(s, t as usize) % (MAX_TRANSACTIONS_PER_MESSAGE as nat) == 0 {
            None
        } else {
            Some((scheduled_count(s, t as usize) % (MAX_TRANSACTIONS_PER_MESSAGE as nat)) as u8)
        })
}

/// The queue after its front went to its end.
pub open spec fn rotated(q: Seq<usize>) -> Seq<usize> {
    q.subrange(1, q.len() as int).push(q[0])
}

/// No worker has more than `u32::MAX` transactions.
proof fn lemma_in_progress_bounded(s: FifoState, t: usize)
    requires
        s.wf(),
        t < s.in_progress@.len(),
    ensures
        s.in_progress@[t as int] <= u32::MAX,
{
    let order = s.flight_order@;
    assert forall|i: int| 0 <= i < order.len() implies (#[trigger] s.offset_to_entry@[order[i]]).transaction.layout.header_valid() by {
        assert(s.in_flight@.contains_key(order[i]));
        assert(entry_ok(order[i], s.offset_to_entry@[order[i]]));
    }
    lemma_flight_sizes(order, s.offset_to_entry@, s.in_flight@);
}

/// Sending the front of the queue to its end keeps the invariant.
proof fn lemma_rotate_wf(before: FifoState, after: FifoState)
    requires
        before.wf(),
        before.queue@.len() > 0,
        after.queue@ == rotated(before.queue@),
        after.offset_to_entry@ == before.offset_to_entry@,
        after.in_flight@ == before.in_flight@,
        after.in_progress@ == before.in_progress@,
        after.locks_held == before.locks_held,
        after.flight_order@ == before.flight_order@,
        thread_locks_held(after.account_locks) == thread_locks_held(before.account_locks),
        thread_locks_workers(after.account_locks) == thread_locks_workers(before.account_locks),
    ensures
        after.wf(),
{
    let q = after.queue@;
    let b = before.queue@;
    assert forall|i: int, j: int| 0 <= i < q.len() && 0 <= j < q.len() && i != j implies q[i] != q[j] by {
        if i < q.len() - 1 && j < q.len() - 1 {
            assert(q[i] == b[i + 1] && q[j] == b[j + 1]);
        } else if i == q.len() - 1 {
            assert(q[j] == b[j + 1]);
        } else {
            assert(q[i] == b[i + 1]);
        }
    }
    assert forall|i: int| 0 <= i < q.len() implies {
        &&& after.offset_to_entry@.contains_key(#[trigger] q[i])
        &&& !after.in_flight@.contains_key(q[i])
    } by {
        if i < q.len() - 1 {
            assert(q[i] == b[i + 1]);
        }
    }
    assert forall|o: usize| #[trigger] after.offset_to_entry@.contains_key(o) implies {
        &&& after.in_flight@.contains_key(o) || after.queue@.contains(o)
        &&& entry_ok(o, after.offset_to_entry@[o])
    } by {
        if !after.in_flight@.contains_key(o) {
            let j = choose|j: int| 0 <= j < b.len() && b[j] == o;
            if j == 0 {
                assert(q[q.len() - 1] == o);
            } else {
                assert(q[j - 1] == o);
            }
        }
    }
}

/// The front of the queue going to `worker`, which takes its locks, keeps
/// the invariant.
proof fn lemma_take_wf(before: FifoState, after: FifoState, worker: usize)
    requires
        before.wf(),
        before.queue@.len() > 0,
        worker < before.in_progress@.len(),
        ({
            let offset = before.queue@[0];
            let e = before.offset_to_entry@[offset].transaction;
            let held = thread_locks_held(before.account_locks);
            &&& schedulable(held, e.writable_keys(), e.readonly_keys(), worker)
            &&& after.queue@ == before.queue@.subrange(1, before.queue@.len() as int)
            &&& after.offset_to_entry@ == before.offset_to_entry@
            &&& after.in_flight@ == before.in_flight@.insert(offset, worker)
            &&& after.in_progress@ == before.in_progress@.update(worker as int, (before.in_progress@[worker as int] + 1) as u64)
            &&& before.in_progress@[worker as int] < u64::MAX
            &&& after.locks_held == before.locks_held + e.writable_keys().len() + e.readonly_keys().len()
            &&& after.locks_held <= u32::MAX
            &&& after.flight_order@ == before.flight_order@.push(offset)
            &&& thread_locks_held(after.account_locks) == held.add(transaction_grants(e.writable_keys(), e.readonly_keys(), worker))
            &&& thread_locks_workers(after.account_locks) == thread_locks_workers(before.account_locks)
        }),
    ensures
        after.wf(),
{
    let offset = before.queue@[0];
    let e = before.offset_to_entry@[offset].transaction;
    let writes = e.writable_keys();
    let reads = e.readonly_keys();
    let held = thread_locks_held(before.account_locks);
    let order = before.flight_order@;
    let new_order = after.flight_order@;
    let entries = after.offset_to_entry@;
    assert(!before.in_flight@.contains_key(offset));
    assert(!order.contains(offset));
    assert forall|i: int| 0 <= i < order.len() implies entries[#[trigger] order[i]] == entries[order[i]]
        && before.in_flight@[order[i]] == after.in_flight@[order[i]] by {
        assert(order[i] != offset);
    }
    lemma_flight_frame(order, entries, before.in_flight@, entries, after.in_flight@);
    assert(new_order.drop_last() =~= order);
    let g = transaction_grants(writes, reads, worker);
    lemma_transaction_grants(writes, reads, worker);
    lemma_lock_keeps_consistent(held, writes, reads, worker);
    assert(thread_locks_held(after.account_locks) == flight_grants(new_order, entries, after.in_flight@));
    assert forall|a: Account, u: usize, w: bool| #[trigger] thread_locks_held(after.account_locks).count((a, u, w)) > 0
        implies u < thread_locks_workers(after.account_locks) by {
        if held.count((a, u, w)) == 0 {
            assert(g.count((a, u, w)) > 0);
            if w {
                assert(u == worker);
            } else {
                assert(u == worker);
            }
        }
    }
    assert forall|i: int, j: int| 0 <= i < new_order.len() && 0 <= j < new_order.len() && i != j
        implies new_order[i] != new_order[j] by {
        if i < order.len() && j < order.len() {
        } else if i == order.len() {
            assert(new_order[j] == order[j]);
        } else {
            assert(new_order[i] == order[i]);
        }
    }
    assert forall|o: usize| #[trigger] after.in_flight@.contains_key(o) implies new_order.contains(o) by {
        if o == offset {
            assert(new_order[order.len() as int] == o);
        } else {
            assert(before.in_flight@.contains_key(o));
            let j = choose|j: int| 0 <= j < order.len() && order[j] == o;
            assert(new_order[j] == o);
        }
    }
    assert forall|i: int| 0 <= i < new_order.len() implies after.in_flight@.contains_key(#[trigger] new_order[i]) by {
        if i < order.len() {
            assert(new_order[i] == order[i]);
        }
    }
    let q = after.queue@;
    assert forall|i: int| 0 <= i < q.len() implies {
        &&& after.offset_to_entry@.contains_key(#[trigger] q[i])
        &&& !after.in_flight@.contains_key(q[i])
    } by {
        assert(q[i] == before.queue@[i + 1]);
    }
    assert forall|o: usize| #[trigger] after.offset_to_entry@.contains_key(o) implies {
        &&& after.in_flight@.contains_key(o) || after.queue@.contains(o)
        &&& entry_ok(o, after.offset_to_entry@[o])
    } by {
        if !after.in_flight@.contains_key(o) {
            let j = choose|j: int| 0 <= j < before.queue@.len() && before.queue@[j] == o;
            assert(j != 0);
            assert(q[j - 1] == o);
        }
    }
    assert forall|t: int| 0 <= t < after.in_progress@.len() implies after.in_progress@[t]
        == flight_count(new_order, after.in_flight@, t as usize) by {
        assert(flight_count(order, before.in_flight@, t as usize) == flight_count(order, after.in_flight@, t as usize));
    }
}

/// One attempt of a round: the transaction at the front of the queue goes
/// to the least busy worker below `num_schedulable` that may take its
/// account locks, which it takes there; when none may, it goes to the end
/// of the queue.
fn try_take_front(state: &mut FifoState, num_schedulable: usize) -> (taken: Option<(usize, TransactionRegion)>)
    requires
        old(state).wf(),
        old(state).queue().len() > 0,
        num_schedulable <= old(state).in_progress().len(),
    ensures
        final(state).wf(),
        final(state).entries() == old(state).entries(),
        final(state).in_progress().len() == old(state).in_progress().len(),
        ({
            let e = old(state).entries()[old(state).queue()[0]];
            let candidates = schedulable_threads(
                old(state).held_locks(),
                e.transaction.writable_keys(),
                e.transaction.readonly_keys(),
                num_schedulable as nat,
            );
            match taken {
                None => {
                    &&& candidates.len() == 0 || old(state).held_locks().len() + e.transaction.writable_keys().len()
                        + e.transaction.readonly_keys().len() > u32::MAX
                    &&& final(state).held_locks() == old(state).held_locks()
                },
                Some((worker, _)) => {
                    &&& is_least_busy(candidates, old(state).in_progress(), worker)
                    &&& final(state).held_locks() == old(state).held_locks().add(entry_grants(e, worker))
                },
            }
        }),
        match taken {
            None => {
                &&& final(state).queue() == rotated(old(state).queue())
                &&& final(state).in_flight() == old(state).in_flight()
                &&& final(state).in_progress() == old(state).in_progress()
            },
            Some((worker, region)) => {
                let offset = old(state).queue()[0];
                &&& worker < num_schedulable
                &&& region == old(state).entries()[offset].transaction.sharable_transaction
                &&& region.offset == offset
                &&& final(state).queue() == old(state).queue().subrange(1, old(state).queue().len() as int)
                &&& !old(state).in_flight().contains_key(offset)
                &&& final(state).in_flight() == old(state).in_flight().insert(offset, worker)
                &&& final(state).in_progress() == old(state).in_progress().update(
                    worker as int,
                    (old(state).in_progress()[worker as int] + 1) as u64,
                )
                &&& final(state).in_progress()[worker as int] == old(state).in_progress()[worker as int] + 1
            },
        },
{
    let ghost before = *state;
    let offset = state.queue[0];
    proof {
        assert(state.offset_to_entry@.contains_key(state.queue@[0]));
    }
    let (region, writes, reads) = match state.offset_to_entry.get(&offset) {
        Some(entry) => (
            entry.transaction.sharable_transaction,
            entry.transaction.writable_account_keys(),
            entry.transaction.readonly_account_keys(),
        ),
        None => {
            return None;
        },
    };
    let room = u32::MAX as u64 - state.locks_held;
    let fits = writes.len() as u64 <= room && reads.len() as u64 <= room - writes.len() as u64;
    let chosen = if fits {
        thread_locks_try_lock(&mut state.account_locks, &writes, &reads, num_schedulable, &state.in_progress)
    } else {
        None
    };
    let _ = state.queue.pop_front();
    match chosen {
        None => {
            state.queue.push_back(offset);
            proof {
                assert(state.queue@ =~= rotated(before.queue@));
                lemma_rotate_wf(before, *state);
            }
            None
        },
        Some(worker) => {
            proof {
                let held = thread_locks_held(before.account_locks);
                let candidates = schedulable_threads(held, writes@, reads@, num_schedulable as nat);
                lemma_schedulable_threads(held, writes@, reads@, num_schedulable as nat);
                let k = choose|k: int| {
                    &&& 0 <= k < candidates.len()
                    &&& candidates[k] == worker
                    &&& forall|j: int| 0 <= j < k ==> before.in_progress@[#[trigger] candidates[j] as int] > before.in_progress@[worker as int]
                    &&& forall|j: int| k <= j < candidates.len() ==> before.in_progress@[#[trigger] candidates[j] as int] >= before.in_progress@[worker as int]
                };
                assert(schedulable(held, writes@, reads@, candidates[k]));
                lemma_in_progress_bounded(before, worker);
                assert(entry_ok(offset, before.offset_to_entry@[offset]));
            }
            note_in_progress(&mut state.in_progress, worker);
            state.in_flight.insert(offset, worker);
            state.locks_held = state.locks_held + writes.len() as u64 + reads.len() as u64;
            proof {
                state.flight_order = Ghost(before.flight_order@.push(offset));
                lemma_take_wf(before, *state, worker);
            }
            Some((worker, region))
        },
    }
}

/// Adding one more transaction to a round's plan.
proof fn lemma_plan_step(prev: Seq<ScheduledTransaction>, st: ScheduledTransaction, before: Seq<Option<u8>>, after: Seq<Option<u8>>)
    requires
        planner_matches(before, prev),
        forall|i: int| 0 <= i < prev.len() ==> placed_in_order(prev, i),
        st.worker < before.len() <= usize::MAX,
        st.placement.position == (match before[st.worker as int] {
            Some(c) => c,
            None => 0u8,
        }),
        st.placement.open_batch == (before[st.worker as int] is None),
        st.placement.position < MAX_TRANSACTIONS_PER_MESSAGE,
        st.placement.send_now == (st.placement.position + 1 == MAX_TRANSACTIONS_PER_MESSAGE),
        after == before.update(
            st.worker as int,
            if st.placement.send_now { None } else { Some((st.placement.position + 1) as u8) },
        ),
    ensures
        planner_matches(after, prev.push(st)),
        forall|i: int| 0 <= i < prev.len() + 1 ==> placed_in_order(prev.push(st), i),
        forall|t: usize| #[trigger] scheduled_count(prev.push(st), t) == scheduled_count(prev, t) + (
            if st.worker == t { 1nat } else { 0nat }),
{
    let s = prev.push(st);
    assert(s.drop_last() =~= prev);
    let c = scheduled_count(prev, st.worker);
    assert(before[st.worker as int] == (
        if c % (MAX_TRANSACTIONS_PER_MESSAGE as nat) == 0 {
            None
        } else {
            Some((c % (MAX_TRANSACTIONS_PER_MESSAGE as nat)) as u8)
        }));
    assert(st.placement.position == c % 64);
    assert((c + 1) % 64 == if c % 64 == 63 { 0 } else { c % 64 + 1 });
    assert forall|t: int| 0 <= t < after.len() implies #[trigger] after[t] == (
        if scheduled_count(s, t as usize) % (MAX_TRANSACTIONS_PER_MESSAGE as nat) == 0 {
            None
        } else {
            Some((scheduled_count(s, t as usize) % (MAX_TRANSACTIONS_PER_MESSAGE as nat)) as u8)
        }) by {
        assert(scheduled_count(s, t as usize) == scheduled_count(prev, t as usize) + (
            if st.worker == t as usize { 1nat } else { 0nat }));
        if t == st.worker as int {
            if st.placement.send_now {
                assert(c % 64 == 63);
            } else {
                assert(c % 64 < 63);
            }
        }
        assert(before[t] == (
            if scheduled_count(prev, t as usize) % (MAX_TRANSACTIONS_PER_MESSAGE as nat) == 0 {
                None
            } else {
                Some((scheduled_count(prev, t as usize) % (MAX_TRANSACTIONS_PER_MESSAGE as nat)) as u8)
            }));
    }
    assert forall|i: int| 0 <= i < prev.len() + 1 implies placed_in_order(s, i) by {
        if i < prev.len() {
            assert(s[i] == prev[i]);
            assert(s.subrange(0, i) =~= prev.subrange(0, i));
            assert(placed_in_order(prev, i));
        } else {
            assert(s.subrange(0, i) =~= prev);
            assert(before[st.worker as int] == (
                if scheduled_count(prev, st.worker) % (MAX_TRANSACTIONS_PER_MESSAGE as nat) == 0 {
                    None
                } else {
                    Some((scheduled_count(prev, st.worker) % (MAX_TRANSACTIONS_PER_MESSAGE as nat)) as u8)
                }));
        }
    }
}

/// Hands the waiting transactions to the workers below `num_schedulable`,
/// front first, trying at most `MAX_ATTEMPTED` of them: each goes to the
/// least busy worker that may take its account locks, and takes them there;
/// one that no worker may take goes back to the end of the queue. Each
/// worker's transactions fill its batches in order; the plan says where
/// each one goes and which batches are left to send at the end.
pub fn schedule(state: &mut FifoState, num_schedulable: usize) -> (plan: SchedulePlan)
    requires
        old(state).wf(),
        num_schedulable <= old(state).in_progress().len(),
    ensures
        final(state).wf(),
        plan.scheduled@.len() <= MAX_ATTEMPTED,
        plan.scheduled@.len() + plan.deferred@.len() <= MAX_ATTEMPTED,
        plan.scheduled@.len() + plan.deferred@.len() == MAX_ATTEMPTED || final(state).queue().len() == 0,
        handed_in_order(old(state).queue(), plan.scheduled@, plan.deferred@),
        final(state).entries() == old(state).entries(),
        forall|i: int| 0 <= i < plan.scheduled@.len() ==> {
            let st = #[trigger] plan.scheduled@[i];
            &&& st.worker < num_schedulable
            &&& old(state).queue().contains(st.region.offset)
            &&& st.region == old(state).entries()[st.region.offset].transaction.sharable_transaction
            &&& final(state).in_flight().contains_key(st.region.offset)
            &&& final(state).in_flight()[st.region.offset] == st.worker
            &&& placed_in_order(plan.scheduled@, i)
        },
        forall|i: int, j: int| 0 <= i < j < plan.scheduled@.len() ==> plan.scheduled@[i].region.offset
            != plan.scheduled@[j].region.offset,
        forall|o: usize| #[trigger] old(state).queue().contains(o) ==> (final(state).queue().contains(o) || exists|i: int|
            0 <= i < plan.scheduled@.len() && #[trigger] plan.scheduled@[i].region.offset == o),
        forall|o: usize| #[trigger] final(state).queue().contains(o) ==> old(state).queue().contains(o),
        forall|o: usize| #[trigger] old(state).in_flight().contains_key(o) ==> final(state).in_flight().contains_key(o)
            && final(state).in_flight()[o] == old(state).in_flight()[o],
        final(state).in_progress().len() == old(state).in_progress().len(),
        forall|t: int| 0 <= t < final(state).in_progress().len() ==> #[trigger] final(state).in_progress()[t]
            == old(state).in_progress()[t] + scheduled_count(plan.scheduled@, t as usize),
        forall|t: usize| t < num_schedulable ==> (plan.open_batches@.contains(t) <==> #[trigger] scheduled_count(
            plan.scheduled@, t) % (MAX_TRANSACTIONS_PER_MESSAGE as nat) != 0),
        forall|i: int| 0 <= i < plan.open_batches@.len() ==> #[trigger] plan.open_batches@[i] < num_schedulable,
        forall|i: int, j: int| 0 <= i < j < plan.open_batches@.len() ==> plan.open_batches@[i] < plan.open_batches@[j],
        forall|i: int| 0 <= i < plan.scheduled@.len() ==> takes_least_busy(
            old(state).held_locks(),
            old(state).in_progress(),
            old(state).entries(),
            plan.scheduled@,
            i,
            num_schedulable,
        ),
        forall|j: int| 0 <= j < plan.deferred@.len() ==> {
            &&& (#[trigger] plan.deferred@[j]).1 <= plan.scheduled@.len()
            &&& deferral_forced(
                old(state).held_locks(),
                old(state).entries(),
                plan.scheduled@,
                plan.deferred@[j].0,
                plan.deferred@[j].1 as int,
                num_schedulable,
            )
        },
        forall|j: int, k: int| 0 <= j < k < plan.deferred@.len() ==> plan.deferred@[j].1 <= plan.deferred@[k].1,
        final(state).queue() == (old(state).queue() + deferred_offsets(plan.deferred@)).subrange(
            (plan.scheduled@.len() + plan.deferred@.len()) as int,
            (old(state).queue().len() + plan.deferred@.len()) as int,
        ),
        final(state).held_locks() == old(state).held_locks().add(plan_grants(old(state).entries(), plan.scheduled@)),
{
    let mut scheduled: Vec<ScheduledTransaction> = Vec::new();
    let mut deferred: Vec<(usize, usize)> = Vec::new();
    if state.queue.len() == 0 {
        proof {
            assert(deferred_offsets(deferred@) =~= Seq::<usize>::empty());
            assert(old(state).queue() + deferred_offsets(deferred@) =~= old(state).queue());
            assert(plan_grants(old(state).entries(), scheduled@) =~= Multiset::<LockGrant>::empty());
            assert(old(state).held_locks().add(Multiset::<LockGrant>::empty()) =~= old(state).held_locks());
        }
        return SchedulePlan { scheduled, open_batches: Vec::new(), deferred };
    }
    let mut planner = BatchPlanner::new(num_schedulable);
    let mut done = false;
    while !done
        invariant
            state.wf(),
            state.offset_to_entry@ == old(state).entries(),
            state.in_progress@.len() == old(state).in_progress().len(),
            num_schedulable <= state.in_progress@.len(),
            planner.wf(),
            planner.counts().len() == num_schedulable,
            planner_matches(planner.counts(), scheduled@),
            scheduled@.len() <= planner.attempted() <= MAX_ATTEMPTED,
            forall|i: int| 0 <= i < scheduled@.len() ==> placed_in_order(scheduled@, i),
            forall|i: int| 0 <= i < scheduled@.len() ==> {
                let st = #[trigger] scheduled@[i];
                &&& st.worker < num_schedulable
                &&& old(state).queue().contains(st.region.offset)
                &&& st.region == old(state).entries()[st.region.offset].transaction.sharable_transaction
                &&& state.in_flight@.contains_key(st.region.offset)
                &&& state.in_flight@[st.region.offset] == st.worker
            },
            forall|i: int, j: int| 0 <= i < j < scheduled@.len() ==> scheduled@[i].region.offset
                != scheduled@[j].region.offset,
            forall|o: usize| #[trigger] old(state).queue().contains(o) ==> (state.queue@.contains(o) || exists|i: int|
                0 <= i < scheduled@.len() && #[trigger] scheduled@[i].region.offset == o),
            forall|o: usize| #[trigger] state.queue@.contains(o) ==> old(state).queue().contains(o),
            forall|o: usize| #[trigger] old(state).in_flight().contains_key(o) ==> state.in_flight@.contains_key(o)
                && state.in_flight@[o] == old(state).in_flight()[o],
            forall|t: int| 0 <= t < state.in_progress@.len() ==> #[trigger] state.in_progress@[t]
                == old(state).in_progress()[t] + scheduled_count(scheduled@, t as usize),
            forall|t: usize| num_schedulable <= t ==> #[trigger] scheduled_count(scheduled@, t) == 0,
            scheduled@.len() + deferred@.len() <= planner.attempted(),
            !done ==> scheduled@.len() + deferred@.len() == planner.attempted(),
            done ==> scheduled@.len() + deferred@.len() == MAX_ATTEMPTED || state.queue@.len() == 0,
            scheduled@.len() <= old(state).queue().len(),
            handed_in_order(old(state).queue(), scheduled@, deferred@),
            forall|i: int| 0 <= i < scheduled@.len() ==> takes_least_busy(
                old(state).held_locks(),
                old(state).in_progress(),
                old(state).entries(),
                scheduled@,
                i,
                num_schedulable,
            ),
            forall|j: int| 0 <= j < deferred@.len() ==> {
                &&& (#[trigger] deferred@[j]).1 <= scheduled@.len()
                &&& deferral_forced(
                    old(state).held_locks(),
                    old(state).entries(),
                    scheduled@,
                    deferred@[j].0,
                    deferred@[j].1 as int,
                    num_schedulable,
                )
            },
            forall|j: int, k: int| 0 <= j < k < deferred@.len() ==> deferred@[j].1 <= deferred@[k].1,
            state.queue@ == (old(state).queue() + deferred_offsets(deferred@)).subrange(
                (scheduled@.len() + deferred@.len()) as int,
                (old(state).queue().len() + deferred@.len()) as int,
            ),
            thread_locks_held(state.account_locks) == old(state).held_locks().add(plan_grants(old(state).entries(), scheduled@)),
        decreases MAX_ATTEMPTED - planner.attempted() + (if done { 0int } else { 1int }),
    {
        if !planner.try_attempt() {
            done = true;
            continue;
        }
        if state.queue.len() == 0 {
            done = true;
            continue;
        }
        let ghost before = *state;
        let ghost q0 = state.queue@;
        let front = state.queue[0];
        let ghost prev = scheduled@;
        match try_take_front(state, num_schedulable) {
            None => {
                let ghost prev_deferred = deferred@;
                deferred.push((front, scheduled.len()));
                proof {
                    lemma_rotated_members(q0);
                    assert(scheduled@.subrange(0, scheduled@.len() as int) =~= scheduled@);
                    lemma_deferred_step(old(state).held_locks(), old(state).entries(), scheduled@, prev_deferred, deferred@, front, num_schedulable);
                    lemma_queue_after_defer(old(state).queue(), prev_deferred, prev.len(), q0, front, scheduled.len());
                    let c = old(state).queue() + deferred_offsets(prev_deferred);
                    assert(q0[0] == c[(prev.len() + prev_deferred.len()) as int]);
                    lemma_order_after_defer(old(state).queue(), prev, prev_deferred, front);
                }
            },
            Some((worker, region)) => {
                let ghost count_before = planner.counts();
                let placement = planner.place(worker);
                let st = ScheduledTransaction { worker, region, placement };
                proof {
                    lemma_plan_step(prev, st, count_before, planner.counts());
                }
                scheduled.push(st);
                proof {
                    let offset = q0[0];
                    let s = scheduled@;
                    let q = state.queue@;
                    lemma_front_members(q0);
                    assert forall|t: int| 0 <= t < state.in_progress@.len() implies #[trigger] state.in_progress@[t]
                        == old(state).in_progress()[t] + scheduled_count(s, t as usize) by {
                        assert(scheduled_count(s, t as usize) == scheduled_count(prev, t as usize) + (
                            if worker == t as usize { 1nat } else { 0nat }));
                    }
                    assert forall|i: int| 0 <= i < s.len() implies {
                        let st = #[trigger] s[i];
                        &&& st.worker < num_schedulable
                        &&& old(state).queue().contains(st.region.offset)
                        &&& st.region == old(state).entries()[st.region.offset].transaction.sharable_transaction
                        &&& state.in_flight@.contains_key(st.region.offset)
                        &&& state.in_flight@[st.region.offset] == st.worker
                    } by {
                        if i < prev.len() {
                            assert(s[i] == prev[i]);
                            assert(before.in_flight@.contains_key(prev[i].region.offset));
                        }
                    }
                    assert forall|i: int, j: int| 0 <= i < j < s.len() implies s[i].region.offset != s[j].region.offset by {
                        if j == prev.len() {
                            assert(s[i] == prev[i]);
                            assert(before.in_flight@.contains_key(prev[i].region.offset));
                        } else {
                            assert(s[i] == prev[i] && s[j] == prev[j]);
                        }
                    }
                    assert forall|o: usize| #[trigger] old(state).queue().contains(o) implies (q.contains(o) || exists|i: int|
                        0 <= i < s.len() && #[trigger] s[i].region.offset == o) by {
                        if o == offset {
                            assert(s[prev.len() as int].region.offset == o);
                        } else if !q0.contains(o) {
                            let i = choose|i: int| 0 <= i < prev.len() && #[trigger] prev[i].region.offset == o;
                            assert(s[i] == prev[i]);
                        }
                    }
                    assert forall|o: usize| #[trigger] old(state).in_flight().contains_key(o) implies state.in_flight@.contains_key(o)
                        && state.in_flight@[o] == old(state).in_flight()[o] by {
                        assert(before.in_flight@.contains_key(o));
                    }
                    let entries = old(state).entries();
                    let held0 = old(state).held_locks();
                    assert(s.drop_last() =~= prev);
                    assert(plan_grants(entries, s) == plan_grants(entries, prev).add(entry_grants(entries[offset], worker)));
                    assert(thread_locks_held(state.account_locks) =~= held0.add(plan_grants(entries, s)));
                    assert(before.in_progress@ =~= plan_loads(old(state).in_progress(), prev));
                    lemma_scheduled_step(held0, old(state).in_progress(), entries, prev, st, deferred@, num_schedulable);
                    lemma_queue_after_take(old(state).queue(), deferred@, prev.len(), q0);
                    let c = old(state).queue() + deferred_offsets(deferred@);
                    assert(q0[0] == c[(prev.len() + deferred@.len()) as int]);
                    lemma_order_after_take(old(state).queue(), prev, deferred@, st);
                }
            },
        }
    }
    let open_batches = planner.open_batches();
    proof {
        let s = scheduled@;
        assert forall|t: usize| t < num_schedulable implies (open_batches@.contains(t) <==> #[trigger] scheduled_count(
            s, t) % (MAX_TRANSACTIONS_PER_MESSAGE as nat) != 0) by {
            assert(planner.counts()[t as int] == (
                if scheduled_count(s, t) % (MAX_TRANSACTIONS_PER_MESSAGE as nat) == 0 {
                    None
                } else {
                    Some((scheduled_count(s, t) % (MAX_TRANSACTIONS_PER_MESSAGE as nat)) as u8)
                }));
            if open_batches@.contains(t) {
                let i = choose|i: int| 0 <= i < open_batches@.len() && open_batches@[i] == t;
                assert(planner.counts()[open_batches@[i] as int] is Some);
            }
        }
    }
    SchedulePlan { scheduled, open_batches, deferred }
}

/// Putting the front back extends the record of deferrals.
proof fn lemma_deferred_step(
    held0: Multiset<LockGrant>,
    entries: Map<usize, FifoEntry>,
    s: Seq<ScheduledTransaction>,
    d: Seq<(usize, usize)>,
    d1: Seq<(usize, usize)>,
    front: usize,
    num_schedulable: usize,
)
    requires
        s.len() <= usize::MAX,
        d1 == d.push((front, s.len() as usize)),
        forall|j: int| 0 <= j < d.len() ==> {
            &&& (#[trigger] d[j]).1 <= s.len()
            &&& deferral_forced(held0, entries, s, d[j].0, d[j].1 as int, num_schedulable)
        },
        forall|j: int, k: int| 0 <= j < k < d.len() ==> d[j].1 <= d[k].1,
        deferral_forced(held0, entries, s, front, s.len() as int, num_schedulable),
    ensures
        forall|j: int| 0 <= j < d1.len() ==> {
            &&& (#[trigger] d1[j]).1 <= s.len()
            &&& deferral_forced(held0, entries, s, d1[j].0, d1[j].1 as int, num_schedulable)
        },
        forall|j: int, k: int| 0 <= j < k < d1.len() ==> d1[j].1 <= d1[k].1,
{
    assert forall|j: int| 0 <= j < d1.len() implies {
        &&& (#[trigger] d1[j]).1 <= s.len()
        &&& deferral_forced(held0, entries, s, d1[j].0, d1[j].1 as int, num_schedulable)
    } by {
        if j < d.len() {
            assert(d1[j] == d[j]);
        }
    }
    assert forall|j: int, k: int| 0 <= j < k < d1.len() implies d1[j].1 <= d1[k].1 by {
        assert(d1[j] == d[j]);
        if k < d.len() {
            assert(d1[k] == d[k]);
        }
    }
}

/// Handing out one more transaction extends the record of choices, and
/// leaves the record of deferrals as it was.
proof fn lemma_scheduled_step(
    held0: Multiset<LockGrant>,
    in0: Seq<u64>,
    entries: Map<usize, FifoEntry>,
    prev: Seq<ScheduledTransaction>,
    st: ScheduledTransaction,
    d: Seq<(usize, usize)>,
    num_schedulable: usize,
)
    requires
        forall|i: int| 0 <= i < prev.len() ==> takes_least_busy(held0, in0, entries, prev, i, num_schedulable),
        ({
            let e = entries[st.region.offset].transaction;
            is_least_busy(
                schedulable_threads(held0.add(plan_grants(entries, prev)), e.writable_keys(), e.readonly_keys(), num_schedulable as nat),
                plan_loads(in0, prev),
                st.worker,
            )
        }),
        forall|j: int| 0 <= j < d.len() ==> {
            &&& (#[trigger] d[j]).1 <= prev.len()
            &&& deferral_forced(held0, entries, prev, d[j].0, d[j].1 as int, num_schedulable)
        },
    ensures
        forall|i: int| 0 <= i < prev.len() + 1 ==> takes_least_busy(held0, in0, entries, prev.push(st), i, num_schedulable),
        forall|j: int| 0 <= j < d.len() ==> {
            &&& (#[trigger] d[j]).1 <= prev.len() + 1
            &&& deferral_forced(held0, entries, prev.push(st), d[j].0, d[j].1 as int, num_schedulable)
        },
{
    let s = prev.push(st);
    assert forall|i: int| 0 <= i < prev.len() + 1 implies takes_least_busy(held0, in0, entries, s, i, num_schedulable) by {
        if i < prev.len() {
            assert(s[i] == prev[i]);
            assert(s.subrange(0, i) =~= prev.subrange(0, i));
            assert(takes_least_busy(held0, in0, entries, prev, i, num_schedulable));
        } else {
            assert(s.subrange(0, i) =~= prev);
        }
    }
    assert forall|j: int| 0 <= j < d.len() implies {
        &&& (#[trigger] d[j]).1 <= prev.len() + 1
        &&& deferral_forced(held0, entries, s, d[j].0, d[j].1 as int, num_schedulable)
    } by {
        let k = d[j].1 as int;
        assert(s.subrange(0, k) =~= prev.subrange(0, k));
        assert(deferral_forced(held0, entries, prev, d[j].0, k, num_schedulable));
    }
}

/// The queue after the front was put back, in terms of the record of
/// deferrals.
proof fn lemma_queue_after_defer(q_old: Seq<usize>, d: Seq<(usize, usize)>, n: nat, q0: Seq<usize>, front: usize, k: usize)
    requires
        n <= q_old.len(),
        q0 == (q_old + deferred_offsets(d)).subrange((n + d.len()) as int, (q_old.len() + d.len()) as int),
        q0.len() > 0,
        q0[0] == front,
    ensures
        rotated(q0) == (q_old + deferred_offsets(d.push((front, k)))).subrange(
            (n + d.len() + 1) as int,
            (q_old.len() + d.len() + 1) as int,
        ),
{
    let c0 = q_old + deferred_offsets(d);
    let c1 = q_old + deferred_offsets(d.push((front, k)));
    assert(deferred_offsets(d.push((front, k))) =~= deferred_offsets(d).push(front));
    assert(c1 =~= c0.push(front));
    assert(rotated(q0) =~= c1.subrange((n + d.len() + 1) as int, (q_old.len() + d.len() + 1) as int));
}

/// The queue after its front was handed out, in terms of the record of
/// deferrals.
proof fn lemma_queue_after_take(q_old: Seq<usize>, d: Seq<(usize, usize)>, n: nat, q0: Seq<usize>)
    requires
        n <= q_old.len(),
        q0 == (q_old + deferred_offsets(d)).subrange((n + d.len()) as int, (q_old.len() + d.len()) as int),
        q0.len() > 0,
    ensures
        n < q_old.len(),
        q0.subrange(1, q0.len() as int) == (q_old + deferred_offsets(d)).subrange(
            (n + 1 + d.len()) as int,
            (q_old.len() + d.len()) as int,
        ),
{
    let c = q_old + deferred_offsets(d);
    assert(q0.subrange(1, q0.len() as int) =~= c.subrange((n + 1 + d.len()) as int, (q_old.len() + d.len()) as int));
}

/// The queue after a rotation holds the same offsets.
proof fn lemma_rotated_members(q: Seq<usize>)
    requires
        q.len() > 0,
    ensures
        forall|o: usize| #[trigger] rotated(q).contains(o) <==> q.contains(o),
{
    let r = rotated(q);
    assert forall|o: usize| #[trigger] r.contains(o) <==> q.contains(o) by {
        if q.contains(o) {
            let j = choose|j: int| 0 <= j < q.len() && q[j] == o;
            if j == 0 {
                assert(r[r.len() - 1] == o);
            } else {
                assert(r[j - 1] == o);
            }
        }
        if r.contains(o) {
            let j = choose|j: int| 0 <= j < r.len() && r[j] == o;
            if j < r.len() - 1 {
                assert(q[j + 1] == o);
            } else {
                assert(q[0] == o);
            }
        }
    }
}

/// The queue without its front holds the other offsets.
proof fn lemma_front_members(q: Seq<usize>)
    requires
        q.len() > 0,
    ensures
        forall|o: usize| #[trigger] q.subrange(1, q.len() as int).contains(o) ==> q.contains(o),
        forall|o: usize| #[trigger] q.contains(o) ==> o == q[0] || q.subrange(1, q.len() as int).contains(o),
{
    let r = q.subrange(1, q.len() as int);
    assert forall|o: usize| #[trigger] r.contains(o) implies q.contains(o) by {
        let j = choose|j: int| 0 <= j < r.len() && r[j] == o;
        assert(q[j + 1] == o);
    }
    assert forall|o: usize| #[trigger] q.contains(o) implies o == q[0] || r.contains(o) by {
        let j = choose|j: int| 0 <= j < q.len() && q[j] == o;
        if j > 0 {
            assert(r[j - 1] == o);
        }
    }
}

/// A transaction leaving its worker keeps the invariant, whether it goes
/// back to the end of the queue or leaves the state.
proof fn lemma_release_wf(before: FifoState, after: FifoState, offset: usize, worker: usize, requeued: bool)
    requires
        before.wf(),
        before.in_flight@.contains_key(offset),
        before.in_flight@[offset] == worker,
        ({
            let order = before.flight_order@;
            let e = before.offset_to_entry@[offset];
            let g = entry_grants(e, worker);
            &&& exists|i: int| 0 <= i < order.len() && order[i] == offset && after.flight_order@ == order.remove(i)
            &&& after.in_flight@ == before.in_flight@.remove(offset)
            &&& after.in_progress@ == before.in_progress@.update(worker as int, (before.in_progress@[worker as int] - 1) as u64)
            &&& thread_locks_held(after.account_locks) == thread_locks_held(before.account_locks).sub(g)
            &&& thread_locks_workers(after.account_locks) == thread_locks_workers(before.account_locks)
            &&& after.locks_held == before.locks_held - g.len()
            &&& requeued ==> before.queue@.len() < QUEUE_CAPACITY
            &&& requeued ==> after.queue@ == before.queue@.push(offset) && after.offset_to_entry@ == before.offset_to_entry@
            &&& !requeued ==> after.queue@ == before.queue@ && after.offset_to_entry@ == before.offset_to_entry@.remove(offset)
        }),
    ensures
        after.wf(),
        before.in_progress@[worker as int] >= 1,
{
    let order = before.flight_order@;
    let i = choose|i: int| 0 <= i < order.len() && order[i] == offset && after.flight_order@ == order.remove(i);
    let rem = order.remove(i);
    let e = before.offset_to_entry@[offset];
    let g = entry_grants(e, worker);
    let held = thread_locks_held(before.account_locks);
    lemma_flight_remove(order, before.offset_to_entry@, before.in_flight@, i);
    lemma_flight_holds(order, before.offset_to_entry@, before.in_flight@, i);
    assert forall|j: int| 0 <= j < rem.len() implies rem[j] != offset by {
        if j < i {
            assert(rem[j] == order[j]);
        } else {
            assert(rem[j] == order[j + 1]);
        }
    }
    assert forall|j: int| 0 <= j < rem.len() implies before.offset_to_entry@[#[trigger] rem[j]] == after.offset_to_entry@[rem[j]]
        && before.in_flight@[rem[j]] == after.in_flight@[rem[j]] by {
        assert(rem[j] != offset);
    }
    lemma_flight_frame(rem, before.offset_to_entry@, before.in_flight@, after.offset_to_entry@, after.in_flight@);
    assert(held.sub(g) =~= flight_grants(rem, after.offset_to_entry@, after.in_flight@));
    lemma_unlock_keeps_consistent(held, g);
    assert(flight_count(order, before.in_flight@, worker) >= 1);
    assert forall|a: Account, u: usize, w: bool| #[trigger] held.sub(g).count((a, u, w)) > 0
        implies u < thread_locks_workers(after.account_locks) by {
        assert(held.count((a, u, w)) > 0);
    }
    assert forall|j: int, k: int| 0 <= j < rem.len() && 0 <= k < rem.len() && j != k implies rem[j] != rem[k] by {
        let jj = if j < i { j } else { j + 1 };
        let kk = if k < i { k } else { k + 1 };
        assert(rem[j] == order[jj] && rem[k] == order[kk]);
    }
    assert forall|j: int| 0 <= j < rem.len() implies after.in_flight@.contains_key(#[trigger] rem[j]) by {
        let jj = if j < i { j } else { j + 1 };
        assert(rem[j] == order[jj]);
    }
    assert forall|o: usize| #[trigger] after.in_flight@.contains_key(o) implies rem.contains(o) by {
        let j = choose|j: int| 0 <= j < order.len() && order[j] == o;
        assert(j != i);
        if j < i {
            assert(rem[j] == o);
        } else {
            assert(rem[j - 1] == o);
        }
    }
    assert forall|t: int| 0 <= t < after.in_progress@.len() implies after.in_progress@[t]
        == flight_count(rem, after.in_flight@, t as usize) by {
        assert(flight_count(rem, before.in_flight@, t as usize) == flight_count(rem, after.in_flight@, t as usize));
    }
    let q = after.queue@;
    if requeued {
        assert forall|j: int, k: int| 0 <= j < q.len() && 0 <= k < q.len() && j != k implies q[j] != q[k] by {
            if j < q.len() - 1 && k < q.len() - 1 {
                assert(q[j] == before.queue@[j] && q[k] == before.queue@[k]);
            } else if j == q.len() - 1 {
                assert(q[k] == before.queue@[k]);
            } else {
                assert(q[j] == before.queue@[j]);
            }
        }
        assert forall|j: int| 0 <= j < q.len() implies {
            &&& after.offset_to_entry@.contains_key(#[trigger] q[j])
            &&& !after.in_flight@.contains_key(q[j])
        } by {
            if j < q.len() - 1 {
                assert(q[j] == before.queue@[j]);
            }
        }
        assert forall|o: usize| #[trigger] after.offset_to_entry@.contains_key(o) implies {
            &&& after.in_flight@.contains_key(o) || after.queue@.contains(o)
            &&& entry_ok(o, after.offset_to_entry@[o])
        } by {
            if o == offset {
                assert(q[q.len() - 1] == o);
            } else if !after.in_flight@.contains_key(o) {
                let j = choose|j: int| 0 <= j < before.queue@.len() && before.queue@[j] == o;
                assert(q[j] == o);
            }
        }
    } else {
        assert forall|o: usize| #[trigger] after.offset_to_entry@.contains_key(o) implies {
            &&& after.in_flight@.contains_key(o) || after.queue@.contains(o)
            &&& entry_ok(o, after.offset_to_entry@[o])
        } by {
            assert(before.offset_to_entry@.contains_key(o));
        }
    }
}

/// A transaction `worker` gives back: it releases its account locks and no
/// longer counts for the worker; it goes back to the end of the queue when
/// `requeue` holds and the queue has room, and otherwise leaves the state
/// and is handed back so that its memory can be released.
fn finish_in_flight(state: &mut FifoState, worker: usize, offset: usize, requeue: bool) -> (released: Option<FifoEntry>)
    requires
        old(state).wf(),
        old(state).in_flight().contains_key(offset),
        old(state).in_flight()[offset] == worker,
    ensures
        final(state).wf(),
        final(state).in_flight() == old(state).in_flight().remove(offset),
        final(state).held_locks() == old(state).held_locks().sub(entry_grants(old(state).entries()[offset], worker)),
        old(state).in_progress()[worker as int] >= 1,
        final(state).in_progress() == old(state).in_progress().update(
            worker as int,
            (old(state).in_progress()[worker as int] - 1) as u64,
        ),
        requeue && old(state).queue().len() < QUEUE_CAPACITY ==> {
            &&& released is None
            &&& final(state).queue() == old(state).queue().push(offset)
            &&& final(state).entries() == old(state).entries()
        },
        !(requeue && old(state).queue().len() < QUEUE_CAPACITY) ==> {
            &&& released == Some(old(state).entries()[offset])
            &&& final(state).queue() == old(state).queue()
            &&& final(state).entries() == old(state).entries().remove(offset)
        },
{
    let ghost before = *state;
    let ghost order = state.flight_order@;
    proof {
        assert(state.offset_to_entry@.contains_key(offset));
    }
    let (writes, reads) = match state.offset_to_entry.get(&offset) {
        Some(entry) => (entry.transaction.writable_account_keys(), entry.transaction.readonly_account_keys()),
        None => {
            return None;
        },
    };
    let ghost i = choose|i: int| 0 <= i < order.len() && order[i] == offset;
    proof {
        lemma_flight_holds(order, before.offset_to_entry@, before.in_flight@, i);
        lemma_transaction_grants(writes@, reads@, worker);
        assert(thread_locks_held(state.account_locks).len() == state.locks_held);
        lemma_flight_remove(order, before.offset_to_entry@, before.in_flight@, i);
        assert(flight_count(order, before.in_flight@, worker) >= 1);
    }
    thread_locks_unlock(&mut state.account_locks, &writes, &reads, worker);
    release_in_progress(&mut state.in_progress, worker);
    let _ = state.in_flight.remove(&offset);
    state.locks_held = state.locks_held - writes.len() as u64 - reads.len() as u64;
    proof {
        state.flight_order = Ghost(order.remove(i));
    }
    if requeue && state.queue.len() < QUEUE_CAPACITY {
        state.queue.push_back(offset);
        proof {
            lemma_release_wf(before, *state, offset, worker, true);
        }
        None
    } else {
        let released = state.offset_to_entry.remove(&offset);
        proof {
            lemma_release_wf(before, *state, offset, worker, false);
        }
        released
    }
}

/// The locks `worker` held for the transactions at `offsets`.
pub open spec fn released_grants(entries: Map<usize, FifoEntry>, offsets: Seq<usize>, worker: usize) -> Multiset<LockGrant>
    decreases offsets.len(),
{
    if offsets.len() == 0 {
        Multiset::empty()
    } else {
        released_grants(entries, offsets.drop_last(), worker).add(entry_grants(entries[offsets.last()], worker))
    }
}

/// How many `true` there are in `s`.
pub open spec fn count_true(s: Seq<bool>) -> nat
    decreases s.len(),
{
    if s.len() == 0 {
        0
    } else {
        count_true(s.drop_last()) + (if s.last() { 1nat } else { 0nat })
    }
}

/// The offsets whose decision is `want`, in order.
pub open spec fn select_offsets(offsets: Seq<usize>, decisions: Seq<bool>, want: bool) -> Seq<usize>
    decreases decisions.len(),
{
    if decisions.len() == 0 {
        Seq::empty()
    } else {
        let prev = select_offsets(offsets, decisions.drop_last(), want);
        if decisions.last() == want {
            prev.push(offsets[decisions.len() - 1])
        } else {
            prev
        }
    }
}

/// Whether each of the first `k` transactions of an execution batch goes
/// back to the queue: a processed one only when cost tracking kept it out of
/// the block, an expired one always; either only while the queue, which
/// held `start_len` and grows by each one put back, has room.
pub open spec fn execution_requeues(processed: bool, reasons: Seq<u8>, start_len: nat, k: nat) -> Seq<bool>
    decreases k,
{
    if k == 0 {
        Seq::empty()
    } else {
        let prev = execution_requeues(processed, reasons, start_len, (k - 1) as nat);
        prev.push(start_len + count_true(prev) < QUEUE_CAPACITY && (!processed || spec_is_cost_limit_reason(reasons[k - 1])))
    }
}

/// How many transactions of an execution batch are handled: those paired
/// with a response when the batch was processed, all of them when it
/// expired.
pub open spec fn handled_len(processed: bool, num_offsets: nat, num_reasons: nat) -> nat {
    if processed && num_reasons < num_offsets {
        num_reasons
    } else {
        num_offsets
    }
}

/// The transactions of an execution batch can be given back by `worker`:
/// those handled are distinct and all with `worker`.
pub open spec fn execution_batch_valid(s: FifoState, worker: usize, offsets: Seq<usize>, k: nat) -> bool {
    &&& worker < s.in_progress().len()
    &&& k <= offsets.len()
    &&& forall|i: int| 0 <= i < k ==> s.in_flight().contains_key(#[trigger] offsets[i]) && s.in_flight()[offsets[i]] == worker
    &&& forall|i: int, j: int| 0 <= i < j < k ==> offsets[i] != offsets[j]
}

/// What giving back the first `k` transactions of an execution batch does:
/// each releases its locks and leaves `worker`; those put back go to the end
/// of the queue in order; the others leave the state and are handed back in
/// order.
pub open spec fn execution_batch_done(
    old_state: FifoState,
    new_state: FifoState,
    worker: usize,
    offsets: Seq<usize>,
    processed: bool,
    reasons: Seq<u8>,
    k: nat,
    released: Seq<FifoEntry>,
) -> bool {
    let d = execution_requeues(processed, reasons, old_state.queue().len(), k);
    let dropped = select_offsets(offsets, d, false);
    &&& new_state.queue() == old_state.queue() + select_offsets(offsets, d, true)
    &&& released.len() == dropped.len()
    &&& forall|m: int| 0 <= m < released.len() ==> #[trigger] released[m] == old_state.entries()[dropped[m]]
    &&& forall|o: usize| #[trigger] new_state.entries().contains_key(o) <==> (old_state.entries().contains_key(o)
        && !dropped.contains(o))
    &&& forall|o: usize| #[trigger] new_state.entries().contains_key(o) ==> new_state.entries()[o] == old_state.entries()[o]
    &&& forall|o: usize| #[trigger] new_state.in_flight().contains_key(o) <==> (old_state.in_flight().contains_key(o)
        && !offsets.subrange(0, k as int).contains(o))
    &&& forall|o: usize| #[trigger] new_state.in_flight().contains_key(o) ==> new_state.in_flight()[o] == old_state.in_flight()[o]
    &&& new_state.in_progress() == old_state.in_progress().update(
        worker as int,
        (old_state.in_progress()[worker as int] - k) as u64,
    )
    &&& new_state.held_locks() == old_state.held_locks().sub(
        released_grants(old_state.entries(), offsets.subrange(0, k as int), worker),
    )
}

proof fn lemma_requeues_len(processed: bool, reasons: Seq<u8>, start_len: nat, k: nat)
    ensures
        execution_requeues(processed, reasons, start_len, k).len() == k,
    decreases k,
{
    if k > 0 {
        lemma_requeues_len(processed, reasons, start_len, (k - 1) as nat);
    }
}

proof fn lemma_select_len(offsets: Seq<usize>, d: Seq<bool>)
    ensures
        select_offsets(offsets, d, true).len() == count_true(d),
    decreases d.len(),
{
    if d.len() > 0 {
        lemma_select_len(offsets, d.drop_last());
    }
}

/// The offsets selected are among the first ones.
proof fn lemma_select_within(offsets: Seq<usize>, d: Seq<bool>, want: bool)
    requires
        d.len() <= offsets.len(),
    ensures
        forall|o: usize| #[trigger] select_offsets(offsets, d, want).contains(o) ==> offsets.subrange(0, d.len() as int).contains(o),
    decreases d.len(),
{
    if d.len() > 0 {
        let prev = d.drop_last();
        lemma_select_within(offsets, prev, want);
        let sel = select_offsets(offsets, d, want);
        let psel = select_offsets(offsets, prev, want);
        assert forall|o: usize| #[trigger] sel.contains(o) implies offsets.subrange(0, d.len() as int).contains(o) by {
            if psel.contains(o) {
                let sub0 = offsets.subrange(0, prev.len() as int);
                let j = choose|j: int| 0 <= j < sub0.len() && sub0[j] == o;
                assert(offsets.subrange(0, d.len() as int)[j] == o);
            } else {
                assert(o == offsets[d.len() - 1]);
                assert(offsets.subrange(0, d.len() as int)[d.len() - 1] == o);
            }
        }
    }
}

/// Gives back the handled transactions of an execution batch of `worker`,
/// front first: each releases its account locks and no longer counts for
/// the worker; it goes back to the end of the queue when it may be retried
/// and the queue has room, and otherwise leaves the state and is handed back
/// so that its memory can be released.
fn complete_execution_batch(
    state: &mut FifoState,
    worker: usize,
    offsets: &Vec<usize>,
    processed: bool,
    reasons: &Vec<u8>,
) -> (released: Vec<FifoEntry>)
    requires
        old(state).wf(),
        execution_batch_valid(*old(state), worker, offsets@, handled_len(processed, offsets@.len(), reasons@.len())),
    ensures
        final(state).wf(),
        execution_batch_done(
            *old(state),
            *final(state),
            worker,
            offsets@,
            processed,
            reasons@,
            handled_len(processed, offsets@.len(), reasons@.len()),
            released@,
        ),
{
    let k: usize = if processed && reasons.len() < offsets.len() { reasons.len() } else { offsets.len() };
    let ghost start = state.queue@.len();
    let mut released: Vec<FifoEntry> = Vec::new();
    let mut j: usize = 0;
    proof {
        assert(old(state).in_progress@ =~= old(state).in_progress@.update(
            worker as int,
            (old(state).in_progress@[worker as int] - 0) as u64,
        ));
        assert(offsets@.subrange(0, 0) =~= Seq::<usize>::empty());
        assert(old(state).held_locks().sub(Multiset::<LockGrant>::empty()) =~= old(state).held_locks());
    }
    while j < k
        invariant
            state.wf(),
            k == handled_len(processed, offsets@.len(), reasons@.len()),
            k <= offsets@.len(),
            processed ==> k <= reasons@.len(),
            j <= k,
            start == old(state).queue().len(),
            execution_batch_valid(*old(state), worker, offsets@, k as nat),
            execution_batch_done(*old(state), *state, worker, offsets@, processed, reasons@, j as nat, released@),
            old(state).in_progress()[worker as int] >= j,
        decreases k - j,
    {
        let ghost before = *state;
        let ghost d = execution_requeues(processed, reasons@, start, j as nat);
        let offset = offsets[j];
        proof {
            assert(old(state).in_flight().contains_key(offsets@[j as int]));
            assert(!offsets@.subrange(0, j as int).contains(offset)) by {
                let sub0 = offsets@.subrange(0, j as int);
                if sub0.contains(offset) {
                    let m = choose|m: int| 0 <= m < sub0.len() && sub0[m] == offset;
                    assert(offsets@[m] == offset);
                }
            }
            lemma_requeues_len(processed, reasons@, start, j as nat);
            lemma_select_len(offsets@, d);
            lemma_select_within(offsets@, d, false);
            assert(before.in_flight().contains_key(offset));
            assert(before.entries().contains_key(offset));
            assert(before.entries()[offset] == old(state).entries()[offset]);
        }
        let retry = !processed || is_cost_limit_reason(reasons[j]);
        let ghost prev_released = released@;
        let ghost requeued = retry && before.queue().len() < QUEUE_CAPACITY;
        match finish_in_flight(state, worker, offset, retry) {
            Some(entry) => {
                released.push(entry);
            },
            None => {},
        }
        proof {
            let d2 = execution_requeues(processed, reasons@, start, (j + 1) as nat);
            assert(d2 == d.push(start + count_true(d) < QUEUE_CAPACITY && retry));
            assert(d2.drop_last() =~= d);
            assert(offsets@.subrange(0, j + 1) =~= offsets@.subrange(0, j as int).push(offset));
            let dropped = select_offsets(offsets@, d, false);
            let dropped2 = select_offsets(offsets@, d2, false);
            assert(d2.last() == requeued);
            assert(d2.len() == j + 1);
            if requeued {
                assert(dropped2 == dropped);
                assert(released@ == prev_released);
            } else {
                assert(dropped2 == dropped.push(offset));
                assert(released@ == prev_released.push(old(state).entries()[offset]));
            }
            assert forall|m: int| 0 <= m < released@.len() implies #[trigger] released@[m] == old(state).entries()[dropped2[m]] by {
                if m < prev_released.len() {
                    assert(released@[m] == prev_released[m]);
                }
            }
            assert(!dropped.contains(offset));
            assert forall|o: usize| #[trigger] dropped2.contains(o) <==> (dropped.contains(o) || (o == offset && !requeued)) by {
                if dropped2.contains(o) {
                    let m = choose|m: int| 0 <= m < dropped2.len() && dropped2[m] == o;
                    if m < dropped.len() {
                        assert(dropped[m] == o);
                    }
                }
                if dropped.contains(o) {
                    let m = choose|m: int| 0 <= m < dropped.len() && dropped[m] == o;
                    assert(dropped2[m] == o);
                }
                if o == offset && !requeued {
                    assert(dropped2[dropped.len() as int] == o);
                }
            }
            assert forall|o: usize| #[trigger] state.entries().contains_key(o) <==> (old(state).entries().contains_key(o)
                && !dropped2.contains(o)) by {
                assert(before.entries().contains_key(o) <==> (old(state).entries().contains_key(o) && !dropped.contains(o)));
            }
            let sub1 = offsets@.subrange(0, j + 1);
            let sub0 = offsets@.subrange(0, j as int);
            assert forall|o: usize| #[trigger] sub1.contains(o) <==> (sub0.contains(o) || o == offset) by {
                if sub1.contains(o) {
                    let m = choose|m: int| 0 <= m < sub1.len() && sub1[m] == o;
                    if m < j {
                        assert(sub0[m] == o);
                    }
                }
                if sub0.contains(o) {
                    let m = choose|m: int| 0 <= m < sub0.len() && sub0[m] == o;
                    assert(sub1[m] == o);
                }
                if o == offset {
                    assert(sub1[j as int] == o);
                }
            }
            assert forall|o: usize| #[trigger] state.in_flight().contains_key(o) <==> (old(state).in_flight().contains_key(o)
                && !offsets@.subrange(0, j + 1).contains(o)) by {
                assert(before.in_flight().contains_key(o) <==> (old(state).in_flight().contains_key(o) && !sub0.contains(o)));
            }
            assert(state.queue() =~= old(state).queue() + select_offsets(offsets@, d2, true));
            assert(state.in_progress() =~= old(state).in_progress().update(
                worker as int,
                (old(state).in_progress()[worker as int] - (j + 1)) as u64,
            ));
            let r0 = released_grants(old(state).entries(), sub0, worker);
            let g = entry_grants(old(state).entries()[offset], worker);
            assert(sub1.drop_last() =~= sub0);
            assert(released_grants(old(state).entries(), sub1, worker) == r0.add(g));
            assert(state.held_locks() =~= old(state).held_locks().sub(r0.add(g)));
        }
        j = j + 1;
    }
    released
}

/// A transaction that came back from lookup-table resolution: its region,
/// its bytes, the worker's answer, and the addresses the answer points at
/// (none when it points at none).
#[derive(Debug)]
pub struct ResolvedTransaction {
    pub region: TransactionRegion,
    pub data: Vec<u8>,
    pub response: CheckFlags,
    pub resolved_keys: Vec<Account>,
}

/// The answer to a resolution request can be read: only resolution was
/// asked for, and an answer that reports no failure reports it requested
/// and performed.
pub open spec fn resolution_response_valid(flags: CheckFlags) -> bool {
    &&& flags.fee_payer_balance_flags == 0
    &&& flags.status_check_flags == 0
    &&& !spec_resolution_failed(flags) ==> flags.resolve_flags == (RESOLVE_REQUESTED | RESOLVE_PERFORMED)
}

/// What becomes of a resolved transaction when the queue holds `queue_len`.
pub open spec fn resolve_decision(flags: CheckFlags, queue_len: nat) -> ResolveDisposition {
    if spec_resolution_failed(flags) {
        ResolveDisposition::DropFailed
    } else if queue_len >= QUEUE_CAPACITY {
        ResolveDisposition::DropQueueFull
    } else {
        ResolveDisposition::Enqueue
    }
}

/// How many of `s` are queued.
pub open spec fn count_enqueued(s: Seq<ResolveDisposition>) -> nat
    decreases s.len(),
{
    if s.len() == 0 {
        0
    } else {
        count_enqueued(s.drop_last()) + (if s.last() == ResolveDisposition::Enqueue { 1nat } else { 0nat })
    }
}

/// What becomes of each of the first `k` resolved transactions, the queue
/// holding `start_len` at first and growing by each one queued.
pub open spec fn resolution_outcomes(txs: Seq<ResolvedTransaction>, start_len: nat, k: nat) -> Seq<ResolveDisposition>
    decreases k,
{
    if k == 0 {
        Seq::empty()
    } else {
        let prev = resolution_outcomes(txs, start_len, (k - 1) as nat);
        prev.push(resolve_decision(txs[k - 1].response, start_len + count_enqueued(prev)))
    }
}

/// The offsets of the queued transactions among the first `outcomes.len()`,
/// in order.
pub open spec fn enqueued_offsets(txs: Seq<ResolvedTransaction>, outcomes: Seq<ResolveDisposition>) -> Seq<usize>
    decreases outcomes.len(),
{
    if outcomes.len() == 0 {
        Seq::empty()
    } else {
        let prev = enqueued_offsets(txs, outcomes.drop_last());
        if outcomes.last() == ResolveDisposition::Enqueue {
            prev.push(txs[outcomes.len() - 1].region.offset)
        } else {
            prev
        }
    }
}

/// What the FIFO scheduler keeps of a resolved transaction: its region, its
/// parse, and the resolved addresses and where they lie when the answer
/// points at any.
pub open spec fn is_resolved_entry(e: FifoEntry, rt: ResolvedTransaction, layout: TransactionLayout) -> bool {
    let has_keys = rt.response.resolved_pubkeys.num_pubkeys != 0;
    &&& e.transaction.sharable_transaction == rt.region
    &&& e.transaction.layout == layout
    &&& match e.transaction.loaded_addresses {
        Some(keys) => has_keys && keys@ == rt.resolved_keys@,
        None => !has_keys,
    }
    &&& e.resolved_pubkeys == (if has_keys { Some(rt.response.resolved_pubkeys) } else { None })
}

/// A resolved transaction can be taken in: its answer can be read and no
/// transaction is kept under its offset.
pub open spec fn resolved_batch_valid(s: FifoState, txs: Seq<ResolvedTransaction>) -> bool {
    &&& forall|i: int| 0 <= i < txs.len() ==> resolution_response_valid(#[trigger] txs[i].response)
    &&& forall|i: int| 0 <= i < txs.len() ==> !s.entries().contains_key(#[trigger] txs[i].region.offset)
    &&& forall|i: int, j: int| 0 <= i < j < txs.len() ==> txs[i].region.offset != txs[j].region.offset
}

/// A copy of a list of account addresses.
fn copy_keys(keys: &Vec<Account>) -> (copy: Vec<Account>)
    ensures
        copy@ == keys@,
{
    let mut copy: Vec<Account> = Vec::new();
    let mut i: usize = 0;
    while i < keys.len()
        invariant
            i <= keys@.len(),
            copy@ == keys@.subrange(0, i as int),
        decreases keys@.len() - i,
    {
        copy.push(keys[i]);
        i = i + 1;
        assert(copy@ =~= keys@.subrange(0, i as int));
    }
    copy
}

/// Takes in one resolved transaction: dropped when its resolution failed or
/// the queue is full, queued with its resolved addresses otherwise; `None`
/// when it was to be queued but no longer parses.
fn admit_resolved(state: &mut FifoState, rt: &ResolvedTransaction) -> (outcome: Option<ResolveDisposition>)
    requires
        old(state).wf(),
        resolution_response_valid(rt.response),
        !old(state).entries().contains_key(rt.region.offset),
    ensures
        final(state).wf(),
        final(state).in_flight() == old(state).in_flight(),
        final(state).in_progress() == old(state).in_progress(),
        ({
            let d = resolve_decision(rt.response, old(state).queue().len());
            match outcome {
                None => {
                    &&& d == ResolveDisposition::Enqueue
                    &&& sanitized_layout(rt.data@) is None
                    &&& final(state).queue() == old(state).queue()
                    &&& final(state).entries() == old(state).entries()
                },
                Some(x) => {
                    &&& x == d
                    &&& d == ResolveDisposition::Enqueue ==> {
                        &&& sanitized_layout(rt.data@) is Some
                        &&& final(state).queue() == old(state).queue().push(rt.region.offset)
                        &&& final(state).entries().dom() == old(state).entries().dom().insert(rt.region.offset)
                        &&& is_resolved_entry(final(state).entries()[rt.region.offset], *rt, sanitized_layout(rt.data@)->Some_0)
                        &&& forall|o: usize| #[trigger] old(state).entries().contains_key(o) ==> final(state).entries()[o] == old(state).entries()[o]
                    }
                    &&& d != ResolveDisposition::Enqueue ==> {
                        &&& final(state).queue() == old(state).queue()
                        &&& final(state).entries() == old(state).entries()
                    }
                },
            }
        }),
{
    let d = resolve_disposition(&rt.response, state.queue.len());
    match d {
        ResolveDisposition::Enqueue => {},
        _ => {
            return Some(d);
        },
    }
    let layout = match parse_transaction(rt.data.as_slice()) {
        Some(layout) => layout,
        None => {
            return None;
        },
    };
    let ghost before = *state;
    let offset = rt.region.offset;
    let has_keys = rt.response.resolved_pubkeys.num_pubkeys != 0;
    let entry = FifoEntry {
        transaction: TransactionEntry {
            sharable_transaction: rt.region,
            layout: layout,
            loaded_addresses: if has_keys { Some(copy_keys(&rt.resolved_keys)) } else { None },
        },
        resolved_pubkeys: if has_keys { Some(rt.response.resolved_pubkeys) } else { None },
    };
    state.offset_to_entry.insert(offset, entry);
    state.queue.push_back(offset);
    proof {
        let order = state.flight_order@;
        assert(!before.in_flight@.contains_key(offset));
        assert forall|i: int| 0 <= i < order.len() implies before.offset_to_entry@[#[trigger] order[i]]
            == state.offset_to_entry@[order[i]] && before.in_flight@[order[i]] == state.in_flight@[order[i]] by {
            assert(before.in_flight@.contains_key(order[i]));
        }
        lemma_flight_frame(order, before.offset_to_entry@, before.in_flight@, state.offset_to_entry@, state.in_flight@);
        let q = state.queue@;
        assert forall|i: int, j: int| 0 <= i < q.len() && 0 <= j < q.len() && i != j implies q[i] != q[j] by {
            if i < q.len() - 1 && j < q.len() - 1 {
                assert(q[i] == before.queue@[i] && q[j] == before.queue@[j]);
            } else if i == q.len() - 1 {
                assert(q[j] == before.queue@[j]);
            } else {
                assert(q[i] == before.queue@[i]);
            }
        }
        assert forall|i: int| 0 <= i < q.len() implies {
            &&& state.offset_to_entry@.contains_key(#[trigger] q[i])
            &&& !state.in_flight@.contains_key(q[i])
        } by {
            if i < q.len() - 1 {
                assert(q[i] == before.queue@[i]);
            }
        }
        assert forall|o: usize| #[trigger] state.offset_to_entry@.contains_key(o) implies {
            &&& state.in_flight@.contains_key(o) || state.queue@.contains(o)
            &&& entry_ok(o, state.offset_to_entry@[o])
        } by {
            if o == offset {
                assert(q[q.len() - 1] == o);
            } else if !state.in_flight@.contains_key(o) {
                let j = choose|j: int| 0 <= j < before.queue@.len() && before.queue@[j] == o;
                assert(q[j] == o);
            }
        }
        assert forall|o: usize| #[trigger] state.in_flight@.contains_key(o) implies {
            &&& state.offset_to_entry@.contains_key(o)
            &&& state.in_flight@[o] < state.in_progress@.len()
        } by {
        }
    }
    Some(d)
}

/// Takes in a batch of resolved transactions, front first, until one that
/// was to be queued no longer parses (`None`); otherwise hands back what
/// became of each one.
fn complete_resolution_batch(state: &mut FifoState, transactions: &Vec<ResolvedTransaction>) -> (outcomes: Option<Vec<ResolveDisposition>>)
    requires
        old(state).wf(),
        resolved_batch_valid(*old(state), transactions@),
    ensures
        final(state).wf(),
        final(state).in_flight() == old(state).in_flight(),
        final(state).in_progress() == old(state).in_progress(),
        resolution_batch_done(*old(state), *final(state), transactions@, outcomes),
{
    let ghost txs = transactions@;
    let ghost start = state.queue@.len();
    let mut outcomes: Vec<ResolveDisposition> = Vec::new();
    proof {
        assert(state.queue@ =~= old(state).queue() + enqueued_offsets(txs, outcomes@));
    }
    let mut i: usize = 0;
    while i < transactions.len()
        invariant
            state.wf(),
            state.in_flight@ == old(state).in_flight(),
            state.in_progress@ == old(state).in_progress(),
            start == old(state).queue().len(),
            resolved_batch_valid(*old(state), txs),
            transactions@ == txs,
            i == outcomes@.len(),
            i <= txs.len(),
            outcomes@ == resolution_outcomes(txs, start, outcomes@.len() as nat),
            resolution_prefix_done(*old(state), *state, txs, outcomes@),
        decreases txs.len() - i,
    {
        let ghost k = outcomes@.len() as int;
        let ghost before = *state;
        let rt = &transactions[i];
        proof {
            assert(rt == txs[k]);
            lemma_enqueued_within(txs, outcomes@);
            assert(!before.entries().contains_key(rt.region.offset)) by {
                if before.entries().contains_key(rt.region.offset) {
                    assert(!old(state).entries().contains_key(txs[k].region.offset));
                    let m = choose|m: int| 0 <= m < k && #[trigger] txs[m].region.offset == rt.region.offset;
                }
            }
            lemma_enqueued_count(txs, outcomes@);
        }
        match admit_resolved(state, rt) {
            None => {
                proof {
                    let prev = outcomes@;
                    assert(before.queue().len() == start + count_enqueued(prev));
                    assert(resolution_outcomes(txs, start, (k + 1) as nat) == prev.push(
                        resolve_decision(txs[k].response, start + count_enqueued(prev)),
                    ));
                    assert(resolution_failed_at(txs, start, k));
                    assert(start == old(state).queue().len());
                    assert(resolution_prefix_done(*old(state), *state, txs, prev));
                    assert(resolution_batch_done(*old(state), *state, txs, None));
                }
                return None;
            },
            Some(d) => {
                let ghost prev = outcomes@;
                outcomes.push(d);
                proof {
                    assert(outcomes@.drop_last() =~= prev);
                    lemma_resolution_step(*old(state), before, *state, txs, prev, d);
                }
            },
        }
        i = i + 1;
    }
    proof {
        assert(outcomes@.len() == txs.len());
    }
    Some(outcomes)
}

/// The transaction at `k` was to be queued, after the ones before it went
/// as they should, and does not parse.
pub open spec fn resolution_failed_at(txs: Seq<ResolvedTransaction>, start_len: nat, k: int) -> bool {
    &&& 0 <= k < txs.len()
    &&& resolution_outcomes(txs, start_len, (k + 1) as nat)[k] == ResolveDisposition::Enqueue
    &&& sanitized_layout(txs[k].data@) is None
}

/// The first `outcomes.len()` resolved transactions went as `outcomes`
/// says: those queued went to the end of the queue in order and are kept
/// with their parse; nothing else changed.
pub open spec fn resolution_prefix_done(
    old_state: FifoState,
    new_state: FifoState,
    txs: Seq<ResolvedTransaction>,
    outcomes: Seq<ResolveDisposition>,
) -> bool {
    &&& new_state.queue() == old_state.queue() + enqueued_offsets(txs, outcomes)
    &&& forall|o: usize| #[trigger] new_state.entries().contains_key(o) <==> (old_state.entries().contains_key(o)
        || enqueued_offsets(txs, outcomes).contains(o))
    &&& forall|o: usize| #[trigger] old_state.entries().contains_key(o) ==> new_state.entries()[o] == old_state.entries()[o]
    &&& forall|i: int| 0 <= i < outcomes.len() && #[trigger] outcomes[i] == ResolveDisposition::Enqueue ==> {
        &&& sanitized_layout(txs[i].data@) is Some
        &&& is_resolved_entry(new_state.entries()[txs[i].region.offset], txs[i], sanitized_layout(txs[i].data@)->Some_0)
    }
}

/// What a resolution batch did: either every transaction went as
/// `resolution_outcomes` says, or one that was to be queued does not parse,
/// and the ones before it went as `resolution_outcomes` says while nothing
/// after them was taken in.
pub open spec fn resolution_batch_done(
    old_state: FifoState,
    new_state: FifoState,
    txs: Seq<ResolvedTransaction>,
    outcomes: Option<Vec<ResolveDisposition>>,
) -> bool {
    match outcomes {
        Some(ds) => {
            &&& ds@ == resolution_outcomes(txs, old_state.queue().len(), txs.len())
            &&& resolution_prefix_done(old_state, new_state, txs, ds@)
        },
        None => exists|k: int| #[trigger] resolution_failed_at(txs, old_state.queue().len(), k)
            && resolution_prefix_done(
            old_state,
            new_state,
            txs,
            resolution_outcomes(txs, old_state.queue().len(), k as nat),
        ),
    }
}

proof fn lemma_enqueued_count(txs: Seq<ResolvedTransaction>, outcomes: Seq<ResolveDisposition>)
    ensures
        enqueued_offsets(txs, outcomes).len() == count_enqueued(outcomes),
    decreases outcomes.len(),
{
    if outcomes.len() > 0 {
        lemma_enqueued_count(txs, outcomes.drop_last());
    }
}

/// The offsets queued are those of transactions of the prefix.
proof fn lemma_enqueued_within(txs: Seq<ResolvedTransaction>, outcomes: Seq<ResolveDisposition>)
    ensures
        forall|o: usize| #[trigger] enqueued_offsets(txs, outcomes).contains(o) ==> exists|m: int|
            0 <= m < outcomes.len() && #[trigger] txs[m].region.offset == o && outcomes[m] == ResolveDisposition::Enqueue,
    decreases outcomes.len(),
{
    if outcomes.len() > 0 {
        let prev = outcomes.drop_last();
        lemma_enqueued_within(txs, prev);
        let e = enqueued_offsets(txs, outcomes);
        let pe = enqueued_offsets(txs, prev);
        assert forall|o: usize| #[trigger] e.contains(o) implies exists|m: int|
            0 <= m < outcomes.len() && #[trigger] txs[m].region.offset == o && outcomes[m] == ResolveDisposition::Enqueue by {
            if pe.contains(o) {
                let m = choose|m: int| 0 <= m < prev.len() && #[trigger] txs[m].region.offset == o && prev[m] == ResolveDisposition::Enqueue;
                assert(outcomes[m] == prev[m]);
            } else {
                let m = outcomes.len() - 1;
                assert(txs[m].region.offset == o);
            }
        }
    }
}

/// A transaction queued is among the offsets queued.
proof fn lemma_enqueued_contains(txs: Seq<ResolvedTransaction>, outcomes: Seq<ResolveDisposition>, i: int)
    requires
        0 <= i < outcomes.len(),
        outcomes[i] == ResolveDisposition::Enqueue,
    ensures
        enqueued_offsets(txs, outcomes).contains(txs[i].region.offset),
    decreases outcomes.len(),
{
    let prev = outcomes.drop_last();
    if i < outcomes.len() - 1 {
        assert(prev[i] == outcomes[i]);
        lemma_enqueued_contains(txs, prev, i);
        let pe = enqueued_offsets(txs, prev);
        let m = choose|m: int| 0 <= m < pe.len() && pe[m] == txs[i].region.offset;
        assert(enqueued_offsets(txs, outcomes)[m] == txs[i].region.offset);
    } else {
        let e = enqueued_offsets(txs, outcomes);
        assert(e[e.len() - 1] == txs[i].region.offset);
    }
}

/// One more resolved transaction taken in.
proof fn lemma_resolution_step(
    s0: FifoState,
    before: FifoState,
    after: FifoState,
    txs: Seq<ResolvedTransaction>,
    prev: Seq<ResolveDisposition>,
    d: ResolveDisposition,
)
    requires
        prev.len() < txs.len(),
        prev == resolution_outcomes(txs, s0.queue().len(), prev.len()),
        resolution_prefix_done(s0, before, txs, prev),
        resolved_batch_valid(s0, txs),
        !before.entries().contains_key(txs[prev.len() as int].region.offset),
        before.queue().len() == s0.queue().len() + count_enqueued(prev),
        ({
            let rt = txs[prev.len() as int];
            &&& d == resolve_decision(rt.response, before.queue().len())
            &&& d == ResolveDisposition::Enqueue ==> {
                &&& sanitized_layout(rt.data@) is Some
                &&& after.queue() == before.queue().push(rt.region.offset)
                &&& after.entries().dom() == before.entries().dom().insert(rt.region.offset)
                &&& is_resolved_entry(after.entries()[rt.region.offset], rt, sanitized_layout(rt.data@)->Some_0)
                &&& forall|o: usize| #[trigger] before.entries().contains_key(o) ==> after.entries()[o] == before.entries()[o]
            }
            &&& d != ResolveDisposition::Enqueue ==> {
                &&& after.queue() == before.queue()
                &&& after.entries() == before.entries()
            }
        }),
    ensures
        prev.push(d) == resolution_outcomes(txs, s0.queue().len(), prev.len() + 1),
        resolution_prefix_done(s0, after, txs, prev.push(d)),
{
    let k = prev.len() as int;
    let rt = txs[k];
    let out = prev.push(d);
    assert(out.drop_last() =~= prev);
    let e0 = enqueued_offsets(txs, prev);
    let e1 = enqueued_offsets(txs, out);
    lemma_enqueued_within(txs, prev);
    if d == ResolveDisposition::Enqueue {
        assert(e1 == e0.push(rt.region.offset));
        assert(after.queue() =~= s0.queue() + e1);
        assert forall|o: usize| #[trigger] after.entries().contains_key(o) <==> (s0.entries().contains_key(o) || e1.contains(o)) by {
            if e1.contains(o) {
                let m = choose|m: int| 0 <= m < e1.len() && e1[m] == o;
                if m < e0.len() {
                    assert(e0[m] == o);
                }
            }
            if e0.contains(o) {
                let m = choose|m: int| 0 <= m < e0.len() && e0[m] == o;
                assert(e1[m] == o);
            }
            if o == rt.region.offset {
                assert(e1[e0.len() as int] == o);
            }
        }
        assert forall|i: int| 0 <= i < out.len() && #[trigger] out[i] == ResolveDisposition::Enqueue implies {
            &&& sanitized_layout(txs[i].data@) is Some
            &&& is_resolved_entry(after.entries()[txs[i].region.offset], txs[i], sanitized_layout(txs[i].data@)->Some_0)
        } by {
            if i < k {
                assert(out[i] == prev[i]);
                assert(txs[i].region.offset != rt.region.offset);
                lemma_enqueued_contains(txs, prev, i);
                assert(before.entries().contains_key(txs[i].region.offset));
            }
        }
    } else {
        assert(e1 == e0);
        assert forall|i: int| 0 <= i < out.len() && #[trigger] out[i] == ResolveDisposition::Enqueue implies {
            &&& sanitized_layout(txs[i].data@) is Some
            &&& is_resolved_entry(after.entries()[txs[i].region.offset], txs[i], sanitized_layout(txs[i].data@)->Some_0)
        } by {
            assert(out[i] == prev[i]);
        }
    }
    assert forall|o: usize| #[trigger] s0.entries().contains_key(o) implies after.entries()[o] == s0.entries()[o] by {
        assert(o != rt.region.offset);
        assert(before.entries().contains_key(o));
    }
}

/// A worker's answer to a batch, as the FIFO scheduler reads it.
#[derive(Debug)]
pub enum WorkerMessage {
    /// An execution batch was processed: its transactions, and for each the
    /// reason it was not included (none when it was).
    Executed { offsets: Vec<usize>, not_included_reasons: Vec<u8> },
    /// An execution batch expired before a worker took it.
    Expired { offsets: Vec<usize> },
    /// A resolution batch came back.
    Resolved { transactions: Vec<ResolvedTransaction> },
}

/// What became of a worker's answer.
#[derive(Debug)]
pub enum WorkerMessageOutcome {
    /// The transactions that left the state, whose memory is to be released.
    Released(Vec<FifoEntry>),
    /// What became of each resolved transaction.
    Resolved(Vec<ResolveDisposition>),
    /// A resolved transaction that was to be queued no longer parses.
    Corrupted,
}

/// The answer can be read in the current state.
pub open spec fn worker_message_valid(s: FifoState, worker: usize, message: WorkerMessage) -> bool {
    match message {
        WorkerMessage::Executed { offsets, not_included_reasons } => execution_batch_valid(
            s,
            worker,
            offsets@,
            handled_len(true, offsets@.len(), not_included_reasons@.len()),
        ),
        WorkerMessage::Expired { offsets } => execution_batch_valid(
            s,
            worker,
            offsets@,
            handled_len(false, offsets@.len(), 0),
        ),
        WorkerMessage::Resolved { transactions } => resolved_batch_valid(s, transactions@),
    }
}

/// Takes in one answer of `worker`: the transactions of an execution batch
/// release their locks and leave the worker, going back to the queue or
/// leaving the state as `execution_batch_done` says; the transactions of a
/// resolution batch are dropped or queued as `resolution_batch_done` says.
pub fn handle_worker_messages(state: &mut FifoState, worker: usize, message: &WorkerMessage) -> (outcome: WorkerMessageOutcome)
    requires
        old(state).wf(),
        worker_message_valid(*old(state), worker, *message),
    ensures
        final(state).wf(),
        match *message {
            WorkerMessage::Executed { offsets, not_included_reasons } => outcome matches WorkerMessageOutcome::Released(
                released,
            ) && execution_batch_done(
                *old(state),
                *final(state),
                worker,
                offsets@,
                true,
                not_included_reasons@,
                handled_len(true, offsets@.len(), not_included_reasons@.len()),
                released@,
            ),
            WorkerMessage::Expired { offsets } => outcome matches WorkerMessageOutcome::Released(released)
                && execution_batch_done(
                *old(state),
                *final(state),
                worker,
                offsets@,
                false,
                Seq::<u8>::empty(),
                handled_len(false, offsets@.len(), 0),
                released@,
            ),
            WorkerMessage::Resolved { transactions } => {
                &&& final(state).in_flight() == old(state).in_flight()
                &&& final(state).in_progress() == old(state).in_progress()
                &&& match outcome {
                    WorkerMessageOutcome::Resolved(ds) => resolution_batch_done(
                        *old(state),
                        *final(state),
                        transactions@,
                        Some(ds),
                    ),
                    WorkerMessageOutcome::Corrupted => resolution_batch_done(
                        *old(state),
                        *final(state),
                        transactions@,
                        None,
                    ),
                    WorkerMessageOutcome::Released(_) => false,
                }
            },
        },
{
    match message {
        WorkerMessage::Executed { offsets, not_included_reasons } => {
            WorkerMessageOutcome::Released(complete_execution_batch(state, worker, offsets, true, not_included_reasons))
        },
        WorkerMessage::Expired { offsets } => {
            let none: Vec<u8> = Vec::new();
            WorkerMessageOutcome::Released(complete_execution_batch(state, worker, offsets, false, &none))
        },
        WorkerMessage::Resolved { transactions } => match complete_resolution_batch(state, transactions) {
            Some(ds) => WorkerMessageOutcome::Resolved(ds),
            None => WorkerMessageOutcome::Corrupted,
        },
    }
}

/// A transaction arriving from the TPU: its region and its bytes.
#[derive(Debug)]
pub struct TpuTransaction {
    pub region: TransactionRegion,
    pub data: Vec<u8>,
}

/// What a round of arrivals leaves to do: the regions of the transactions
/// dropped, whose memory is to be released, and the batches of version-0
/// transactions to send for lookup-table resolution.
#[derive(Debug)]
pub struct TpuRound {
    pub dropped: Vec<TransactionRegion>,
    pub resolve_batches: Vec<Vec<TransactionRegion>>,
}

/// What becomes of an arriving transaction when the queue holds
/// `queue_len`: a full queue drops it unread; otherwise it is parsed.
pub open spec fn tpu_decision(queue_len: nat, data: Seq<u8>) -> TpuDisposition {
    if queue_len >= QUEUE_CAPACITY {
        TpuDisposition::DropQueueFull
    } else {
        match sanitized_layout(data) {
            None => TpuDisposition::DropInvalid,
            Some(layout) => if layout.version == MessageVersion::V0 {
                TpuDisposition::Resolve
            } else {
                TpuDisposition::Enqueue(layout)
            },
        }
    }
}

/// Dropped (0), sent for resolution (1) or queued (2).
pub open spec fn tpu_class(d: TpuDisposition) -> u8 {
    match d {
        TpuDisposition::DropQueueFull => 0,
        TpuDisposition::DropInvalid => 0,
        TpuDisposition::Resolve => 1,
        TpuDisposition::Enqueue(_) => 2,
    }
}

/// The regions of the transactions of class `class`, in order.
pub open spec fn tpu_regions(msgs: Seq<TpuTransaction>, outcomes: Seq<TpuDisposition>, class: u8) -> Seq<TransactionRegion>
    decreases outcomes.len(),
{
    if outcomes.len() == 0 {
        Seq::empty()
    } else {
        let prev = tpu_regions(msgs, outcomes.drop_last(), class);
        if tpu_class(outcomes.last()) == class {
            prev.push(msgs[outcomes.len() - 1].region)
        } else {
            prev
        }
    }
}

/// What becomes of each of the first `k` arriving transactions, the queue
/// holding `start_len` at first and growing by each one queued.
pub open spec fn tpu_outcomes(msgs: Seq<TpuTransaction>, start_len: nat, k: nat) -> Seq<TpuDisposition>
    decreases k,
{
    if k == 0 {
        Seq::empty()
    } else {
        let prev = tpu_outcomes(msgs, start_len, (k - 1) as nat);
        prev.push(tpu_decision(start_len + tpu_regions(msgs, prev, 2).len(), msgs[k - 1].data@))
    }
}

/// The batches one after the other.
pub open spec fn flatten(batches: Seq<Vec<TransactionRegion>>) -> Seq<TransactionRegion>
    decreases batches.len(),
{
    if batches.len() == 0 {
        Seq::empty()
    } else {
        flatten(batches.drop_last()) + batches.last()@
    }
}

/// The arriving transactions can be taken in: none of their offsets is
/// kept already, and no two are the same.
pub open spec fn tpu_messages_valid(s: FifoState, msgs: Seq<TpuTransaction>) -> bool {
    &&& forall|i: int| 0 <= i < msgs.len() ==> !s.entries().contains_key(#[trigger] msgs[i].region.offset)
    &&& forall|i: int, j: int| 0 <= i < j < msgs.len() ==> msgs[i].region.offset != msgs[j].region.offset
}

/// The first `outcomes.len()` arriving transactions went as `outcomes`
/// says: those queued went to the end of the queue in order and are kept
/// with their parse and no resolved address; nothing else changed.
pub open spec fn tpu_prefix_done(
    old_state: FifoState,
    new_state: FifoState,
    msgs: Seq<TpuTransaction>,
    outcomes: Seq<TpuDisposition>,
) -> bool {
    let queued = tpu_regions(msgs, outcomes, 2);
    &&& new_state.queue() == old_state.queue() + queued.map_values(|r: TransactionRegion| r.offset)
    &&& forall|o: usize| #[trigger] new_state.entries().contains_key(o) <==> (old_state.entries().contains_key(o)
        || exists|m: int| 0 <= m < queued.len() && #[trigger] queued[m].offset == o)
    &&& forall|o: usize| #[trigger] old_state.entries().contains_key(o) ==> new_state.entries()[o] == old_state.entries()[o]
    &&& forall|i: int| 0 <= i < outcomes.len() ==> (#[trigger] outcomes[i] matches TpuDisposition::Enqueue(layout) ==> {
        let e = new_state.entries()[msgs[i].region.offset];
        &&& e.transaction.sharable_transaction == msgs[i].region
        &&& e.transaction.layout == layout
        &&& e.transaction.loaded_addresses is None
        &&& e.resolved_pubkeys is None
    })
    &&& new_state.in_flight() == old_state.in_flight()
    &&& new_state.in_progress() == old_state.in_progress()
}

/// Queuing a new transaction keeps the invariant.
proof fn lemma_enqueue_wf(before: FifoState, after: FifoState, offset: usize, entry: FifoEntry)
    requires
        before.wf(),
        !before.offset_to_entry@.contains_key(offset),
        entry_ok(offset, entry),
        before.queue@.len() < QUEUE_CAPACITY,
        after.queue@ == before.queue@.push(offset),
        after.offset_to_entry@ == before.offset_to_entry@.insert(offset, entry),
        after.in_flight@ == before.in_flight@,
        after.in_progress@ == before.in_progress@,
        after.locks_held == before.locks_held,
        after.flight_order@ == before.flight_order@,
        thread_locks_held(after.account_locks) == thread_locks_held(before.account_locks),
        thread_locks_workers(after.account_locks) == thread_locks_workers(before.account_locks),
    ensures
        after.wf(),
{
    let order = after.flight_order@;
    assert(!before.in_flight@.contains_key(offset));
    assert forall|i: int| 0 <= i < order.len() implies before.offset_to_entry@[#[trigger] order[i]]
        == after.offset_to_entry@[order[i]] && before.in_flight@[order[i]] == after.in_flight@[order[i]] by {
        assert(before.in_flight@.contains_key(order[i]));
    }
    lemma_flight_frame(order, before.offset_to_entry@, before.in_flight@, after.offset_to_entry@, after.in_flight@);
    let q = after.queue@;
    assert forall|i: int, j: int| 0 <= i < q.len() && 0 <= j < q.len() && i != j implies q[i] != q[j] by {
        if i < q.len() - 1 && j < q.len() - 1 {
            assert(q[i] == before.queue@[i] && q[j] == before.queue@[j]);
        } else if i == q.len() - 1 {
            assert(q[j] == before.queue@[j]);
        } else {
            assert(q[i] == before.queue@[i]);
        }
    }
    assert forall|i: int| 0 <= i < q.len() implies {
        &&& after.offset_to_entry@.contains_key(#[trigger] q[i])
        &&& !after.in_flight@.contains_key(q[i])
    } by {
        if i < q.len() - 1 {
            assert(q[i] == before.queue@[i]);
        }
    }
    assert forall|o: usize| #[trigger] after.offset_to_entry@.contains_key(o) implies {
        &&& after.in_flight@.contains_key(o) || after.queue@.contains(o)
        &&& entry_ok(o, after.offset_to_entry@[o])
    } by {
        if o == offset {
            assert(q[q.len() - 1] == o);
        } else if !after.in_flight@.contains_key(o) {
            let j = choose|j: int| 0 <= j < before.queue@.len() && before.queue@[j] == o;
            assert(q[j] == o);
        }
    }
}

/// One more arriving transaction taken in.
proof fn lemma_tpu_step(
    s0: FifoState,
    before: FifoState,
    after: FifoState,
    msgs: Seq<TpuTransaction>,
    prev: Seq<TpuDisposition>,
    d: TpuDisposition,
)
    requires
        prev.len() < msgs.len(),
        prev == tpu_outcomes(msgs, s0.queue().len(), prev.len()),
        tpu_prefix_done(s0, before, msgs, prev),
        tpu_messages_valid(s0, msgs),
        d == tpu_decision(before.queue().len(), msgs[prev.len() as int].data@),
        before.queue().len() == s0.queue().len() + tpu_regions(msgs, prev, 2).len(),
        ({
            let m = msgs[prev.len() as int];
            &&& d matches TpuDisposition::Enqueue(layout) ==> {
                &&& after.queue() == before.queue().push(m.region.offset)
                &&& after.entries() == before.entries().insert(m.region.offset, FifoEntry {
                    transaction: TransactionEntry { sharable_transaction: m.region, layout: layout, loaded_addresses: None },
                    resolved_pubkeys: None,
                })
            }
            &&& !(d is Enqueue) ==> {
                &&& after.queue() == before.queue()
                &&& after.entries() == before.entries()
            }
            &&& after.in_flight() == before.in_flight()
            &&& after.in_progress() == before.in_progress()
        }),
    ensures
        prev.push(d) == tpu_outcomes(msgs, s0.queue().len(), prev.len() + 1),
        tpu_prefix_done(s0, after, msgs, prev.push(d)),
{
    let k = prev.len() as int;
    let m = msgs[k];
    let out = prev.push(d);
    assert(out.drop_last() =~= prev);
    let q0 = tpu_regions(msgs, prev, 2);
    let q1 = tpu_regions(msgs, out, 2);
    assert(!before.entries().contains_key(m.region.offset)) by {
        assert forall|i: int| 0 <= i < prev.len() implies (#[trigger] msgs[i]).region.offset != m.region.offset by {
            assert(msgs[i].region.offset != msgs[k].region.offset);
        }
        lemma_tpu_regions_avoid(msgs, prev, 2, m.region.offset);
        if before.entries().contains_key(m.region.offset) {
            assert(!s0.entries().contains_key(msgs[k].region.offset));
            let j = choose|j: int| 0 <= j < q0.len() && #[trigger] q0[j].offset == m.region.offset;
        }
    }
    if d is Enqueue {
        assert(q1 == q0.push(m.region));
        assert(q1.map_values(|r: TransactionRegion| r.offset) =~= q0.map_values(|r: TransactionRegion| r.offset).push(m.region.offset));
        assert(after.queue() =~= s0.queue() + q1.map_values(|r: TransactionRegion| r.offset));
        assert forall|o: usize| #[trigger] after.entries().contains_key(o) <==> (s0.entries().contains_key(o)
            || exists|j: int| 0 <= j < q1.len() && #[trigger] q1[j].offset == o) by {
            if exists|j: int| 0 <= j < q1.len() && #[trigger] q1[j].offset == o {
                let j = choose|j: int| 0 <= j < q1.len() && #[trigger] q1[j].offset == o;
                if j < q0.len() {
                    assert(q0[j].offset == o);
                }
            }
            if exists|j: int| 0 <= j < q0.len() && #[trigger] q0[j].offset == o {
                let j = choose|j: int| 0 <= j < q0.len() && #[trigger] q0[j].offset == o;
                assert(q1[j].offset == o);
            }
            if o == m.region.offset {
                assert(q1[q0.len() as int].offset == o);
            }
        }
    } else {
        assert(q1 == q0);
    }
    assert forall|o: usize| #[trigger] s0.entries().contains_key(o) implies after.entries()[o] == s0.entries()[o] by {
        assert(before.entries().contains_key(o));
        assert(o != m.region.offset);
    }
    assert forall|i: int| 0 <= i < out.len() implies (#[trigger] out[i] matches TpuDisposition::Enqueue(layout) ==> {
        let e = after.entries()[msgs[i].region.offset];
        &&& e.transaction.sharable_transaction == msgs[i].region
        &&& e.transaction.layout == layout
        &&& e.transaction.loaded_addresses is None
        &&& e.resolved_pubkeys is None
    }) by {
        if i < k {
            assert(out[i] == prev[i]);
            if prev[i] is Enqueue {
                lemma_tpu_regions_contains(msgs, prev, 2, i);
                assert(msgs[i].region.offset != m.region.offset);
                let j = choose|j: int| 0 <= j < q0.len() && q0[j] == msgs[i].region;
                assert(q0[j].offset == msgs[i].region.offset);
                assert(before.entries().contains_key(msgs[i].region.offset));
            }
        }
    }
}

/// An offset that none of the first transactions has is not among the
/// regions selected from them.
proof fn lemma_tpu_regions_avoid(msgs: Seq<TpuTransaction>, outcomes: Seq<TpuDisposition>, class: u8, x: usize)
    requires
        forall|i: int| 0 <= i < outcomes.len() ==> (#[trigger] msgs[i]).region.offset != x,
    ensures
        forall|j: int| 0 <= j < tpu_regions(msgs, outcomes, class).len() ==> (#[trigger] tpu_regions(msgs, outcomes, class)[j]).offset != x,
    decreases outcomes.len(),
{
    if outcomes.len() > 0 {
        let prev = outcomes.drop_last();
        lemma_tpu_regions_avoid(msgs, prev, class, x);
        let r = tpu_regions(msgs, outcomes, class);
        let pr = tpu_regions(msgs, prev, class);
        let last = outcomes.len() - 1;
        assert(msgs[last].region.offset != x);
        assert forall|j: int| 0 <= j < r.len() implies (#[trigger] r[j]).offset != x by {
            if j < pr.len() {
                assert(r[j] == pr[j]);
            }
        }
    }
}

/// A transaction of class `class` has its region among those selected.
proof fn lemma_tpu_regions_contains(msgs: Seq<TpuTransaction>, outcomes: Seq<TpuDisposition>, class: u8, i: int)
    requires
        0 <= i < outcomes.len(),
        tpu_class(outcomes[i]) == class,
    ensures
        tpu_regions(msgs, outcomes, class).contains(msgs[i].region),
    decreases outcomes.len(),
{
    let prev = outcomes.drop_last();
    let r = tpu_regions(msgs, outcomes, class);
    if i < outcomes.len() - 1 {
        assert(prev[i] == outcomes[i]);
        lemma_tpu_regions_contains(msgs, prev, class, i);
        let pr = tpu_regions(msgs, prev, class);
        let m = choose|m: int| 0 <= m < pr.len() && pr[m] == msgs[i].region;
        assert(r[m] == msgs[i].region);
    } else {
        assert(r[r.len() - 1] == msgs[i].region);
    }
}

/// Takes in the transactions that arrived from the TPU, in order: a full
/// queue drops them unread, one that does not parse is dropped, a version-0
/// one is sent for lookup-table resolution in batches of a message's worth,
/// and any other is queued.
pub fn handle_tpu_messages(state: &mut FifoState, messages: &Vec<TpuTransaction>) -> (round: TpuRound)
    requires
        old(state).wf(),
        tpu_messages_valid(*old(state), messages@),
    ensures
        final(state).wf(),
        ({
            let outcomes = tpu_outcomes(messages@, old(state).queue().len(), messages@.len());
            &&& tpu_prefix_done(*old(state), *final(state), messages@, outcomes)
            &&& round.dropped@ == tpu_regions(messages@, outcomes, 0)
            &&& flatten(round.resolve_batches@) == tpu_regions(messages@, outcomes, 1)
        }),
        forall|j: int| 0 <= j < round.resolve_batches@.len() ==> {
            &&& 0 < (#[trigger] round.resolve_batches@[j])@.len() <= MAX_TRANSACTIONS_PER_MESSAGE
            &&& j < round.resolve_batches@.len() - 1 ==> round.resolve_batches@[j]@.len() == MAX_TRANSACTIONS_PER_MESSAGE
        },
{
    let ghost msgs = messages@;
    let ghost start = state.queue@.len();
    let mut dropped: Vec<TransactionRegion> = Vec::new();
    let mut resolve_batches: Vec<Vec<TransactionRegion>> = Vec::new();
    let mut batcher = ResolveBatcher::new();
    let ghost mut outcomes: Seq<TpuDisposition> = Seq::empty();
    let mut i: usize = 0;
    proof {
        assert(state.queue@ =~= old(state).queue() + tpu_regions(msgs, outcomes, 2).map_values(|r: TransactionRegion| r.offset));
        assert(flatten(resolve_batches@) + batcher.pending() =~= tpu_regions(msgs, outcomes, 1));
    }
    while i < messages.len()
        invariant
            state.wf(),
            msgs == messages@,
            start == old(state).queue().len(),
            tpu_messages_valid(*old(state), msgs),
            i <= msgs.len(),
            outcomes.len() == i,
            outcomes == tpu_outcomes(msgs, start, i as nat),
            tpu_prefix_done(*old(state), *state, msgs, outcomes),
            dropped@ == tpu_regions(msgs, outcomes, 0),
            flatten(resolve_batches@) + batcher.pending() == tpu_regions(msgs, outcomes, 1),
            batcher.pending().len() < MAX_TRANSACTIONS_PER_MESSAGE,
            forall|j: int| 0 <= j < resolve_batches@.len() ==> (#[trigger] resolve_batches@[j])@.len()
                == MAX_TRANSACTIONS_PER_MESSAGE,
        decreases msgs.len() - i,
    {
        let ghost before = *state;
        let ghost prev = outcomes;
        let message = &messages[i];
        proof {
            assert(state.queue@.len() == start + tpu_regions(msgs, prev, 2).len());
        }
        let d = classify_tpu_transaction(state.queue.len(), message.data.as_slice());
        let ghost dg = d;
        proof {
            assert(dg == tpu_decision(before.queue().len(), msgs[i as int].data@));
        }
        let ghost pending_before = batcher.pending();
        let ghost batches_before = resolve_batches@;
        match d {
            TpuDisposition::DropQueueFull => {
                dropped.push(message.region);
            },
            TpuDisposition::DropInvalid => {
                dropped.push(message.region);
            },
            TpuDisposition::Resolve => {
                match batcher.push(message.region) {
                    Some(full) => {
                        resolve_batches.push(full);
                        proof {
                            assert(resolve_batches@.drop_last() =~= batches_before);
                        }
                    },
                    None => {},
                }
            },
            TpuDisposition::Enqueue(layout) => {
                let offset = message.region.offset;
                let entry = FifoEntry {
                    transaction: TransactionEntry { sharable_transaction: message.region, layout, loaded_addresses: None },
                    resolved_pubkeys: None,
                };
                proof {
                    assert(!before.entries().contains_key(offset)) by {
                        assert forall|k: int| 0 <= k < prev.len() implies (#[trigger] msgs[k]).region.offset != offset by {
                            assert(msgs[k].region.offset != msgs[i as int].region.offset);
                        }
                        lemma_tpu_regions_avoid(msgs, prev, 2, offset);
                        if before.entries().contains_key(offset) {
                            assert(!old(state).entries().contains_key(msgs[i as int].region.offset));
                            let q0 = tpu_regions(msgs, prev, 2);
                            let j = choose|j: int| 0 <= j < q0.len() && #[trigger] q0[j].offset == offset;
                        }
                    }
                }
                state.offset_to_entry.insert(offset, entry);
                state.queue.push_back(offset);
                proof {
                    lemma_enqueue_wf(before, *state, offset, state.offset_to_entry@[offset]);
                }
            },
        }
        proof {
            outcomes = prev.push(dg);
            lemma_tpu_step(*old(state), before, *state, msgs, prev, dg);
            assert(outcomes.drop_last() =~= prev);
            let rs = tpu_regions(msgs, outcomes, 1);
            if dg is Resolve {
                assert(rs == tpu_regions(msgs, prev, 1).push(msgs[i as int].region));
                if resolve_batches@.len() > batches_before.len() {
                    assert(flatten(resolve_batches@) == flatten(batches_before) + resolve_batches@.last()@);
                    assert(flatten(resolve_batches@) + batcher.pending() =~= rs);
                } else {
                    assert(flatten(resolve_batches@) + batcher.pending() =~= rs);
                }
                assert forall|j: int| 0 <= j < resolve_batches@.len() implies (#[trigger] resolve_batches@[j])@.len()
                    == MAX_TRANSACTIONS_PER_MESSAGE by {
                    if j < batches_before.len() {
                        assert(resolve_batches@[j] == batches_before[j]);
                    }
                }
            } else {
                assert(rs == tpu_regions(msgs, prev, 1));
            }
        }
        i = i + 1;
    }
    let ghost batches_before = resolve_batches@;
    let ghost pending_before = batcher.pending();
    match batcher.finish() {
        Some(rest) => {
            resolve_batches.push(rest);
            proof {
                assert(resolve_batches@.drop_last() =~= batches_before);
                assert(flatten(resolve_batches@) =~= flatten(batches_before) + pending_before);
            }
        },
        None => {
            proof {
                assert(flatten(resolve_batches@) =~= flatten(batches_before) + pending_before);
            }
        },
    }
    proof {
        assert forall|j: int| 0 <= j < resolve_batches@.len() implies {
            &&& 0 < (#[trigger] resolve_batches@[j])@.len() <= MAX_TRANSACTIONS_PER_MESSAGE
            &&& j < resolve_batches@.len() - 1 ==> resolve_batches@[j]@.len() == MAX_TRANSACTIONS_PER_MESSAGE
        } by {
            if j < batches_before.len() {
                assert(resolve_batches@[j] == batches_before[j]);
            }
        }
    }
    TpuRound { dropped, resolve_batches }
}

/// Law: every transaction the FIFO scheduler keeps is either waiting in the
/// queue, once, or with a worker, never both; the queue never holds more
/// than `QUEUE_CAPACITY` transactions; the locks held are exactly those of
/// the transactions with the workers, each on its worker; and each worker's
/// count is the number of transactions it has.
pub proof fn lemma_fifo_accounting(s: FifoState)
    requires
        s.wf(),
    ensures
        s.queue().no_duplicates(),
        s.queue().len() <= QUEUE_CAPACITY,
        s.held_locks() == flight_grants(s.in_flight_order(), s.entries(), s.in_flight()),
        forall|o: usize| #[trigger] s.entries().contains_key(o) <==> (s.queue().contains(o) || s.in_flight().contains_key(o)),
        forall|o: usize| #[trigger] s.queue().contains(o) ==> !s.in_flight().contains_key(o),
        s.in_flight_order().no_duplicates(),
        forall|o: usize| #[trigger] s.in_flight().contains_key(o) <==> s.in_flight_order().contains(o),
        forall|o: usize| #[trigger] s.in_flight().contains_key(o) ==> s.in_flight()[o] < s.in_progress().len(),
        forall|t: int| 0 <= t < s.in_progress().len() ==> #[trigger] s.in_progress()[t] == flight_count(
            s.in_flight_order(),
            s.in_flight(),
            t as usize,
        ),
{
    assert forall|o: usize| #[trigger] s.entries().contains_key(o) <==> (s.queue().contains(o) || s.in_flight().contains_key(o)) by {
        if s.queue().contains(o) {
            let j = choose|j: int| 0 <= j < s.queue().len() && s.queue()[j] == o;
            assert(s.offset_to_entry@.contains_key(s.queue@[j]));
        }
    }
    assert forall|o: usize| #[trigger] s.queue().contains(o) implies !s.in_flight().contains_key(o) by {
        let j = choose|j: int| 0 <= j < s.queue().len() && s.queue()[j] == o;
        assert(!s.in_flight@.contains_key(s.queue@[j]));
    }
    assert forall|o: usize| #[trigger] s.in_flight().contains_key(o) <==> s.in_flight_order().contains(o) by {
        if s.in_flight_order().contains(o) {
            let j = choose|j: int| 0 <= j < s.flight_order@.len() && s.flight_order@[j] == o;
            assert(s.in_flight@.contains_key(s.flight_order@[j]));
        }
    }
}

/// Law: the transactions the workers have never conflict across workers:
/// of two transactions with two different workers, neither writes an
/// account that the other reads or writes.
pub proof fn lemma_in_flight_never_conflict(s: FifoState, a: usize, b: usize)
    requires
        s.wf(),
        s.in_flight().contains_key(a),
        s.in_flight().contains_key(b),
        s.in_flight()[a] != s.in_flight()[b],
    ensures
        !conflicts(fifo_access(s.entries()[a]), fifo_access(s.entries()[b])),
{
    let order = s.flight_order@;
    let i = choose|i: int| 0 <= i < order.len() && order[i] == a;
    let j = choose|j: int| 0 <= j < order.len() && order[j] == b;
    lemma_flight_holds(order, s.offset_to_entry@, s.in_flight@, i);
    lemma_flight_holds(order, s.offset_to_entry@, s.in_flight@, j);
    let ea = s.entries()[a].transaction;
    let eb = s.entries()[b].transaction;
    let ta = s.in_flight()[a];
    let tb = s.in_flight()[b];
    lemma_transaction_grants(ea.writable_keys(), ea.readonly_keys(), ta);
    lemma_transaction_grants(eb.writable_keys(), eb.readonly_keys(), tb);
    let held = s.held_locks();
    assert forall|k: Account| ea.writable_keys().contains(k) implies !eb.writable_keys().contains(k)
        && !eb.readonly_keys().contains(k) by {
        assert(held.count((k, ta, true)) > 0);
        if eb.writable_keys().contains(k) {
            assert(held.count((k, tb, true)) > 0);
        }
        if eb.readonly_keys().contains(k) {
            assert(held.count((k, tb, false)) > 0);
        }
    }
    assert forall|k: Account| eb.writable_keys().contains(k) implies !ea.readonly_keys().contains(k) by {
        assert(held.count((k, tb, true)) > 0);
        if ea.readonly_keys().contains(k) {
            assert(held.count((k, ta, false)) > 0);
        }
    }
}

} // verus!
