//! The greedy scheduler: transactions wait in a bounded heap of unchecked
//! transactions until a worker has checked them, then in a bounded heap of
//! checked transactions until the leader packs them, highest priority first,
//! within the block's remaining budget and without account conflicts inside
//! one pass.
use vstd::prelude::*;
use vstd::multiset::Multiset;
use std::collections::HashMap;
use min_max_heap::MinMaxHeap;
use crate::account_keys::{TransactionEntry, TransactionLayout};
use crate::heap::{heap_contents, heap_is_empty, heap_len, heap_pop_max, heap_pop_min, heap_push, heap_with_capacity, is_max_of, is_min_of};
use crate::locks::{Account, AccountAccess, LockTable, lock_table_clear, lock_table_new, no_locks, reserve, reserve_accounts, reserve_all, pairwise_conflict_free, lemma_pass_conflict_free};
use crate::priority::{HeapItem, PriorityId, item_le, priority_id, spec_priority, spec_reward, burn_within_fee, BURN_PERCENT, LAMPORTS_PER_SIGNATURE};
use crate::protocol::{CheckFlags, PubkeysRegion, ProgressSnapshot, TransactionRegion, CHECK_RESPONSE, EXECUTION_RESPONSE, FEE_PAYER_BALANCE_PERFORMED, FEE_PAYER_BALANCE_REQUESTED, IS_LEADER, IS_NOT_LEADER, MAX_BLOCK_UNITS, MAX_TRANSACTIONS_PER_MESSAGE, MAX_WORKING_SLOT_EXCEEDED, PARSING_FAILED, PROCESSED, RESOLVE_PERFORMED, RESOLVE_REQUESTED, STATUS_PERFORMED, STATUS_REQUESTED};

verus! {

broadcast use vstd::multiset::group_multiset_axioms, vstd::std_specs::hash::group_hash_axioms;

/// Capacity of the unchecked heap.
pub const UNCHECKED_CAPACITY: usize = 65536;
/// Capacity of the checked heap.
pub const CHECKED_CAPACITY: usize = 65536;
/// How many percentage points before the end of the slot the block should
/// be filled.
pub const BLOCK_FILL_CUTOFF: u8 = 20;

/// Where a transaction stands in the scheduler.
#[derive(Clone, Copy, Debug, PartialEq, Eq, Structural)]
pub enum Phase {
    Unchecked,
    Checking,
    Checked,
    Executing,
}

/// What the scheduler keeps of a transaction.
#[derive(Debug)]
pub struct GreedyEntry {
    pub transaction: TransactionEntry,
    pub resolved_pubkeys: Option<PubkeysRegion>,
    pub phase: Phase,
}

/// A transaction dropped by the scheduler, handed back so that its memory
/// can be released.
#[derive(Debug)]
pub struct DroppedTransaction {
    pub id: PriorityId,
    pub entry: GreedyEntry,
}

/// The cost and fee details of a transaction, as the runtime computes them.
#[derive(Clone, Copy, Debug, PartialEq, Eq, Structural)]
pub struct TransactionCosts {
    pub cost: u64,
    pub transaction_fee: u64,
    pub prioritization_fee: u64,
}

/// What a worker message asks of the scheduler.
#[derive(Clone, Copy, Debug, PartialEq, Eq, Structural)]
pub enum WorkerMessageKind {
    /// The batch expired before a worker took it; only its responses are released.
    Expired,
    /// Check responses.
    Check,
    /// Execution responses.
    Execute,
}

/// The items of a sequence, as a multiset.
pub open spec fn items_multiset(s: Seq<HeapItem>) -> Multiset<HeapItem>
    decreases s.len(),
{
    if s.len() == 0 {
        Multiset::empty()
    } else {
        items_multiset(s.drop_last()).insert(s.last())
    }
}

/// No key occurs in two items of `m`, nor twice.
pub open spec fn keys_unique(m: Multiset<HeapItem>) -> bool {
    &&& forall|x: HeapItem| m.count(x) <= 1
    &&& forall|x: HeapItem, y: HeapItem| m.count(x) > 0 && m.count(y) > 0 && x.2 == y.2 ==> x == y
}

/// The sequence is in non-increasing heap order.
pub open spec fn descending(s: Seq<HeapItem>) -> bool {
    forall|i: int, j: int| 0 <= i < j < s.len() ==> item_le(s[j], s[i])
}

pub open spec fn dropped_items(s: Seq<DroppedTransaction>) -> Seq<HeapItem> {
    s.map_values(|d: DroppedTransaction| d.id.item())
}

/// The flags report a failed parse or a failed status check.
pub open spec fn spec_check_failed(flags: CheckFlags) -> bool {
    flags.parsing_and_sanitization_flags == PARSING_FAILED || flags.status_check_flags >= 4
}

/// Law: a check fails exactly when the worker reports a failed parse, or a
/// status flag other than "requested" and "performed".
pub proof fn lemma_check_failure_flags(flags: CheckFlags)
    ensures
        spec_check_failed(flags) == (flags.parsing_and_sanitization_flags == PARSING_FAILED
            || flags.status_check_flags & !(STATUS_REQUESTED | STATUS_PERFORMED) != 0),
{
    let f = flags.status_check_flags;
    assert((f >= 4) == (f & !(1u8 | 2u8) != 0)) by (bit_vector);
}

/// The flags of a successful check report every requested check performed.
pub open spec fn check_flags_sane(flags: CheckFlags) -> bool {
    &&& flags.status_check_flags & STATUS_REQUESTED != 0
    &&& flags.status_check_flags & STATUS_PERFORMED != 0
    &&& flags.resolve_flags == (RESOLVE_REQUESTED | RESOLVE_PERFORMED)
    &&& flags.fee_payer_balance_flags == (FEE_PAYER_BALANCE_REQUESTED | FEE_PAYER_BALANCE_PERFORMED)
}

/// Whether a check response reports a failure.
pub fn check_failed(flags: &CheckFlags) -> (failed: bool)
    ensures
        failed == spec_check_failed(*flags),
{
    let status = flags.status_check_flags;
    let status_failed = status & !(STATUS_REQUESTED | STATUS_PERFORMED) != 0;
    assert(status_failed == (status >= 4)) by (bit_vector)
        requires
            status_failed == (status & !(1u8 | 2u8) != 0),
    ;
    flags.parsing_and_sanitization_flags == PARSING_FAILED || status_failed
}

/// Percentage of the block the leader aims to have filled by now.
pub open spec fn budget_percentage(current_slot_progress: u8) -> u64 {
    if current_slot_progress + BLOCK_FILL_CUTOFF < 100 {
        (current_slot_progress + BLOCK_FILL_CUTOFF) as u64
    } else {
        100
    }
}

/// Cost units the leader may still hand out in this pass: the targeted share
/// of a block, less the units already used by the bank and those in flight.
pub open spec fn spec_execute_budget(progress: ProgressSnapshot, in_flight_cost: u32) -> u64 {
    let limit = MAX_BLOCK_UNITS * budget_percentage(progress.current_slot_progress) / 100;
    let used = (if progress.remaining_cost_units <= MAX_BLOCK_UNITS {
        MAX_BLOCK_UNITS - progress.remaining_cost_units
    } else {
        0
    }) + in_flight_cost;
    if used <= limit {
        (limit - used) as u64
    } else {
        0
    }
}

/// Tells apart the worker messages: expired batches, check responses and
/// execution responses.
pub fn classify_worker_message(processed_code: u8, tag: u8) -> (kind: WorkerMessageKind)
    requires
        processed_code == MAX_WORKING_SLOT_EXCEEDED || (processed_code == PROCESSED && (tag == CHECK_RESPONSE
            || tag == EXECUTION_RESPONSE)),
    ensures
        kind == (if processed_code == MAX_WORKING_SLOT_EXCEEDED {
            WorkerMessageKind::Expired
        } else if tag == CHECK_RESPONSE {
            WorkerMessageKind::Check
        } else {
            WorkerMessageKind::Execute
        }),
{
    if processed_code == MAX_WORKING_SLOT_EXCEEDED {
        WorkerMessageKind::Expired
    } else if tag == CHECK_RESPONSE {
        WorkerMessageKind::Check
    } else {
        WorkerMessageKind::Execute
    }
}

} // verus!

verus! {

/// The greedy scheduler's state.
pub struct GreedyScheduler {
    progress: ProgressSnapshot,
    lamports_per_signature: u64,
    burn_percent: u64,
    unchecked: MinMaxHeap<HeapItem>,
    checked: MinMaxHeap<HeapItem>,
    state: HashMap<u64, GreedyEntry>,
    next_key: u64,
    in_flight_cost: u32,
    schedule_locks: LockTable,
    budget_remaining: u64,
    pass_accepted: Ghost<Seq<AccountAccess>>,
    executing: Ghost<Seq<PriorityId>>,
    returns_matched: Ghost<bool>,
    locks_consistent: Ghost<bool>,
}

impl GreedyScheduler {
    pub closed spec fn progress(&self) -> ProgressSnapshot {
        self.progress
    }

    pub closed spec fn burn_percent(&self) -> u64 {
        self.burn_percent
    }

    pub closed spec fn unchecked_items(&self) -> Multiset<HeapItem> {
        heap_contents(self.unchecked)
    }

    pub closed spec fn checked_items(&self) -> Multiset<HeapItem> {
        heap_contents(self.checked)
    }

    pub closed spec fn entries(&self) -> Map<u64, GreedyEntry> {
        self.state@
    }

    pub closed spec fn next_key(&self) -> u64 {
        self.next_key
    }

    pub closed spec fn in_flight(&self) -> u32 {
        self.in_flight_cost
    }

    pub closed spec fn budget(&self) -> u64 {
        self.budget_remaining
    }

    pub closed spec fn locks(&self) -> Map<Account, bool> {
        self.schedule_locks@
    }

    /// The accounts of the transactions handed out in the current pass.
    pub closed spec fn pass_accepted(&self) -> Seq<AccountAccess> {
        self.pass_accepted@
    }

    /// The identifiers handed out for execution and not yet reported
    /// executed, in the order they were handed out.
    pub closed spec fn executing(&self) -> Seq<PriorityId> {
        self.executing@
    }

    /// Every identifier reported executed so far was one handed out and not
    /// yet reported.
    pub closed spec fn returns_matched(&self) -> bool {
        self.returns_matched@
    }

    /// The scheduler's invariant.
    pub closed spec fn wf(&self) -> bool {
        &&& forall|x: HeapItem| #[trigger] heap_contents(self.unchecked).count(x) > 0 ==> {
            &&& self.state@.contains_key(x.2)
            &&& self.state@[x.2].phase == Phase::Unchecked
        }
        &&& forall|x: HeapItem| #[trigger] heap_contents(self.checked).count(x) > 0 ==> {
            &&& self.state@.contains_key(x.2)
            &&& self.state@[x.2].phase == Phase::Checked
        }
        &&& keys_unique(heap_contents(self.unchecked))
        &&& keys_unique(heap_contents(self.checked))
        &&& forall|k: u64| #[trigger] self.state@.contains_key(k) ==> k < self.next_key
        &&& heap_contents(self.checked).len() <= CHECKED_CAPACITY
        &&& heap_contents(self.unchecked).len() <= UNCHECKED_CAPACITY
        &&& self.burn_percent == BURN_PERCENT
        &&& self.lamports_per_signature == LAMPORTS_PER_SIGNATURE
        &&& self.budget_remaining + self.in_flight_cost <= MAX_BLOCK_UNITS
        &&& self.returns_matched@ ==> self.in_flight_cost == ids_cost(self.executing@)
        &&& pairwise_conflict_free(self.pass_accepted@)
        &&& self.budget_remaining > 0 ==> self.locks_consistent@
        &&& self.locks_consistent@ ==> reserve_all(no_locks(), self.pass_accepted@) == Some(self.schedule_locks@)
    }

    /// A scheduler that knows of no transaction, is not leader, and uses the
    /// default fee parameters.
    pub fn new() -> (s: Self)
        ensures
            s.wf(),
            s.progress() == (ProgressSnapshot {
                leader_state: IS_NOT_LEADER,
                current_slot: 0,
                next_leader_slot: u64::MAX,
                leader_range_end: u64::MAX,
                remaining_cost_units: 0,
                current_slot_progress: 0,
            }),
            s.burn_percent() == BURN_PERCENT,
            s.unchecked_items() =~= Multiset::<HeapItem>::empty(),
            s.checked_items() =~= Multiset::<HeapItem>::empty(),
            s.entries() =~= Map::<u64, GreedyEntry>::empty(),
            s.in_flight() == 0,
            s.budget() == 0,
    {
        GreedyScheduler {
            progress: ProgressSnapshot {
                leader_state: IS_NOT_LEADER,
                current_slot: 0,
                next_leader_slot: u64::MAX,
                leader_range_end: u64::MAX,
                remaining_cost_units: 0,
                current_slot_progress: 0,
            },
            lamports_per_signature: LAMPORTS_PER_SIGNATURE,
            burn_percent: BURN_PERCENT,
            unchecked: heap_with_capacity(UNCHECKED_CAPACITY),
            checked: heap_with_capacity(UNCHECKED_CAPACITY),
            state: HashMap::new(),
            next_key: 0,
            in_flight_cost: 0,
            schedule_locks: lock_table_new(),
            budget_remaining: 0,
            pass_accepted: Ghost(Seq::empty()),
            executing: Ghost(Seq::empty()),
            returns_matched: Ghost(true),
            locks_consistent: Ghost(false),
        }
    }

    /// Keeps the latest of the progress messages, if any arrived.
    pub fn drain_progress(&mut self, messages: &Vec<ProgressSnapshot>)
        requires
            old(self).wf(),
        ensures
            final(self).wf(),
            final(self).progress() == (if messages@.len() == 0 {
                old(self).progress()
            } else {
                messages@.last()
            }),
            final(self).unchecked_items() == old(self).unchecked_items(),
            final(self).checked_items() == old(self).checked_items(),
            final(self).entries() == old(self).entries(),
            final(self).in_flight() == old(self).in_flight(),
            final(self).executing() == old(self).executing(),
            final(self).returns_matched() == old(self).returns_matched(),
    {
        let n = messages.len();
        if n > 0 {
            self.progress = messages[n - 1];
        }
    }

    /// Whether the validator is leader now.
    pub fn is_leader(&self) -> (b: bool)
        ensures
            b == (self.progress().leader_state == IS_LEADER),
    {
        self.progress.leader_state == IS_LEADER
    }

    /// Number of transactions waiting for a check.
    pub fn unchecked_len(&self) -> (n: usize)
        ensures
            n == self.unchecked_items().len(),
    {
        heap_len(&self.unchecked)
    }

    /// Number of checked transactions waiting to be packed.
    pub fn checked_len(&self) -> (n: usize)
        ensures
            n == self.checked_items().len(),
    {
        heap_len(&self.checked)
    }

    /// How many new transactions a poll takes in at most: fewer while the
    /// validator leads, to leave time for packing.
    pub fn tpu_limit(&self) -> (max: usize)
        ensures
            max == (if self.progress().leader_state == IS_LEADER { 128usize } else { 1024usize }),
    {
        if self.progress.leader_state == IS_LEADER {
            128
        } else {
            1024
        }
    }

    /// The phase of the transaction kept under `key`, if one is.
    pub fn phase_of(&self, key: u64) -> (phase: Option<Phase>)
        ensures
            phase == (if self.entries().contains_key(key) {
                Some(self.entries()[key].phase)
            } else {
                None
            }),
    {
        match self.state.get(&key) {
            Some(entry) => Some(entry.phase),
            None => None,
        }
    }

    /// The cost units handed to workers and not yet executed.
    pub fn in_flight_cost(&self) -> (cost: u32)
        ensures
            cost == self.in_flight(),
    {
        self.in_flight_cost
    }

    /// Whether every key has been handed out, so that no transaction can be
    /// taken in any more.
    pub fn keys_exhausted(&self) -> (b: bool)
        ensures
            b == (self.next_key() == u64::MAX),
    {
        self.next_key == u64::MAX
    }

    /// The fee parameters of the runtime: lamports per signature and the
    /// burnt share of the base fee in percent.
    pub fn fee_parameters(&self) -> (p: (u64, u64))
        requires
            self.wf(),
        ensures
            p == (LAMPORTS_PER_SIGNATURE, self.burn_percent()),
    {
        (self.lamports_per_signature, self.burn_percent)
    }
}

} // verus!

verus! {

/// How many new transactions to take in (`additional`) and how many unchecked
/// ones to evict first (`shortfall`): the unchecked transactions plus the new
/// ones, beyond the capacity of the unchecked heap.
pub open spec fn spec_tpu_intake(unchecked_len: nat, available: usize, max: usize) -> (usize, usize) {
    let additional = if available <= max {
        available
    } else {
        max
    };
    let total = unchecked_len + additional;
    (additional, if total > UNCHECKED_CAPACITY {
        (total - UNCHECKED_CAPACITY) as usize
    } else {
        0
    })
}

/// Law: the intake takes in all the available transactions up to `max`;
/// evicting the shortfall makes room for all of them, and no more is evicted
/// than needed: with a shortfall the heap ends exactly full. As long as at
/// most a heap's worth arrive, the shortfall never exceeds the unchecked
/// transactions there are.
pub proof fn lemma_intake_makes_room(unchecked_len: nat, available: usize, max: usize)
    requires
        unchecked_len <= UNCHECKED_CAPACITY,
    ensures
        ({
            let (additional, shortfall) = spec_tpu_intake(unchecked_len, available, max);
            &&& additional <= available && additional <= max
            &&& (additional == available || additional == max)
            &&& shortfall == 0 ==> unchecked_len + additional <= UNCHECKED_CAPACITY
            &&& shortfall > 0 ==> unchecked_len + additional - shortfall == UNCHECKED_CAPACITY
            &&& additional <= UNCHECKED_CAPACITY ==> shortfall <= unchecked_len
            &&& additional <= UNCHECKED_CAPACITY ==> unchecked_len - shortfall + additional <= UNCHECKED_CAPACITY
        }),
{
}

impl GreedyScheduler {
    /// Decides how many of the `available` new transactions to take in (at
    /// most `max`) and how many unchecked transactions to evict first.
    pub fn tpu_intake(&self, available: usize, max: usize) -> (r: (usize, usize))
        requires
            self.wf(),
        ensures
            r == spec_tpu_intake(self.unchecked_items().len(), available, max),
    {
        let additional = if available <= max {
            available
        } else {
            max
        };
        let unchecked_len = heap_len(&self.unchecked);
        assert(unchecked_len <= UNCHECKED_CAPACITY);
        let shortfall = if additional > UNCHECKED_CAPACITY - unchecked_len {
            additional - (UNCHECKED_CAPACITY - unchecked_len)
        } else {
            0
        };
        (additional, shortfall)
    }

    /// Evicts the `count` lowest-priority unchecked transactions and hands
    /// them back, in the order they left.
    pub fn evict_unchecked(&mut self, count: usize) -> (dropped: Vec<DroppedTransaction>)
        requires
            old(self).wf(),
            count <= old(self).unchecked_items().len(),
        ensures
            final(self).wf(),
            lowest_evicted(*old(self), *final(self), dropped@, count as nat),
    {
        let mut dropped: Vec<DroppedTransaction> = Vec::new();
        let mut i: usize = 0;
        while i < count
            invariant
                self.wf(),
                self.executing() == old(self).executing(),
                self.returns_matched() == old(self).returns_matched(),
                i <= count,
                count <= old(self).unchecked_items().len(),
                dropped@.len() == i,
                old(self).unchecked_items() == self.unchecked_items().add(items_multiset(dropped_items(dropped@))),
                forall|j: int, y: HeapItem| #![trigger dropped@[j].id.item(), self.unchecked_items().count(y)]
                    0 <= j < dropped@.len() && self.unchecked_items().count(y) > 0 ==> item_le(dropped@[j].id.item(), y),
                forall|j: int| 0 <= j < dropped@.len() ==> {
                    &&& old(self).entries().contains_key(#[trigger] dropped@[j].id.key)
                    &&& dropped@[j].entry == old(self).entries()[dropped@[j].id.key]
                    &&& !self.entries().contains_key(dropped@[j].id.key)
                },
                forall|k: u64| #[trigger] self.entries().contains_key(k) ==>
                    old(self).entries().contains_key(k) && self.entries()[k] == old(self).entries()[k],
                self.checked_items() == old(self).checked_items(),
                self.in_flight() == old(self).in_flight(),
                self.progress() == old(self).progress(),
                self.next_key() == old(self).next_key(),
                self.burn_percent() == old(self).burn_percent(),
            decreases count - i,
        {
            proof {
                assert(items_multiset(dropped_items(dropped@)).len() == dropped@.len()) by {
                    lemma_items_multiset_len(dropped_items(dropped@));
                }
            }
            let ghost before = self.unchecked_items();
            let popped = heap_pop_min(&mut self.unchecked);
            let item = match popped {
                Some(item) => item,
                None => {
                    proof {
                        assert(false);
                    }
                    return dropped;
                },
            };
            let entry = match self.state.remove(&item.2) {
                Some(entry) => entry,
                None => {
                    proof {
                        assert(false);
                    }
                    return dropped;
                },
            };
            let ghost prev = dropped@;
            dropped.push(DroppedTransaction { id: PriorityId::from_item(item), entry });
            proof {
                assert(dropped_items(dropped@) =~= dropped_items(prev).push(item));
                assert(dropped_items(dropped@).drop_last() =~= dropped_items(prev));
                assert(items_multiset(dropped_items(dropped@)) =~= items_multiset(dropped_items(prev)).insert(item));
                assert(old(self).unchecked_items() =~= self.unchecked_items().add(items_multiset(dropped_items(dropped@))));
                assert forall|x: HeapItem| #[trigger] heap_contents(self.unchecked).count(x) > 0 implies {
                    &&& self.state@.contains_key(x.2)
                    &&& self.state@[x.2].phase == Phase::Unchecked
                } by {
                    assert(before.count(x) > 0);
                    if x.2 == item.2 {
                        assert(x == item);
                    }
                }
            }
            i = i + 1;
        }
        dropped
    }

    /// Takes in a parsed transaction: `None` when its costs could not be
    /// computed or its reward overflows; otherwise it joins the unchecked
    /// heap under a fresh key.
    pub fn admit_transaction(&mut self, region: TransactionRegion, layout: TransactionLayout, costs: Option<TransactionCosts>) -> (r: Option<PriorityId>)
        requires
            old(self).wf(),
            old(self).next_key() < u64::MAX,
            old(self).unchecked_items().len() < UNCHECKED_CAPACITY,
            costs matches Some(c) ==> c.cost <= u32::MAX,
        ensures
            final(self).wf(),
            r == (match costs {
                None => None,
                Some(c) => match spec_reward(c.transaction_fee, c.prioritization_fee, old(self).burn_percent()) {
                    None => None,
                    Some(reward) => Some(PriorityId {
                        priority: spec_priority(reward, c.cost),
                        cost: c.cost as u32,
                        key: old(self).next_key(),
                    }),
                },
            }),
            match r {
                None => {
                    &&& final(self).unchecked_items() == old(self).unchecked_items()
                    &&& final(self).entries() == old(self).entries()
                    &&& final(self).next_key() == old(self).next_key()
                },
                Some(id) => {
                    &&& final(self).unchecked_items() == old(self).unchecked_items().insert(id.item())
                    &&& final(self).entries() == old(self).entries().insert(id.key, GreedyEntry {
                        transaction: TransactionEntry {
                            sharable_transaction: region,
                            layout: layout,
                            loaded_addresses: None,
                        },
                        resolved_pubkeys: None,
                        phase: Phase::Unchecked,
                    })
                    &&& final(self).next_key() == old(self).next_key() + 1
                },
            },
            final(self).checked_items() == old(self).checked_items(),
            final(self).in_flight() == old(self).in_flight(),
            final(self).progress() == old(self).progress(),
            final(self).burn_percent() == old(self).burn_percent(),
            final(self).executing() == old(self).executing(),
            final(self).returns_matched() == old(self).returns_matched(),
    {
        let costs = match costs {
            Some(c) => c,
            None => return None,
        };
        let burn_percent = self.burn_percent;
        proof {
            lemma_half_burn_within_fee(costs.transaction_fee);
        }
        let key = self.next_key;
        let id = match priority_id(costs.transaction_fee, costs.prioritization_fee, burn_percent, costs.cost, key) {
            Some(id) => id,
            None => return None,
        };
        let ghost before = self.unchecked_items();
        let entry = GreedyEntry {
            transaction: TransactionEntry { sharable_transaction: region, layout, loaded_addresses: None },
            resolved_pubkeys: None,
            phase: Phase::Unchecked,
        };
        self.state.insert(key, entry);
        heap_push(&mut self.unchecked, id.to_item());
        self.next_key = key + 1;
        proof {
            assert forall|x: HeapItem| #[trigger] heap_contents(self.unchecked).count(x) > 0 implies {
                &&& self.state@.contains_key(x.2)
                &&& self.state@[x.2].phase == Phase::Unchecked
            } by {
                if x != id.item() {
                    assert(before.count(x) > 0);
                }
            }
            assert forall|x: HeapItem, y: HeapItem| heap_contents(self.unchecked).count(x) > 0
                && heap_contents(self.unchecked).count(y) > 0 && x.2 == y.2 implies x == y by {
                if x != id.item() {
                    assert(before.count(x) > 0);
                }
                if y != id.item() {
                    assert(before.count(y) > 0);
                }
            }
            assert forall|x: HeapItem| heap_contents(self.unchecked).count(x) <= 1 by {
                if x == id.item() {
                    if before.count(x) > 0 {
                        assert(old(self).state@.contains_key(x.2));
                    }
                }
            }
            assert forall|x: HeapItem| #[trigger] heap_contents(self.checked).count(x) > 0 implies {
                &&& self.state@.contains_key(x.2)
                &&& self.state@[x.2].phase == Phase::Checked
            } by {
                assert(old(self).state@.contains_key(x.2));
            }
        }
        Some(id)
    }
}

proof fn lemma_half_burn_within_fee(transaction_fee: u64)
    ensures
        burn_within_fee(transaction_fee, BURN_PERCENT),
{
}

proof fn lemma_items_multiset_len(s: Seq<HeapItem>)
    ensures
        items_multiset(s).len() == s.len(),
    decreases s.len(),
{
    if s.len() > 0 {
        lemma_items_multiset_len(s.drop_last());
    }
}

} // verus!

verus! {

pub open spec fn batch_items(s: Seq<(PriorityId, TransactionRegion)>) -> Seq<HeapItem> {
    s.map_values(|e: (PriorityId, TransactionRegion)| e.0.item())
}

pub open spec fn min_usize(a: nat, b: nat) -> nat {
    if a <= b {
        a
    } else {
        b
    }
}

impl GreedyScheduler {
    /// Moves the entry of `key` to `phase`, leaving the rest of it unchanged.
    fn set_phase(&mut self, key: u64, phase: Phase)
        requires
            old(self).state@.contains_key(key),
        ensures
            final(self).state@ == old(self).state@.insert(key, GreedyEntry { phase, ..old(self).state@[key] }),
            final(self).unchecked == old(self).unchecked,
            final(self).checked == old(self).checked,
            final(self).progress == old(self).progress,
            final(self).lamports_per_signature == old(self).lamports_per_signature,
            final(self).burn_percent == old(self).burn_percent,
            final(self).next_key == old(self).next_key,
            final(self).in_flight_cost == old(self).in_flight_cost,
            final(self).schedule_locks == old(self).schedule_locks,
            final(self).budget_remaining == old(self).budget_remaining,
            final(self).pass_accepted == old(self).pass_accepted,
            final(self).locks_consistent == old(self).locks_consistent,
            final(self).executing == old(self).executing,
            final(self).returns_matched == old(self).returns_matched,
    {
        match self.state.remove(&key) {
            Some(entry) => {
                let updated = GreedyEntry { phase, ..entry };
                self.state.insert(key, updated);
            },
            None => {},
        }
    }

    /// Collects the next check batch: the highest-priority unchecked
    /// transactions, at most a message's worth, best first; they are marked
    /// as being checked.
    pub fn take_check_batch(&mut self) -> (batch: Vec<(PriorityId, TransactionRegion)>)
        requires
            old(self).wf(),
        ensures
            final(self).wf(),
            check_batch_taken(*old(self), *final(self), batch@),
    {
        let mut batch: Vec<(PriorityId, TransactionRegion)> = Vec::new();
        let mut exhausted = false;
        while !exhausted && batch.len() < MAX_TRANSACTIONS_PER_MESSAGE
            invariant
                self.wf(),
                self.executing() == old(self).executing(),
                self.returns_matched() == old(self).returns_matched(),
                batch@.len() <= MAX_TRANSACTIONS_PER_MESSAGE,
                exhausted ==> self.unchecked_items().len() == 0,
                old(self).unchecked_items() == self.unchecked_items().add(items_multiset(batch_items(batch@))),
                descending(batch_items(batch@)),
                forall|i: int, y: HeapItem| #![trigger batch@[i].0.item(), self.unchecked_items().count(y)]
                    0 <= i < batch@.len() && self.unchecked_items().count(y) > 0 ==> item_le(y, batch@[i].0.item()),
                forall|i: int| 0 <= i < batch@.len() ==> {
                    &&& old(self).entries().contains_key(#[trigger] batch@[i].0.key)
                    &&& batch@[i].1 == old(self).entries()[batch@[i].0.key].transaction.sharable_transaction
                    &&& self.entries().contains_key(batch@[i].0.key)
                    &&& self.entries()[batch@[i].0.key].phase == Phase::Checking
                },
                forall|k: u64| #[trigger] self.entries().contains_key(k) && old(self).entries()[k].phase != Phase::Unchecked
                    ==> self.entries()[k] == old(self).entries()[k],
                forall|k: u64| #[trigger] self.entries().contains_key(k) ==>
                    self.entries()[k].transaction == old(self).entries()[k].transaction,
                self.entries().dom() == old(self).entries().dom(),
                self.checked_items() == old(self).checked_items(),
                self.in_flight() == old(self).in_flight(),
                self.progress() == old(self).progress(),
                self.next_key() == old(self).next_key(),
                self.budget() == old(self).budget(),
            decreases MAX_TRANSACTIONS_PER_MESSAGE - batch@.len() + (if exhausted { 0int } else { 1int }),
        {
            proof {
                lemma_items_multiset_len(batch_items(batch@));
            }
            let ghost before = self.unchecked_items();
            let ghost state_before = self.state@;
            let item = match heap_pop_max(&mut self.unchecked) {
                Some(item) => item,
                None => {
                    exhausted = true;
                    continue;
                },
            };
            let key = item.2;
            assert(self.state@.contains_key(key));
            let region = match self.state.get(&key) {
                Some(entry) => entry.transaction.sharable_transaction,
                None => {
                    proof {
                        assert(false);
                    }
                    return batch;
                },
            };
            self.set_phase(key, Phase::Checking);
            let ghost prev = batch@;
            batch.push((PriorityId::from_item(item), region));
            proof {
                assert(batch_items(batch@) =~= batch_items(prev).push(item));
                assert(batch_items(batch@).drop_last() =~= batch_items(prev));
                assert(items_multiset(batch_items(batch@)) =~= items_multiset(batch_items(prev)).insert(item));
                assert(old(self).unchecked_items() =~= self.unchecked_items().add(items_multiset(batch_items(batch@))));
                assert(state_before[key].phase == Phase::Unchecked);
                assert forall|x: HeapItem| #[trigger] heap_contents(self.unchecked).count(x) > 0 implies {
                    &&& self.state@.contains_key(x.2)
                    &&& self.state@[x.2].phase == Phase::Unchecked
                } by {
                    assert(before.count(x) > 0);
                    if x.2 == key {
                        assert(x == item);
                    }
                }
                assert forall|x: HeapItem| #[trigger] heap_contents(self.checked).count(x) > 0 implies {
                    &&& self.state@.contains_key(x.2)
                    &&& self.state@[x.2].phase == Phase::Checked
                } by {
                    assert(state_before[x.2].phase == Phase::Checked);
                }
                assert forall|i: int, j: int| 0 <= i < j < batch_items(batch@).len() implies item_le(
                    batch_items(batch@)[j],
                    batch_items(batch@)[i],
                ) by {
                    if j == prev.len() {
                        assert(batch_items(batch@)[i] == batch@[i].0.item());
                        assert(before.count(item) > 0);
                    } else {
                        assert(batch_items(batch@)[i] == batch_items(prev)[i]);
                        assert(batch_items(batch@)[j] == batch_items(prev)[j]);
                    }
                }
                assert forall|i: int, y: HeapItem| #![trigger batch@[i].0.item(), self.unchecked_items().count(y)]
                    0 <= i < batch@.len() && self.unchecked_items().count(y) > 0 implies item_le(y, batch@[i].0.item()) by {
                    assert(before.count(y) > 0);
                    if i < prev.len() {
                        assert(batch@[i] == prev[i]);
                    }
                }
                assert forall|i: int| 0 <= i < batch@.len() implies {
                    &&& old(self).entries().contains_key(#[trigger] batch@[i].0.key)
                    &&& batch@[i].1 == old(self).entries()[batch@[i].0.key].transaction.sharable_transaction
                    &&& self.entries().contains_key(batch@[i].0.key)
                    &&& self.entries()[batch@[i].0.key].phase == Phase::Checking
                } by {
                    if i < prev.len() {
                        assert(batch@[i] == prev[i]);
                    } else {
                        assert(old(self).entries()[key].phase == Phase::Unchecked || old(self).entries()[key] == state_before[key]);
                    }
                }
            }
        }
        proof {
            lemma_items_multiset_len(batch_items(batch@));
            assert(batch_items(batch@).len() == batch@.len());
            assert(old(self).unchecked_items().len() == self.unchecked_items().len()
                + items_multiset(batch_items(batch@)).len());
            assert(exhausted || batch@.len() == MAX_TRANSACTIONS_PER_MESSAGE);
            if exhausted {
                assert(batch@.len() == old(self).unchecked_items().len());
            } else {
                assert(batch@.len() <= old(self).unchecked_items().len());
            }
        }
        batch
    }
}

} // verus!

verus! {

/// What became of a checked transaction.
#[derive(Debug)]
pub enum CheckOutcome {
    /// The check failed and the transaction was dropped.
    Dropped(DroppedTransaction),
    /// The transaction joined the checked heap; when that heap was full, its
    /// lowest-priority transaction was evicted first.
    Admitted(Option<DroppedTransaction>),
}

/// The entry of a transaction that passed its check.
pub open spec fn checked_entry(entry: GreedyEntry, flags: CheckFlags, resolved_keys: Vec<Account>) -> GreedyEntry {
    if flags.resolved_pubkeys.num_pubkeys > 0 {
        GreedyEntry {
            transaction: TransactionEntry {
                loaded_addresses: Some(resolved_keys),
                ..entry.transaction
            },
            resolved_pubkeys: Some(flags.resolved_pubkeys),
            phase: Phase::Checked,
        }
    } else {
        GreedyEntry { phase: Phase::Checked, ..entry }
    }
}

/// Law: a transaction that passes its check keeps its region and layout;
/// when the answer resolves addresses, its accounts become its static keys
/// followed by exactly the resolved ones (so the looked-up accounts it writes
/// count among its written accounts), and the resolved region is kept to be
/// released later; when it resolves none, the transaction is left as it was.
pub proof fn lemma_check_keeps_resolved_keys(entry: GreedyEntry, flags: CheckFlags, resolved_keys: Vec<Account>)
    ensures
        ({
            let e = checked_entry(entry, flags, resolved_keys);
            &&& e.phase == Phase::Checked
            &&& e.transaction.sharable_transaction == entry.transaction.sharable_transaction
            &&& e.transaction.layout == entry.transaction.layout
            &&& flags.resolved_pubkeys.num_pubkeys > 0 ==> {
                &&& e.transaction.loaded_addresses == Some(resolved_keys)
                &&& e.transaction.all_keys() == entry.transaction.layout.static_account_keys@ + resolved_keys@
                &&& e.resolved_pubkeys == Some(flags.resolved_pubkeys)
            }
            &&& flags.resolved_pubkeys.num_pubkeys == 0 ==> {
                &&& e.transaction == entry.transaction
                &&& e.resolved_pubkeys == entry.resolved_pubkeys
            }
        }),
{
}

/// Law: the budget of an execution pass fills the targeted share of the
/// block, `min(progress + 20, 100)` percent of it, on top of the cost the
/// bank has used (the block's units minus those remaining, at least zero)
/// and the cost still in flight with the workers: budget, used and in-flight
/// cost add up to the target exactly, and the budget is zero once used and
/// in-flight cost reach it.
pub proof fn lemma_pass_budget_fills_target(progress: ProgressSnapshot, in_flight_cost: u32)
    ensures
        ({
            let budget = spec_execute_budget(progress, in_flight_cost);
            let percent: int = if progress.current_slot_progress + 20 < 100 {
                progress.current_slot_progress + 20
            } else {
                100
            };
            let target = MAX_BLOCK_UNITS * percent / 100;
            let bank_used: int = if progress.remaining_cost_units <= MAX_BLOCK_UNITS {
                MAX_BLOCK_UNITS - progress.remaining_cost_units
            } else {
                0
            };
            &&& budget + bank_used + in_flight_cost <= target || budget == 0
            &&& bank_used + in_flight_cost <= target ==> budget + bank_used + in_flight_cost == target
            &&& bank_used + in_flight_cost >= target ==> budget == 0
        }),
{
}

impl GreedyScheduler {
    /// Takes the answer to a check: a failed check drops the transaction;
    /// otherwise it joins the checked heap (after the lowest-priority checked
    /// transaction is evicted if the heap is full), together with its
    /// resolved addresses when there are any.
    pub fn complete_check(&mut self, id: PriorityId, flags: CheckFlags, resolved_keys: Vec<Account>) -> (outcome: CheckOutcome)
        requires
            old(self).wf(),
            old(self).entries().contains_key(id.key),
            old(self).entries()[id.key].phase == Phase::Checking,
            !spec_check_failed(flags) ==> check_flags_sane(flags),
        ensures
            final(self).wf(),
            final(self).unchecked_items() == old(self).unchecked_items(),
            final(self).in_flight() == old(self).in_flight(),
            final(self).progress() == old(self).progress(),
            final(self).next_key() == old(self).next_key(),
            final(self).budget() == old(self).budget(),
            final(self).executing() == old(self).executing(),
            final(self).returns_matched() == old(self).returns_matched(),
            spec_check_failed(flags) ==> {
                &&& outcome == CheckOutcome::Dropped(DroppedTransaction { id, entry: old(self).entries()[id.key] })
                &&& final(self).entries() == old(self).entries().remove(id.key)
                &&& final(self).checked_items() == old(self).checked_items()
            },
            !spec_check_failed(flags) ==> {
                let e = final(self).entries()[id.key];
                &&& final(self).entries().contains_key(id.key)
                &&& e.phase == Phase::Checked
                &&& e.transaction.sharable_transaction == old(self).entries()[id.key].transaction.sharable_transaction
                &&& e.transaction.layout == old(self).entries()[id.key].transaction.layout
                &&& flags.resolved_pubkeys.num_pubkeys > 0 ==> {
                    &&& e.transaction.loaded_addresses == Some(resolved_keys)
                    &&& e.transaction.all_keys() == old(self).entries()[id.key].transaction.layout.static_account_keys@
                        + resolved_keys@
                    &&& e.resolved_pubkeys == Some(flags.resolved_pubkeys)
                }
                &&& flags.resolved_pubkeys.num_pubkeys == 0 ==> {
                    &&& e.transaction == old(self).entries()[id.key].transaction
                    &&& e.resolved_pubkeys == old(self).entries()[id.key].resolved_pubkeys
                }
            },
            !spec_check_failed(flags) ==> match outcome {
                CheckOutcome::Dropped(_) => false,
                CheckOutcome::Admitted(None) => {
                    &&& old(self).checked_items().len() < CHECKED_CAPACITY
                    &&& final(self).checked_items() == old(self).checked_items().insert(id.item())
                    &&& final(self).entries() == old(self).entries().insert(
                        id.key,
                        checked_entry(old(self).entries()[id.key], flags, resolved_keys),
                    )
                },
                CheckOutcome::Admitted(Some(evicted)) => {
                    &&& old(self).checked_items().len() == CHECKED_CAPACITY
                    &&& old(self).checked_items().count(evicted.id.item()) > 0
                    &&& is_min_of(old(self).checked_items(), evicted.id.item())
                    &&& evicted.entry == old(self).entries()[evicted.id.key]
                    &&& final(self).checked_items() == old(self).checked_items().remove(evicted.id.item()).insert(id.item())
                    &&& final(self).entries() == old(self).entries().remove(evicted.id.key).insert(
                        id.key,
                        checked_entry(old(self).entries()[id.key], flags, resolved_keys),
                    )
                },
            },
    {
        if check_failed(&flags) {
            let entry = match self.state.remove(&id.key) {
                Some(entry) => entry,
                None => {
                    proof {
                        assert(false);
                    }
                    return CheckOutcome::Admitted(None);
                },
            };
            proof {
                assert forall|x: HeapItem| #[trigger] heap_contents(self.unchecked).count(x) > 0 implies {
                    &&& self.state@.contains_key(x.2)
                    &&& self.state@[x.2].phase == Phase::Unchecked
                } by {
                    assert(old(self).state@[x.2].phase == Phase::Unchecked);
                }
                assert forall|x: HeapItem| #[trigger] heap_contents(self.checked).count(x) > 0 implies {
                    &&& self.state@.contains_key(x.2)
                    &&& self.state@[x.2].phase == Phase::Checked
                } by {
                    assert(old(self).state@[x.2].phase == Phase::Checked);
                }
            }
            return CheckOutcome::Dropped(DroppedTransaction { id, entry });
        }
        let ghost checked_before = self.checked_items();
        let mut evicted: Option<DroppedTransaction> = None;
        if heap_len(&self.checked) == CHECKED_CAPACITY {
            let item = match heap_pop_min(&mut self.checked) {
                Some(item) => item,
                None => {
                    proof {
                        assert(false);
                    }
                    return CheckOutcome::Admitted(None);
                },
            };
            let entry = match self.state.remove(&item.2) {
                Some(entry) => entry,
                None => {
                    proof {
                        assert(false);
                    }
                    return CheckOutcome::Admitted(None);
                },
            };
            proof {
                assert(item.2 != id.key);
            }
            evicted = Some(DroppedTransaction { id: PriorityId::from_item(item), entry });
        }
        let ghost checked_mid = self.checked_items();
        let ghost state_mid = self.state@;
        let entry = match self.state.remove(&id.key) {
            Some(entry) => entry,
            None => {
                proof {
                    assert(false);
                }
                return CheckOutcome::Admitted(None);
            },
        };
        let updated = if flags.resolved_pubkeys.num_pubkeys > 0 {
            GreedyEntry {
                transaction: TransactionEntry { loaded_addresses: Some(resolved_keys), ..entry.transaction },
                resolved_pubkeys: Some(flags.resolved_pubkeys),
                phase: Phase::Checked,
            }
        } else {
            GreedyEntry { phase: Phase::Checked, ..entry }
        };
        self.state.insert(id.key, updated);
        heap_push(&mut self.checked, id.to_item());
        proof {
            assert forall|x: HeapItem| #[trigger] heap_contents(self.unchecked).count(x) > 0 implies {
                &&& self.state@.contains_key(x.2)
                &&& self.state@[x.2].phase == Phase::Unchecked
            } by {
                assert(old(self).state@[x.2].phase == Phase::Unchecked);
                assert(x.2 != id.key);
                if let Some(ev) = evicted {
                    assert(old(self).state@[ev.id.key].phase == Phase::Checked);
                    assert(x.2 != ev.id.key);
                }
            }
            assert forall|x: HeapItem| #[trigger] heap_contents(self.checked).count(x) > 0 implies {
                &&& self.state@.contains_key(x.2)
                &&& self.state@[x.2].phase == Phase::Checked
            } by {
                if x != id.item() {
                    assert(checked_mid.count(x) > 0);
                    assert(checked_before.count(x) > 0);
                    if let Some(ev) = evicted {
                        if x.2 == ev.id.key {
                            assert(x == ev.id.item());
                        }
                    }
                }
            }
            assert forall|x: HeapItem, y: HeapItem| heap_contents(self.checked).count(x) > 0
                && heap_contents(self.checked).count(y) > 0 && x.2 == y.2 implies x == y by {
                if x != id.item() {
                    assert(checked_mid.count(x) > 0);
                    assert(checked_before.count(x) > 0);
                }
                if y != id.item() {
                    assert(checked_mid.count(y) > 0);
                    assert(checked_before.count(y) > 0);
                }
            }
            assert forall|x: HeapItem| heap_contents(self.checked).count(x) <= 1 by {
                if x == id.item() && checked_mid.count(x) > 0 {
                    assert(checked_before.count(x) > 0);
                }
            }
        }
        CheckOutcome::Admitted(evicted)
    }
}

/// The accounts a checked transaction writes and reads.
pub open spec fn entry_access(entry: GreedyEntry) -> AccountAccess {
    (entry.transaction.writable_keys(), entry.transaction.readonly_keys())
}

/// Total cost of the identifiers `ids`.
pub open spec fn ids_cost(ids: Seq<PriorityId>) -> int
    decreases ids.len(),
{
    if ids.len() == 0 {
        0
    } else {
        ids_cost(ids.drop_last()) + ids.last().cost
    }
}

/// The identifiers of a batch.
pub open spec fn batch_ids(s: Seq<(PriorityId, TransactionRegion)>) -> Seq<PriorityId> {
    s.map_values(|b: (PriorityId, TransactionRegion)| b.0)
}

proof fn lemma_ids_cost_push(ids: Seq<PriorityId>, id: PriorityId)
    ensures
        ids_cost(ids.push(id)) == ids_cost(ids) + id.cost,
{
    assert(ids.push(id).drop_last() =~= ids);
}

proof fn lemma_ids_cost_remove(ids: Seq<PriorityId>, k: int)
    requires
        0 <= k < ids.len(),
    ensures
        ids_cost(ids.remove(k)) == ids_cost(ids) - ids[k].cost,
    decreases ids.len(),
{
    if k < ids.len() - 1 {
        let prefix = ids.drop_last();
        lemma_ids_cost_remove(prefix, k);
        assert(ids.remove(k) =~= prefix.remove(k).push(ids.last()));
        lemma_ids_cost_push(prefix.remove(k), ids.last());
    } else {
        assert(ids.remove(k) =~= ids.drop_last());
    }
}

/// Total cost of a batch.
pub open spec fn batch_cost(s: Seq<(PriorityId, TransactionRegion)>) -> int
    decreases s.len(),
{
    if s.len() == 0 {
        0
    } else {
        batch_cost(s.drop_last()) + s.last().0.cost
    }
}

/// What taking a check batch did: `batch` holds the highest-priority
/// unchecked transactions, a message's worth or all of them, highest first;
/// they left the unchecked heap and wait for their check; nothing else
/// changed.
pub open spec fn check_batch_taken(old: GreedyScheduler, new: GreedyScheduler, batch: Seq<(PriorityId, TransactionRegion)>) -> bool {
    &&& batch.len() == min_usize(old.unchecked_items().len(), MAX_TRANSACTIONS_PER_MESSAGE as nat)
    &&& old.unchecked_items() == new.unchecked_items().add(items_multiset(batch_items(batch)))
    &&& descending(batch_items(batch))
    &&& forall|i: int, y: HeapItem| #![trigger batch[i].0.item(), new.unchecked_items().count(y)]
        0 <= i < batch.len() && new.unchecked_items().count(y) > 0 ==> item_le(y, batch[i].0.item())
    &&& forall|i: int| 0 <= i < batch.len() ==> {
        &&& old.entries().contains_key(#[trigger] batch[i].0.key)
        &&& batch[i].1 == old.entries()[batch[i].0.key].transaction.sharable_transaction
        &&& new.entries().contains_key(batch[i].0.key)
        &&& new.entries()[batch[i].0.key].phase == Phase::Checking
    }
    &&& new.entries().dom() == old.entries().dom()
    &&& new.checked_items() == old.checked_items()
    &&& new.in_flight() == old.in_flight()
    &&& new.progress() == old.progress()
    &&& new.next_key() == old.next_key()
    &&& new.budget() == old.budget()
    &&& new.executing() == old.executing()
    &&& new.returns_matched() == old.returns_matched()
}

/// What collecting an execution batch did: `batch` holds the
/// highest-priority checked transactions, highest first, within the pass's
/// budget and free of conflicts with the pass; they left the checked heap
/// and count as in flight; the batch ends short of a message's worth only
/// when the heap is empty, its top is over budget or conflicts.
pub open spec fn execute_batch_taken(old: GreedyScheduler, new: GreedyScheduler, batch: Seq<(PriorityId, TransactionRegion)>) -> bool {
    &&& batch.len() <= MAX_TRANSACTIONS_PER_MESSAGE
    &&& old.checked_items() == new.checked_items().add(items_multiset(batch_items(batch)))
    &&& descending(batch_items(batch))
    &&& forall|i: int, y: HeapItem| #![trigger batch[i].0.item(), new.checked_items().count(y)]
        0 <= i < batch.len() && new.checked_items().count(y) > 0 ==> item_le(y, batch[i].0.item())
    &&& forall|i: int| 0 <= i < batch.len() ==> {
        &&& old.entries().contains_key(#[trigger] batch[i].0.key)
        &&& batch[i].1 == old.entries()[batch[i].0.key].transaction.sharable_transaction
        &&& new.entries().contains_key(batch[i].0.key)
        &&& new.entries()[batch[i].0.key].phase == Phase::Executing
    }
    &&& batch_cost(batch) <= old.budget()
    &&& new.in_flight() == old.in_flight() + batch_cost(batch)
    &&& new.budget() == old.budget() - batch_cost(batch) || (new.budget() == 0
        && blocked_by_conflict(new))
    &&& batch.len() < MAX_TRANSACTIONS_PER_MESSAGE ==> {
        ||| new.checked_items().len() == 0
        ||| next_over_budget(new)
        ||| blocked_by_conflict(new)
    }
    &&& new.pass_accepted() == old.pass_accepted() + batch.map_values(
        |b: (PriorityId, TransactionRegion)| entry_access(old.entries()[b.0.key])
    )
    &&& pairwise_conflict_free(new.pass_accepted())
    &&& new.entries().dom() == old.entries().dom()
    &&& new.unchecked_items() == old.unchecked_items()
    &&& new.progress() == old.progress()
    &&& new.next_key() == old.next_key()
    &&& new.executing() == old.executing() + batch_ids(batch)
    &&& new.returns_matched() == old.returns_matched()
}

/// What evicting did: `dropped` holds the lowest-priority unchecked
/// transactions, as many as asked, with their entries, which left the
/// state; nothing else changed.
pub open spec fn lowest_evicted(old: GreedyScheduler, new: GreedyScheduler, dropped: Seq<DroppedTransaction>, count: nat) -> bool {
    &&& dropped.len() == count
    &&& old.unchecked_items() == new.unchecked_items().add(items_multiset(dropped_items(dropped)))
    &&& forall|i: int, y: HeapItem| #![trigger dropped[i].id.item(), new.unchecked_items().count(y)]
        0 <= i < dropped.len() && new.unchecked_items().count(y) > 0 ==> item_le(dropped[i].id.item(), y)
    &&& forall|i: int| 0 <= i < dropped.len() ==> {
        &&& old.entries().contains_key(#[trigger] dropped[i].id.key)
        &&& dropped[i].entry == old.entries()[dropped[i].id.key]
        &&& !new.entries().contains_key(dropped[i].id.key)
    }
    &&& forall|k: u64| #[trigger] new.entries().contains_key(k) ==>
        old.entries().contains_key(k) && new.entries()[k] == old.entries()[k]
    &&& new.checked_items() == old.checked_items()
    &&& new.in_flight() == old.in_flight()
    &&& new.progress() == old.progress()
    &&& new.next_key() == old.next_key()
    &&& new.burn_percent() == old.burn_percent()
    &&& new.executing() == old.executing()
    &&& new.returns_matched() == old.returns_matched()
}

/// The greatest checked transaction costs more than the budget left.
pub open spec fn next_over_budget(s: GreedyScheduler) -> bool {
    exists|y: HeapItem| #[trigger] s.checked_items().count(y) > 0 && is_max_of(s.checked_items(), y) && y.1 > s.budget()
}

/// The greatest checked transaction cannot join the transactions handed out
/// in this pass: reserving its accounts after theirs is refused.
pub open spec fn blocked_by_conflict(s: GreedyScheduler) -> bool {
    exists|y: HeapItem| #[trigger] s.checked_items().count(y) > 0 && is_max_of(s.checked_items(), y) && reserve_all(
        no_locks(),
        s.pass_accepted().push(entry_access(s.entries()[y.2])),
    ) is None
}

impl GreedyScheduler {
    /// Starts an execution pass: forgets the accounts reserved by the previous
    /// pass and sets the pass's budget.
    pub fn begin_execute_pass(&mut self) -> (budget: u64)
        requires
            old(self).wf(),
            old(self).progress().current_slot_progress + BLOCK_FILL_CUTOFF <= u8::MAX,
        ensures
            final(self).wf(),
            budget == spec_execute_budget(old(self).progress(), old(self).in_flight()),
            ({
                let p = old(self).progress();
                let percent: int = if p.current_slot_progress + 20 < 100 { p.current_slot_progress + 20 } else { 100 };
                let target = MAX_BLOCK_UNITS * percent / 100;
                let bank_used: int = if p.remaining_cost_units <= MAX_BLOCK_UNITS {
                    MAX_BLOCK_UNITS - p.remaining_cost_units
                } else {
                    0
                };
                &&& bank_used + old(self).in_flight() <= target ==> budget + bank_used + old(self).in_flight() == target
                &&& bank_used + old(self).in_flight() >= target ==> budget == 0
            }),
            final(self).budget() == budget,
            final(self).pass_accepted() == Seq::<AccountAccess>::empty(),
            final(self).locks() == no_locks(),
            final(self).unchecked_items() == old(self).unchecked_items(),
            final(self).checked_items() == old(self).checked_items(),
            final(self).entries() == old(self).entries(),
            final(self).in_flight() == old(self).in_flight(),
            final(self).progress() == old(self).progress(),
            final(self).next_key() == old(self).next_key(),
            final(self).executing() == old(self).executing(),
            final(self).returns_matched() == old(self).returns_matched(),
    {
        lock_table_clear(&mut self.schedule_locks);
        let sum = self.progress.current_slot_progress + BLOCK_FILL_CUTOFF;
        let percentage: u64 = if sum < 100 {
            sum as u64
        } else {
            100
        };
        let budget_limit = MAX_BLOCK_UNITS * percentage / 100;
        let cost_used = MAX_BLOCK_UNITS.saturating_sub(self.progress.remaining_cost_units) + self.in_flight_cost as u64;
        let budget = budget_limit.saturating_sub(cost_used);
        self.budget_remaining = budget;
        self.pass_accepted = Ghost(Seq::empty());
        self.locks_consistent = Ghost(true);
        proof {
            assert(budget_limit <= MAX_BLOCK_UNITS);
            assert(reserve_all(no_locks(), Seq::<AccountAccess>::empty()) == Some(no_locks()));
        }
        budget
    }

    /// Whether the current pass has nothing left to hand out: its budget is
    /// spent or no checked transaction is waiting.
    pub fn execute_pass_done(&self) -> (done: bool)
        ensures
            done == (self.budget() == 0 || self.checked_items().len() == 0),
    {
        self.budget_remaining == 0 || heap_is_empty(&self.checked)
    }

    /// Collects the next execution batch of the pass: takes checked
    /// transactions best first while they fit the remaining budget and their
    /// accounts do not conflict with those already handed out in this pass.
    /// The first one that does not fit goes back and ends the batch; the first
    /// one that conflicts goes back and ends the pass.
    pub fn collect_execute_batch(&mut self) -> (batch: Vec<(PriorityId, TransactionRegion)>)
        requires
            old(self).wf(),
            old(self).budget() > 0,
        ensures
            final(self).wf(),
            execute_batch_taken(*old(self), *final(self), batch@),
    {
        let mut batch: Vec<(PriorityId, TransactionRegion)> = Vec::new();
        let mut stop = false;
        while !stop && batch.len() < MAX_TRANSACTIONS_PER_MESSAGE
            invariant
                self.wf(),
                batch@.len() <= MAX_TRANSACTIONS_PER_MESSAGE,
                old(self).checked_items() == self.checked_items().add(items_multiset(batch_items(batch@))),
                descending(batch_items(batch@)),
                forall|i: int, y: HeapItem| #![trigger batch@[i].0.item(), self.checked_items().count(y)]
                    0 <= i < batch@.len() && self.checked_items().count(y) > 0 ==> item_le(y, batch@[i].0.item()),
                forall|i: int| 0 <= i < batch@.len() ==> {
                    &&& old(self).entries().contains_key(#[trigger] batch@[i].0.key)
                    &&& batch@[i].1 == old(self).entries()[batch@[i].0.key].transaction.sharable_transaction
                    &&& self.entries().contains_key(batch@[i].0.key)
                    &&& self.entries()[batch@[i].0.key].phase == Phase::Executing
                },
                forall|k: u64| #[trigger] self.entries().contains_key(k) ==>
                    self.entries()[k].transaction == old(self).entries()[k].transaction,
                forall|k: u64| #[trigger] self.entries().contains_key(k) && self.entries()[k].phase == Phase::Checked
                    ==> old(self).entries()[k].phase == Phase::Checked,
                batch_cost(batch@) <= old(self).budget(),
                self.in_flight() == old(self).in_flight() + batch_cost(batch@),
                self.executing() == old(self).executing() + batch_ids(batch@),
                self.returns_matched() == old(self).returns_matched(),
                self.budget() == old(self).budget() - batch_cost(batch@) || (self.budget() == 0
                    && blocked_by_conflict(*self)),
                stop ==> {
                    ||| self.checked_items().len() == 0
                    ||| next_over_budget(*self)
                    ||| blocked_by_conflict(*self)
                },
                !stop ==> self.budget() == old(self).budget() - batch_cost(batch@),
                !stop ==> self.locks_consistent@,
                self.pass_accepted() == old(self).pass_accepted() + batch@.map_values(
                    |b: (PriorityId, TransactionRegion)| entry_access(old(self).entries()[b.0.key]),
                ),
                self.entries().dom() == old(self).entries().dom(),
                self.unchecked_items() == old(self).unchecked_items(),
                self.progress() == old(self).progress(),
                self.next_key() == old(self).next_key(),
            decreases MAX_TRANSACTIONS_PER_MESSAGE - batch@.len() + (if stop { 0int } else { 1int }),
        {
            let ghost before = self.checked_items();
            let ghost state_before = self.state@;
            let item = match heap_pop_max(&mut self.checked) {
                Some(item) => item,
                None => {
                    stop = true;
                    continue;
                },
            };
            let id = PriorityId::from_item(item);
            if id.cost as u64 > self.budget_remaining {
                heap_push(&mut self.checked, item);
                proof {
                    assert(self.checked_items() =~= before);
                    assert(self.checked_items().count(item) > 0 && is_max_of(self.checked_items(), item));
                }
                stop = true;
                continue;
            }
            let key = item.2;
            let (region, writes, reads) = match self.state.get(&key) {
                Some(entry) => (
                    entry.transaction.sharable_transaction,
                    entry.transaction.writable_account_keys(),
                    entry.transaction.readonly_account_keys(),
                ),
                None => {
                    proof {
                        assert(false);
                    }
                    return batch;
                },
            };
            let ghost locks_before = self.schedule_locks@;
            let ghost accepted_before = self.pass_accepted@;
            if !reserve_accounts(&mut self.schedule_locks, &writes, &reads) {
                heap_push(&mut self.checked, item);
                self.budget_remaining = 0;
                self.locks_consistent = Ghost(false);
                proof {
                    assert(self.checked_items() =~= before);
                    let access: AccountAccess = (writes@, reads@);
                    assert(access == entry_access(self.entries()[key]));
                    let grown = accepted_before.push(access);
                    assert(grown.drop_last() =~= accepted_before);
                    assert(reserve_all(no_locks(), grown) is None);
                    assert(self.checked_items().count(item) > 0 && is_max_of(self.checked_items(), item));
                }
                stop = true;
                continue;
            }
            self.budget_remaining = self.budget_remaining - id.cost as u64;
            self.in_flight_cost = self.in_flight_cost + id.cost;
            proof {
                lemma_ids_cost_push(self.executing@, id);
                self.executing = Ghost(self.executing@.push(id));
            }
            self.set_phase(key, Phase::Executing);
            let ghost prev = batch@;
            batch.push((id, region));
            proof {
                assert(batch_ids(batch@) =~= batch_ids(prev).push(id));
                assert(old(self).executing() + batch_ids(batch@) =~= (old(self).executing() + batch_ids(prev)).push(id));
                let access: AccountAccess = (writes@, reads@);
                assert(access == entry_access(old(self).entries()[key]));
                self.pass_accepted = Ghost(accepted_before.push(access));
                assert(self.pass_accepted@.drop_last() =~= accepted_before);
                assert(reserve_all(no_locks(), self.pass_accepted@) == Some(self.schedule_locks@));
                lemma_pass_conflict_free(self.pass_accepted@);
                assert(batch@.map_values(|b: (PriorityId, TransactionRegion)| entry_access(old(self).entries()[b.0.key]))
                    =~= prev.map_values(|b: (PriorityId, TransactionRegion)| entry_access(old(self).entries()[b.0.key])).push(access));
                assert(batch@.drop_last() =~= prev);
                assert(batch_items(batch@) =~= batch_items(prev).push(item));
                assert(batch_items(batch@).drop_last() =~= batch_items(prev));
                assert(items_multiset(batch_items(batch@)) =~= items_multiset(batch_items(prev)).insert(item));
                assert(old(self).checked_items() =~= self.checked_items().add(items_multiset(batch_items(batch@))));
                assert(state_before[key].phase == Phase::Checked);
                assert forall|x: HeapItem| #[trigger] heap_contents(self.checked).count(x) > 0 implies {
                    &&& self.state@.contains_key(x.2)
                    &&& self.state@[x.2].phase == Phase::Checked
                } by {
                    assert(before.count(x) > 0);
                    if x.2 == key {
                        assert(x == item);
                    }
                }
                assert forall|x: HeapItem| #[trigger] heap_contents(self.unchecked).count(x) > 0 implies {
                    &&& self.state@.contains_key(x.2)
                    &&& self.state@[x.2].phase == Phase::Unchecked
                } by {
                    assert(state_before[x.2].phase == Phase::Unchecked);
                }
                assert forall|i: int, j: int| 0 <= i < j < batch_items(batch@).len() implies item_le(
                    batch_items(batch@)[j],
                    batch_items(batch@)[i],
                ) by {
                    if j == prev.len() {
                        assert(batch_items(batch@)[i] == batch@[i].0.item());
                        assert(before.count(item) > 0);
                    } else {
                        assert(batch_items(batch@)[i] == batch_items(prev)[i]);
                        assert(batch_items(batch@)[j] == batch_items(prev)[j]);
                    }
                }
                assert forall|i: int, y: HeapItem| #![trigger batch@[i].0.item(), self.checked_items().count(y)]
                    0 <= i < batch@.len() && self.checked_items().count(y) > 0 implies item_le(y, batch@[i].0.item()) by {
                    assert(before.count(y) > 0);
                    if i < prev.len() {
                        assert(batch@[i] == prev[i]);
                    }
                }
                assert forall|i: int| 0 <= i < batch@.len() implies {
                    &&& old(self).entries().contains_key(#[trigger] batch@[i].0.key)
                    &&& batch@[i].1 == old(self).entries()[batch@[i].0.key].transaction.sharable_transaction
                    &&& self.entries().contains_key(batch@[i].0.key)
                    &&& self.entries()[batch@[i].0.key].phase == Phase::Executing
                } by {
                    if i < prev.len() {
                        assert(batch@[i] == prev[i]);
                    }
                }
            }
        }
        batch
    }

    /// Records the execution of a transaction: its cost is no longer in
    /// flight.
    pub fn complete_execution(&mut self, id: PriorityId)
        requires
            old(self).wf(),
            old(self).in_flight() >= id.cost,
        ensures
            final(self).wf(),
            final(self).in_flight() == old(self).in_flight() - id.cost,
            final(self).budget() == old(self).budget(),
            final(self).unchecked_items() == old(self).unchecked_items(),
            final(self).checked_items() == old(self).checked_items(),
            final(self).entries() == old(self).entries(),
            final(self).progress() == old(self).progress(),
            final(self).next_key() == old(self).next_key(),
            old(self).executing().contains(id) ==> {
                &&& final(self).returns_matched() == old(self).returns_matched()
                &&& exists|k: int| 0 <= k < old(self).executing().len() && old(self).executing()[k] == id
                    && final(self).executing() == old(self).executing().remove(k)
            },
            !old(self).executing().contains(id) ==> {
                &&& !final(self).returns_matched()
                &&& final(self).executing() == old(self).executing()
            },
    {
        self.in_flight_cost = self.in_flight_cost - id.cost;
        proof {
            let ex = old(self).executing@;
            if ex.contains(id) {
                let k = choose|k: int| 0 <= k < ex.len() && ex[k] == id;
                lemma_ids_cost_remove(ex, k);
                self.executing = Ghost(ex.remove(k));
            } else {
                self.returns_matched = Ghost(false);
            }
        }
    }
}


/// What the next worker of an execution pass gets.
#[derive(Debug)]
pub enum ExecuteStep {
    /// The pass is over: the budget is spent, nothing checked is left, or
    /// nothing more could be handed out.
    PassOver,
    /// The worker still has a batch to take; it gets nothing now.
    SkipWorker,
    /// The batch to send to the worker.
    Send(Vec<(PriorityId, TransactionRegion)>),
}

impl GreedyScheduler {
    /// Makes room in the unchecked heap for the new transactions to take in:
    /// of the `available` ones at most `max` are taken, and the lowest
    /// unchecked transactions are evicted first, as many as the heap would
    /// otherwise overflow by. Returns how many to take in and the evicted.
    pub fn make_room(&mut self, available: usize, max: usize) -> (r: (usize, Vec<DroppedTransaction>))
        requires
            old(self).wf(),
            max <= UNCHECKED_CAPACITY,
        ensures
            final(self).wf(),
            r.0 == spec_tpu_intake(old(self).unchecked_items().len(), available, max).0,
            lowest_evicted(
                *old(self),
                *final(self),
                r.1@,
                spec_tpu_intake(old(self).unchecked_items().len(), available, max).1 as nat,
            ),
            final(self).unchecked_items().len() + r.0 <= UNCHECKED_CAPACITY,
    {
        let (additional, shortfall) = self.tpu_intake(available, max);
        proof {
            lemma_intake_makes_room(old(self).unchecked_items().len(), available, max);
        }
        let dropped = self.evict_unchecked(shortfall);
        proof {
            lemma_items_multiset_len(dropped_items(dropped@));
        }
        (additional, dropped)
    }

    /// The next check batch to send, `None` when nothing waits for a check.
    pub fn check_step(&mut self) -> (batch: Option<Vec<(PriorityId, TransactionRegion)>>)
        requires
            old(self).wf(),
        ensures
            final(self).wf(),
            match batch {
                None => old(self).unchecked_items().len() == 0 && *final(self) == *old(self),
                Some(b) => old(self).unchecked_items().len() > 0 && check_batch_taken(*old(self), *final(self), b@),
            },
    {
        if self.unchecked_len() == 0 {
            None
        } else {
            Some(self.take_check_batch())
        }
    }

    /// The next step of an execution pass, for a worker that is `busy` or
    /// not: the pass is over once the budget is spent or nothing checked is
    /// left; a busy worker is skipped; otherwise the worker gets the next
    /// batch, and an empty batch ends the pass.
    pub fn execute_step(&mut self, busy: bool) -> (step: ExecuteStep)
        requires
            old(self).wf(),
        ensures
            final(self).wf(),
            old(self).budget() == 0 || old(self).checked_items().len() == 0 ==> step is PassOver && *final(self)
                == *old(self),
            !(old(self).budget() == 0 || old(self).checked_items().len() == 0) && busy ==> step is SkipWorker
                && *final(self) == *old(self),
            !(old(self).budget() == 0 || old(self).checked_items().len() == 0) && !busy ==> match step {
                ExecuteStep::Send(b) => b@.len() > 0 && execute_batch_taken(*old(self), *final(self), b@),
                ExecuteStep::PassOver => execute_batch_taken(*old(self), *final(self), Seq::empty()),
                ExecuteStep::SkipWorker => false,
            },
    {
        if self.execute_pass_done() {
            return ExecuteStep::PassOver;
        }
        if busy {
            return ExecuteStep::SkipWorker;
        }
        let batch = self.collect_execute_batch();
        if batch.len() == 0 {
            proof {
                assert(batch@ =~= Seq::<(PriorityId, TransactionRegion)>::empty());
            }
            ExecuteStep::PassOver
        } else {
            ExecuteStep::Send(batch)
        }
    }
}

/// Law: in every state the greedy scheduler reaches, each transaction of
/// the unchecked heap is kept and waits for its check, each transaction of
/// the checked heap is kept and passed its check, no transaction is in both
/// heaps or twice in one, each heap stays within its capacity, the budget
/// of the current pass together with the cost in flight never exceeds a
/// block, and, as long as every transaction reported executed was one handed
/// out and not yet reported, the cost in flight is the total cost of the
/// transactions handed out for execution and not yet reported.
pub proof fn lemma_greedy_invariants(s: GreedyScheduler)
    requires
        s.wf(),
    ensures
        forall|x: HeapItem| #[trigger] s.unchecked_items().count(x) > 0 ==> {
            &&& s.entries().contains_key(x.2)
            &&& s.entries()[x.2].phase == Phase::Unchecked
        },
        forall|x: HeapItem| #[trigger] s.checked_items().count(x) > 0 ==> {
            &&& s.entries().contains_key(x.2)
            &&& s.entries()[x.2].phase == Phase::Checked
        },
        forall|x: HeapItem, y: HeapItem| s.unchecked_items().count(x) > 0 && s.checked_items().count(y) > 0 ==> x.2 != y.2,
        keys_unique(s.unchecked_items()),
        keys_unique(s.checked_items()),
        s.checked_items().len() <= CHECKED_CAPACITY,
        s.unchecked_items().len() <= UNCHECKED_CAPACITY,
        s.budget() + s.in_flight() <= MAX_BLOCK_UNITS,
        s.returns_matched() ==> s.in_flight() == ids_cost(s.executing()),
        pairwise_conflict_free(s.pass_accepted()),
{
    assert forall|x: HeapItem, y: HeapItem| s.unchecked_items().count(x) > 0 && s.checked_items().count(y) > 0 implies x.2 != y.2 by {
        assert(heap_contents(s.unchecked).count(x) > 0);
        assert(heap_contents(s.checked).count(y) > 0);
    }
}

} // verus!
