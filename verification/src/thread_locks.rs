//! Account locks that know which worker holds them, as the FIFO scheduler
//! takes them from `agave_scheduling_utils`.
//!
//! What the lock table holds is modelled as a multiset of grants: one
//! `(account, worker, write)` element per lock taken and not yet released. A
//! worker may take a lock on an account as long as no other worker holds a
//! conflicting one: a write lock needs every lock on the account to be held
//! by the same worker, a read lock needs every write lock on it to be held by
//! the same worker.
use vstd::prelude::*;
use vstd::multiset::Multiset;
use agave_scheduling_utils::thread_aware_account_locks::{ThreadAwareAccountLocks, ThreadSet};
use solana_pubkey::Pubkey;
use crate::locks::Account;
use crate::legacy::{is_least_busy, select_least_busy_thread};

verus! {

broadcast use vstd::multiset::group_multiset_axioms;

/// The most workers a lock table can tell apart.
pub const MAX_THREADS: usize = 64;

/// One lock held: the account, the worker holding it, and whether it is a
/// write lock.
pub type LockGrant = (Account, usize, bool);

#[verifier::external_type_specification]
#[verifier::external_body]
pub struct ExThreadAwareAccountLocks(ThreadAwareAccountLocks);

/// The locks a table holds.
pub uninterp spec fn thread_locks_held(locks: ThreadAwareAccountLocks) -> Multiset<LockGrant>;

/// The number of workers a table was made for.
pub uninterp spec fn thread_locks_workers(locks: ThreadAwareAccountLocks) -> usize;

/// The locks taken on `accounts` by `thread`, all reads or all writes.
pub open spec fn grants_of(accounts: Seq<Account>, thread: usize, write: bool) -> Multiset<LockGrant>
    decreases accounts.len(),
{
    if accounts.len() == 0 {
        Multiset::empty()
    } else {
        grants_of(accounts.drop_last(), thread, write).insert((accounts.last(), thread, write))
    }
}

/// The locks a transaction writing `writes` and reading `reads` takes on
/// `thread`.
pub open spec fn transaction_grants(writes: Seq<Account>, reads: Seq<Account>, thread: usize) -> Multiset<LockGrant> {
    grants_of(writes, thread, true).add(grants_of(reads, thread, false))
}

/// `thread` may write `account`: every lock on it is held by `thread`.
pub open spec fn write_schedulable(held: Multiset<LockGrant>, account: Account, thread: usize) -> bool {
    forall|u: usize, w: bool| #[trigger] held.count((account, u, w)) > 0 ==> u == thread
}

/// `thread` may read `account`: every write lock on it is held by `thread`.
pub open spec fn read_schedulable(held: Multiset<LockGrant>, account: Account, thread: usize) -> bool {
    forall|u: usize| #[trigger] held.count((account, u, true)) > 0 ==> u == thread
}

/// `thread` may take all the locks of a transaction.
pub open spec fn schedulable(held: Multiset<LockGrant>, writes: Seq<Account>, reads: Seq<Account>, thread: usize) -> bool {
    &&& forall|i: int| 0 <= i < writes.len() ==> write_schedulable(held, #[trigger] writes[i], thread)
    &&& forall|i: int| 0 <= i < reads.len() ==> read_schedulable(held, #[trigger] reads[i], thread)
}

/// The workers below `limit` that may take all the locks of a transaction,
/// in increasing order.
pub open spec fn schedulable_threads(held: Multiset<LockGrant>, writes: Seq<Account>, reads: Seq<Account>, limit: nat) -> Seq<usize>
    decreases limit,
{
    if limit == 0 {
        Seq::empty()
    } else {
        let prev = schedulable_threads(held, writes, reads, (limit - 1) as nat);
        if schedulable(held, writes, reads, (limit - 1) as usize) {
            prev.push((limit - 1) as usize)
        } else {
            prev
        }
    }
}

/// No account is locked by two workers unless all its locks are reads:
/// where one worker holds a write lock, every lock on the account is its own.
pub open spec fn locks_consistent(held: Multiset<LockGrant>) -> bool {
    forall|a: Account, u: usize, v: usize, w: bool|
        #![trigger held.count((a, u, true)), held.count((a, v, w))]
        held.count((a, u, true)) > 0 && held.count((a, v, w)) > 0 ==> u == v
}

/// Every lock is held by a worker below `workers`.
pub open spec fn locks_within(held: Multiset<LockGrant>, workers: usize) -> bool {
    forall|a: Account, u: usize, w: bool| #[trigger] held.count((a, u, w)) > 0 ==> u < workers
}

/// `ThreadAwareAccountLocks::new`: a table for `num_threads` workers that
/// holds no lock.
#[verifier::external_body]
pub(crate) fn thread_locks_new(num_threads: usize) -> (locks: ThreadAwareAccountLocks)
    requires
        0 < num_threads <= MAX_THREADS,
    ensures
        thread_locks_held(locks) =~= Multiset::<LockGrant>::empty(),
        thread_locks_workers(locks) == num_threads,
{
    ThreadAwareAccountLocks::new(num_threads)
}

/// `ThreadAwareAccountLocks::try_lock_accounts`, with the workers below
/// `allowed` admitted and, as thread selector, the least busy of the
/// workers that may take the locks (the first of them on a tie). When no
/// worker may take them, nothing changes and `None` comes back; otherwise
/// the chosen worker takes a write lock on each written account and a read
/// lock on each read one. The counts the table keeps stay below `u32::MAX`.
#[verifier::external_body]
pub(crate) fn thread_locks_try_lock(
    locks: &mut ThreadAwareAccountLocks,
    writes: &Vec<Account>,
    reads: &Vec<Account>,
    allowed: usize,
    in_progress: &Vec<u64>,
) -> (chosen: Option<usize>)
    requires
        allowed <= thread_locks_workers(*old(locks)) <= MAX_THREADS,
        thread_locks_workers(*old(locks)) <= in_progress@.len(),
        locks_consistent(thread_locks_held(*old(locks))),
        locks_within(thread_locks_held(*old(locks)), thread_locks_workers(*old(locks))),
        thread_locks_held(*old(locks)).len() + writes@.len() + reads@.len() <= u32::MAX,
    ensures
        thread_locks_workers(*final(locks)) == thread_locks_workers(*old(locks)),
        ({
            let candidates = schedulable_threads(thread_locks_held(*old(locks)), writes@, reads@, allowed as nat);
            match chosen {
                None => {
                    &&& candidates.len() == 0
                    &&& thread_locks_held(*final(locks)) == thread_locks_held(*old(locks))
                },
                Some(t) => {
                    &&& candidates.len() > 0
                    &&& is_least_busy(candidates, in_progress@, t)
                    &&& thread_locks_held(*final(locks)) == thread_locks_held(*old(locks)).add(
                        transaction_grants(writes@, reads@, t),
                    )
                },
            }
        }),
{
    let writes: Vec<Pubkey> = writes.iter().map(|k| Pubkey::new_from_array(*k)).collect();
    let reads: Vec<Pubkey> = reads.iter().map(|k| Pubkey::new_from_array(*k)).collect();
    locks.try_lock_accounts(writes.iter(), reads.iter(), ThreadSet::any(allowed), |set| {
        select_least_busy_thread(&set.contained_threads_iter().collect(), in_progress)
    }).ok()
}

/// `ThreadAwareAccountLocks::unlock_accounts`: `thread` gives back a write
/// lock on each written account and a read lock on each read one; it must
/// hold all of them.
#[verifier::external_body]
pub(crate) fn thread_locks_unlock(locks: &mut ThreadAwareAccountLocks, writes: &Vec<Account>, reads: &Vec<Account>, thread: usize)
    requires
        locks_consistent(thread_locks_held(*old(locks))),
        transaction_grants(writes@, reads@, thread).subset_of(thread_locks_held(*old(locks))),
    ensures
        thread_locks_workers(*final(locks)) == thread_locks_workers(*old(locks)),
        thread_locks_held(*final(locks)) == thread_locks_held(*old(locks)).sub(transaction_grants(writes@, reads@, thread)),
{
    let writes: Vec<Pubkey> = writes.iter().map(|k| Pubkey::new_from_array(*k)).collect();
    let reads: Vec<Pubkey> = reads.iter().map(|k| Pubkey::new_from_array(*k)).collect();
    locks.unlock_accounts(writes.iter(), reads.iter(), thread)
}

/// A grant of `grants_of(accounts, thread, write)` names `thread`, `write`
/// and an account of `accounts`, and there are as many as accounts.
pub proof fn lemma_grants_of(accounts: Seq<Account>, thread: usize, write: bool)
    ensures
        grants_of(accounts, thread, write).len() == accounts.len(),
        forall|a: Account, u: usize, w: bool| #[trigger] grants_of(accounts, thread, write).count((a, u, w)) > 0
            <==> (u == thread && w == write && accounts.contains(a)),
    decreases accounts.len(),
{
    if accounts.len() > 0 {
        let prev = accounts.drop_last();
        lemma_grants_of(prev, thread, write);
        assert forall|a: Account, u: usize, w: bool| #[trigger] grants_of(accounts, thread, write).count((a, u, w)) > 0
            <==> (u == thread && w == write && accounts.contains(a)) by {
            if accounts.contains(a) && a != accounts.last() {
                let i = choose|i: int| 0 <= i < accounts.len() && accounts[i] == a;
                assert(prev[i] == a);
            }
            if prev.contains(a) {
                let i = choose|i: int| 0 <= i < prev.len() && prev[i] == a;
                assert(accounts[i] == a);
            }
            assert(accounts[accounts.len() - 1] == accounts.last());
        }
    }
}

/// Which grants a transaction's locks are made of, and how many there are.
pub proof fn lemma_transaction_grants(writes: Seq<Account>, reads: Seq<Account>, thread: usize)
    ensures
        transaction_grants(writes, reads, thread).len() == writes.len() + reads.len(),
        forall|a: Account, u: usize| #[trigger] transaction_grants(writes, reads, thread).count((a, u, true)) > 0
            <==> (u == thread && writes.contains(a)),
        forall|a: Account, u: usize| #[trigger] transaction_grants(writes, reads, thread).count((a, u, false)) > 0
            <==> (u == thread && reads.contains(a)),
{
    lemma_grants_of(writes, thread, true);
    lemma_grants_of(reads, thread, false);
}

/// Taking the locks of a transaction on a worker that may take them keeps
/// the table consistent.
pub proof fn lemma_lock_keeps_consistent(held: Multiset<LockGrant>, writes: Seq<Account>, reads: Seq<Account>, thread: usize)
    requires
        locks_consistent(held),
        schedulable(held, writes, reads, thread),
    ensures
        locks_consistent(held.add(transaction_grants(writes, reads, thread))),
{
    let g = transaction_grants(writes, reads, thread);
    let after = held.add(g);
    lemma_transaction_grants(writes, reads, thread);
    assert forall|a: Account, u: usize, v: usize, w: bool|
        #![trigger after.count((a, u, true)), after.count((a, v, w))]
        after.count((a, u, true)) > 0 && after.count((a, v, w)) > 0 implies u == v by {
        if g.count((a, u, true)) > 0 {
            let i = choose|i: int| 0 <= i < writes.len() && writes[i] == a;
            assert(write_schedulable(held, writes[i], thread));
            if held.count((a, v, w)) > 0 {
                assert(v == thread);
            } else if w {
                assert(g.count((a, v, true)) > 0);
            } else {
                assert(g.count((a, v, false)) > 0);
            }
        } else if g.count((a, v, w)) > 0 {
            assert(held.count((a, u, true)) > 0);
            if w {
                let i = choose|i: int| 0 <= i < writes.len() && writes[i] == a;
                assert(write_schedulable(held, writes[i], thread));
            } else {
                let i = choose|i: int| 0 <= i < reads.len() && reads[i] == a;
                assert(read_schedulable(held, reads[i], thread));
            }
        }
    }
}

/// Giving back locks one holds keeps the table consistent.
pub proof fn lemma_unlock_keeps_consistent(held: Multiset<LockGrant>, released: Multiset<LockGrant>)
    requires
        locks_consistent(held),
        released.subset_of(held),
    ensures
        locks_consistent(held.sub(released)),
{
    let after = held.sub(released);
    assert forall|a: Account, u: usize, v: usize, w: bool|
        #![trigger after.count((a, u, true)), after.count((a, v, w))]
        after.count((a, u, true)) > 0 && after.count((a, v, w)) > 0 implies u == v by {
        assert(held.count((a, u, true)) > 0);
        assert(held.count((a, v, w)) > 0);
    }
}

/// Every worker in `schedulable_threads` is below the limit and may take the
/// locks.
pub proof fn lemma_schedulable_threads(held: Multiset<LockGrant>, writes: Seq<Account>, reads: Seq<Account>, limit: nat)
    ensures
        forall|i: int| 0 <= i < schedulable_threads(held, writes, reads, limit).len() ==> {
            &&& (#[trigger] schedulable_threads(held, writes, reads, limit)[i]) < limit
            &&& schedulable(held, writes, reads, schedulable_threads(held, writes, reads, limit)[i])
        },
    decreases limit,
{
    if limit > 0 {
        let prev = schedulable_threads(held, writes, reads, (limit - 1) as nat);
        let all = schedulable_threads(held, writes, reads, limit);
        lemma_schedulable_threads(held, writes, reads, (limit - 1) as nat);
        assert forall|i: int| 0 <= i < all.len() implies {
            &&& (#[trigger] all[i]) < limit
            &&& schedulable(held, writes, reads, all[i])
        } by {
            if i < prev.len() {
                assert(all[i] == prev[i]);
            }
        }
    }
}

} // verus!
