//! Account reservation within one execution pass.
//!
//! During a pass every transaction handed to a worker first reserves its
//! accounts in a table keyed by account address: a written account is
//! entered as `true`, a read account as `false`. A transaction is refused as
//! soon as one of its written accounts is already in the table, or one of its
//! read accounts is in the table as written.
use vstd::prelude::*;
use hashbrown::HashMap;

verus! {

/// An account address.
pub type Account = [u8; 32];

/// The account lock table of a pass, held in a `hashbrown` map.
#[verifier::external_body]
pub struct LockTable {
    table: HashMap<[u8; 32], bool>,
}

/// What a lock table holds: account address to "written".
pub uninterp spec fn lock_table_contents(table: LockTable) -> Map<Account, bool>;

/// The table that holds nothing.
pub open spec fn no_locks() -> Map<Account, bool> {
    Map::empty()
}

impl LockTable {
    pub open spec fn view(self) -> Map<Account, bool> {
        lock_table_contents(self)
    }

    /// A table for a new pass: it holds no account.
    pub fn new() -> (table: Self)
        ensures
            table@ == no_locks(),
    {
        lock_table_new()
    }
}

/// `HashMap::default`: a new table holds nothing.
#[verifier::external_body]
pub(crate) fn lock_table_new() -> (table: LockTable)
    ensures
        lock_table_contents(table) == no_locks(),
{
    LockTable { table: HashMap::default() }
}

/// `HashMap::clear`: afterwards the table holds nothing.
#[verifier::external_body]
pub(crate) fn lock_table_clear(table: &mut LockTable)
    ensures
        lock_table_contents(*final(table)) == no_locks(),
{
    table.table.clear()
}

/// `HashMap::insert`: maps `key` to `value` and returns the value that `key`
/// had before, if any.
#[verifier::external_body]
pub(crate) fn lock_table_insert(table: &mut LockTable, key: Account, value: bool) -> (previous: Option<bool>)
    ensures
        lock_table_contents(*final(table)) == lock_table_contents(*old(table)).insert(key, value),
        previous == (if lock_table_contents(*old(table)).contains_key(key) {
            Some(lock_table_contents(*old(table))[key])
        } else {
            None
        }),
{
    table.table.insert(key, value)
}

/// Entering the written accounts one by one; stops at the first one already
/// present. Returns whether it stopped early, and the table afterwards.
pub open spec fn enter_writes(m: Map<Account, bool>, writes: Seq<Account>) -> (bool, Map<Account, bool>)
    decreases writes.len(),
{
    if writes.len() == 0 {
        (false, m)
    } else if m.contains_key(writes[0]) {
        (true, m.insert(writes[0], true))
    } else {
        enter_writes(m.insert(writes[0], true), writes.drop_first())
    }
}

/// Entering the read accounts one by one; stops at the first one present as
/// written. Returns whether it stopped early, and the table afterwards.
pub open spec fn enter_reads(m: Map<Account, bool>, reads: Seq<Account>) -> (bool, Map<Account, bool>)
    decreases reads.len(),
{
    if reads.len() == 0 {
        (false, m)
    } else if m.contains_key(reads[0]) && m[reads[0]] {
        (true, m.insert(reads[0], false))
    } else {
        enter_reads(m.insert(reads[0], false), reads.drop_first())
    }
}

/// Reserving a transaction's accounts: whether it succeeds, and the table
/// afterwards.
pub open spec fn reserve(m: Map<Account, bool>, writes: Seq<Account>, reads: Seq<Account>) -> (bool, Map<Account, bool>) {
    let (stopped, m1) = enter_writes(m, writes);
    if stopped {
        (false, m1)
    } else {
        let (stopped2, m2) = enter_reads(m1, reads);
        (!stopped2, m2)
    }
}

/// Reserves the accounts of one transaction in `table`; returns whether the
/// transaction may be scheduled in this pass.
pub fn reserve_accounts(table: &mut LockTable, writes: &Vec<Account>, reads: &Vec<Account>) -> (ok: bool)
    ensures
        (ok, final(table)@) == reserve(old(table)@, writes@, reads@),
{
    let ghost m0 = table@;
    proof {
        assert(writes@.subrange(0, writes@.len() as int) =~= writes@);
        assert(reads@.subrange(0, reads@.len() as int) =~= reads@);
    }
    let mut i: usize = 0;
    while i < writes.len()
        invariant
            0 <= i <= writes.len(),
            m0 == old(table)@,
            enter_writes(m0, writes@) == enter_writes(table@, writes@.subrange(i as int, writes@.len() as int)),
        decreases writes.len() - i,
    {
        let key = writes[i];
        proof {
            assert(writes@.subrange(i as int, writes@.len() as int).drop_first()
                =~= writes@.subrange(i + 1, writes@.len() as int));
        }
        let ghost before = table@;
        let ghost rest = writes@.subrange(i as int, writes@.len() as int);
        let previous = lock_table_insert(table, key, true);
        if previous.is_some() {
            proof {
                assert(rest[0] == key);
                assert(enter_writes(before, rest) == (true, table@));
                assert(enter_writes(m0, writes@) == (true, table@));
                assert(old(table)@ == m0);
                assert(reserve(m0, writes@, reads@) == (false, table@));
            }
            return false;
        }
        i = i + 1;
    }
    proof {
        assert(writes@.subrange(i as int, writes@.len() as int) =~= Seq::<Account>::empty());
    }
    let ghost m1 = table@;
    let mut j: usize = 0;
    while j < reads.len()
        invariant
            0 <= j <= reads.len(),
            m0 == old(table)@,
            enter_writes(m0, writes@) == (false, m1),
            enter_reads(m1, reads@) == enter_reads(table@, reads@.subrange(j as int, reads@.len() as int)),
        decreases reads.len() - j,
    {
        let key = reads[j];
        proof {
            assert(reads@.subrange(j as int, reads@.len() as int).drop_first()
                =~= reads@.subrange(j + 1, reads@.len() as int));
        }
        let ghost before = table@;
        let ghost rest = reads@.subrange(j as int, reads@.len() as int);
        let previous = lock_table_insert(table, key, false);
        if previous == Some(true) {
            proof {
                assert(rest[0] == key);
                assert(enter_reads(before, rest) == (true, table@));
                assert(enter_reads(m1, reads@) == (true, table@));
                assert(reserve(m0, writes@, reads@) == (false, table@));
            }
            return false;
        }
        j = j + 1;
    }
    proof {
        assert(reads@.subrange(j as int, reads@.len() as int) =~= Seq::<Account>::empty());
    }
    true
}

} // verus!

verus! {

/// The accounts a transaction writes (first) and reads (second).
pub type AccountAccess = (Seq<Account>, Seq<Account>);

/// Two transactions conflict when one writes an account that the other
/// writes or reads.
pub open spec fn conflicts(a: AccountAccess, b: AccountAccess) -> bool {
    ||| exists|k: Account| a.0.contains(k) && (b.0.contains(k) || b.1.contains(k))
    ||| exists|k: Account| b.0.contains(k) && a.1.contains(k)
}

/// Reserving each transaction of `txs` in turn, starting from `m`: the table
/// afterwards, or `None` as soon as one of them is refused.
pub open spec fn reserve_all(m: Map<Account, bool>, txs: Seq<AccountAccess>) -> Option<Map<Account, bool>>
    decreases txs.len(),
{
    if txs.len() == 0 {
        Some(m)
    } else {
        match reserve_all(m, txs.drop_last()) {
            None => None,
            Some(m1) => {
                let (ok, m2) = reserve(m1, txs.last().0, txs.last().1);
                if ok {
                    Some(m2)
                } else {
                    None
                }
            },
        }
    }
}

/// The table holds exactly the accounts of `txs`, written ones as `true`,
/// read ones as `false`.
pub open spec fn table_tracks(m: Map<Account, bool>, txs: Seq<AccountAccess>) -> bool {
    &&& forall|k: Account| #[trigger] m.contains_key(k) <==>
        exists|i: int| 0 <= i < txs.len() && (txs[i].0.contains(k) || txs[i].1.contains(k))
    &&& forall|i: int, k: Account| 0 <= i < txs.len() && #[trigger] txs[i].0.contains(k) ==> m.contains_key(k) && m[k]
    &&& forall|i: int, k: Account| 0 <= i < txs.len() && #[trigger] txs[i].1.contains(k) ==> m.contains_key(k) && !m[k]
}

/// No two distinct transactions of `txs` conflict.
pub open spec fn pairwise_conflict_free(txs: Seq<AccountAccess>) -> bool {
    forall|i: int, j: int| 0 <= i < txs.len() && 0 <= j < txs.len() && i != j ==> !conflicts(#[trigger] txs[i], #[trigger] txs[j])
}

proof fn lemma_enter_writes(m: Map<Account, bool>, writes: Seq<Account>)
    requires
        !enter_writes(m, writes).0,
    ensures
        ({
            let m1 = enter_writes(m, writes).1;
            &&& forall|k: Account| #[trigger] m1.contains_key(k) <==> (m.contains_key(k) || writes.contains(k))
            &&& forall|k: Account| writes.contains(k) ==> !m.contains_key(k) && m1[k]
            &&& forall|k: Account| m.contains_key(k) && !writes.contains(k) ==> m1[k] == m[k]
        }),
    decreases writes.len(),
{
    if writes.len() > 0 {
        let m_next = m.insert(writes[0], true);
        lemma_enter_writes(m_next, writes.drop_first());
        assert forall|k: Account| writes.contains(k) implies k == writes[0] || writes.drop_first().contains(k) by {
            let idx = choose|idx: int| 0 <= idx < writes.len() && writes[idx] == k;
            if idx > 0 {
                assert(writes.drop_first()[idx - 1] == k);
            }
        }
        assert forall|k: Account| writes.drop_first().contains(k) implies writes.contains(k) by {
            let idx = choose|idx: int| 0 <= idx < writes.drop_first().len() && writes.drop_first()[idx] == k;
            assert(writes[idx + 1] == k);
        }
        assert(writes.contains(writes[0]));
        assert(!m.contains_key(writes[0]));
        let m1 = enter_writes(m, writes).1;
        assert(m1 == enter_writes(m_next, writes.drop_first()).1);
        assert forall|k: Account| writes.contains(k) implies !m.contains_key(k) && m1[k] by {
            if k == writes[0] {
                if writes.drop_first().contains(k) {
                    assert(m_next.contains_key(k));
                }
            }
        }
        assert forall|k: Account| m.contains_key(k) && !writes.contains(k) implies m1[k] == m[k] by {
            assert(!writes.drop_first().contains(k));
            assert(m_next[k] == m[k]);
        }
    }
}

proof fn lemma_enter_reads(m: Map<Account, bool>, reads: Seq<Account>)
    requires
        !enter_reads(m, reads).0,
    ensures
        ({
            let m1 = enter_reads(m, reads).1;
            &&& forall|k: Account| #[trigger] m1.contains_key(k) <==> (m.contains_key(k) || reads.contains(k))
            &&& forall|k: Account| reads.contains(k) ==> !(m.contains_key(k) && m[k]) && !m1[k]
            &&& forall|k: Account| m.contains_key(k) && !reads.contains(k) ==> m1[k] == m[k]
        }),
    decreases reads.len(),
{
    if reads.len() > 0 {
        let m_next = m.insert(reads[0], false);
        lemma_enter_reads(m_next, reads.drop_first());
        assert forall|k: Account| reads.contains(k) implies k == reads[0] || reads.drop_first().contains(k) by {
            let idx = choose|idx: int| 0 <= idx < reads.len() && reads[idx] == k;
            if idx > 0 {
                assert(reads.drop_first()[idx - 1] == k);
            }
        }
        assert forall|k: Account| reads.drop_first().contains(k) implies reads.contains(k) by {
            let idx = choose|idx: int| 0 <= idx < reads.drop_first().len() && reads.drop_first()[idx] == k;
            assert(reads[idx + 1] == k);
        }
        assert(reads.contains(reads[0]));
        let m1 = enter_reads(m, reads).1;
        assert(m1 == enter_reads(m_next, reads.drop_first()).1);
        assert forall|k: Account| reads.contains(k) implies !(m.contains_key(k) && m[k]) && !m1[k] by {
            if k != reads[0] {
                assert(reads.drop_first().contains(k));
                assert(m_next[k] == m[k]);
            } else if !reads.drop_first().contains(k) {
                assert(m_next.contains_key(k));
            }
        }
        assert forall|k: Account| m.contains_key(k) && !reads.contains(k) implies m1[k] == m[k] by {
            assert(!reads.drop_first().contains(k));
            assert(m_next[k] == m[k]);
        }
    }
}

/// One successful reservation extends a tracking table and conflicts with
/// none of the transactions already tracked.
proof fn lemma_reserve_step(m: Map<Account, bool>, txs: Seq<AccountAccess>, t: AccountAccess)
    requires
        table_tracks(m, txs),
        reserve(m, t.0, t.1).0,
    ensures
        table_tracks(reserve(m, t.0, t.1).1, txs.push(t)),
        forall|i: int| 0 <= i < txs.len() ==> !conflicts(#[trigger] txs[i], t) && !conflicts(t, txs[i]),
{
    let m1 = enter_writes(m, t.0).1;
    let m2 = enter_reads(m1, t.1).1;
    lemma_enter_writes(m, t.0);
    lemma_enter_reads(m1, t.1);
    let txs2 = txs.push(t);
    assert(txs2[txs.len() as int] == t);
    assert forall|i: int| 0 <= i < txs.len() implies !conflicts(#[trigger] txs[i], t) && !conflicts(t, txs[i]) by {
        let s = txs[i];
        assert(txs2[i] == s);
        if exists|k: Account| s.0.contains(k) && (t.0.contains(k) || t.1.contains(k)) {
            let k = choose|k: Account| s.0.contains(k) && (t.0.contains(k) || t.1.contains(k));
            assert(m.contains_key(k) && m[k]);
        }
        if exists|k: Account| t.0.contains(k) && s.1.contains(k) {
            let k = choose|k: Account| t.0.contains(k) && s.1.contains(k);
            assert(m.contains_key(k));
        }
    }
    assert forall|k: Account| #[trigger] m2.contains_key(k) <==>
        exists|i: int| 0 <= i < txs2.len() && (txs2[i].0.contains(k) || txs2[i].1.contains(k)) by {
        if m.contains_key(k) {
            let i = choose|i: int| 0 <= i < txs.len() && (txs[i].0.contains(k) || txs[i].1.contains(k));
            assert(txs2[i] == txs[i]);
        }
        if exists|i: int| 0 <= i < txs2.len() && (txs2[i].0.contains(k) || txs2[i].1.contains(k)) {
            let i = choose|i: int| 0 <= i < txs2.len() && (txs2[i].0.contains(k) || txs2[i].1.contains(k));
            if i < txs.len() {
                assert(txs2[i] == txs[i]);
            }
        }
    }
    assert forall|i: int, k: Account| 0 <= i < txs2.len() && #[trigger] txs2[i].0.contains(k) implies m2.contains_key(k) && m2[k] by {
        if i < txs.len() {
            assert(txs2[i] == txs[i]);
            assert(!conflicts(txs[i], t));
        }
    }
    assert forall|i: int, k: Account| 0 <= i < txs2.len() && #[trigger] txs2[i].1.contains(k) implies m2.contains_key(k) && !m2[k] by {
        if i < txs.len() {
            assert(txs2[i] == txs[i]);
            assert(!conflicts(t, txs[i]));
        }
    }
}

proof fn lemma_reserve_all_tracks(txs: Seq<AccountAccess>)
    requires
        reserve_all(no_locks(), txs) is Some,
    ensures
        table_tracks(reserve_all(no_locks(), txs).unwrap(), txs),
        pairwise_conflict_free(txs),
    decreases txs.len(),
{
    if txs.len() > 0 {
        let prefix = txs.drop_last();
        lemma_reserve_all_tracks(prefix);
        let m = reserve_all(no_locks(), prefix).unwrap();
        lemma_reserve_step(m, prefix, txs.last());
        assert(prefix.push(txs.last()) =~= txs);
        assert forall|i: int, j: int| 0 <= i < txs.len() && 0 <= j < txs.len() && i != j implies !conflicts(#[trigger] txs[i], #[trigger] txs[j]) by {
            if i < prefix.len() && j < prefix.len() {
                assert(txs[i] == prefix[i] && txs[j] == prefix[j]);
            } else if i < prefix.len() {
                assert(txs[i] == prefix[i] && txs[j] == txs.last());
            } else {
                assert(txs[j] == prefix[j] && txs[i] == txs.last());
            }
        }
    } else {
        assert(table_tracks(no_locks(), txs));
    }
}

/// Law: within one execution pass, the transactions whose reservations all
/// succeed, starting from an empty table, are pairwise free of conflicts: no
/// account written by one of them is written or read by another.
pub proof fn lemma_pass_conflict_free(txs: Seq<AccountAccess>)
    requires
        reserve_all(no_locks(), txs) is Some,
    ensures
        pairwise_conflict_free(txs),
{
    lemma_reserve_all_tracks(txs);
}

} // verus!
