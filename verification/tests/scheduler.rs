use qos::account_keys::{MessageVersion, TransactionLayout};
use qos::greedy::{
    check_failed, classify_worker_message, CheckOutcome, ExecuteStep, GreedyScheduler, Phase, TransactionCosts,
    WorkerMessageKind, CHECKED_CAPACITY, UNCHECKED_CAPACITY,
};
use qos::locks::{reserve_accounts, LockTable};
use qos::protocol::{
    CheckFlags, ProgressSnapshot, PubkeysRegion, TransactionRegion, CHECK_RESPONSE, EXECUTION_RESPONSE, IS_LEADER,
    MAX_BLOCK_UNITS, MAX_TRANSACTIONS_PER_MESSAGE, MAX_WORKING_SLOT_EXCEEDED, PROCESSED,
};

fn key(b: u8) -> [u8; 32] {
    [b; 32]
}

/// One signer writing `payer`, plus `reads` as read-only unsigned keys.
fn layout(payer: [u8; 32], reads: &[[u8; 32]]) -> TransactionLayout {
    let mut keys = vec![payer];
    keys.extend_from_slice(reads);
    TransactionLayout {
        version: MessageVersion::Legacy,
        num_signatures: 1,
        num_readonly_signed_static_accounts: 0,
        num_readonly_unsigned_static_accounts: reads.len() as u8,
        num_static_account_keys: keys.len() as u8,
        total_writable_lookup_accounts: 0,
        static_account_keys: keys,
    }
}

fn region(offset: usize) -> TransactionRegion {
    TransactionRegion { offset, length: 100 }
}

fn costs(cost: u64, prioritization_fee: u64) -> Option<TransactionCosts> {
    Some(TransactionCosts { cost, transaction_fee: 5000, prioritization_fee })
}

fn ok_flags() -> CheckFlags {
    CheckFlags {
        parsing_and_sanitization_flags: 0,
        status_check_flags: 3,
        fee_payer_balance_flags: 3,
        resolve_flags: 3,
        resolved_pubkeys: PubkeysRegion { offset: 0, num_pubkeys: 0 },
    }
}

fn leader_progress(progress: u8, remaining: u64) -> ProgressSnapshot {
    ProgressSnapshot {
        leader_state: IS_LEADER,
        current_slot: 7,
        next_leader_slot: 7,
        leader_range_end: 9,
        remaining_cost_units: remaining,
        current_slot_progress: progress,
    }
}

/// Admits a transaction and takes it through a successful check.
fn admit_checked(s: &mut GreedyScheduler, payer: u8, reads: &[[u8; 32]], cost: u64, fee: u64) -> u64 {
    let id = s.admit_transaction(region(payer as usize), layout(key(payer), reads), costs(cost, fee)).unwrap();
    let batch = s.take_check_batch();
    assert_eq!(batch.len(), 1);
    assert_eq!(batch[0].0, id);
    match s.complete_check(id, ok_flags(), Vec::new()) {
        CheckOutcome::Admitted(None) => {}
        other => panic!("unexpected outcome {:?}", other),
    }
    id.key
}

#[test]
fn new_scheduler_is_empty_and_not_leader() {
    let s = GreedyScheduler::new();
    assert!(!s.is_leader());
    assert_eq!(s.unchecked_len(), 0);
    assert_eq!(s.checked_len(), 0);
    assert!(s.execute_pass_done());
    assert_eq!(s.fee_parameters(), (5000, 50));
}

#[test]
fn drain_progress_keeps_latest() {
    let mut s = GreedyScheduler::new();
    s.drain_progress(&vec![]);
    assert!(!s.is_leader());
    let mut first = leader_progress(0, 0);
    first.leader_state = 0;
    assert_eq!(s.tpu_limit(), 1024);
    s.drain_progress(&vec![first, leader_progress(10, 0)]);
    assert!(s.is_leader());
    assert_eq!(s.tpu_limit(), 128);
}

#[test]
fn admission_assigns_fresh_keys_and_priority() {
    let mut s = GreedyScheduler::new();
    let a = s.admit_transaction(region(1), layout(key(1), &[]), costs(99, 1000)).unwrap();
    let b = s.admit_transaction(region(2), layout(key(2), &[]), costs(99, 2000)).unwrap();
    assert_eq!(a.key, 0);
    assert_eq!(b.key, 1);
    // reward = 2500 + 1000, priority = 3500 * 1e6 / 100.
    assert_eq!(a.priority, 35_000_000);
    assert_eq!(b.priority, 45_000_000);
    assert_eq!(s.unchecked_len(), 2);
    assert_eq!(s.admit_transaction(region(3), layout(key(3), &[]), None), None);
    assert_eq!(s.unchecked_len(), 2);
}

#[test]
fn tpu_intake_computes_shortfall() {
    let s = GreedyScheduler::new();
    assert_eq!(s.tpu_intake(5000, 1024), (1024, 0));
    assert_eq!(s.tpu_intake(10, 128), (10, 0));
}

#[test]
fn eviction_takes_lowest_priority_first() {
    let mut s = GreedyScheduler::new();
    for (i, fee) in [3000u64, 1000, 5000, 2000].iter().enumerate() {
        s.admit_transaction(region(i), layout(key(i as u8), &[]), costs(10, *fee)).unwrap();
    }
    let dropped = s.evict_unchecked(2);
    let fees: Vec<usize> = dropped.iter().map(|d| d.entry.transaction.sharable_transaction.offset).collect();
    assert_eq!(fees, vec![1, 3]);
    assert_eq!(s.unchecked_len(), 2);
}

#[test]
fn check_batch_takes_highest_priority_in_order() {
    let mut s = GreedyScheduler::new();
    for i in 0..70u64 {
        s.admit_transaction(region(i as usize), layout(key(i as u8), &[]), costs(10, i * 10)).unwrap();
    }
    let batch = s.take_check_batch();
    assert_eq!(batch.len(), MAX_TRANSACTIONS_PER_MESSAGE);
    assert_eq!(batch[0].1.offset, 69);
    for pair in batch.windows(2) {
        assert!(pair[0].0.priority >= pair[1].0.priority);
    }
    assert_eq!(s.unchecked_len(), 6);
    let rest = s.take_check_batch();
    assert_eq!(rest.len(), 6);
    assert!(s.take_check_batch().is_empty());
}

#[test]
fn failed_check_drops_transaction() {
    let mut s = GreedyScheduler::new();
    let id = s.admit_transaction(region(4), layout(key(4), &[]), costs(10, 0)).unwrap();
    s.take_check_batch();
    let mut flags = ok_flags();
    flags.status_check_flags = 3 | 4;
    assert!(check_failed(&flags));
    match s.complete_check(id, flags, Vec::new()) {
        CheckOutcome::Dropped(d) => {
            assert_eq!(d.id, id);
            assert_eq!(d.entry.phase, Phase::Checking);
        }
        other => panic!("unexpected outcome {:?}", other),
    }
    assert_eq!(s.checked_len(), 0);
}

#[test]
fn check_failure_flags() {
    let mut flags = ok_flags();
    assert!(!check_failed(&flags));
    flags.parsing_and_sanitization_flags = 1;
    assert!(check_failed(&flags));
}

#[test]
fn check_keeps_resolved_addresses() {
    let mut s = GreedyScheduler::new();
    let id = s.admit_transaction(region(4), layout(key(4), &[]), costs(10, 0)).unwrap();
    s.take_check_batch();
    let mut flags = ok_flags();
    flags.resolved_pubkeys = PubkeysRegion { offset: 640, num_pubkeys: 1 };
    match s.complete_check(id, flags, vec![key(77)]) {
        CheckOutcome::Admitted(None) => {}
        other => panic!("unexpected outcome {:?}", other),
    }
    assert_eq!(s.checked_len(), 1);
}

#[test]
fn full_unchecked_heap_makes_room_for_arrivals() {
    let mut s = GreedyScheduler::new();
    let mut lowest_key = None;
    for i in 0..UNCHECKED_CAPACITY as u64 {
        let id = s.admit_transaction(region(i as usize), layout(key(1), &[]), costs(10, 100 + i)).unwrap();
        if i == 0 {
            lowest_key = Some(id.key);
        }
    }
    assert_eq!(s.unchecked_len(), UNCHECKED_CAPACITY);
    // One arrival with an empty checked heap: one eviction makes room.
    let (additional, shortfall) = s.tpu_intake(1, 128);
    assert_eq!((additional, shortfall), (1, 1));
    let dropped = s.evict_unchecked(shortfall);
    assert_eq!(dropped.len(), 1);
    assert_eq!(Some(dropped[0].id.key), lowest_key);
    s.admit_transaction(region(0), layout(key(2), &[]), costs(0, 0)).unwrap();
    assert_eq!(s.unchecked_len(), UNCHECKED_CAPACITY);
    assert_eq!(s.tpu_intake(10, 4), (4, 4));
}

#[test]
fn full_checked_heap_evicts_its_lowest() {
    let mut s = GreedyScheduler::new();
    let mut lowest_key = None;
    for i in 0..CHECKED_CAPACITY as u64 {
        let id = s.admit_transaction(region(i as usize), layout(key(1), &[]), costs(10, 100 + i)).unwrap();
        if i == 0 {
            lowest_key = Some(id.key);
        }
    }
    while s.unchecked_len() > 0 {
        for (id, _) in s.take_check_batch() {
            s.complete_check(id, ok_flags(), Vec::new());
        }
    }
    assert_eq!(s.checked_len(), CHECKED_CAPACITY);
    let id = s.admit_transaction(region(1), layout(key(2), &[]), costs(10, 0)).unwrap();
    s.take_check_batch();
    match s.complete_check(id, ok_flags(), Vec::new()) {
        CheckOutcome::Admitted(Some(evicted)) => assert_eq!(Some(evicted.id.key), lowest_key),
        other => panic!("unexpected outcome {:?}", other),
    }
    assert_eq!(s.checked_len(), CHECKED_CAPACITY);
    assert_eq!(UNCHECKED_CAPACITY, 65536);
}

#[test]
fn execute_budget_exact_value() {
    let mut s = GreedyScheduler::new();
    // progress 30% + 20 cutoff = 50% of 60M = 30M; used = 60M - 50M = 10M.
    s.drain_progress(&vec![leader_progress(30, 50_000_000)]);
    assert_eq!(s.begin_execute_pass(), 20_000_000);
    // progress 90% caps at 100%; nothing used.
    s.drain_progress(&vec![leader_progress(90, MAX_BLOCK_UNITS)]);
    assert_eq!(s.begin_execute_pass(), MAX_BLOCK_UNITS);
    // More used than the target: no budget.
    s.drain_progress(&vec![leader_progress(0, 0)]);
    assert_eq!(s.begin_execute_pass(), 0);
    assert!(s.execute_pass_done());
}

#[test]
fn execute_batch_respects_budget_and_tracks_in_flight() {
    let mut s = GreedyScheduler::new();
    // Priorities: 92_500e6 / 401, 82_500e6 / 701, 3_500e6 / 101, in that order.
    admit_checked(&mut s, 1, &[], 400, 90_000);
    admit_checked(&mut s, 2, &[], 700, 80_000);
    admit_checked(&mut s, 3, &[], 100, 1000);
    // Limit 20% of 60M = 12M; used 11_999_000: budget 1000.
    s.drain_progress(&vec![leader_progress(0, MAX_BLOCK_UNITS - 11_999_000)]);
    let budget = s.begin_execute_pass();
    assert_eq!(budget, 1000);
    let batch = s.collect_execute_batch();
    // Highest first: cost 400 fits (600 left), cost 700 does not and ends the batch.
    assert_eq!(batch.len(), 1);
    assert_eq!(batch[0].1.offset, 1);
    assert_eq!(s.checked_len(), 2);
    assert!(!s.execute_pass_done());
    for (id, _) in &batch {
        s.complete_execution(*id);
    }
}

#[test]
fn execute_pass_skips_conflicting_accounts() {
    let mut s = GreedyScheduler::new();
    // Both write account 5 (as fee payer).
    admit_checked(&mut s, 5, &[], 10, 9000);
    let second = s.admit_transaction(region(6), layout(key(5), &[]), costs(10, 100)).unwrap();
    s.take_check_batch();
    s.complete_check(second, ok_flags(), Vec::new());
    s.drain_progress(&vec![leader_progress(80, MAX_BLOCK_UNITS)]);
    assert_eq!(s.begin_execute_pass(), MAX_BLOCK_UNITS);
    let batch = s.collect_execute_batch();
    assert_eq!(batch.len(), 1);
    // The conflict ended the pass.
    assert!(s.execute_pass_done());
    assert_eq!(s.checked_len(), 1);
}

#[test]
fn execute_pass_shares_read_accounts() {
    let mut s = GreedyScheduler::new();
    admit_checked(&mut s, 1, &[key(9)], 10, 9000);
    admit_checked(&mut s, 2, &[key(9)], 10, 8000);
    s.drain_progress(&vec![leader_progress(80, MAX_BLOCK_UNITS)]);
    s.begin_execute_pass();
    let batch = s.collect_execute_batch();
    assert_eq!(batch.len(), 2);
}

#[test]
fn worker_messages_are_classified() {
    assert_eq!(classify_worker_message(MAX_WORKING_SLOT_EXCEEDED, CHECK_RESPONSE), WorkerMessageKind::Expired);
    assert_eq!(classify_worker_message(PROCESSED, CHECK_RESPONSE), WorkerMessageKind::Check);
    assert_eq!(classify_worker_message(PROCESSED, EXECUTION_RESPONSE), WorkerMessageKind::Execute);
}

#[test]
fn lock_table_conflicts() {
    let mut table = LockTable::new();
    assert!(reserve_accounts(&mut table, &vec![key(1)], &vec![key(2)]));
    // Reading an account read before is fine.
    assert!(reserve_accounts(&mut table, &vec![key(3)], &vec![key(2)]));
    // Writing an account read before conflicts.
    assert!(!reserve_accounts(&mut table, &vec![key(2)], &vec![]));
    // Reading an account written before conflicts.
    let mut table = LockTable::new();
    assert!(reserve_accounts(&mut table, &vec![key(1)], &vec![]));
    assert!(!reserve_accounts(&mut table, &vec![], &vec![key(1)]));
    // A transaction writing the same account twice conflicts with itself.
    let mut table = LockTable::new();
    assert!(!reserve_accounts(&mut table, &vec![key(4), key(4)], &vec![]));
}

#[test]
fn make_room_evicts_before_intake() {
    let mut s = GreedyScheduler::new();
    for i in 0..UNCHECKED_CAPACITY as u64 {
        s.admit_transaction(region(i as usize), layout(key(1), &[]), costs(10, 100 + i)).unwrap();
    }
    let (additional, evicted) = s.make_room(5, 3);
    assert_eq!(additional, 3);
    assert_eq!(evicted.len(), 3);
    assert_eq!(s.unchecked_len(), UNCHECKED_CAPACITY - 3);
    // Three places are free: taking in five evicts two.
    let (additional, evicted) = s.make_room(5, 128);
    assert_eq!((additional, evicted.len()), (5, 2));
    assert_eq!(s.unchecked_len(), UNCHECKED_CAPACITY - 5);
}

#[test]
fn check_step_stops_when_nothing_waits() {
    let mut s = GreedyScheduler::new();
    assert!(s.check_step().is_none());
    admit_checked(&mut s, 1, &[], 10, 100);
    s.admit_transaction(region(7), layout(key(7), &[]), costs(10, 100)).unwrap();
    let batch = s.check_step().expect("one waits");
    assert_eq!(batch.len(), 1);
    assert_eq!(batch[0].1.offset, 7);
    assert!(s.check_step().is_none());
}

#[test]
fn execute_step_skips_busy_workers_and_ends_the_pass() {
    let mut s = GreedyScheduler::new();
    // Not leading: no budget, so the pass is over at once.
    assert!(matches!(s.execute_step(false), ExecuteStep::PassOver));
    admit_checked(&mut s, 1, &[], 10, 9000);
    admit_checked(&mut s, 1, &[], 10, 8000);
    s.drain_progress(&vec![leader_progress(80, MAX_BLOCK_UNITS)]);
    s.begin_execute_pass();
    assert!(matches!(s.execute_step(true), ExecuteStep::SkipWorker));
    match s.execute_step(false) {
        ExecuteStep::Send(batch) => assert_eq!(batch.len(), 1),
        other => panic!("unexpected step {:?}", other),
    }
    // The second writes the same fee payer: the conflict ends the pass.
    assert!(matches!(s.execute_step(false), ExecuteStep::PassOver));
    assert!(s.execute_pass_done());
    assert_eq!(s.checked_len(), 1);
}
