use qos::fifo::{
    clear_queue, handle_tpu_messages, handle_worker_messages, schedule, FifoState, ResolvedTransaction, TpuTransaction,
    WorkerMessage, WorkerMessageOutcome,
};
use qos::legacy::{Placement, ResolveDisposition, MAX_ATTEMPTED, QUEUE_CAPACITY};
use qos::protocol::{
    CheckFlags, PubkeysRegion, TransactionRegion, MAX_TRANSACTIONS_PER_MESSAGE, WOULD_EXCEED_MAX_BLOCK_COST_LIMIT,
};

/// A serialized transaction signed by `payer` that reads `read`.
fn transaction(payer: u8, read: u8, v0: bool) -> Vec<u8> {
    let mut bytes = vec![1u8];
    bytes.extend_from_slice(&[7u8; 64]);
    if v0 {
        bytes.push(0x80);
    }
    bytes.extend_from_slice(&[1, 0, 1]);
    bytes.push(2);
    bytes.extend_from_slice(&[payer; 32]);
    bytes.extend_from_slice(&[read; 32]);
    bytes.extend_from_slice(&[5u8; 32]);
    bytes.push(0);
    if v0 {
        bytes.push(0);
    }
    bytes
}

fn region(offset: usize) -> TransactionRegion {
    TransactionRegion { offset, length: 100 }
}

fn tpu(offset: usize, data: Vec<u8>) -> TpuTransaction {
    TpuTransaction { region: region(offset), data }
}

fn resolved_flags(resolve: u8, num_pubkeys: u32) -> CheckFlags {
    CheckFlags {
        parsing_and_sanitization_flags: 0,
        status_check_flags: 0,
        fee_payer_balance_flags: 0,
        resolve_flags: resolve,
        resolved_pubkeys: PubkeysRegion { offset: 4096, num_pubkeys },
    }
}

#[test]
fn tpu_round_queues_resolves_and_drops() {
    let mut s = FifoState::new(5);
    let round = handle_tpu_messages(
        &mut s,
        &vec![
            tpu(10, transaction(1, 2, false)),
            tpu(20, transaction(3, 4, true)),
            tpu(30, vec![1, 2, 3]),
            tpu(40, transaction(5, 6, false)),
        ],
    );
    assert_eq!(round.dropped, vec![region(30)]);
    assert_eq!(round.resolve_batches, vec![vec![region(20)]]);
    assert_eq!(s.queue_len(), 2);
    assert!(s.holds(10) && s.holds(40));
    assert!(!s.holds(20) && !s.holds(30));
}

#[test]
fn tpu_round_splits_resolve_batches() {
    let mut s = FifoState::new(2);
    let messages: Vec<TpuTransaction> = (0..MAX_TRANSACTIONS_PER_MESSAGE + 3).map(|i| tpu(i, transaction(1, 2, true))).collect();
    let round = handle_tpu_messages(&mut s, &messages);
    assert_eq!(round.resolve_batches.len(), 2);
    assert_eq!(round.resolve_batches[0].len(), MAX_TRANSACTIONS_PER_MESSAGE);
    assert_eq!(round.resolve_batches[1], vec![region(64), region(65), region(66)]);
    assert_eq!(s.queue_len(), 0);
}

#[test]
fn schedule_spreads_independent_transactions() {
    let mut s = FifoState::new(5);
    handle_tpu_messages(&mut s, &vec![tpu(10, transaction(1, 9, false)), tpu(20, transaction(2, 9, false))]);
    let plan = schedule(&mut s, 4);
    assert_eq!(plan.scheduled.len(), 2);
    assert_eq!(plan.scheduled[0].worker, 0);
    assert_eq!(plan.scheduled[0].region, region(10));
    assert_eq!(plan.scheduled[1].worker, 1);
    let first = Placement { open_batch: true, position: 0, send_now: false };
    assert_eq!(plan.scheduled[0].placement, first);
    assert_eq!(plan.scheduled[1].placement, first);
    assert_eq!(plan.open_batches, vec![0, 1]);
    assert_eq!(s.queue_len(), 0);
    assert!(s.in_flight_on(10, 0) && s.in_flight_on(20, 1));
    assert_eq!(s.worker_load(0), 1);
    assert_eq!(s.worker_load(1), 1);
}

#[test]
fn schedule_keeps_conflicting_writers_on_one_worker() {
    let mut s = FifoState::new(5);
    // Both write account 1 (their fee payer).
    handle_tpu_messages(&mut s, &vec![tpu(10, transaction(1, 8, false)), tpu(20, transaction(1, 9, false))]);
    let plan = schedule(&mut s, 4);
    assert_eq!(plan.scheduled.len(), 2);
    assert_eq!(plan.scheduled[0].worker, 0);
    assert_eq!(plan.scheduled[1].worker, 0);
    assert_eq!(plan.scheduled[1].placement, Placement { open_batch: false, position: 1, send_now: false });
    assert_eq!(plan.open_batches, vec![0]);
    assert_eq!(s.worker_load(0), 2);
}

#[test]
fn schedule_with_no_worker_requeues_everything() {
    let mut s = FifoState::new(5);
    handle_tpu_messages(&mut s, &vec![tpu(10, transaction(1, 8, false))]);
    let plan = schedule(&mut s, 0);
    assert!(plan.scheduled.is_empty());
    assert!(plan.open_batches.is_empty());
    assert_eq!(s.queue_len(), 1);
    assert!(s.holds(10));
}

#[test]
fn schedule_records_every_deferral() {
    let mut s = FifoState::new(5);
    handle_tpu_messages(&mut s, &vec![tpu(10, transaction(1, 8, false))]);
    let plan = schedule(&mut s, 0);
    // The one transaction comes back to the front on every attempt.
    assert_eq!(plan.deferred.len(), MAX_ATTEMPTED);
    assert!(plan.deferred.iter().all(|&(offset, after)| offset == 10 && after == 0));
}

#[test]
fn schedule_defers_only_what_no_worker_may_take() {
    let mut s = FifoState::new(5);
    // Two writers of account 1 and an independent one: with a single worker
    // all three go to it.
    handle_tpu_messages(
        &mut s,
        &vec![tpu(10, transaction(1, 8, false)), tpu(20, transaction(1, 9, false)), tpu(30, transaction(3, 4, false))],
    );
    let plan = schedule(&mut s, 1);
    assert_eq!(plan.scheduled.len(), 3);
    assert!(plan.deferred.is_empty());
    assert_eq!(s.queue_len(), 0);
}

#[test]
fn schedule_sends_full_batches() {
    let mut s = FifoState::new(2);
    // All write account 1: they all go to worker 0.
    let messages: Vec<TpuTransaction> =
        (0..MAX_TRANSACTIONS_PER_MESSAGE + 1).map(|i| tpu(i, transaction(1, 2, false))).collect();
    handle_tpu_messages(&mut s, &messages);
    let plan = schedule(&mut s, 1);
    assert_eq!(plan.scheduled.len(), MAX_TRANSACTIONS_PER_MESSAGE + 1);
    assert!(plan.scheduled[MAX_TRANSACTIONS_PER_MESSAGE - 1].placement.send_now);
    assert!(plan.scheduled[MAX_TRANSACTIONS_PER_MESSAGE].placement.open_batch);
    assert_eq!(plan.open_batches, vec![0]);
}

#[test]
fn executed_transactions_release_or_retry() {
    let mut s = FifoState::new(5);
    handle_tpu_messages(&mut s, &vec![tpu(10, transaction(1, 8, false)), tpu(20, transaction(1, 9, false))]);
    schedule(&mut s, 4);
    let message = WorkerMessage::Executed {
        offsets: vec![10, 20],
        not_included_reasons: vec![0, WOULD_EXCEED_MAX_BLOCK_COST_LIMIT],
    };
    match handle_worker_messages(&mut s, 0, &message) {
        WorkerMessageOutcome::Released(entries) => {
            assert_eq!(entries.len(), 1);
            assert_eq!(entries[0].transaction.sharable_transaction, region(10));
        }
        other => panic!("unexpected outcome {:?}", other),
    }
    assert!(!s.holds(10));
    assert!(s.holds(20));
    assert_eq!(s.queue_len(), 1);
    assert_eq!(s.worker_load(0), 0);
    // The locks were released: the retried transaction can be scheduled again.
    let plan = schedule(&mut s, 4);
    assert_eq!(plan.scheduled.len(), 1);
}

#[test]
fn executed_batch_stops_at_the_shorter_list() {
    let mut s = FifoState::new(5);
    handle_tpu_messages(&mut s, &vec![tpu(10, transaction(1, 8, false)), tpu(20, transaction(1, 9, false))]);
    schedule(&mut s, 4);
    let message = WorkerMessage::Executed { offsets: vec![10, 20], not_included_reasons: vec![0] };
    handle_worker_messages(&mut s, 0, &message);
    assert!(!s.holds(10));
    assert!(s.in_flight_on(20, 0));
    assert_eq!(s.worker_load(0), 1);
}

#[test]
fn expired_transactions_go_back_to_the_queue() {
    let mut s = FifoState::new(5);
    handle_tpu_messages(&mut s, &vec![tpu(10, transaction(1, 8, false))]);
    schedule(&mut s, 4);
    match handle_worker_messages(&mut s, 0, &WorkerMessage::Expired { offsets: vec![10] }) {
        WorkerMessageOutcome::Released(entries) => assert!(entries.is_empty()),
        other => panic!("unexpected outcome {:?}", other),
    }
    assert_eq!(s.queue_len(), 1);
    assert!(!s.in_flight_on(10, 0));
}

#[test]
fn resolved_transactions_are_queued_or_dropped() {
    let mut s = FifoState::new(5);
    let message = WorkerMessage::Resolved {
        transactions: vec![
            ResolvedTransaction {
                region: region(10),
                data: transaction(1, 2, true),
                response: resolved_flags(3, 1),
                resolved_keys: vec![[42u8; 32]],
            },
            ResolvedTransaction {
                region: region(20),
                data: transaction(3, 4, true),
                response: resolved_flags(1 | 4, 0),
                resolved_keys: vec![],
            },
            ResolvedTransaction {
                region: region(30),
                data: transaction(5, 6, true),
                response: resolved_flags(3, 0),
                resolved_keys: vec![],
            },
        ],
    };
    match handle_worker_messages(&mut s, 4, &message) {
        WorkerMessageOutcome::Resolved(ds) => assert_eq!(
            ds,
            vec![ResolveDisposition::Enqueue, ResolveDisposition::DropFailed, ResolveDisposition::Enqueue]
        ),
        other => panic!("unexpected outcome {:?}", other),
    }
    assert_eq!(s.queue_len(), 2);
    let cleared = clear_queue(&mut s);
    assert_eq!(cleared.len(), 2);
    assert_eq!(cleared[0].transaction.loaded_addresses, Some(vec![[42u8; 32]]));
    assert_eq!(cleared[0].resolved_pubkeys, Some(PubkeysRegion { offset: 4096, num_pubkeys: 1 }));
    assert_eq!(cleared[1].transaction.loaded_addresses, None);
    assert_eq!(cleared[1].resolved_pubkeys, None);
}

#[test]
fn corrupted_resolved_transaction_is_reported() {
    let mut s = FifoState::new(5);
    let message = WorkerMessage::Resolved {
        transactions: vec![ResolvedTransaction {
            region: region(10),
            data: vec![9, 9, 9],
            response: resolved_flags(3, 0),
            resolved_keys: vec![],
        }],
    };
    assert!(matches!(handle_worker_messages(&mut s, 4, &message), WorkerMessageOutcome::Corrupted));
}

#[test]
fn clear_queue_empties_the_queue_in_order() {
    let mut s = FifoState::new(5);
    handle_tpu_messages(&mut s, &vec![tpu(10, transaction(1, 8, false)), tpu(20, transaction(2, 8, false))]);
    let cleared = clear_queue(&mut s);
    let offsets: Vec<usize> = cleared.iter().map(|e| e.transaction.sharable_transaction.offset).collect();
    assert_eq!(offsets, vec![10, 20]);
    assert_eq!(s.queue_len(), 0);
    assert!(!s.holds(10));
}

#[test]
fn clear_queue_leaves_transactions_with_workers() {
    let mut s = FifoState::new(5);
    handle_tpu_messages(&mut s, &vec![tpu(10, transaction(1, 8, false))]);
    schedule(&mut s, 4);
    handle_tpu_messages(&mut s, &vec![tpu(20, transaction(2, 8, false))]);
    let cleared = clear_queue(&mut s);
    assert_eq!(cleared.len(), 1);
    assert!(s.in_flight_on(10, 0));
    assert!(s.holds(10));
}

#[test]
fn full_queue_drops_arrivals() {
    let mut s = FifoState::new(2);
    let bytes = transaction(1, 2, false);
    let messages: Vec<TpuTransaction> = (0..QUEUE_CAPACITY + 2).map(|i| tpu(i, bytes.clone())).collect();
    let round = handle_tpu_messages(&mut s, &messages);
    assert_eq!(s.queue_len(), QUEUE_CAPACITY);
    assert_eq!(round.dropped, vec![region(QUEUE_CAPACITY), region(QUEUE_CAPACITY + 1)]);
}
