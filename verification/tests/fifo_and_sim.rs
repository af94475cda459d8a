use qos::legacy::{
    classify_tpu_transaction, handle_progress_message, is_cost_limit_reason, loop_step, note_in_progress,
    processed_flag, release_in_progress, resolve_disposition, select_least_busy_thread,
    tpu_disposition, BatchPlanner, LoopAction, Placement, ResolveBatcher, ResolveDisposition, TpuDisposition,
    MAX_ATTEMPTED, QUEUE_CAPACITY, SLOT_DISTANCE_THRESHOLD,
};
use qos::account_keys::{MessageVersion, TransactionLayout};
use qos::protocol::{
    CheckFlags, ProgressSnapshot, PubkeysRegion, TransactionRegion, IS_LEADER, IS_NOT_LEADER,
    MAX_TRANSACTIONS_PER_MESSAGE, MAX_WORKING_SLOT_EXCEEDED, PROCESSED, TPU_FORWARDED, TPU_FROM_STAKED_NODE,
    TPU_IS_SIMPLE_VOTE, WOULD_EXCEED_ACCOUNT_DATA_BLOCK_LIMIT, WOULD_EXCEED_ACCOUNT_DATA_TOTAL_LIMIT,
    WOULD_EXCEED_MAX_ACCOUNT_COST_LIMIT, WOULD_EXCEED_MAX_BLOCK_COST_LIMIT, WOULD_EXCEED_MAX_VOTE_COST_LIMIT,
};
use solana_packet::PacketFlags;
use qos::sim::{
    batch_len_acceptable, create_dynamic_msgs, flags_from_meta, map_src_addr, response_for_batch, LeaderSchedule,
    SourceAddress, PACKET_FORWARDED, PACKET_FROM_STAKED_NODE, PACKET_SIMPLE_VOTE_TX,
};

fn progress(leader_state: u8, current_slot: u64, next_leader_slot: u64) -> ProgressSnapshot {
    ProgressSnapshot {
        leader_state,
        current_slot,
        next_leader_slot,
        leader_range_end: 0,
        remaining_cost_units: 0,
        current_slot_progress: 0,
    }
}

fn legacy_bytes(v0: bool) -> Vec<u8> {
    let mut bytes = vec![1u8];
    bytes.extend_from_slice(&[7u8; 64]);
    if v0 {
        bytes.push(0x80);
    }
    bytes.extend_from_slice(&[1, 0, 1]);
    bytes.push(2);
    bytes.extend_from_slice(&[3u8; 32]);
    bytes.extend_from_slice(&[9u8; 32]);
    bytes.extend_from_slice(&[5u8; 32]);
    bytes.push(0);
    if v0 {
        bytes.push(0);
    }
    bytes
}

fn region(offset: usize) -> TransactionRegion {
    TransactionRegion { offset, length: 10 }
}

fn resolve_flags(parsing: u8, resolve: u8) -> CheckFlags {
    CheckFlags {
        parsing_and_sanitization_flags: parsing,
        status_check_flags: 0,
        fee_payer_balance_flags: 0,
        resolve_flags: resolve,
        resolved_pubkeys: PubkeysRegion { offset: 0, num_pubkeys: 0 },
    }
}

#[test]
fn progress_reads_latest_message() {
    assert_eq!(handle_progress_message(&vec![]), None);
    let msgs = vec![progress(IS_LEADER, 5, 9), progress(IS_NOT_LEADER, 10, 45)];
    assert_eq!(handle_progress_message(&msgs), Some((false, 35)));
    // A next leader slot already passed counts as zero slots away.
    assert_eq!(handle_progress_message(&vec![progress(IS_LEADER, 50, 45)]), Some((true, 0)));
}

#[test]
fn loop_step_decisions() {
    assert_eq!(loop_step(false, None), (false, LoopAction::Idle));
    assert_eq!(loop_step(true, None), (true, LoopAction::Schedule));
    assert_eq!(loop_step(false, Some((true, 0))), (true, LoopAction::Schedule));
    assert_eq!(loop_step(true, Some((false, SLOT_DISTANCE_THRESHOLD + 1))), (false, LoopAction::ClearQueue));
    assert_eq!(loop_step(false, Some((false, SLOT_DISTANCE_THRESHOLD))), (false, LoopAction::Idle));
}

#[test]
fn tpu_transactions_are_classified() {
    assert!(matches!(classify_tpu_transaction(QUEUE_CAPACITY, &legacy_bytes(false)), TpuDisposition::DropQueueFull));
    assert!(matches!(classify_tpu_transaction(0, &[1, 2, 3]), TpuDisposition::DropInvalid));
    assert!(matches!(classify_tpu_transaction(0, &legacy_bytes(true)), TpuDisposition::Resolve));
    match classify_tpu_transaction(QUEUE_CAPACITY - 1, &legacy_bytes(false)) {
        TpuDisposition::Enqueue(layout) => {
            assert_eq!(layout.version, MessageVersion::Legacy);
            assert_eq!(layout.static_account_keys, vec![[3u8; 32], [9u8; 32]]);
        }
        other => panic!("unexpected disposition {:?}", other),
    }
}

#[test]
fn tpu_disposition_of_parsed_layouts() {
    let layout = TransactionLayout {
        version: MessageVersion::V0,
        num_signatures: 1,
        num_readonly_signed_static_accounts: 0,
        num_readonly_unsigned_static_accounts: 0,
        num_static_account_keys: 1,
        total_writable_lookup_accounts: 0,
        static_account_keys: vec![[1u8; 32]],
    };
    assert!(matches!(tpu_disposition(3, Some(layout.clone())), TpuDisposition::Resolve));
    assert!(matches!(tpu_disposition(QUEUE_CAPACITY + 5, Some(layout)), TpuDisposition::DropQueueFull));
    assert!(matches!(tpu_disposition(3, None), TpuDisposition::DropInvalid));
}

#[test]
fn resolve_batches_fill_and_flush_in_order() {
    let mut b = ResolveBatcher::new();
    assert!(b.finish().is_none());
    for i in 0..MAX_TRANSACTIONS_PER_MESSAGE - 1 {
        assert!(b.push(region(i)).is_none());
    }
    let full = b.push(region(1000)).expect("full batch");
    assert_eq!(full.len(), MAX_TRANSACTIONS_PER_MESSAGE);
    assert_eq!(full[0], region(0));
    assert_eq!(full[MAX_TRANSACTIONS_PER_MESSAGE - 1], region(1000));
    assert!(b.finish().is_none());
    b.push(region(7));
    b.push(region(8));
    assert_eq!(b.finish(), Some(vec![region(7), region(8)]));
    assert!(b.finish().is_none());
}

#[test]
fn processed_codes() {
    assert!(processed_flag(PROCESSED));
    assert!(!processed_flag(MAX_WORKING_SLOT_EXCEEDED));
}

#[test]
fn cost_limit_reasons() {
    for r in [
        WOULD_EXCEED_MAX_BLOCK_COST_LIMIT,
        WOULD_EXCEED_MAX_ACCOUNT_COST_LIMIT,
        WOULD_EXCEED_ACCOUNT_DATA_BLOCK_LIMIT,
        WOULD_EXCEED_MAX_VOTE_COST_LIMIT,
        WOULD_EXCEED_ACCOUNT_DATA_TOTAL_LIMIT,
    ] {
        assert!(is_cost_limit_reason(r));
    }
    assert!(!is_cost_limit_reason(0));
    assert!(!is_cost_limit_reason(82));
}

#[test]
fn resolve_dispositions() {
    assert_eq!(resolve_disposition(&resolve_flags(0, 3), 0), ResolveDisposition::Enqueue);
    assert_eq!(resolve_disposition(&resolve_flags(0, 3), QUEUE_CAPACITY), ResolveDisposition::DropQueueFull);
    assert_eq!(resolve_disposition(&resolve_flags(1, 0), 0), ResolveDisposition::DropFailed);
    assert_eq!(resolve_disposition(&resolve_flags(0, 1 | 4), 0), ResolveDisposition::DropFailed);
}

#[test]
fn in_progress_counts() {
    let mut counts = vec![0u64, 3, 1];
    note_in_progress(&mut counts, 0);
    release_in_progress(&mut counts, 1);
    assert_eq!(counts, vec![1, 2, 1]);
}

#[test]
fn least_busy_thread_is_first_minimum() {
    let in_progress = vec![4u64, 2, 7, 2];
    assert_eq!(select_least_busy_thread(&vec![0, 1, 2, 3], &in_progress), 1);
    assert_eq!(select_least_busy_thread(&vec![3, 1], &in_progress), 3);
    assert_eq!(select_least_busy_thread(&vec![2], &in_progress), 2);
}

#[test]
fn planner_places_and_sends_full_batches() {
    let mut p = BatchPlanner::new(2);
    assert!(p.open_batches().is_empty());
    assert_eq!(p.place(1), Placement { open_batch: true, position: 0, send_now: false });
    assert_eq!(p.place(1), Placement { open_batch: false, position: 1, send_now: false });
    assert_eq!(p.open_batches(), vec![1]);
    for i in 2..MAX_TRANSACTIONS_PER_MESSAGE - 1 {
        assert_eq!(p.place(1).position as usize, i);
    }
    let last = p.place(1);
    assert_eq!(last, Placement { open_batch: false, position: 63, send_now: true });
    assert!(p.open_batches().is_empty());
    assert!(p.place(1).open_batch);
}

#[test]
fn planner_limits_attempts() {
    let mut p = BatchPlanner::new(1);
    for _ in 0..MAX_ATTEMPTED {
        assert!(p.try_attempt());
    }
    assert!(!p.try_attempt());
}

#[test]
fn packet_flags_carry_over() {
    assert_eq!(flags_from_meta(0), 0);
    assert_eq!(flags_from_meta(PACKET_SIMPLE_VOTE_TX), TPU_IS_SIMPLE_VOTE);
    assert_eq!(flags_from_meta(PACKET_FORWARDED), TPU_FORWARDED);
    assert_eq!(flags_from_meta(PACKET_FROM_STAKED_NODE), TPU_FROM_STAKED_NODE);
    assert_eq!(flags_from_meta(0xff), TPU_IS_SIMPLE_VOTE | TPU_FORWARDED | TPU_FROM_STAKED_NODE);
}

#[test]
fn packet_flag_bits_match_solana_packet() {
    assert_eq!(PacketFlags::FORWARDED.bits(), PACKET_FORWARDED);
    assert_eq!(PacketFlags::SIMPLE_VOTE_TX.bits(), PACKET_SIMPLE_VOTE_TX);
    assert_eq!(PacketFlags::FROM_STAKED_NODE.bits(), PACKET_FROM_STAKED_NODE);
}

#[test]
fn source_addresses_map_to_ipv6() {
    let v4 = map_src_addr(SourceAddress::V4([10, 0, 0, 7]));
    assert_eq!(v4, [0, 0, 0, 0, 0, 0, 0, 0, 0, 0, 0xff, 0xff, 10, 0, 0, 7]);
    let raw = [1u8, 2, 3, 4, 5, 6, 7, 8, 9, 10, 11, 12, 13, 14, 15, 16];
    assert_eq!(map_src_addr(SourceAddress::V6(raw)), raw);
}

#[test]
fn leader_schedule_progresses() {
    let mut s = LeaderSchedule::new();
    let m = s.progress_message();
    assert_eq!(m.leader_state, IS_NOT_LEADER);
    assert_eq!(m.current_slot, 1);
    assert_eq!(m.next_leader_slot, 10);
    assert_eq!(m.current_slot_progress, 10);
    for _ in 0..9 {
        s.advance();
    }
    let m = s.progress_message();
    assert_eq!(m.current_slot, 10);
    assert_eq!(m.leader_state, IS_LEADER);
    assert_eq!(m.next_leader_slot, 17);
    assert_eq!(m.remaining_cost_units, 1_000_000);
    assert_eq!(m.current_slot_progress, 0);
    for _ in 0..3 {
        s.advance();
    }
    let m = s.progress_message();
    assert_eq!(m.current_slot, 13);
    assert_eq!(m.leader_state, IS_NOT_LEADER);
    assert_eq!(m.next_leader_slot, 18);
    // Past slot 22 a new range starts three slots later.
    for _ in 0..10 {
        s.advance();
    }
    let m = s.progress_message();
    assert_eq!(m.current_slot, 23);
    assert_eq!(m.next_leader_slot, 26);
    assert_eq!(m.leader_range_end, 28);
}

#[test]
fn dynamic_messages_stay_in_range() {
    let mut rng = rand::rng();
    for _ in 0..50 {
        let msgs = create_dynamic_msgs(&mut rng);
        assert!(!msgs.is_empty() && msgs.len() <= 10);
        for m in &msgs {
            assert!(m.current_slot >= 1 && m.current_slot < 10_000);
            assert!(m.next_leader_slot >= m.current_slot && m.next_leader_slot <= 10_000);
            assert!(m.remaining_cost_units >= 1_000_000 && m.remaining_cost_units < 60_000_000);
            assert!(m.current_slot_progress < 100);
        }
    }
}

#[test]
fn worker_answers_and_batch_limits() {
    assert_eq!(response_for_batch(12), (1, 0, 12, 0));
    assert!(!batch_len_acceptable(0));
    assert!(batch_len_acceptable(1));
    assert!(batch_len_acceptable(255));
    assert!(!batch_len_acceptable(256));
}

#[test]
fn leader_schedule_always_announces_a_later_leader_slot() {
    let mut s = LeaderSchedule::new();
    for _ in 0..500 {
        let m = s.progress_message();
        assert!(m.next_leader_slot > m.current_slot);
        assert!(m.current_slot_progress <= 90 && m.current_slot_progress % 10 == 0);
        assert!(s.can_advance());
        s.advance();
    }
}
