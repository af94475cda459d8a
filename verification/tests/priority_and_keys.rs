use qos::account_keys::{parse_transaction, MessageVersion, TransactionEntry, TransactionLayout};
use qos::priority::{priority_id, reward_priority, PriorityId, BURN_PERCENT};
use qos::protocol::TransactionRegion;
use std::cmp::Ordering;

fn key(b: u8) -> [u8; 32] {
    [b; 32]
}

fn layout(num_signatures: u8, ro_signed: u8, ro_unsigned: u8, keys: Vec<[u8; 32]>, writable_lookups: u16) -> TransactionLayout {
    TransactionLayout {
        version: MessageVersion::Legacy,
        num_signatures,
        num_readonly_signed_static_accounts: ro_signed,
        num_readonly_unsigned_static_accounts: ro_unsigned,
        num_static_account_keys: keys.len() as u8,
        total_writable_lookup_accounts: writable_lookups,
        static_account_keys: keys,
    }
}

fn entry(layout: TransactionLayout, loaded: Option<Vec<[u8; 32]>>) -> TransactionEntry {
    TransactionEntry {
        sharable_transaction: TransactionRegion { offset: 0, length: 0 },
        layout,
        loaded_addresses: loaded,
    }
}

/// A serialized transaction with one signature, two static keys (the second
/// read-only and unsigned) and no instructions.
fn serialized_transaction(v0: bool) -> Vec<u8> {
    let mut bytes = vec![1u8];
    bytes.extend_from_slice(&[7u8; 64]);
    if v0 {
        bytes.push(0x80);
    }
    bytes.extend_from_slice(&[1, 0, 1]);
    bytes.push(2);
    bytes.extend_from_slice(&[1u8; 32]);
    bytes.extend_from_slice(&[2u8; 32]);
    bytes.extend_from_slice(&[9u8; 32]);
    bytes.push(0);
    if v0 {
        bytes.push(0);
    }
    bytes
}

#[test]
fn reward_priority_exact_value() {
    // burn = 2500, base = 2500, reward = 3500, priority = 3_500_000_000 / 101.
    assert_eq!(reward_priority(5000, 1000, 50, 100), Some(34_653_465));
    assert_eq!(reward_priority(5000, 0, 50, 0), Some(2_500_000_000));
}

#[test]
fn reward_priority_overflowing_burn_is_none() {
    assert_eq!(reward_priority(u64::MAX, 0, 50, 10), None);
}

#[test]
fn reward_priority_saturates() {
    // reward * 1_000_000 saturates at u64::MAX; cost + 1 saturates too.
    assert_eq!(reward_priority(0, u64::MAX, 50, 0), Some(u64::MAX));
    assert_eq!(reward_priority(0, u64::MAX, 50, u64::MAX), Some(1));
}

#[test]
fn priority_id_carries_cost_and_key() {
    let id = priority_id(10_000, 0, BURN_PERCENT, 9, 42).unwrap();
    assert_eq!(id, PriorityId { priority: 500_000_000, cost: 9, key: 42 });
}

#[test]
fn priority_order_is_lexicographic() {
    let a = PriorityId { priority: 5, cost: 1, key: 9 };
    let b = PriorityId { priority: 5, cost: 2, key: 0 };
    let c = PriorityId { priority: 6, cost: 0, key: 0 };
    assert_eq!(a.compare(&b), Ordering::Less);
    assert_eq!(c.compare(&b), Ordering::Greater);
    assert_eq!(a.compare(&a), Ordering::Equal);
    assert_eq!(a.to_item(), (5, 1, 9));
    assert_eq!(PriorityId::from_item((5, 1, 9)), a);
}

#[test]
fn requested_write_static_keys() {
    // 2 signers (1 read-only), 4 keys, 1 read-only unsigned.
    let e = entry(layout(2, 1, 1, vec![key(1), key(2), key(3), key(4)], 0), None);
    assert!(e.requested_write(0));
    assert!(!e.requested_write(1));
    assert!(e.requested_write(2));
    assert!(!e.requested_write(3));
}

#[test]
fn requested_write_lookup_keys() {
    let e = entry(layout(1, 0, 0, vec![key(1)], 2), Some(vec![key(5), key(6), key(7)]));
    assert!(e.requested_write(1));
    assert!(e.requested_write(2));
    assert!(!e.requested_write(3));
}

#[test]
fn writable_and_readonly_keys_partition() {
    let e = entry(layout(2, 1, 1, vec![key(1), key(2), key(3), key(4)], 1), Some(vec![key(5), key(6)]));
    assert_eq!(e.writable_account_keys(), vec![key(1), key(3), key(5)]);
    assert_eq!(e.readonly_account_keys(), vec![key(2), key(4), key(6)]);
}

#[test]
fn fee_payer_is_written() {
    let e = entry(layout(3, 2, 0, vec![key(8), key(9), key(10)], 0), None);
    assert_eq!(e.writable_account_keys()[0], key(8));
    assert_eq!(e.readonly_account_keys(), vec![key(9), key(10)]);
}

#[test]
fn account_positions_wrap_at_256() {
    // One static key, 300 lookup keys of which 2 writable. Lookup keys 0 and
    // 1 sit at positions 1 and 2 (writable lookups); key 255 at position 256,
    // which wraps to 0, the static fee payer's; keys 256 and 257 wrap to 1 and
    // 2 again.
    let loaded: Vec<[u8; 32]> = (0..300u32).map(|i| key((i % 250) as u8)).collect();
    let e = entry(layout(1, 0, 0, vec![key(255)], 2), Some(loaded.clone()));
    let writable = e.writable_account_keys();
    assert_eq!(writable, vec![key(255), loaded[0], loaded[1], loaded[255], loaded[256], loaded[257]]);
    assert_eq!(writable.len() + e.readonly_account_keys().len(), 301);
}

#[test]
fn parse_legacy_transaction() {
    let bytes = serialized_transaction(false);
    let parsed = parse_transaction(&bytes).expect("valid transaction");
    assert_eq!(parsed.version, MessageVersion::Legacy);
    assert_eq!(parsed.num_signatures, 1);
    assert_eq!(parsed.num_readonly_signed_static_accounts, 0);
    assert_eq!(parsed.num_readonly_unsigned_static_accounts, 1);
    assert_eq!(parsed.num_static_account_keys, 2);
    assert_eq!(parsed.static_account_keys, vec![[1u8; 32], [2u8; 32]]);
    let e = entry(parsed, None);
    assert_eq!(e.writable_account_keys(), vec![[1u8; 32]]);
    assert_eq!(e.readonly_account_keys(), vec![[2u8; 32]]);
}

#[test]
fn parse_v0_transaction() {
    let bytes = serialized_transaction(true);
    let parsed = parse_transaction(&bytes).expect("valid transaction");
    assert_eq!(parsed.version, MessageVersion::V0);
    assert_eq!(parsed.total_writable_lookup_accounts, 0);
}

#[test]
fn parse_rejects_malformed_and_unsanitary() {
    assert!(parse_transaction(&[]).is_none());
    let mut truncated = serialized_transaction(false);
    truncated.pop();
    assert!(parse_transaction(&truncated).is_none());
    // The only signer read-only: the fee payer would not be writable.
    let mut bad_header = serialized_transaction(false);
    bad_header[66] = 1;
    assert!(parse_transaction(&bad_header).is_none());
}

#[test]
fn priority_grows_with_fee_and_falls_with_cost() {
    let base = reward_priority(5000, 1000, BURN_PERCENT, 100).unwrap();
    let more_fee = reward_priority(5000, 2000, BURN_PERCENT, 100).unwrap();
    let more_cost = reward_priority(5000, 1000, BURN_PERCENT, 200).unwrap();
    assert!(more_fee > base);
    assert!(more_cost < base);
    assert_eq!(more_fee, 4_500_000_000 / 101);
    assert_eq!(more_cost, 3_500_000_000 / 201);
}
