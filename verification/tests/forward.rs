use qos::forward::{decode_transaction, TpuForwarder, FORWARD_MAX_EXECUTION_SLOT};
use qos::protocol::{MAX_TRANSACTIONS_PER_MESSAGE, PACK_RESOLVE};
use solana_transaction::Transaction;

fn encoded_transaction() -> Vec<u8> {
    bincode::serde::encode_to_vec(Transaction::default(), bincode::config::standard()).unwrap()
}

#[test]
fn decode_transaction_reads_the_standard_encoding() {
    let decoded = decode_transaction(&encoded_transaction());
    assert_eq!(decoded, Some(Transaction::default()));
}

#[test]
fn decode_transaction_rejects_garbage() {
    assert_eq!(decode_transaction(&[]), None);
    assert_eq!(decode_transaction(&[0xff, 0xff, 0xff]), None);
}

#[test]
fn forwarder_sends_a_message_worth_at_a_time() {
    let data = encoded_transaction();
    let mut forwarder = TpuForwarder::new();
    for i in 0..MAX_TRANSACTIONS_PER_MESSAGE - 1 {
        assert!(forwarder.take(&data).is_none());
        assert_eq!(forwarder.pending_len(), i + 1);
    }
    let batch = forwarder.take(&data).expect("a full batch");
    assert_eq!(batch.transactions.len(), MAX_TRANSACTIONS_PER_MESSAGE);
    assert_eq!(batch.flags, PACK_RESOLVE);
    assert_eq!(batch.max_execution_slot, 32);
    assert_eq!(FORWARD_MAX_EXECUTION_SLOT, 32);
    assert_eq!(forwarder.pending_len(), 0);
}

#[test]
fn forwarder_skips_what_does_not_decode() {
    let data = encoded_transaction();
    let mut forwarder = TpuForwarder::new();
    assert!(forwarder.take(&data).is_none());
    assert!(forwarder.take(&[1, 2, 3]).is_none());
    assert_eq!(forwarder.pending_len(), 1);
    for _ in 0..MAX_TRANSACTIONS_PER_MESSAGE - 2 {
        assert!(forwarder.take(&[]).is_none());
        assert!(forwarder.take(&data).is_none());
    }
    assert_eq!(forwarder.pending_len(), MAX_TRANSACTIONS_PER_MESSAGE - 1);
    assert!(forwarder.take(&data).is_some());
}

#[test]
fn forwarder_batches_the_decoded_transactions_in_arrival_order() {
    let first = Transaction::default();
    let mut second = Transaction::default();
    second.signatures.push(Default::default());
    let first_bytes = bincode::serde::encode_to_vec(&first, bincode::config::standard()).unwrap();
    let second_bytes = bincode::serde::encode_to_vec(&second, bincode::config::standard()).unwrap();
    assert_eq!(decode_transaction(&second_bytes), Some(second.clone()));
    let mut forwarder = TpuForwarder::new();
    let mut batch = None;
    for i in 0..MAX_TRANSACTIONS_PER_MESSAGE {
        let data = if i % 2 == 0 { &first_bytes } else { &second_bytes };
        batch = forwarder.take(data);
    }
    let batch = batch.expect("a full batch");
    for (i, tx) in batch.transactions.iter().enumerate() {
        let expected = if i % 2 == 0 { &first } else { &second };
        assert_eq!(tx, expected);
    }
}
