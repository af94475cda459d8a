use agave_scheduler_bindings::pack_message_flags::{self, check_flags};
use agave_scheduler_bindings::worker_message_types::{
    self, fee_payer_balance_flags, not_included_reasons, parsing_and_sanitization_flags, resolve_flags,
    status_check_flags,
};
use agave_scheduler_bindings::{processed_codes, tpu_message_flags};
use qos::protocol;

#[test]
fn message_limits_match_bindings() {
    assert_eq!(protocol::MAX_TRANSACTIONS_PER_MESSAGE, agave_scheduler_bindings::MAX_TRANSACTIONS_PER_MESSAGE);
    assert_eq!(protocol::IS_NOT_LEADER, agave_scheduler_bindings::NOT_LEADER);
}

#[test]
fn pack_flags_match_bindings() {
    assert_eq!(protocol::PACK_CHECK, pack_message_flags::CHECK);
    assert_eq!(protocol::PACK_EXECUTE, pack_message_flags::EXECUTE);
    assert_eq!(protocol::CHECK_STATUS_CHECKS, check_flags::STATUS_CHECKS);
    assert_eq!(protocol::CHECK_LOAD_FEE_PAYER_BALANCE, check_flags::LOAD_FEE_PAYER_BALANCE);
    assert_eq!(protocol::CHECK_LOAD_ADDRESS_LOOKUP_TABLES, check_flags::LOAD_ADDRESS_LOOKUP_TABLES);
}

#[test]
fn worker_codes_match_bindings() {
    assert_eq!(protocol::PROCESSED, processed_codes::PROCESSED);
    assert_eq!(protocol::INVALID, processed_codes::INVALID);
    assert_eq!(protocol::MAX_WORKING_SLOT_EXCEEDED, processed_codes::MAX_WORKING_SLOT_EXCEEDED);
    assert_eq!(protocol::EXECUTION_RESPONSE, worker_message_types::EXECUTION_RESPONSE);
    assert_eq!(protocol::CHECK_RESPONSE, worker_message_types::CHECK_RESPONSE);
}

#[test]
fn check_response_flags_match_bindings() {
    assert_eq!(protocol::PARSING_FAILED, parsing_and_sanitization_flags::FAILED);
    assert_eq!(protocol::STATUS_REQUESTED, status_check_flags::REQUESTED);
    assert_eq!(protocol::STATUS_PERFORMED, status_check_flags::PERFORMED);
    assert_eq!(protocol::FEE_PAYER_BALANCE_REQUESTED, fee_payer_balance_flags::REQUESTED);
    assert_eq!(protocol::FEE_PAYER_BALANCE_PERFORMED, fee_payer_balance_flags::PERFORMED);
    assert_eq!(protocol::RESOLVE_REQUESTED, resolve_flags::REQUESTED);
    assert_eq!(protocol::RESOLVE_PERFORMED, resolve_flags::PERFORMED);
    assert_eq!(protocol::RESOLVE_FAILED, resolve_flags::FAILED);
}

#[test]
fn not_included_reasons_match_bindings() {
    assert_eq!(protocol::WOULD_EXCEED_MAX_BLOCK_COST_LIMIT, not_included_reasons::WOULD_EXCEED_MAX_BLOCK_COST_LIMIT);
    assert_eq!(protocol::WOULD_EXCEED_MAX_ACCOUNT_COST_LIMIT, not_included_reasons::WOULD_EXCEED_MAX_ACCOUNT_COST_LIMIT);
    assert_eq!(
        protocol::WOULD_EXCEED_ACCOUNT_DATA_BLOCK_LIMIT,
        not_included_reasons::WOULD_EXCEED_ACCOUNT_DATA_BLOCK_LIMIT
    );
    assert_eq!(protocol::WOULD_EXCEED_MAX_VOTE_COST_LIMIT, not_included_reasons::WOULD_EXCEED_MAX_VOTE_COST_LIMIT);
    assert_eq!(
        protocol::WOULD_EXCEED_ACCOUNT_DATA_TOTAL_LIMIT,
        not_included_reasons::WOULD_EXCEED_ACCOUNT_DATA_TOTAL_LIMIT
    );
}

#[test]
fn tpu_flags_match_bindings() {
    assert_eq!(protocol::TPU_IS_SIMPLE_VOTE, tpu_message_flags::IS_SIMPLE_VOTE);
    assert_eq!(protocol::TPU_FORWARDED, tpu_message_flags::FORWARDED);
    assert_eq!(protocol::TPU_FROM_STAKED_NODE, tpu_message_flags::FROM_STAKED_NODE);
}
