//! Constants and plain-value forms of the scheduler protocol messages.
use vstd::prelude::*;

verus! {

/// Maximum number of transactions carried by one batch message.
pub const MAX_TRANSACTIONS_PER_MESSAGE: usize = 64;

/// Leader states reported by the progress tracker.
pub const IS_NOT_LEADER: u8 = 0;
pub const IS_LEADER: u8 = 1;

/// Flags of a pack-to-worker message.
pub const PACK_CHECK: u16 = 0;
pub const PACK_EXECUTE: u16 = 1;
pub const PACK_RESOLVE: u16 = 2;
pub const CHECK_STATUS_CHECKS: u16 = 2;
pub const CHECK_LOAD_FEE_PAYER_BALANCE: u16 = 4;
pub const CHECK_LOAD_ADDRESS_LOOKUP_TABLES: u16 = 8;

/// Processed codes of a worker-to-pack message.
pub const PROCESSED: u8 = 0;
pub const INVALID: u8 = 1;
pub const MAX_WORKING_SLOT_EXCEEDED: u8 = 2;

/// Tags of a worker response region.
pub const EXECUTION_RESPONSE: u8 = 0;
pub const CHECK_RESPONSE: u8 = 1;

/// Check response flags.
pub const PARSING_FAILED: u8 = 1;
pub const STATUS_REQUESTED: u8 = 1;
pub const STATUS_PERFORMED: u8 = 2;
pub const FEE_PAYER_BALANCE_REQUESTED: u8 = 1;
pub const FEE_PAYER_BALANCE_PERFORMED: u8 = 2;
pub const RESOLVE_REQUESTED: u8 = 1;
pub const RESOLVE_PERFORMED: u8 = 2;
pub const RESOLVE_FAILED: u8 = 4;

/// Reasons an executed transaction was not included, for which a retry is
/// worthwhile (they all stem from cost tracking).
pub const WOULD_EXCEED_MAX_BLOCK_COST_LIMIT: u8 = 81;
pub const WOULD_EXCEED_MAX_ACCOUNT_COST_LIMIT: u8 = 84;
pub const WOULD_EXCEED_ACCOUNT_DATA_BLOCK_LIMIT: u8 = 85;
pub const WOULD_EXCEED_MAX_VOTE_COST_LIMIT: u8 = 92;
pub const WOULD_EXCEED_ACCOUNT_DATA_TOTAL_LIMIT: u8 = 93;

/// Flags of a tpu-to-pack message.
pub const TPU_IS_SIMPLE_VOTE: u8 = 1;
pub const TPU_FORWARDED: u8 = 2;
pub const TPU_FROM_STAKED_NODE: u8 = 4;

/// Cost units of a full block.
pub const MAX_BLOCK_UNITS: u64 = 60_000_000;

/// The progress tracker's view of the validator.
#[derive(Clone, Copy, Debug, PartialEq, Eq)]
pub struct ProgressSnapshot {
    pub leader_state: u8,
    pub current_slot: u64,
    pub next_leader_slot: u64,
    pub leader_range_end: u64,
    pub remaining_cost_units: u64,
    pub current_slot_progress: u8,
}

/// A transaction's location in the shared allocator.
#[derive(Clone, Copy, Debug, PartialEq, Eq)]
pub struct TransactionRegion {
    pub offset: usize,
    pub length: u32,
}

/// A region of resolved lookup-table addresses in the shared allocator.
#[derive(Clone, Copy, Debug, PartialEq, Eq)]
pub struct PubkeysRegion {
    pub offset: usize,
    pub num_pubkeys: u32,
}

/// The flags of one check response, and where its resolved addresses lie.
#[derive(Clone, Copy, Debug, PartialEq, Eq)]
pub struct CheckFlags {
    pub parsing_and_sanitization_flags: u8,
    pub status_check_flags: u8,
    pub fee_payer_balance_flags: u8,
    pub resolve_flags: u8,
    pub resolved_pubkeys: PubkeysRegion,
}

} // verus!
