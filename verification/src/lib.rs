//! Decision logic of a greedy, priority-driven external block-packing
//! scheduler: transaction priority, the bounded unchecked/checked priority
//! heaps, per-pass account reservation, the execution budget, account access
//! classification, the FIFO ("legacy") scheduler's dispositions, and the
//! simulated validator's leader schedule.
use vstd::prelude::*;

pub mod protocol;
pub mod priority;
pub mod heap;
pub mod locks;
pub mod thread_locks;
pub mod account_keys;
pub mod greedy;
pub mod legacy;
pub mod fifo;
pub mod sim;
pub mod forward;

verus! {

} // verus!
