//! Transaction priority: the reward per compute unit that a transaction pays
//! the leader, and the identifier by which the heaps order transactions.
use vstd::prelude::*;
use std::cmp::Ordering;

verus! {

/// How a transaction sits in a priority heap: priority first, then cost,
/// then the key of its state entry, compared lexicographically.
pub type HeapItem = (u64, u32, u64);

/// `a` is at most `b` in the order of the heaps (lexicographic).
pub open spec fn item_le(a: HeapItem, b: HeapItem) -> bool {
    ||| a.0 < b.0
    ||| (a.0 == b.0 && a.1 < b.1)
    ||| (a.0 == b.0 && a.1 == b.1 && a.2 <= b.2)
}

/// The identifier of a transaction inside the scheduler.
#[derive(Clone, Copy, Debug, PartialEq, Eq, Structural)]
pub struct PriorityId {
    pub priority: u64,
    pub cost: u32,
    pub key: u64,
}

impl PriorityId {
    pub open spec fn item(self) -> HeapItem {
        (self.priority, self.cost, self.key)
    }

    pub fn to_item(&self) -> (item: HeapItem)
        ensures
            item == self.item(),
    {
        (self.priority, self.cost, self.key)
    }

    pub fn from_item(item: HeapItem) -> (id: Self)
        ensures
            id.item() == item,
    {
        PriorityId { priority: item.0, cost: item.1, key: item.2 }
    }

    /// Orders identifiers by priority, then cost, then key.
    pub fn compare(&self, other: &Self) -> (o: Ordering)
        ensures
            (o == Ordering::Less) == (item_le(self.item(), other.item()) && self.item() != other.item()),
            (o == Ordering::Equal) == (self.item() == other.item()),
            (o == Ordering::Greater) == !item_le(self.item(), other.item()),
    {
        if self.priority < other.priority {
            Ordering::Less
        } else if self.priority > other.priority {
            Ordering::Greater
        } else if self.cost < other.cost {
            Ordering::Less
        } else if self.cost > other.cost {
            Ordering::Greater
        } else if self.key < other.key {
            Ordering::Less
        } else if self.key > other.key {
            Ordering::Greater
        } else {
            Ordering::Equal
        }
    }
}

/// Share of the base fee, in percent, that is burnt.
pub const BURN_PERCENT: u64 = 50;

/// Lamports charged per signature.
pub const LAMPORTS_PER_SIGNATURE: u64 = 5000;

pub open spec fn saturate(x: int) -> u64 {
    if x > u64::MAX {
        u64::MAX
    } else {
        x as u64
    }
}

/// The fee that reaches the leader: the unburnt share of the base fee plus
/// the prioritization fee; `None` when `transaction_fee * burn_percent`
/// overflows.
pub open spec fn spec_reward(transaction_fee: u64, prioritization_fee: u64, burn_percent: u64) -> Option<u64> {
    if transaction_fee * burn_percent > u64::MAX {
        None
    } else {
        let burn = (transaction_fee * burn_percent) / 100;
        Some(saturate(transaction_fee - burn + prioritization_fee))
    }
}

/// Reward per compute unit, scaled by one million.
pub open spec fn spec_priority(reward: u64, cost: u64) -> u64 {
    (saturate(reward * 1_000_000) / saturate(cost + 1)) as u64
}

/// The burnt share never exceeds the fee.
pub open spec fn burn_within_fee(transaction_fee: u64, burn_percent: u64) -> bool {
    transaction_fee * burn_percent > u64::MAX || (transaction_fee * burn_percent) / 100 <= transaction_fee
}

/// Computes the leader's reward and the resulting priority of a transaction
/// from its fee details and cost; `None` when the burnt share overflows.
pub fn reward_priority(transaction_fee: u64, prioritization_fee: u64, burn_percent: u64, cost: u64) -> (r: Option<u64>)
    requires
        burn_within_fee(transaction_fee, burn_percent),
    ensures
        r == (match spec_reward(transaction_fee, prioritization_fee, burn_percent) {
            Some(reward) => Some(spec_priority(reward, cost)),
            None => None,
        }),
{
    let burn = match transaction_fee.checked_mul(burn_percent) {
        Some(product) => product / 100,
        None => return None,
    };
    let base_fee = transaction_fee - burn;
    let reward = base_fee.saturating_add(prioritization_fee);
    let scaled = match reward.checked_mul(1_000_000) {
        Some(s) => s,
        None => u64::MAX,
    };
    let divisor = cost.saturating_add(1);
    Some(scaled / divisor)
}

/// Builds the heap identifier of a freshly parsed transaction.
pub fn priority_id(transaction_fee: u64, prioritization_fee: u64, burn_percent: u64, cost: u64, key: u64) -> (r: Option<PriorityId>)
    requires
        burn_within_fee(transaction_fee, burn_percent),
        cost <= u32::MAX,
    ensures
        r == (match spec_reward(transaction_fee, prioritization_fee, burn_percent) {
            Some(reward) => Some(PriorityId { priority: spec_priority(reward, cost), cost: cost as u32, key }),
            None => None,
        }),
{
    match reward_priority(transaction_fee, prioritization_fee, burn_percent, cost) {
        Some(priority) => Some(PriorityId { priority, cost: cost as u32, key }),
        None => None,
    }
}


/// Law: the reward is what the leader keeps of the fees: the base fee less
/// its burnt share (`burn_percent` percent of it, rounded down), plus the
/// prioritization fee, capped at `u64::MAX`; it is absent only when the
/// burnt share cannot be computed in 64 bits.
pub proof fn lemma_reward_is_fee_kept(transaction_fee: u64, prioritization_fee: u64, burn_percent: u64)
    requires
        burn_within_fee(transaction_fee, burn_percent),
    ensures
        (spec_reward(transaction_fee, prioritization_fee, burn_percent) is None) == (transaction_fee * burn_percent
            > u64::MAX),
        spec_reward(transaction_fee, prioritization_fee, burn_percent) matches Some(reward) ==> {
            let burn = transaction_fee * burn_percent / 100;
            &&& burn <= transaction_fee
            &&& reward <= transaction_fee - burn + prioritization_fee
            &&& reward == transaction_fee - burn + prioritization_fee || reward == u64::MAX
        },
{
}

/// Law: the priority is the reward per compute unit scaled by a million,
/// counting one unit more than the cost and rounding down: `priority` units
/// of `cost + 1` never exceed a million times the reward, one more would;
/// when a million times the reward does not fit in 64 bits it counts as
/// `u64::MAX`.
pub proof fn lemma_priority_is_reward_per_unit(reward: u64, cost: u64)
    requires
        cost < u64::MAX,
    ensures
        ({
            let scaled: int = if reward * 1_000_000 > u64::MAX { u64::MAX as int } else { reward * 1_000_000 };
            let p = spec_priority(reward, cost);
            &&& p * (cost + 1) <= scaled
            &&& scaled < (p + 1) * (cost + 1)
        }),
{
    let scaled: int = if reward * 1_000_000 > u64::MAX { u64::MAX as int } else { reward * 1_000_000 };
    let d: int = cost + 1;
    assert(saturate(reward * 1_000_000) == scaled);
    assert(saturate(cost + 1) == d);
    let q = scaled / d;
    vstd::arithmetic::div_mod::lemma_fundamental_div_mod(scaled, d);
    vstd::arithmetic::div_mod::lemma_mod_bound(scaled, d);
    assert(q * d <= scaled < (q + 1) * d) by (nonlinear_arith)
        requires
            scaled == d * q + scaled % d,
            0 <= scaled % d < d,
    ;
    assert(0 <= q <= scaled) by (nonlinear_arith)
        requires
            q == scaled / d,
            d >= 1,
            scaled >= 0,
    ;
    assert(spec_priority(reward, cost) == q);
}

/// Law: priority follows the reward per compute unit: a reward at least as
/// high over a cost at most as high never gives a lower priority.
pub proof fn lemma_priority_follows_reward(reward_low: u64, reward_high: u64, cost_low: u64, cost_high: u64)
    requires
        reward_low <= reward_high,
        cost_low <= cost_high,
    ensures
        spec_priority(reward_low, cost_high) <= spec_priority(reward_high, cost_low),
{
    let n_low = saturate(reward_low * 1_000_000) as int;
    let n_high = saturate(reward_high * 1_000_000) as int;
    let d_low = saturate(cost_low + 1) as int;
    let d_high = saturate(cost_high + 1) as int;
    assert(n_low <= n_high);
    assert(1 <= d_low <= d_high);
    vstd::arithmetic::div_mod::lemma_div_is_ordered(n_low, n_high, d_high);
    vstd::arithmetic::div_mod::lemma_div_is_ordered_by_denominator(n_high, d_low, d_high);
}

/// Law: a transaction never ranks below one that pays less per compute
/// unit: raising the prioritization fee never lowers the priority, and
/// raising the cost never raises it.
pub proof fn lemma_priority_monotone(
    transaction_fee: u64,
    burn_percent: u64,
    fee_low: u64,
    fee_high: u64,
    cost_low: u64,
    cost_high: u64,
)
    requires
        burn_within_fee(transaction_fee, burn_percent),
        fee_low <= fee_high,
        cost_low <= cost_high,
        spec_reward(transaction_fee, fee_low, burn_percent) is Some,
    ensures
        spec_reward(transaction_fee, fee_high, burn_percent) is Some,
        spec_priority(spec_reward(transaction_fee, fee_low, burn_percent)->Some_0, cost_high) <= spec_priority(
            spec_reward(transaction_fee, fee_high, burn_percent)->Some_0,
            cost_low,
        ),
{
    let low = spec_reward(transaction_fee, fee_low, burn_percent)->Some_0;
    let high = spec_reward(transaction_fee, fee_high, burn_percent)->Some_0;
    assert(low <= high);
    lemma_priority_follows_reward(low, high, cost_low, cost_high);
}

} // verus!
