//! The simulated validator side: its leader schedule, the progress messages
//! it publishes, how it flags and addresses the packets it forwards, and what
//! its workers answer.
use vstd::prelude::*;
use rand::Rng;
use rand::rngs::ThreadRng;
use crate::protocol::{ProgressSnapshot, EXECUTION_RESPONSE, INVALID, IS_LEADER, IS_NOT_LEADER, TPU_FORWARDED, TPU_FROM_STAKED_NODE, TPU_IS_SIMPLE_VOTE};

verus! {

/// Bits of a packet's metadata flags.
pub const PACKET_FORWARDED: u8 = 0b0000_0010;
pub const PACKET_SIMPLE_VOTE_TX: u8 = 0b0000_1000;
pub const PACKET_FROM_STAKED_NODE: u8 = 0b1000_0000;

/// The tpu-to-pack flags of a packet with the given metadata flags: simple
/// vote, forwarded and staked-origin carry over; every other bit is dropped.
pub fn flags_from_meta(packet_flags: u8) -> (flags: u8)
    ensures
        (flags & TPU_IS_SIMPLE_VOTE != 0) == (packet_flags & PACKET_SIMPLE_VOTE_TX != 0),
        (flags & TPU_FORWARDED != 0) == (packet_flags & PACKET_FORWARDED != 0),
        (flags & TPU_FROM_STAKED_NODE != 0) == (packet_flags & PACKET_FROM_STAKED_NODE != 0),
        flags & !(TPU_IS_SIMPLE_VOTE | TPU_FORWARDED | TPU_FROM_STAKED_NODE) == 0,
{
    let vote = packet_flags & PACKET_SIMPLE_VOTE_TX != 0;
    let forwarded = packet_flags & PACKET_FORWARDED != 0;
    let staked = packet_flags & PACKET_FROM_STAKED_NODE != 0;
    let flags: u8 = (if vote { TPU_IS_SIMPLE_VOTE } else { 0 }) | (if forwarded { TPU_FORWARDED } else { 0 })
        | (if staked { TPU_FROM_STAKED_NODE } else { 0 });
    assert((flags & 1u8 != 0) == vote && (flags & 2u8 != 0) == forwarded && (flags & 4u8 != 0) == staked
        && flags & !(1u8 | 2u8 | 4u8) == 0) by (bit_vector)
        requires
            flags == (if vote { 1u8 } else { 0u8 }) | (if forwarded { 2u8 } else { 0u8 }) | (if staked { 4u8 } else { 0u8 }),
    ;
    flags
}

/// The source address of a packet.
#[derive(Clone, Copy, Debug)]
pub enum SourceAddress {
    V4([u8; 4]),
    V6([u8; 16]),
}

/// The IPv6 form of an address: an IPv4 address as IPv4-mapped IPv6
/// (`::ffff:a.b.c.d`), an IPv6 address as it is.
pub open spec fn spec_map_src_addr(addr: SourceAddress) -> Seq<u8> {
    match addr {
        SourceAddress::V4(o) => seq![0u8, 0u8, 0u8, 0u8, 0u8, 0u8, 0u8, 0u8, 0u8, 0u8, 0xffu8, 0xffu8, o[0], o[1], o[2], o[3]],
        SourceAddress::V6(o) => o@,
    }
}

/// The 16 address bytes carried in a tpu-to-pack message.
pub fn map_src_addr(addr: SourceAddress) -> (octets: [u8; 16])
    ensures
        octets@ == spec_map_src_addr(addr),
{
    match addr {
        SourceAddress::V4(o) => {
            let octets = [0u8, 0u8, 0u8, 0u8, 0u8, 0u8, 0u8, 0u8, 0u8, 0u8, 0xffu8, 0xffu8, o[0], o[1], o[2], o[3]];
            assert(octets@ =~= spec_map_src_addr(addr));
            octets
        },
        SourceAddress::V6(o) => o,
    }
}

/// The simulated leader schedule: the current slot and the current (or next)
/// range of slots in which the validator leads.
pub struct LeaderSchedule {
    current_slot: u64,
    leader_range_start: u64,
    leader_range_end: u64,
}

impl LeaderSchedule {
    pub closed spec fn current_slot(&self) -> u64 {
        self.current_slot
    }

    pub closed spec fn leader_range_start(&self) -> u64 {
        self.leader_range_start
    }

    pub closed spec fn leader_range_end(&self) -> u64 {
        self.leader_range_end
    }

    /// A leader range spans three slots, and the current slot is never more
    /// than ten past its end.
    pub closed spec fn wf(&self) -> bool {
        &&& self.leader_range_end == self.leader_range_start + 2
        &&& self.current_slot <= self.leader_range_end + 10
    }

    /// The schedule at its start: slot 1, leading in slots 10 to 12.
    pub fn new() -> (s: Self)
        ensures
            s.wf(),
            s.current_slot() == 1,
            s.leader_range_start() == 10,
            s.leader_range_end() == 12,
    {
        LeaderSchedule { current_slot: 1, leader_range_start: 10, leader_range_end: 12 }
    }

    /// Whether the schedule is far enough from the end of the slot numbers
    /// to publish and advance.
    pub fn can_advance(&self) -> (b: bool)
        ensures
            b == (self.leader_range_end() <= u64::MAX - 16),
    {
        self.leader_range_end <= u64::MAX - 16
    }

    /// The progress message published in the current slot.
    pub fn progress_message(&self) -> (msg: ProgressSnapshot)
        requires
            self.wf(),
            self.leader_range_end() <= u64::MAX - 16,
        ensures
            msg == progress_of(*self),
    {
        let slot = self.current_slot;
        let leader = slot >= self.leader_range_start && slot <= self.leader_range_end;
        let next_leader_slot = if leader {
            self.leader_range_end + 5
        } else if slot < self.leader_range_start {
            self.leader_range_start
        } else {
            slot + 5
        };
        let progress = ((slot % 10) as u8) * 10;
        ProgressSnapshot {
            leader_state: if leader { IS_LEADER } else { IS_NOT_LEADER },
            current_slot: slot,
            next_leader_slot,
            leader_range_end: self.leader_range_end,
            remaining_cost_units: if leader { 1_000_000 } else { 0 },
            current_slot_progress: progress,
        }
    }

    /// Moves to the next slot; once the slot is more than ten past the
    /// leader range, the next range starts three slots later.
    pub fn advance(&mut self)
        requires
            old(self).wf(),
            old(self).leader_range_end() <= u64::MAX - 16,
        ensures
            final(self).wf(),
            advanced(*old(self), *final(self)),
    {
        self.current_slot = self.current_slot + 1;
        if self.current_slot > self.leader_range_end + 10 {
            self.leader_range_start = self.current_slot + 3;
            self.leader_range_end = self.leader_range_start + 2;
        }
    }
}

/// The progress message of the schedule `s`: leader while the current slot
/// lies in the leader range, with the next leader slot five past the range
/// (while leading), the range's start (before it) or five past the current
/// slot (after it); a million cost units left while leading, none
/// otherwise; the slot's progress in tens of percent of its last digit.
pub open spec fn progress_of(s: LeaderSchedule) -> ProgressSnapshot {
    let leader = s.leader_range_start() <= s.current_slot() <= s.leader_range_end();
    ProgressSnapshot {
        leader_state: if leader { IS_LEADER } else { IS_NOT_LEADER },
        current_slot: s.current_slot(),
        next_leader_slot: (if leader {
            s.leader_range_end() + 5
        } else if s.current_slot() < s.leader_range_start() {
            s.leader_range_start() as int
        } else {
            s.current_slot() + 5
        }) as u64,
        leader_range_end: s.leader_range_end(),
        remaining_cost_units: if leader { 1_000_000u64 } else { 0u64 },
        current_slot_progress: ((s.current_slot() % 10) * 10) as u8,
    }
}

/// `after` is `before` one slot later: the slot moves on by one, and once it
/// is more than ten past the leader range the next range covers the three
/// slots starting three after it.
pub open spec fn advanced(before: LeaderSchedule, after: LeaderSchedule) -> bool {
    &&& after.current_slot() == before.current_slot() + 1
    &&& after.current_slot() > before.leader_range_end() + 10 ==> {
        &&& after.leader_range_start() == after.current_slot() + 3
        &&& after.leader_range_end() == after.current_slot() + 5
    }
    &&& after.current_slot() <= before.leader_range_end() + 10 ==> {
        &&& after.leader_range_start() == before.leader_range_start()
        &&& after.leader_range_end() == before.leader_range_end()
    }
}

/// Law: in every slot of the simulated schedule, the next leader slot the
/// validator announces lies strictly after the current slot, and the slot
/// progress is a multiple of ten below one hundred.
pub proof fn lemma_next_leader_slot_ahead(s: LeaderSchedule)
    requires
        s.wf(),
        s.leader_range_end() <= u64::MAX - 16,
    ensures
        progress_of(s).next_leader_slot > progress_of(s).current_slot,
        progress_of(s).current_slot_progress <= 90,
        progress_of(s).current_slot_progress % 10 == 0,
{
}

/// A run of the schedule from its start keeps its invariant, and its `k`-th
/// schedule is in slot `k + 1`.
proof fn lemma_run_slots(run: Seq<LeaderSchedule>, k: int)
    requires
        0 <= k < run.len(),
        run[0].current_slot() == 1,
        run[0].leader_range_start() == 10,
        run[0].leader_range_end() == 12,
        forall|i: int| 0 <= i < run.len() - 1 ==> advanced(#[trigger] run[i], run[i + 1]),
    ensures
        run[k].wf(),
        run[k].current_slot() == k + 1,
    decreases k,
{
    if k > 0 {
        lemma_run_slots(run, k - 1);
        assert(advanced(run[k - 1], run[k]));
    }
}

/// Law: run from its start (slot 1, leading in slots 10 to 12), one
/// `advance` per slot, the simulated validator publishes in its `k`-th slot
/// a message for slot `k` whose progress is `(k % 10) * 10`, which says
/// leader exactly when `k` lies in the three-slot leader range it announces,
/// which leaves a million cost units exactly then, and whose next leader
/// slot lies after `k`. (The slot numbers must stay sixteen below
/// `u64::MAX`.)
pub proof fn lemma_progress_run(run: Seq<LeaderSchedule>)
    requires
        run.len() > 0,
        run[0].current_slot() == 1,
        run[0].leader_range_start() == 10,
        run[0].leader_range_end() == 12,
        forall|i: int| 0 <= i < run.len() - 1 ==> advanced(#[trigger] run[i], run[i + 1]),
        forall|i: int| 0 <= i < run.len() ==> (#[trigger] run[i]).leader_range_end() <= u64::MAX - 16,
    ensures
        forall|k: int| 0 <= k < run.len() ==> {
            let m = #[trigger] progress_of(run[k]);
            &&& m.current_slot == k + 1
            &&& m.current_slot_progress == ((k + 1) % 10) * 10
            &&& (m.leader_state == IS_LEADER) == (m.leader_range_end - 2 <= m.current_slot <= m.leader_range_end)
            &&& m.remaining_cost_units == (if m.leader_state == IS_LEADER { 1_000_000u64 } else { 0u64 })
            &&& m.next_leader_slot > m.current_slot
        },
{
    assert forall|k: int| 0 <= k < run.len() implies {
        let m = #[trigger] progress_of(run[k]);
        &&& m.current_slot == k + 1
        &&& m.current_slot_progress == ((k + 1) % 10) * 10
        &&& (m.leader_state == IS_LEADER) == (m.leader_range_end - 2 <= m.current_slot <= m.leader_range_end)
        &&& m.remaining_cost_units == (if m.leader_state == IS_LEADER { 1_000_000u64 } else { 0u64 })
        &&& m.next_leader_slot > m.current_slot
    } by {
        lemma_run_slots(run, k);
        assert(run[k].leader_range_end() <= u64::MAX - 16);
    }
}

/// `Rng::random_range` over `low..high` on a thread-local generator: some
/// value of the range; which one is left to chance.
#[verifier::external_body]
fn random_u64_in(rng: &mut ThreadRng, low: u64, high: u64) -> (r: u64)
    requires
        low < high,
    ensures
        low <= r < high,
{
    rng.random_range(low..high)
}

/// `Rng::random_range` over `low..high` for bytes.
#[verifier::external_body]
fn random_u8_in(rng: &mut ThreadRng, low: u8, high: u8) -> (r: u8)
    requires
        low < high,
    ensures
        low <= r < high,
{
    rng.random_range(low..high)
}

/// `Rng::random_range` over `low..=high` for counts.
#[verifier::external_body]
fn random_usize_inclusive(rng: &mut ThreadRng, low: usize, high: usize) -> (r: usize)
    requires
        low <= high,
    ensures
        low <= r <= high,
{
    rng.random_range(low..=high)
}

#[verifier::external_type_specification]
#[verifier::external_body]
pub struct ExThreadRng(ThreadRng);

/// A random burst of one to ten progress messages: each with a current slot
/// in 1..10000, a next leader slot from the current slot up to 10000, between
/// one and sixty million remaining cost units, and a slot progress below 100.
/// The leader state and leader range end are left at zero.
pub fn create_dynamic_msgs(rng: &mut ThreadRng) -> (msgs: Vec<ProgressSnapshot>)
    ensures
        1 <= msgs@.len() <= 10,
        forall|i: int| 0 <= i < msgs@.len() ==> {
            let m = #[trigger] msgs@[i];
            &&& 1 <= m.current_slot < 10_000
            &&& m.current_slot <= m.next_leader_slot < 10_001
            &&& 1_000_000 <= m.remaining_cost_units < 60_000_000
            &&& m.current_slot_progress < 100
            &&& m.leader_state == IS_NOT_LEADER
            &&& m.leader_range_end == 0
        },
{
    let count = random_usize_inclusive(rng, 1, 10);
    let mut msgs: Vec<ProgressSnapshot> = Vec::new();
    let mut i: usize = 0;
    while i < count
        invariant
            1 <= count <= 10,
            i <= count,
            msgs@.len() == i,
            forall|k: int| 0 <= k < msgs@.len() ==> {
                let m = #[trigger] msgs@[k];
                &&& 1 <= m.current_slot < 10_000
                &&& m.current_slot <= m.next_leader_slot < 10_001
                &&& 1_000_000 <= m.remaining_cost_units < 60_000_000
                &&& m.current_slot_progress < 100
                &&& m.leader_state == IS_NOT_LEADER
                &&& m.leader_range_end == 0
            },
        decreases count - i,
    {
        let current_slot = random_u64_in(rng, 1, 10_000);
        let next_leader_slot = random_u64_in(rng, current_slot, 10_001);
        let remaining_cost_units = random_u64_in(rng, 1_000_000, 60_000_000);
        let current_slot_progress = random_u8_in(rng, 0, 100);
        msgs.push(ProgressSnapshot {
            leader_state: IS_NOT_LEADER,
            current_slot,
            next_leader_slot,
            leader_range_end: 0,
            remaining_cost_units,
            current_slot_progress,
        });
        i = i + 1;
    }
    msgs
}

/// The answer a simulated worker sends for a batch: processed code 1
/// (`INVALID` in the protocol's numbering, which the simulated worker sends
/// for every batch), an execution-response region with one response per
/// transaction, at offset 0.
pub fn response_for_batch(num_transactions: u8) -> (r: (u8, u8, u8, usize))
    ensures
        r == (INVALID, EXECUTION_RESPONSE, num_transactions, 0usize),
{
    (INVALID, EXECUTION_RESPONSE, num_transactions, 0)
}

/// A batch can go to a worker when it holds at least one and at most 255
/// transactions.
pub fn batch_len_acceptable(len: usize) -> (ok: bool)
    ensures
        ok == (1 <= len <= 255),
{
    len != 0 && len <= 255
}

} // verus!
