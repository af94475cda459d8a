//! The FIFO ("legacy") scheduler's decisions: what becomes of an arriving
//! transaction, of a worker's answer, which worker gets a transaction, when a
//! batch is sent, and what the main loop does after each progress update.
use vstd::prelude::*;
use crate::account_keys::{MessageVersion, TransactionLayout, parse_transaction, sanitized_layout};
use crate::protocol::{
    CheckFlags, ProgressSnapshot, TransactionRegion, IS_LEADER, MAX_TRANSACTIONS_PER_MESSAGE,
    MAX_WORKING_SLOT_EXCEEDED, PARSING_FAILED, PROCESSED, RESOLVE_FAILED, RESOLVE_PERFORMED, RESOLVE_REQUESTED,
    WOULD_EXCEED_ACCOUNT_DATA_BLOCK_LIMIT, WOULD_EXCEED_ACCOUNT_DATA_TOTAL_LIMIT,
    WOULD_EXCEED_MAX_ACCOUNT_COST_LIMIT, WOULD_EXCEED_MAX_BLOCK_COST_LIMIT, WOULD_EXCEED_MAX_VOTE_COST_LIMIT,
};

verus! {

/// Capacity of the FIFO queue.
pub const QUEUE_CAPACITY: usize = 100_000;
/// Beyond this many slots before its next leader slot, the validator clears
/// the queue.
pub const SLOT_DISTANCE_THRESHOLD: u64 = 20;
/// Transactions tried per scheduling round.
pub const MAX_ATTEMPTED: usize = 10_000;

/// `a - b`, or zero when `b` exceeds `a`.
pub open spec fn saturating_sub_u64(a: u64, b: u64) -> u64 {
    if a >= b {
        (a - b) as u64
    } else {
        0
    }
}

/// Reads the latest of the progress messages that arrived: whether the
/// validator is leader and how many slots remain until its next leader slot
/// (zero when that slot has passed); `None` when none arrived.
pub fn handle_progress_message(messages: &Vec<ProgressSnapshot>) -> (r: Option<(bool, u64)>)
    ensures
        messages@.len() == 0 ==> r is None,
        messages@.len() > 0 ==> r == Some((
            messages@.last().leader_state == IS_LEADER,
            saturating_sub_u64(messages@.last().next_leader_slot, messages@.last().current_slot),
        )),
{
    let n = messages.len();
    if n == 0 {
        return None;
    }
    let last = &messages[n - 1];
    Some((last.leader_state == IS_LEADER, last.next_leader_slot.saturating_sub(last.current_slot)))
}

/// What the FIFO scheduler's main loop does after reading progress.
#[derive(Clone, Copy, Debug, PartialEq, Eq, Structural)]
pub enum LoopAction {
    /// Hand queued transactions to the workers.
    Schedule,
    /// Drop every queued transaction.
    ClearQueue,
    /// Nothing this round.
    Idle,
}

/// The main loop's decision: the leader state follows the latest progress
/// update, if any; a leader schedules; otherwise the queue is cleared when
/// the update put the next leader slot more than the threshold away.
pub fn loop_step(is_leader: bool, update: Option<(bool, u64)>) -> (r: (bool, LoopAction))
    ensures
        r.0 == (match update {
            Some(u) => u.0,
            None => is_leader,
        }),
        r.1 == (if r.0 {
            LoopAction::Schedule
        } else if update matches Some(u) && u.1 > SLOT_DISTANCE_THRESHOLD {
            LoopAction::ClearQueue
        } else {
            LoopAction::Idle
        }),
{
    let mut leader = is_leader;
    let mut should_clear = false;
    if let Some((new_is_leader, slots_until_leader)) = update {
        leader = new_is_leader;
        should_clear = slots_until_leader > SLOT_DISTANCE_THRESHOLD;
    }
    let action = if leader {
        LoopAction::Schedule
    } else if should_clear {
        LoopAction::ClearQueue
    } else {
        LoopAction::Idle
    };
    (leader, action)
}

/// What becomes of a transaction arriving from the TPU.
#[derive(Clone, Debug)]
pub enum TpuDisposition {
    /// The queue is full: drop it.
    DropQueueFull,
    /// It does not parse or fails sanitization: drop it.
    DropInvalid,
    /// A version-0 transaction: send it to have its lookup tables resolved.
    Resolve,
    /// Any other transaction: queue it at once.
    Enqueue(TransactionLayout),
}

/// The disposition of an arriving transaction, given the queue length and
/// the result of parsing it.
pub open spec fn spec_tpu_disposition(queue_len: usize, parsed: Option<TransactionLayout>) -> TpuDisposition {
    if queue_len >= QUEUE_CAPACITY {
        TpuDisposition::DropQueueFull
    } else {
        match parsed {
            None => TpuDisposition::DropInvalid,
            Some(layout) => if layout.version == MessageVersion::V0 {
                TpuDisposition::Resolve
            } else {
                TpuDisposition::Enqueue(layout)
            },
        }
    }
}

/// Decides what becomes of an arriving transaction, given the queue length
/// and the parse of its bytes.
pub fn tpu_disposition(queue_len: usize, parsed: Option<TransactionLayout>) -> (d: TpuDisposition)
    ensures
        d == spec_tpu_disposition(queue_len, parsed),
{
    if queue_len >= QUEUE_CAPACITY {
        return TpuDisposition::DropQueueFull;
    }
    match parsed {
        None => TpuDisposition::DropInvalid,
        Some(layout) => match layout.version {
            MessageVersion::V0 => TpuDisposition::Resolve,
            _ => TpuDisposition::Enqueue(layout),
        },
    }
}

/// Decides what becomes of an arriving transaction: a full queue drops it
/// unread; otherwise its bytes are parsed and sanitized.
pub fn classify_tpu_transaction(queue_len: usize, data: &[u8]) -> (d: TpuDisposition)
    ensures
        d == spec_tpu_disposition(queue_len, if queue_len >= QUEUE_CAPACITY { None } else { sanitized_layout(data@) }),
        d matches TpuDisposition::Enqueue(layout) ==> layout.header_valid(),
{
    if queue_len >= QUEUE_CAPACITY {
        return TpuDisposition::DropQueueFull;
    }
    let parsed = parse_transaction(data);
    tpu_disposition(queue_len, parsed)
}

/// Transactions waiting to be sent for lookup-table resolution.
pub struct ResolveBatcher {
    pending: Vec<TransactionRegion>,
}

impl ResolveBatcher {
    pub closed spec fn pending(&self) -> Seq<TransactionRegion> {
        self.pending@
    }

    pub fn new() -> (b: Self)
        ensures
            b.pending() == Seq::<TransactionRegion>::empty(),
    {
        ResolveBatcher { pending: Vec::new() }
    }

    /// Adds a transaction; when that fills a message, returns the full batch
    /// and starts an empty one.
    pub fn push(&mut self, region: TransactionRegion) -> (full: Option<Vec<TransactionRegion>>)
        requires
            old(self).pending().len() < MAX_TRANSACTIONS_PER_MESSAGE,
        ensures
            final(self).pending().len() < MAX_TRANSACTIONS_PER_MESSAGE,
            match full {
                Some(batch) => {
                    &&& batch@ == old(self).pending().push(region)
                    &&& batch@.len() == MAX_TRANSACTIONS_PER_MESSAGE
                    &&& final(self).pending() == Seq::<TransactionRegion>::empty()
                },
                None => final(self).pending() == old(self).pending().push(region),
            },
    {
        self.pending.push(region);
        if self.pending.len() == MAX_TRANSACTIONS_PER_MESSAGE {
            let mut batch: Vec<TransactionRegion> = Vec::new();
            std::mem::swap(&mut batch, &mut self.pending);
            Some(batch)
        } else {
            None
        }
    }

    /// Hands out the remaining transactions, if any.
    pub fn finish(&mut self) -> (rest: Option<Vec<TransactionRegion>>)
        ensures
            final(self).pending() == Seq::<TransactionRegion>::empty(),
            match rest {
                Some(batch) => batch@ == old(self).pending() && batch@.len() > 0,
                None => old(self).pending().len() == 0,
            },
    {
        if self.pending.len() == 0 {
            None
        } else {
            let mut batch: Vec<TransactionRegion> = Vec::new();
            std::mem::swap(&mut batch, &mut self.pending);
            Some(batch)
        }
    }
}

/// Whether a worker message's batch was processed: `true` for processed,
/// `false` when it expired before a worker took it.
pub fn processed_flag(processed_code: u8) -> (processed: bool)
    requires
        processed_code == PROCESSED || processed_code == MAX_WORKING_SLOT_EXCEEDED,
    ensures
        processed == (processed_code == PROCESSED),
{
    processed_code == PROCESSED
}

/// The reasons for not including a transaction that stem from cost tracking.
pub open spec fn spec_is_cost_limit_reason(reason: u8) -> bool {
    ||| reason == WOULD_EXCEED_ACCOUNT_DATA_BLOCK_LIMIT
    ||| reason == WOULD_EXCEED_ACCOUNT_DATA_TOTAL_LIMIT
    ||| reason == WOULD_EXCEED_MAX_ACCOUNT_COST_LIMIT
    ||| reason == WOULD_EXCEED_MAX_BLOCK_COST_LIMIT
    ||| reason == WOULD_EXCEED_MAX_VOTE_COST_LIMIT
}

pub fn is_cost_limit_reason(reason: u8) -> (b: bool)
    ensures
        b == spec_is_cost_limit_reason(reason),
{
    reason == WOULD_EXCEED_ACCOUNT_DATA_BLOCK_LIMIT || reason == WOULD_EXCEED_ACCOUNT_DATA_TOTAL_LIMIT
        || reason == WOULD_EXCEED_MAX_ACCOUNT_COST_LIMIT || reason == WOULD_EXCEED_MAX_BLOCK_COST_LIMIT
        || reason == WOULD_EXCEED_MAX_VOTE_COST_LIMIT
}

/// What becomes of a transaction whose lookup tables were resolved.
#[derive(Clone, Copy, Debug, PartialEq, Eq, Structural)]
pub enum ResolveDisposition {
    /// Parsing or resolution failed.
    DropFailed,
    /// The queue is full.
    DropQueueFull,
    /// Queue it with its resolved addresses.
    Enqueue,
}

/// The answer to a resolution request reports a failed parse or a failed
/// resolution.
pub open spec fn spec_resolution_failed(flags: CheckFlags) -> bool {
    flags.parsing_and_sanitization_flags & PARSING_FAILED != 0 || flags.resolve_flags & RESOLVE_FAILED != 0
}

/// Decides what becomes of a transaction whose resolution was answered.
pub fn resolve_disposition(flags: &CheckFlags, queue_len: usize) -> (d: ResolveDisposition)
    requires
        flags.fee_payer_balance_flags == 0,
        flags.status_check_flags == 0,
        !spec_resolution_failed(*flags) ==> flags.resolve_flags == (RESOLVE_REQUESTED | RESOLVE_PERFORMED),
    ensures
        d == (if spec_resolution_failed(*flags) {
            ResolveDisposition::DropFailed
        } else if queue_len >= QUEUE_CAPACITY {
            ResolveDisposition::DropQueueFull
        } else {
            ResolveDisposition::Enqueue
        }),
{
    if flags.parsing_and_sanitization_flags & PARSING_FAILED != 0 || flags.resolve_flags & RESOLVE_FAILED != 0 {
        ResolveDisposition::DropFailed
    } else if queue_len >= QUEUE_CAPACITY {
        ResolveDisposition::DropQueueFull
    } else {
        ResolveDisposition::Enqueue
    }
}

/// A transaction returned by `worker` is no longer in progress there.
pub fn release_in_progress(in_progress: &mut Vec<u64>, worker: usize)
    requires
        worker < old(in_progress)@.len(),
        old(in_progress)@[worker as int] > 0,
    ensures
        final(in_progress)@ == old(in_progress)@.update(worker as int, (old(in_progress)@[worker as int] - 1) as u64),
{
    let count = in_progress[worker];
    in_progress.set(worker, count - 1);
}

/// `r` is the first of `threads` with the fewest transactions in progress.
pub open spec fn is_least_busy(threads: Seq<usize>, in_progress: Seq<u64>, r: usize) -> bool {
    exists|i: int| {
        &&& 0 <= i < threads.len()
        &&& threads[i] == r
        &&& forall|j: int| 0 <= j < i ==> in_progress[#[trigger] threads[j] as int] > in_progress[r as int]
        &&& forall|j: int| i <= j < threads.len() ==> in_progress[#[trigger] threads[j] as int] >= in_progress[r as int]
    }
}

/// Picks, among the schedulable workers, the first one with the fewest
/// transactions in progress.
pub fn select_least_busy_thread(threads: &Vec<usize>, in_progress: &Vec<u64>) -> (r: usize)
    requires
        threads@.len() > 0,
        forall|i: int| 0 <= i < threads@.len() ==> #[trigger] threads@[i] < in_progress@.len(),
    ensures
        is_least_busy(threads@, in_progress@, r),
{
    let mut best_index: usize = 0;
    let mut best = threads[0];
    let mut i: usize = 1;
    while i < threads.len()
        invariant
            1 <= i <= threads@.len(),
            best_index < i,
            best == threads@[best_index as int],
            forall|k: int| 0 <= k < threads@.len() ==> #[trigger] threads@[k] < in_progress@.len(),
            forall|j: int| 0 <= j < best_index ==> in_progress@[#[trigger] threads@[j] as int] > in_progress@[best as int],
            forall|j: int| best_index <= j < i ==> in_progress@[#[trigger] threads@[j] as int] >= in_progress@[best as int],
        decreases threads@.len() - i,
    {
        let candidate = threads[i];
        if in_progress[candidate] < in_progress[best] {
            best_index = i;
            best = candidate;
        }
        i = i + 1;
    }
    best
}

/// Where the FIFO scheduler places a transaction in a worker's batch.
#[derive(Clone, Copy, Debug, PartialEq, Eq, Structural)]
pub struct Placement {
    /// A new batch has to be allocated first.
    pub open_batch: bool,
    /// Its position in the batch.
    pub position: u8,
    /// The batch is full and is to be sent now.
    pub send_now: bool,
}

/// The batches the FIFO scheduler is filling during one round, one per
/// worker, and the number of transactions tried so far.
pub struct BatchPlanner {
    counts: Vec<Option<u8>>,
    attempted: usize,
}

impl BatchPlanner {
    pub closed spec fn counts(&self) -> Seq<Option<u8>> {
        self.counts@
    }

    pub closed spec fn attempted(&self) -> usize {
        self.attempted
    }

    /// Every open batch holds fewer than a message's worth of transactions.
    pub closed spec fn wf(&self) -> bool {
        forall|t: int| 0 <= t < self.counts@.len() ==> match #[trigger] self.counts@[t] {
            Some(c) => c < MAX_TRANSACTIONS_PER_MESSAGE,
            None => true,
        }
    }

    /// A round with no open batch for any of `num_workers` workers.
    pub fn new(num_workers: usize) -> (p: Self)
        ensures
            p.wf(),
            p.counts().len() == num_workers,
            forall|t: int| 0 <= t < num_workers ==> #[trigger] p.counts()[t] is None,
            p.attempted() == 0,
    {
        let mut counts: Vec<Option<u8>> = Vec::new();
        let mut i: usize = 0;
        while i < num_workers
            invariant
                i <= num_workers,
                counts@.len() == i,
                forall|t: int| 0 <= t < i ==> #[trigger] counts@[t] is None,
            decreases num_workers - i,
        {
            counts.push(None);
            i = i + 1;
        }
        BatchPlanner { counts, attempted: 0 }
    }

    /// Counts one more try, as long as the round's limit is not reached;
    /// returns whether the try may go ahead.
    pub fn try_attempt(&mut self) -> (go: bool)
        ensures
            go == (old(self).attempted() < MAX_ATTEMPTED),
            final(self).attempted() == (if go { old(self).attempted() + 1 } else { old(self).attempted() as int }),
            final(self).counts() == old(self).counts(),
            final(self).wf() == old(self).wf(),
    {
        if self.attempted < MAX_ATTEMPTED {
            self.attempted = self.attempted + 1;
            true
        } else {
            false
        }
    }

    /// Places a transaction in the batch of `thread`, opening one if needed;
    /// a batch that reaches a message's worth is sent at once and closed.
    pub fn place(&mut self, thread: usize) -> (p: Placement)
        requires
            old(self).wf(),
            thread < old(self).counts().len(),
        ensures
            final(self).wf(),
            final(self).attempted() == old(self).attempted(),
            p.open_batch == (old(self).counts()[thread as int] is None),
            p.position == (match old(self).counts()[thread as int] {
                Some(c) => c,
                None => 0u8,
            }),
            p.position < MAX_TRANSACTIONS_PER_MESSAGE,
            p.send_now == (p.position + 1 == MAX_TRANSACTIONS_PER_MESSAGE),
            final(self).counts() == old(self).counts().update(
                thread as int,
                if p.send_now { None } else { Some((p.position + 1) as u8) },
            ),
    {
        let (open_batch, position) = match self.counts[thread] {
            Some(c) => (false, c),
            None => (true, 0u8),
        };
        let next = position + 1;
        let send_now = next as usize >= MAX_TRANSACTIONS_PER_MESSAGE;
        if send_now {
            self.counts.set(thread, None);
        } else {
            self.counts.set(thread, Some(next));
        }
        Placement { open_batch, position, send_now }
    }

    /// The workers whose batch is still open at the end of the round, in
    /// increasing order.
    pub fn open_batches(&self) -> (threads: Vec<usize>)
        ensures
            forall|i: int| 0 <= i < threads@.len() ==> #[trigger] threads@[i] < self.counts().len()
                && self.counts()[threads@[i] as int] is Some,
            forall|t: int| 0 <= t < self.counts().len() && #[trigger] self.counts()[t] is Some ==> threads@.contains(t as usize),
            forall|i: int, j: int| 0 <= i < j < threads@.len() ==> threads@[i] < threads@[j],
    {
        let mut threads: Vec<usize> = Vec::new();
        let mut t: usize = 0;
        while t < self.counts.len()
            invariant
                t <= self.counts@.len(),
                forall|i: int| 0 <= i < threads@.len() ==> #[trigger] threads@[i] < t
                    && self.counts@[threads@[i] as int] is Some,
                forall|u: int| 0 <= u < t && #[trigger] self.counts@[u] is Some ==> threads@.contains(u as usize),
                forall|i: int, j: int| 0 <= i < j < threads@.len() ==> threads@[i] < threads@[j],
            decreases self.counts@.len() - t,
        {
            let ghost prev = threads@;
            if self.counts[t].is_some() {
                threads.push(t);
                proof {
                    assert(threads@[threads@.len() - 1] == t);
                    assert forall|u: int| 0 <= u < t && #[trigger] self.counts@[u] is Some implies threads@.contains(u as usize) by {
                        let k = choose|k: int| 0 <= k < prev.len() && prev[k] == u as usize;
                        assert(threads@[k] == u as usize);
                    }
                }
            }
            t = t + 1;
        }
        threads
    }
}

/// A transaction handed to `worker` is in progress there.
pub fn note_in_progress(in_progress: &mut Vec<u64>, worker: usize)
    requires
        worker < old(in_progress)@.len(),
        old(in_progress)@[worker as int] < u64::MAX,
    ensures
        final(in_progress)@ == old(in_progress)@.update(worker as int, (old(in_progress)@[worker as int] + 1) as u64),
{
    let count = in_progress[worker];
    in_progress.set(worker, count + 1);
}

} // verus!
