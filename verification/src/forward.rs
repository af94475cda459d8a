//! The forwarding client: transactions that arrive from the validator's TPU
//! are decoded and gathered into batches of a message's worth, which go to
//! the workers for lookup-table resolution.
use vstd::prelude::*;
use solana_transaction::Transaction;
use crate::protocol::{MAX_TRANSACTIONS_PER_MESSAGE, PACK_RESOLVE};

verus! {

#[verifier::external_type_specification]
#[verifier::external_body]
pub struct ExTransaction(Transaction);

/// The slot up to which a forwarded batch may be executed.
pub const FORWARD_MAX_EXECUTION_SLOT: u64 = 32;

/// The transaction that `data` holds in bincode's standard encoding, `None`
/// when the bytes do not decode.
pub uninterp spec fn decoded_transaction(data: Seq<u8>) -> Option<Transaction>;

/// Whether `data` decodes to a transaction.
pub open spec fn decodes(data: Seq<u8>) -> bool {
    decoded_transaction(data) is Some
}

/// The transactions that the accepted inputs `sources` decode to, in order.
pub open spec fn decoded_all(sources: Seq<Seq<u8>>) -> Seq<Transaction> {
    sources.map_values(|d: Seq<u8>| decoded_transaction(d)->Some_0)
}

/// `bincode::serde::decode_from_slice` into a `Transaction`, with the standard
/// configuration (little endian, variable-length integers, no size limit):
/// the transaction the bytes hold, `None` when decoding fails. What that
/// transaction is, is named by `decoded_transaction` and not spelled out.
#[verifier::external_body]
pub fn decode_transaction(data: &[u8]) -> (tx: Option<Transaction>)
    ensures
        tx == decoded_transaction(data@),
{
    bincode::serde::decode_from_slice::<Transaction, _>(data, bincode::config::standard()).ok().map(|(tx, _)| tx)
}

/// A batch of decoded transactions to hand to the workers, with its message
/// flags and the last slot in which it may execute.
pub struct ForwardBatch {
    pub flags: u16,
    pub max_execution_slot: u64,
    pub transactions: Vec<Transaction>,
}

/// The transactions decoded since the last batch went out, and the bytes
/// each came from.
pub struct TpuForwarder {
    pending: Vec<Transaction>,
    sources: Ghost<Seq<Seq<u8>>>,
}

impl TpuForwarder {
    pub closed spec fn pending(&self) -> Seq<Transaction> {
        self.pending@
    }

    /// The arriving bytes that decoded since the last batch went out, in
    /// order of arrival.
    pub closed spec fn sources(&self) -> Seq<Seq<u8>> {
        self.sources@
    }

    /// Fewer than a message's worth wait, and they are the transactions the
    /// sources decode to.
    pub closed spec fn wf(&self) -> bool {
        &&& self.pending@.len() < MAX_TRANSACTIONS_PER_MESSAGE
        &&& self.pending@ == decoded_all(self.sources@)
        &&& forall|i: int| 0 <= i < self.sources@.len() ==> decodes(#[trigger] self.sources@[i])
    }

    /// A forwarder with nothing pending.
    pub fn new() -> (f: Self)
        ensures
            f.wf(),
            f.pending() == Seq::<Transaction>::empty(),
            f.sources() == Seq::<Seq<u8>>::empty(),
    {
        let f = TpuForwarder { pending: Vec::new(), sources: Ghost(Seq::empty()) };
        assert(f.pending@ =~= decoded_all(f.sources@));
        f
    }

    /// The number of transactions waiting for the next batch.
    pub fn pending_len(&self) -> (n: usize)
        ensures
            n == self.pending().len(),
    {
        self.pending.len()
    }

    /// Takes in the bytes of one arriving transaction: bytes that decode join
    /// the pending ones, bytes that do not are skipped. When a message's
    /// worth is pending, they all go out as one batch, in order of arrival,
    /// flagged for resolution and executable up to slot 32, and nothing is
    /// left pending.
    pub fn take(&mut self, data: &[u8]) -> (batch: Option<ForwardBatch>)
        requires
            old(self).wf(),
        ensures
            final(self).wf(),
            final(self).pending() == decoded_all(final(self).sources()),
            match batch {
                Some(b) => {
                    &&& decodes(data@)
                    &&& old(self).pending().len() + 1 == MAX_TRANSACTIONS_PER_MESSAGE
                    &&& b.flags == PACK_RESOLVE
                    &&& b.max_execution_slot == FORWARD_MAX_EXECUTION_SLOT
                    &&& b.transactions@ == decoded_all(old(self).sources().push(data@))
                    &&& b.transactions@ == old(self).pending().push(decoded_transaction(data@)->Some_0)
                    &&& final(self).sources() == Seq::<Seq<u8>>::empty()
                },
                None => {
                    &&& !(decodes(data@) && old(self).pending().len() + 1 == MAX_TRANSACTIONS_PER_MESSAGE)
                    &&& decodes(data@) ==> final(self).sources() == old(self).sources().push(data@)
                    &&& !decodes(data@) ==> final(self).sources() == old(self).sources()
                },
            },
    {
        let ghost sources0 = self.sources@;
        if let Some(tx) = decode_transaction(data) {
            self.pending.push(tx);
            proof {
                self.sources = Ghost(sources0.push(data@));
                assert(self.pending@ =~= decoded_all(self.sources@));
                assert forall|i: int| 0 <= i < self.sources@.len() implies decodes(#[trigger] self.sources@[i]) by {
                    if i < sources0.len() {
                        assert(self.sources@[i] == sources0[i]);
                    }
                }
            }
        }
        if self.pending.len() >= MAX_TRANSACTIONS_PER_MESSAGE {
            let mut transactions: Vec<Transaction> = Vec::new();
            std::mem::swap(&mut transactions, &mut self.pending);
            proof {
                self.sources = Ghost(Seq::empty());
                assert(self.pending@ =~= decoded_all(self.sources@));
            }
            Some(ForwardBatch { flags: PACK_RESOLVE, max_execution_slot: FORWARD_MAX_EXECUTION_SLOT, transactions })
        } else {
            None
        }
    }
}

} // verus!
