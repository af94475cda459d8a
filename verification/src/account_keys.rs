//! Which accounts of a transaction it writes and which it only reads, from
//! the header of its sanitized message and the addresses resolved from its
//! lookup tables.
use vstd::prelude::*;
use agave_transaction_view::transaction_version::TransactionVersion;
use agave_transaction_view::transaction_view::SanitizedTransactionView;
use crate::locks::Account;
use crate::protocol::TransactionRegion;

verus! {

/// The version of a transaction message.
#[derive(Clone, Copy, Debug, PartialEq, Eq, Structural)]
pub enum MessageVersion {
    Legacy,
    V0,
    V1,
}

/// The parts of a sanitized transaction that decide its account access.
#[derive(Clone, Debug)]
pub struct TransactionLayout {
    pub version: MessageVersion,
    pub num_signatures: u8,
    pub num_readonly_signed_static_accounts: u8,
    pub num_readonly_unsigned_static_accounts: u8,
    pub num_static_account_keys: u8,
    pub total_writable_lookup_accounts: u16,
    pub static_account_keys: Vec<Account>,
}

impl TransactionLayout {
    /// The header constraints that sanitization enforces.
    pub open spec fn header_valid(self) -> bool {
        &&& 1 <= self.num_signatures
        &&& self.num_readonly_signed_static_accounts < self.num_signatures
        &&& self.num_signatures <= self.num_static_account_keys
        &&& self.num_readonly_unsigned_static_accounts <= self.num_static_account_keys - self.num_signatures
        &&& self.static_account_keys@.len() == self.num_static_account_keys
        &&& self.num_static_account_keys + self.total_writable_lookup_accounts <= 256
    }
}

/// The layout of the sanitized transaction serialized in `data`, `None` when
/// it does not parse or fails sanitization.
pub uninterp spec fn sanitized_layout(data: Seq<u8>) -> Option<TransactionLayout>;

/// `SanitizedTransactionView::try_new_sanitized(data, true)`, with the header
/// fields and static account keys of the view copied out. When it succeeds,
/// the header satisfies the checks of the crate's `sanitize_message_header`
/// and `sanitize_signatures` (at least one signature, as many signatures as
/// required signatures, the fee payer writable, no overlap of the signed and
/// the read-only unsigned areas), the key count is that of the keys, and
/// (by `sanitize_account_access`) the static keys and the looked-up ones
/// number at most 256 together.
#[verifier::external_body]
pub(crate) fn sanitize_transaction(data: &[u8]) -> (r: Option<TransactionLayout>)
    ensures
        r == sanitized_layout(data@),
        r matches Some(layout) ==> layout.header_valid(),
{
    let view = SanitizedTransactionView::try_new_sanitized(data, true).ok()?;
    let version = match view.version() {
        TransactionVersion::Legacy => MessageVersion::Legacy,
        TransactionVersion::V0 => MessageVersion::V0,
        TransactionVersion::V1 => MessageVersion::V1,
    };
    Some(TransactionLayout {
        version,
        num_signatures: view.num_signatures(),
        num_readonly_signed_static_accounts: view.num_readonly_signed_static_accounts(),
        num_readonly_unsigned_static_accounts: view.num_readonly_unsigned_static_accounts(),
        num_static_account_keys: view.num_static_account_keys(),
        total_writable_lookup_accounts: view.total_writable_lookup_accounts(),
        static_account_keys: view.static_account_keys().iter().map(|key| key.to_bytes()).collect(),
    })
}

/// Parses and sanitizes a serialized transaction.
pub fn parse_transaction(data: &[u8]) -> (r: Option<TransactionLayout>)
    ensures
        r == sanitized_layout(data@),
        r matches Some(layout) ==> layout.header_valid(),
{
    sanitize_transaction(data)
}

/// `a - b` on bytes, wrapping around.
pub open spec fn wrapping_sub_u8(a: u8, b: u8) -> u8 {
    if a >= b {
        (a - b) as u8
    } else {
        (a - b + 256) as u8
    }
}

/// Whether the account at `index` is requested for writing: a static key is
/// writable when it is a signer outside the read-only signed area, or a
/// non-signer outside the read-only unsigned area; a looked-up key when it
/// lies among the writable lookups (their count taken modulo 256).
pub open spec fn spec_requested_write(layout: TransactionLayout, index: u8) -> bool {
    if index >= layout.num_static_account_keys {
        wrapping_sub_u8(index, layout.num_static_account_keys) < (layout.total_writable_lookup_accounts % 256)
    } else {
        ||| index < wrapping_sub_u8(layout.num_signatures, layout.num_readonly_signed_static_accounts)
        ||| (index >= layout.num_signatures && index < wrapping_sub_u8(
            (layout.static_account_keys@.len() % 256) as u8,
            layout.num_readonly_unsigned_static_accounts,
        ))
    }
}

/// Whether the account at `index` is written, as the header of a sanitized
/// message says: a signer outside the read-only signed accounts, a static
/// non-signer outside the read-only unsigned accounts, or one of the
/// writable looked-up accounts, which follow the static keys.
pub open spec fn header_says_written(layout: TransactionLayout, index: u8) -> bool {
    if index >= layout.num_static_account_keys {
        index - layout.num_static_account_keys < layout.total_writable_lookup_accounts
    } else {
        ||| index < layout.num_signatures - layout.num_readonly_signed_static_accounts
        ||| (layout.num_signatures <= index && index < layout.num_static_account_keys
            - layout.num_readonly_unsigned_static_accounts)
    }
}

/// Law: for a sanitized header, the byte arithmetic of `requested_write`
/// never wraps, so it answers what the header says.
pub proof fn lemma_requested_write_follows_header(layout: TransactionLayout, index: u8)
    requires
        layout.header_valid(),
    ensures
        spec_requested_write(layout, index) == header_says_written(layout, index),
{
    assert(layout.total_writable_lookup_accounts <= 255);
    assert(layout.total_writable_lookup_accounts % 256 == layout.total_writable_lookup_accounts);
    assert((layout.static_account_keys@.len() % 256) as u8 == layout.num_static_account_keys);
}

/// The keys among the first `n` of `keys` whose write request equals `want`
/// (the position of a key taken modulo 256).
pub open spec fn keys_with_access(layout: TransactionLayout, keys: Seq<Account>, want: bool, n: int) -> Seq<Account>
    decreases n,
{
    if n <= 0 {
        Seq::empty()
    } else {
        let prefix = keys_with_access(layout, keys, want, n - 1);
        if spec_requested_write(layout, ((n - 1) % 256) as u8) == want {
            prefix.push(keys[n - 1])
        } else {
            prefix
        }
    }
}

fn wrapping_sub_u8_exec(a: u8, b: u8) -> (r: u8)
    ensures
        r == wrapping_sub_u8(a, b),
{
    if a >= b {
        a - b
    } else {
        ((a as u16 + 256) - b as u16) as u8
    }
}

/// A transaction waiting in the FIFO scheduler's queue.
#[derive(Clone, Debug)]
pub struct TransactionEntry {
    pub sharable_transaction: TransactionRegion,
    pub layout: TransactionLayout,
    pub loaded_addresses: Option<Vec<Account>>,
}

impl TransactionEntry {
    /// The static keys followed by the addresses resolved from lookup tables.
    pub open spec fn all_keys(self) -> Seq<Account> {
        match self.loaded_addresses {
            Some(loaded) => self.layout.static_account_keys@ + loaded@,
            None => self.layout.static_account_keys@,
        }
    }

    pub open spec fn writable_keys(self) -> Seq<Account> {
        keys_with_access(self.layout, self.all_keys(), true, self.all_keys().len() as int)
    }

    pub open spec fn readonly_keys(self) -> Seq<Account> {
        keys_with_access(self.layout, self.all_keys(), false, self.all_keys().len() as int)
    }

    /// Whether the account at `index` is requested for writing.
    pub fn requested_write(&self, index: u8) -> (w: bool)
        ensures
            w == spec_requested_write(self.layout, index),
    {
        let layout = &self.layout;
        if index >= layout.num_static_account_keys {
            let loaded_address_index = index - layout.num_static_account_keys;
            loaded_address_index < (layout.total_writable_lookup_accounts % 256) as u8
        } else {
            let num_static = (layout.static_account_keys.len() % 256) as u8;
            index < wrapping_sub_u8_exec(layout.num_signatures, layout.num_readonly_signed_static_accounts)
                || (index >= layout.num_signatures && index < wrapping_sub_u8_exec(
                num_static,
                layout.num_readonly_unsigned_static_accounts,
            ))
        }
    }

    fn keys_with_access_exec(&self, want: bool) -> (keys: Vec<Account>)
        ensures
            keys@ == keys_with_access(self.layout, self.all_keys(), want, self.all_keys().len() as int),
    {
        let mut keys: Vec<Account> = Vec::new();
        let statics = &self.layout.static_account_keys;
        let ghost all = self.all_keys();
        let mut position: u8 = 0;
        let mut i: usize = 0;
        while i < statics.len()
            invariant
                all == self.all_keys(),
                statics@ == self.layout.static_account_keys@,
                i <= statics.len(),
                position == i % 256,
                forall|k: int| 0 <= k < statics@.len() ==> all[k] == statics@[k],
                keys@ == keys_with_access(self.layout, all, want, i as int),
            decreases statics.len() - i,
        {
            if self.requested_write(position) == want {
                keys.push(statics[i]);
            }
            position = if position == 255 { 0 } else { position + 1 };
            i = i + 1;
        }
        match &self.loaded_addresses {
            None => {
                assert(all.len() == statics@.len());
            },
            Some(loaded) => {
                let ghost base = statics@.len() as int;
                assert(all =~= statics@ + loaded@);
                let mut j: usize = 0;
                while j < loaded.len()
                    invariant
                        all == statics@ + loaded@,
                        base == statics@.len(),
                        j <= loaded.len(),
                        position == (base + j) % 256,
                        keys@ == keys_with_access(self.layout, all, want, base + j),
                    decreases loaded.len() - j,
                {
                    assert(all[base + j] == loaded@[j as int]);
                    if self.requested_write(position) == want {
                        keys.push(loaded[j]);
                    }
                    position = if position == 255 { 0 } else { position + 1 };
                    j = j + 1;
                }
            },
        }
        keys
    }

    /// The keys the transaction writes, in account order.
    pub fn writable_account_keys(&self) -> (keys: Vec<Account>)
        ensures
            keys@ == self.writable_keys(),
    {
        self.keys_with_access_exec(true)
    }

    /// The keys the transaction only reads, in account order.
    pub fn readonly_account_keys(&self) -> (keys: Vec<Account>)
        ensures
            keys@ == self.readonly_keys(),
    {
        self.keys_with_access_exec(false)
    }
}

} // verus!

verus! {

proof fn lemma_keys_with_access_len(layout: TransactionLayout, keys: Seq<Account>, n: int)
    requires
        0 <= n,
    ensures
        keys_with_access(layout, keys, true, n).len() + keys_with_access(layout, keys, false, n).len() == n,
    decreases n,
{
    if n > 0 {
        lemma_keys_with_access_len(layout, keys, n - 1);
    }
}

proof fn lemma_keys_with_access_prefix(layout: TransactionLayout, keys: Seq<Account>, want: bool, m: int, n: int)
    requires
        0 <= m <= n,
    ensures
        keys_with_access(layout, keys, want, m).len() <= keys_with_access(layout, keys, want, n).len(),
        forall|i: int| 0 <= i < keys_with_access(layout, keys, want, m).len() ==>
            keys_with_access(layout, keys, want, n)[i] == #[trigger] keys_with_access(layout, keys, want, m)[i],
    decreases n - m,
{
    if m < n {
        lemma_keys_with_access_prefix(layout, keys, want, m, n - 1);
    }
}

/// Law: every account of a transaction is either written or only read, never
/// both and never neither: the two lists together are as long as the list of
/// all its accounts.
pub proof fn lemma_access_partition(entry: TransactionEntry)
    ensures
        entry.writable_keys().len() + entry.readonly_keys().len() == entry.all_keys().len(),
{
    lemma_keys_with_access_len(entry.layout, entry.all_keys(), entry.all_keys().len() as int);
}

/// Law: the fee payer, the first static account of a sanitized transaction,
/// is always written, so it leads the list of written accounts.
pub proof fn lemma_fee_payer_written(entry: TransactionEntry)
    requires
        entry.layout.header_valid(),
    ensures
        entry.writable_keys().len() >= 1,
        entry.writable_keys()[0] == entry.layout.static_account_keys@[0],
{
    let keys = entry.all_keys();
    assert(spec_requested_write(entry.layout, 0));
    assert(keys[0] == entry.layout.static_account_keys@[0]);
    assert(keys_with_access(entry.layout, keys, true, 0) =~= Seq::<Account>::empty());
    assert(keys_with_access(entry.layout, keys, true, 1) =~= seq![keys[0]]);
    lemma_keys_with_access_prefix(entry.layout, keys, true, 1, keys.len() as int);
    assert(keys_with_access(entry.layout, keys, true, 1)[0] == keys[0]);
}

} // verus!
