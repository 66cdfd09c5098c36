//! The wallet: key management, the balance ledger, invoice issuance and the
//! outbound payment lifecycle, composed behind one facade.

use vstd::prelude::*;
use vstd::pervasive::unreached;
use vstd::string::StringExecFns;

use crate::assoc::{
    has_key, keys_unique, lemma_map_of_contains, lemma_map_of_index, lemma_map_of_push,
    lemma_map_of_update, lemma_not_has_key, lemma_push_unique, map_of,
};
use crate::crypto::{digest_of, PaymentHash, PaymentPreimage};
use crate::errors::{InvoiceError, WalletError};
use crate::invoice::{inv_equiv, Invoice};
use crate::keys::{node_key_label, KeyManager, QuantumScheme};

verus! {

/// Identifier of a payment channel; this core only reads and writes a
/// channel's settled balance and refers to channels by this identifier.
pub type ChannelId = u64;

/// The settlement state of an outbound payment.
#[derive(Debug)]
pub enum PaymentStatus {
    /// Intent recorded; no funds moved.
    Pending,
    /// Funds committed to an in-flight route.
    InProgress,
    /// Terminal: the preimage was obtained and the ledger finalized.
    Succeeded,
    /// Terminal: settlement failed for the recorded reason.
    Failed(String),
}

/// Two statuses are the same state (and carry the same failure reason).
pub open spec fn status_equiv(a: PaymentStatus, b: PaymentStatus) -> bool {
    match (a, b) {
        (PaymentStatus::Pending, PaymentStatus::Pending) => true,
        (PaymentStatus::InProgress, PaymentStatus::InProgress) => true,
        (PaymentStatus::Succeeded, PaymentStatus::Succeeded) => true,
        (PaymentStatus::Failed(x), PaymentStatus::Failed(y)) => x@ == y@,
        _ => false,
    }
}

impl PaymentStatus {
    /// An owned copy of this status.
    pub fn duplicate(&self) -> (r: Self)
        ensures
            status_equiv(*self, r),
    {
        match self {
            PaymentStatus::Pending => PaymentStatus::Pending,
            PaymentStatus::InProgress => PaymentStatus::InProgress,
            PaymentStatus::Succeeded => PaymentStatus::Succeeded,
            PaymentStatus::Failed(reason) => PaymentStatus::Failed(reason.clone()),
        }
    }
}

/// An outbound payment: an append-only ledger record kept for audit
/// regardless of outcome.
#[derive(Debug)]
pub struct Payment {
    /// The payment hash this record settles against.
    pub hash: PaymentHash,
    /// The amount in millisatoshis.
    pub amount_msat: u64,
    /// The description copied from the invoice.
    pub description: String,
    /// Unix time (seconds) at which the record was created.
    pub creation_time: u64,
    /// The settlement state.
    pub status: PaymentStatus,
    /// The settlement preimage, once the payment succeeded.
    pub preimage: Option<PaymentPreimage>,
    /// The channel the payment was routed over, if any.
    pub channel_id: Option<ChannelId>,
}

/// Two payments carry the same data outside their status: hash, amount,
/// description, creation time, preimage and channel agree.
pub open spec fn same_payment_core(a: Payment, b: Payment) -> bool {
    &&& a.hash@ == b.hash@
    &&& a.amount_msat == b.amount_msat
    &&& a.description@ == b.description@
    &&& a.creation_time == b.creation_time
    &&& match (a.preimage, b.preimage) {
        (Some(x), Some(y)) => x@ == y@,
        (None, None) => true,
        _ => false,
    }
    &&& a.channel_id == b.channel_id
}

/// Two payments carry the same data field by field.
pub open spec fn pay_equiv(a: Payment, b: Payment) -> bool {
    same_payment_core(a, b) && status_equiv(a.status, b.status)
}

impl Payment {
    /// An owned copy of this payment record.
    pub fn duplicate(&self) -> (r: Self)
        ensures
            pay_equiv(*self, r),
    {
        Payment {
            hash: self.hash.duplicate(),
            amount_msat: self.amount_msat,
            description: self.description.clone(),
            creation_time: self.creation_time,
            status: self.status.duplicate(),
            preimage: match &self.preimage {
                Some(p) => Some(p.duplicate()),
                None => None,
            },
            channel_id: self.channel_id,
        }
    }
}

/// A hash-keyed store, as the sequence of digest/value pairs it denotes.
pub open spec fn by_hash<V>(s: Seq<(PaymentHash, V)>) -> Seq<(Seq<u8>, V)>
    decreases s.len(),
{
    if s.len() == 0 {
        Seq::empty()
    } else {
        by_hash(s.drop_last()).push((s.last().0@, s.last().1))
    }
}

/// Pointwise characterization of [`by_hash`].
pub proof fn lemma_by_hash_index<V>(s: Seq<(PaymentHash, V)>)
    ensures
        by_hash(s).len() == s.len(),
        forall|i: int| 0 <= i < s.len() ==> #[trigger] by_hash(s)[i] == (s[i].0@, s[i].1),
    decreases s.len(),
{
    if s.len() > 0 {
        lemma_by_hash_index(s.drop_last());
    }
}

/// Finds the index of the entry keyed by `h`, if any.
fn hfind<V>(list: &Vec<(PaymentHash, V)>, h: &PaymentHash) -> (r: Option<usize>)
    ensures
        match r {
            Some(i) => 0 <= (i as int) && (i as int) < list@.len() && list@[i as int].0@ == h@,
            None => forall|j: int| 0 <= j < list@.len() ==> (#[trigger] list@[j]).0@ != h@,
        },
{
    let mut i: usize = 0;
    while i < list.len()
        invariant
            i <= list@.len(),
            forall|j: int| 0 <= j < i ==> (#[trigger] list@[j]).0@ != h@,
        decreases list@.len() - i,
    {
        if list[i].0.matches_hash(h) {
            return Some(i);
        }
        i += 1;
    }
    None
}

/// Inserts or overwrites the binding of `h` in a hash-keyed store.
fn hupsert<V>(list: &mut Vec<(PaymentHash, V)>, h: PaymentHash, v: V)
    requires
        keys_unique(by_hash(old(list)@)),
    ensures
        keys_unique(by_hash(final(list)@)),
        map_of(by_hash(final(list)@)) == map_of(by_hash(old(list)@)).insert(h@, v),
        forall|j: int|
            0 <= j < final(list)@.len() ==> ((#[trigger] final(list)@[j]) == (h, v) || old(
                list,
            )@.contains(final(list)@[j])),
        !map_of(by_hash(old(list)@)).contains_key(h@) ==> final(list)@ == old(list)@.push((h, v)),
        map_of(by_hash(old(list)@)).contains_key(h@) ==> (exists|i: int|
            0 <= i < old(list)@.len() && (#[trigger] old(list)@[i]).0@ == h@ && final(list)@ == old(
                list,
            )@.update(i, (h, v))),
{
    let ghost pre = list@;
    proof {
        lemma_by_hash_index(pre);
        lemma_map_of_contains(by_hash(pre), h@);
    }
    match hfind(list, &h) {
        Some(i) => {
            proof {
                lemma_by_hash_index(pre);
                assert(by_hash(pre)[i as int].0 == h@);
                lemma_map_of_update(by_hash(pre), i as int, v);
            }
            list[i] = (h, v);
            proof {
                lemma_by_hash_index(list@);
                assert(by_hash(list@) =~= by_hash(pre).update(i as int, (h@, v)));
                assert(by_hash(pre).update(i as int, (h@, v)) =~= by_hash(pre).update(
                    i as int,
                    (by_hash(pre)[i as int].0, v),
                ));
                assert forall|j: int|
                    0 <= j < list@.len() implies ((#[trigger] list@[j]) == (h, v) || pre.contains(
                    list@[j],
                )) by {
                    if j != i {
                        assert(pre[j] == list@[j]);
                    }
                }
            }
        },
        None => {
            proof {
                lemma_by_hash_index(pre);
                lemma_not_has_key(by_hash(pre), h@);
                lemma_push_unique(by_hash(pre), h@, v);
                lemma_map_of_push(by_hash(pre), h@, v);
            }
            list.push((h, v));
            proof {
                lemma_by_hash_index(list@);
                assert(by_hash(list@) =~= by_hash(pre).push((h@, v)));
                assert forall|j: int|
                    0 <= j < list@.len() implies ((#[trigger] list@[j]) == (h, v) || pre.contains(
                    list@[j],
                )) by {
                    if j < pre.len() {
                        assert(pre[j] == list@[j]);
                    }
                }
            }
        },
    }
}

/// The sum of the recorded channel balances.
pub open spec fn sum_balances(s: Seq<(ChannelId, u64)>) -> int
    decreases s.len(),
{
    if s.len() == 0 {
        0
    } else {
        sum_balances(s.drop_last()) + s.last().1
    }
}

/// The sum of channel balances is never negative.
pub proof fn lemma_sum_nonneg(s: Seq<(ChannelId, u64)>)
    ensures
        sum_balances(s) >= 0,
    decreases s.len(),
{
    if s.len() > 0 {
        lemma_sum_nonneg(s.drop_last());
    }
}

/// Extending a prefix by one entry adds that entry's balance to its sum.
pub proof fn lemma_sum_take_succ(s: Seq<(ChannelId, u64)>, i: int)
    requires
        0 <= i < s.len(),
    ensures
        sum_balances(s.take(i + 1)) == sum_balances(s.take(i)) + s[i].1,
{
    assert(s.take(i + 1).drop_last() =~= s.take(i));
    assert(s.take(i + 1).last() == s[i]);
}

/// Appending an entry adds its balance to the sum.
pub proof fn lemma_sum_push(s: Seq<(ChannelId, u64)>, k: ChannelId, v: u64)
    ensures
        sum_balances(s.push((k, v))) == sum_balances(s) + v,
{
    assert(s.push((k, v)).drop_last() =~= s);
    assert(s.push((k, v)).last() == (k, v));
}

/// Replacing the balance at index `i` swaps its contribution to the sum.
pub proof fn lemma_sum_update(s: Seq<(ChannelId, u64)>, i: int, v: u64)
    requires
        0 <= i < s.len(),
    ensures
        sum_balances(s.update(i, (s[i].0, v))) == sum_balances(s) - s[i].1 + v,
    decreases s.len(),
{
    let t = s.update(i, (s[i].0, v));
    if i == s.len() - 1 {
        assert(t.drop_last() =~= s.drop_last());
        assert(t.last() == (s[i].0, v));
    } else {
        lemma_sum_update(s.drop_last(), i, v);
        assert(t.drop_last() =~= s.drop_last().update(i, (s[i].0, v)));
        assert(s.drop_last()[i] == s[i]);
        assert(t.last() == s.last());
    }
}

/// A prefix sum never exceeds the full sum.
pub proof fn lemma_sum_take_le(s: Seq<(ChannelId, u64)>, i: int)
    requires
        0 <= i <= s.len(),
    ensures
        sum_balances(s.take(i)) <= sum_balances(s),
    decreases s.len() - i,
{
    if i == s.len() {
        assert(s.take(i) =~= s);
    } else {
        lemma_sum_take_succ(s, i);
        lemma_sum_take_le(s, i + 1);
    }
}

/// The narrow conversion capability a key source implements so it can
/// bootstrap a wallet without the wallet depending on its concrete type.
pub trait WalletConversion {
    /// The wallet seed.
    fn get_seed(&self) -> Result<Vec<u8>, WalletError>;

    /// Whether the source uses post-quantum keys.
    fn uses_quantum_keys(&self) -> bool;

    /// The post-quantum scheme, when one is in use.
    fn get_quantum_scheme(&self) -> Option<QuantumScheme>;
}

/// The wallet facade: one logical unit of state holding the key manager,
/// the balance ledger, and the invoice, payment and preimage indices.
#[derive(Debug)]
pub struct LightningWallet {
    key_manager: KeyManager,
    on_chain_balance: u64,
    channel_balances: Vec<(ChannelId, u64)>,
    invoices: Vec<(PaymentHash, Invoice)>,
    payments: Vec<(PaymentHash, Payment)>,
    preimages: Vec<(PaymentHash, PaymentPreimage)>,
}

impl LightningWallet {
    /// The key manager's state.
    pub closed spec fn manager(self) -> KeyManager {
        self.key_manager
    }

    /// The on-chain balance, in satoshis.
    pub closed spec fn on_chain(self) -> u64 {
        self.on_chain_balance
    }

    /// The per-channel settled balances.
    pub closed spec fn channels(self) -> Map<ChannelId, u64> {
        map_of(self.channel_balances@)
    }

    /// The sum of the per-channel balances.
    pub closed spec fn channels_sum(self) -> int {
        sum_balances(self.channel_balances@)
    }

    /// The registered invoices, by payment hash.
    pub closed spec fn invoices(self) -> Map<Seq<u8>, Invoice> {
        map_of(by_hash(self.invoices@))
    }

    /// The payment ledger, by payment hash.
    pub closed spec fn payments(self) -> Map<Seq<u8>, Payment> {
        map_of(by_hash(self.payments@))
    }

    /// The known preimages, by payment hash.
    pub closed spec fn preimages(self) -> Map<Seq<u8>, PaymentPreimage> {
        map_of(by_hash(self.preimages@))
    }

    /// The stored invoices in registration order.
    pub closed spec fn invoice_list(self) -> Seq<Invoice> {
        self.invoices@.map_values(|p: (PaymentHash, Invoice)| p.1)
    }

    /// The stored payment records in registration order.
    pub closed spec fn payment_list(self) -> Seq<Payment> {
        self.payments@.map_values(|p: (PaymentHash, Payment)| p.1)
    }

    /// Structural invariant: the key manager is well-formed, every index
    /// has pairwise-distinct keys, every entry is keyed by its own hash,
    /// every registered invoice has a stored preimage whose digest is the
    /// invoice's payment hash, and all hashes and preimages are 32 bytes.
    pub closed spec fn wf(self) -> bool {
        &&& self.key_manager.wf()
        &&& keys_unique(self.channel_balances@)
        &&& keys_unique(by_hash(self.invoices@))
        &&& keys_unique(by_hash(self.payments@))
        &&& keys_unique(by_hash(self.preimages@))
        &&& forall|i: int|
            0 <= i < self.invoices@.len() ==> {
                let p = #[trigger] self.invoices@[i];
                p.1.wf() && p.0@ == p.1.payment_hash@ && has_key(by_hash(self.preimages@), p.0@)
            }
        &&& forall|i: int|
            0 <= i < self.payments@.len() ==> {
                let p = #[trigger] self.payments@[i];
                p.0@.len() == 32 && p.0@ == p.1.hash@ && (p.1.preimage matches Some(pre)
                    ==> pre@.len() == 32)
            }
        &&& forall|i: int|
            0 <= i < self.preimages@.len() ==> {
                let p = #[trigger] self.preimages@[i];
                p.1@.len() == 32 && p.0@ == digest_of(p.1@)
            }
    }

    /// Creates an empty wallet over a fresh key manager.
    pub fn new(seed: Vec<u8>, use_quantum: bool, quantum_scheme: Option<QuantumScheme>) -> (r:
        Result<LightningWallet, WalletError>)
        ensures
            r is Ok <==> !(use_quantum && quantum_scheme is None),
            r matches Err(e) ==> e is KeyError,
            r matches Ok(w) ==> {
                &&& w.wf()
                &&& w.manager().seed() == seed@
                &&& w.manager().node_key() == digest_of(seed@ + node_key_label())
                &&& w.manager().is_quantum() == use_quantum
                &&& w.on_chain() == 0
                &&& w.channels() == Map::<ChannelId, u64>::empty()
                &&& w.channels_sum() == 0
                &&& w.invoices() == Map::<Seq<u8>, Invoice>::empty()
                &&& w.payments() == Map::<Seq<u8>, Payment>::empty()
                &&& w.preimages() == Map::<Seq<u8>, PaymentPreimage>::empty()
                &&& w.invoice_list() == Seq::<Invoice>::empty()
                &&& w.payment_list() == Seq::<Payment>::empty()
            },
    {
        let key_manager = match KeyManager::new(seed, use_quantum, quantum_scheme) {
            Ok(km) => km,
            Err(e) => {
                return Err(e);
            },
        };
        let w = LightningWallet {
            key_manager,
            on_chain_balance: 0,
            channel_balances: Vec::new(),
            invoices: Vec::new(),
            payments: Vec::new(),
            preimages: Vec::new(),
        };
        proof {
            lemma_empty_wallet(w);
        }
        Ok(w)
    }

    /// Creates a classical-scheme wallet with a random seed and the given
    /// on-chain balance, for test scaffolding.
    pub fn new_test_wallet(balance: u64) -> (r: LightningWallet)
        ensures
            r.wf(),
            !r.manager().is_quantum(),
            r.on_chain() == balance,
            r.channels() == Map::<ChannelId, u64>::empty(),
            r.channels_sum() == 0,
            r.invoices() == Map::<Seq<u8>, Invoice>::empty(),
            r.payments() == Map::<Seq<u8>, Payment>::empty(),
            r.preimages() == Map::<Seq<u8>, PaymentPreimage>::empty(),
            r.invoice_list() == Seq::<Invoice>::empty(),
            r.payment_list() == Seq::<Payment>::empty(),
    {
        let seed = crate::crypto::random_bytes32();
        let key_manager = match KeyManager::new(seed, false, None) {
            Ok(km) => km,
            Err(_) => unreached(),
        };
        let w = LightningWallet {
            key_manager,
            on_chain_balance: balance,
            channel_balances: Vec::new(),
            invoices: Vec::new(),
            payments: Vec::new(),
            preimages: Vec::new(),
        };
        proof {
            lemma_empty_wallet(w);
        }
        w
    }

    /// Bootstraps a wallet from any key source with the conversion
    /// capability.
    pub fn from_node_wallet<W: WalletConversion>(node_wallet: &W) -> (r: Result<
        LightningWallet,
        WalletError,
    >)
        ensures
            r matches Ok(w) ==> {
                &&& w.wf()
                &&& w.on_chain() == 0
                &&& w.channels() == Map::<ChannelId, u64>::empty()
                &&& w.invoices() == Map::<Seq<u8>, Invoice>::empty()
                &&& w.payments() == Map::<Seq<u8>, Payment>::empty()
                &&& w.preimages() == Map::<Seq<u8>, PaymentPreimage>::empty()
                &&& w.invoice_list() == Seq::<Invoice>::empty()
                &&& w.payment_list() == Seq::<Payment>::empty()
            },
    {
        let seed = match node_wallet.get_seed() {
            Ok(s) => s,
            Err(e) => {
                return Err(e);
            },
        };
        let use_quantum = node_wallet.uses_quantum_keys();
        let quantum_scheme = node_wallet.get_quantum_scheme();
        Self::new(seed, use_quantum, quantum_scheme)
    }

    /// The total balance: on-chain plus the sum of all channel balances.
    pub fn get_balance(&self) -> (r: u64)
        requires
            self.on_chain() + self.channels_sum() <= u64::MAX,
        ensures
            r == self.on_chain() + self.channels_sum(),
    {
        let mut total: u64 = self.on_chain_balance;
        let mut i: usize = 0;
        proof {
            assert(self.channel_balances@.take(0) =~= Seq::<(ChannelId, u64)>::empty());
        }
        while i < self.channel_balances.len()
            invariant
                i <= self.channel_balances@.len(),
                self.on_chain() + self.channels_sum() <= u64::MAX,
                total == self.on_chain() + sum_balances(self.channel_balances@.take(i as int)),
            decreases self.channel_balances@.len() - i,
        {
            proof {
                lemma_sum_take_succ(self.channel_balances@, i as int);
                lemma_sum_take_le(self.channel_balances@, i as int + 1);
                lemma_sum_nonneg(self.channel_balances@.take(i as int));
            }
            total = total + self.channel_balances[i].1;
            i += 1;
        }
        proof {
            assert(self.channel_balances@.take(self.channel_balances@.len() as int)
                =~= self.channel_balances@);
        }
        total
    }

    /// The on-chain balance alone, in satoshis.
    pub fn get_on_chain_balance(&self) -> (r: u64)
        ensures
            r == self.on_chain(),
    {
        self.on_chain_balance
    }

    /// Replaces the on-chain balance; the sole caller is a chain-sync
    /// collaborator.
    pub fn update_on_chain_balance(&mut self, balance: u64)
        requires
            old(self).wf(),
        ensures
            final(self).wf(),
            final(self).on_chain() == balance,
            final(self).channels() == old(self).channels(),
            final(self).channels_sum() == old(self).channels_sum(),
            final(self).invoices() == old(self).invoices(),
            final(self).invoice_list() == old(self).invoice_list(),
            final(self).payments() == old(self).payments(),
            final(self).payment_list() == old(self).payment_list(),
            final(self).preimages() == old(self).preimages(),
            final(self).manager() == old(self).manager(),
    {
        self.on_chain_balance = balance;
    }

    /// Debits the on-chain balance, refusing any debit that would drive it
    /// negative; on refusal the wallet is observably unchanged.
    pub fn debit(&mut self, amount_sats: u64) -> (r: Result<(), WalletError>)
        requires
            old(self).wf(),
        ensures
            final(self).wf(),
            r is Ok <==> amount_sats <= old(self).on_chain(),
            r matches Err(e) ==> e is InsufficientFunds && *final(self) == *old(self),
            r is Ok ==> {
                &&& final(self).on_chain() == old(self).on_chain() - amount_sats
                &&& final(self).channels() == old(self).channels()
                &&& final(self).channels_sum() == old(self).channels_sum()
                &&& final(self).invoices() == old(self).invoices()
                &&& final(self).invoice_list() == old(self).invoice_list()
                &&& final(self).payments() == old(self).payments()
                &&& final(self).payment_list() == old(self).payment_list()
                &&& final(self).preimages() == old(self).preimages()
                &&& final(self).manager() == old(self).manager()
            },
    {
        if self.on_chain_balance < amount_sats {
            return Err(
                WalletError::InsufficientFunds(
                    String::from_str("on-chain balance is below the requested debit"),
                ),
            );
        }
        self.on_chain_balance = self.on_chain_balance - amount_sats;
        Ok(())
    }

    /// Upserts a channel's settled balance.
    pub fn update_channel_balance(&mut self, channel_id: ChannelId, balance: u64)
        requires
            old(self).wf(),
        ensures
            final(self).wf(),
            final(self).channels() == old(self).channels().insert(channel_id, balance),
            final(self).channels_sum() == old(self).channels_sum() + balance - (
            if old(self).channels().contains_key(channel_id) {
                old(self).channels()[channel_id] as int
            } else {
                0int
            }),
            final(self).on_chain() == old(self).on_chain(),
            final(self).invoices() == old(self).invoices(),
            final(self).invoice_list() == old(self).invoice_list(),
            final(self).payments() == old(self).payments(),
            final(self).payment_list() == old(self).payment_list(),
            final(self).preimages() == old(self).preimages(),
            final(self).manager() == old(self).manager(),
    {
        let ghost pre = self.channel_balances@;
        proof {
            lemma_map_of_contains(pre, channel_id);
        }
        let mut i: usize = 0;
        while i < self.channel_balances.len()
            invariant
                i <= self.channel_balances@.len(),
                *self == *old(self),
                old(self).wf(),
                self.channel_balances@ == pre,
                forall|j: int| 0 <= j < i ==> (#[trigger] pre[j]).0 != channel_id,
            decreases self.channel_balances@.len() - i,
        {
            if self.channel_balances[i].0 == channel_id {
                proof {
                    lemma_map_of_contains(pre, channel_id);
                    lemma_map_of_index(pre, i as int);
                    lemma_map_of_update(pre, i as int, balance);
                    lemma_sum_update(pre, i as int, balance);
                    assert(pre.update(i as int, (pre[i as int].0, balance)) =~= pre.update(
                        i as int,
                        (channel_id, balance),
                    ));
                }
                self.channel_balances[i] = (channel_id, balance);
                return;
            }
            i += 1;
        }
        proof {
            lemma_not_has_key(pre, channel_id);
            lemma_map_of_contains(pre, channel_id);
            lemma_push_unique(pre, channel_id, balance);
            lemma_map_of_push(pre, channel_id, balance);
            lemma_sum_push(pre, channel_id, balance);
        }
        self.channel_balances.push((channel_id, balance));
    }

    /// Issues an invoice: binds a fresh random commitment to the amount,
    /// description and expiry, and registers both the invoice and its
    /// preimage under the payment hash. The preimage is never returned.
    ///
    /// A zero amount or a zero expiry is rejected and the wallet is left
    /// observably unchanged.
    pub fn create_invoice(
        &mut self,
        amount_msat: u64,
        description: &str,
        expiry_seconds: u32,
        current_time: u64,
    ) -> (r: Result<Invoice, WalletError>)
        requires
            old(self).wf(),
        ensures
            final(self).wf(),
            r is Ok <==> amount_msat > 0 && expiry_seconds > 0,
            r matches Err(e) ==> {
                &&& *final(self) == *old(self)
                &&& e matches WalletError::InvoiceError(ie)
                &&& amount_msat == 0 ==> ie == InvoiceError::ZeroAmount
                &&& amount_msat > 0 ==> ie == InvoiceError::ZeroExpiry
            },
            r matches Ok(inv) ==> {
                &&& inv.wf()
                &&& inv.amount_msat == amount_msat
                &&& inv.description@ == description@
                &&& inv.expiry_seconds == expiry_seconds
                &&& inv.creation_time == current_time
                &&& final(self).invoices() == old(self).invoices().insert(
                    inv.payment_hash@,
                    final(self).invoices()[inv.payment_hash@],
                )
                &&& inv_equiv(final(self).invoices()[inv.payment_hash@], inv)
                &&& final(self).preimages() == old(self).preimages().insert(
                    inv.payment_hash@,
                    final(self).preimages()[inv.payment_hash@],
                )
                &&& digest_of(final(self).preimages()[inv.payment_hash@]@) == inv.payment_hash@
                &&& final(self).payments() == old(self).payments()
                &&& final(self).payment_list() == old(self).payment_list()
                &&& (!old(self).invoices().contains_key(inv.payment_hash@)
                    ==> final(self).invoice_list() == old(self).invoice_list().push(
                    final(self).invoices()[inv.payment_hash@],
                ))
                &&& (old(self).invoices().contains_key(inv.payment_hash@) ==> (exists|i: int|
                    0 <= i < old(self).invoice_list().len() && final(self).invoice_list() == old(
                        self,
                    ).invoice_list().update(i, final(self).invoices()[inv.payment_hash@])))
                &&& final(self).channels() == old(self).channels()
                &&& final(self).channels_sum() == old(self).channels_sum()
                &&& final(self).on_chain() == old(self).on_chain()
                &&& final(self).manager() == old(self).manager()
            },
    {
        if amount_msat == 0 {
            return Err(WalletError::InvoiceError(InvoiceError::ZeroAmount));
        }
        if expiry_seconds == 0 {
            return Err(WalletError::InvoiceError(InvoiceError::ZeroExpiry));
        }
        let preimage = PaymentPreimage::generate();
        let payment_hash = preimage.hash();
        let invoice = match Invoice::new(
            payment_hash,
            amount_msat,
            String::from_str(description),
            expiry_seconds,
            current_time,
        ) {
            Ok(inv) => inv,
            Err(_) => unreached(),
        };
        let result = invoice.duplicate();
        let ghost pre_invs = self.invoices@;
        let ghost pre_pres = self.preimages@;
        let key1 = invoice.payment_hash.duplicate();
        let ghost key_snap = key1;
        let ghost inv_snap = invoice;
        hupsert(&mut self.invoices, key1, invoice);
        proof {
            if map_of(by_hash(pre_invs)).contains_key(key_snap@) {
                let i = choose|i: int|
                    0 <= i < pre_invs.len() && (#[trigger] pre_invs[i]).0@ == key_snap@
                        && self.invoices@ == pre_invs.update(i, (key_snap, inv_snap));
                assert(self.invoice_list() =~= old(self).invoice_list().update(i, inv_snap));
            } else {
                assert(self.invoices@ == pre_invs.push((key_snap, inv_snap)));
                assert(self.invoice_list() =~= old(self).invoice_list().push(inv_snap));
            }
        }
        let key2 = result.payment_hash.duplicate();
        hupsert(&mut self.preimages, key2, preimage);
        proof {
            lemma_map_of_contains(by_hash(self.preimages@), result.payment_hash@);
            lemma_by_hash_index(self.preimages@);
            assert forall|i: int| 0 <= i < self.invoices@.len() implies {
                let p = #[trigger] self.invoices@[i];
                p.1.wf() && p.0@ == p.1.payment_hash@ && has_key(by_hash(self.preimages@), p.0@)
            } by {
                let p = self.invoices@[i];
                if pre_invs.contains(p) {
                    let k = choose|k: int| 0 <= k < pre_invs.len() && pre_invs[k] == p;
                    assert(has_key(by_hash(pre_pres), p.0@));
                    lemma_map_of_contains(by_hash(pre_pres), p.0@);
                    lemma_map_of_contains(by_hash(self.preimages@), p.0@);
                }
            }
            assert forall|i: int| 0 <= i < self.preimages@.len() implies {
                let p = #[trigger] self.preimages@[i];
                p.1@.len() == 32 && p.0@ == digest_of(p.1@)
            } by {
                let p = self.preimages@[i];
                if pre_pres.contains(p) {
                    let k = choose|k: int| 0 <= k < pre_pres.len() && pre_pres[k] == p;
                }
            }
        }
        Ok(result)
    }

    /// Pays an invoice on settlement evidence: the caller (ultimately the
    /// routing collaborator) supplies the settlement preimage, and the
    /// payment succeeds only when that preimage's digest is the invoice's
    /// payment hash. On success the on-chain balance is debited atomically
    /// with appending the `Succeeded` payment record, the preimage is
    /// indexed by hash, and the preimage is returned. The core never
    /// synthesizes a settlement preimage itself.
    ///
    /// Failures are all-or-nothing and leave the wallet observably
    /// unchanged: insufficient funds; a record already present for the
    /// hash (the payment ledger is an append-only audit log); or evidence
    /// that does not match the hash.
    pub fn pay_invoice(
        &mut self,
        invoice: &Invoice,
        settlement_preimage: &PaymentPreimage,
        current_time: u64,
    ) -> (r: Result<PaymentPreimage, WalletError>)
        requires
            old(self).wf(),
            invoice.wf(),
            settlement_preimage.wf(),
        ensures
            final(self).wf(),
            r is Ok <==> {
                &&& old(self).on_chain() >= invoice.amount_msat / 1000
                &&& !old(self).payments().contains_key(invoice.payment_hash@)
                &&& digest_of(settlement_preimage@) == invoice.payment_hash@
            },
            r matches Err(e) ==> *final(self) == *old(self) && (e is InsufficientFunds
                || e is PaymentError),
            old(self).on_chain() < invoice.amount_msat / 1000 ==> (r matches Err(e)
                && e is InsufficientFunds),
            old(self).on_chain() >= invoice.amount_msat / 1000 && (old(
                self,
            ).payments().contains_key(invoice.payment_hash@) || digest_of(settlement_preimage@)
                != invoice.payment_hash@) ==> (r matches Err(e) && e is PaymentError),
            r matches Ok(p) ==> {
                &&& p@ == settlement_preimage@
                &&& final(self).on_chain() == old(self).on_chain() - invoice.amount_msat / 1000
                &&& final(self).payments() == old(self).payments().insert(
                    invoice.payment_hash@,
                    final(self).payments()[invoice.payment_hash@],
                )
                &&& ({
                    let rec = final(self).payments()[invoice.payment_hash@];
                    &&& rec.hash@ == invoice.payment_hash@
                    &&& rec.amount_msat == invoice.amount_msat
                    &&& rec.description@ == invoice.description@
                    &&& rec.creation_time == current_time
                    &&& rec.status is Succeeded
                    &&& rec.preimage matches Some(pre) && pre@ == settlement_preimage@
                    &&& rec.channel_id is None
                })
                &&& final(self).payment_list() == old(self).payment_list().push(
                    final(self).payments()[invoice.payment_hash@],
                )
                &&& final(self).preimages() == old(self).preimages().insert(
                    invoice.payment_hash@,
                    final(self).preimages()[invoice.payment_hash@],
                )
                &&& final(self).preimages()[invoice.payment_hash@]@ == settlement_preimage@
                &&& final(self).invoices() == old(self).invoices()
                &&& final(self).invoice_list() == old(self).invoice_list()
                &&& final(self).channels() == old(self).channels()
                &&& final(self).channels_sum() == old(self).channels_sum()
                &&& final(self).manager() == old(self).manager()
            },
    {
        let amount_sats = invoice.amount_msat / 1000;
        if self.on_chain_balance < amount_sats {
            return Err(
                WalletError::InsufficientFunds(
                    String::from_str("on-chain balance is below the invoice amount"),
                ),
            );
        }
        let dup = hfind(&self.payments, &invoice.payment_hash);
        proof {
            lemma_by_hash_index(self.payments@);
            lemma_map_of_contains(by_hash(self.payments@), invoice.payment_hash@);
            match dup {
                Some(i) => {
                    assert(by_hash(self.payments@)[i as int].0 == invoice.payment_hash@);
                },
                None => {
                    lemma_not_has_key(by_hash(self.payments@), invoice.payment_hash@);
                },
            }
        }
        if dup.is_some() {
            return Err(
                WalletError::PaymentError(
                    String::from_str("a payment is already recorded for this hash"),
                ),
            );
        }
        let evidence = settlement_preimage.hash();
        if !evidence.matches_hash(&invoice.payment_hash) {
            return Err(
                WalletError::PaymentError(
                    String::from_str("settlement preimage does not match the payment hash"),
                ),
            );
        }
        match self.debit(amount_sats) {
            Err(_) => {
                return unreached();
            },
            Ok(()) => {},
        }
        let payment = Payment {
            hash: invoice.payment_hash.duplicate(),
            amount_msat: invoice.amount_msat,
            description: invoice.description.clone(),
            creation_time: current_time,
            status: PaymentStatus::Succeeded,
            preimage: Some(settlement_preimage.duplicate()),
            channel_id: None,
        };
        let ghost pre_pays = self.payments@;
        let ghost pre_pres = self.preimages@;
        let key = invoice.payment_hash.duplicate();
        hupsert(&mut self.payments, key, payment);
        let key2 = invoice.payment_hash.duplicate();
        hupsert(&mut self.preimages, key2, settlement_preimage.duplicate());
        proof {
            lemma_map_of_contains(by_hash(self.preimages@), invoice.payment_hash@);
            lemma_by_hash_index(self.preimages@);
            assert forall|i: int| 0 <= i < self.payments@.len() implies {
                let p = #[trigger] self.payments@[i];
                p.0@.len() == 32 && p.0@ == p.1.hash@ && (p.1.preimage matches Some(pre)
                    ==> pre@.len() == 32)
            } by {
                let p = self.payments@[i];
                if pre_pays.contains(p) {
                    let k = choose|k: int| 0 <= k < pre_pays.len() && pre_pays[k] == p;
                }
            }
            assert forall|i: int| 0 <= i < self.preimages@.len() implies {
                let p = #[trigger] self.preimages@[i];
                p.1@.len() == 32 && p.0@ == digest_of(p.1@)
            } by {
                let p = self.preimages@[i];
                if pre_pres.contains(p) {
                    let k = choose|k: int| 0 <= k < pre_pres.len() && pre_pres[k] == p;
                }
            }
            assert forall|i: int| 0 <= i < self.invoices@.len() implies {
                let p = #[trigger] self.invoices@[i];
                p.1.wf() && p.0@ == p.1.payment_hash@ && has_key(by_hash(self.preimages@), p.0@)
            } by {
                let p = self.invoices@[i];
                assert(has_key(by_hash(pre_pres), p.0@));
                lemma_map_of_contains(by_hash(pre_pres), p.0@);
                lemma_map_of_contains(by_hash(self.preimages@), p.0@);
            }
            assert(self.payments@ == pre_pays.push((key, payment)));
            assert(self.payment_list() =~= old(self).payment_list().push(payment));
        }
        Ok(settlement_preimage.duplicate())
    }

    /// Opens an outbound payment: checks the balance, then debits the
    /// amount atomically with appending a `Pending` record. Settlement is
    /// driven later by evidence from the routing collaborator, through
    /// [`Self::mark_payment_in_progress`], [`Self::settle_payment`] and
    /// [`Self::fail_payment`].
    pub fn begin_payment(&mut self, invoice: &Invoice, current_time: u64) -> (r: Result<
        (),
        WalletError,
    >)
        requires
            old(self).wf(),
            invoice.wf(),
        ensures
            final(self).wf(),
            r is Ok <==> old(self).on_chain() >= invoice.amount_msat / 1000 && !old(
                self,
            ).payments().contains_key(invoice.payment_hash@),
            old(self).on_chain() < invoice.amount_msat / 1000 ==> (r matches Err(e)
                && e is InsufficientFunds),
            old(self).on_chain() >= invoice.amount_msat / 1000 && old(
                self,
            ).payments().contains_key(invoice.payment_hash@) ==> (r matches Err(e)
                && e is PaymentError),
            r is Err ==> *final(self) == *old(self),
            r is Ok ==> {
                &&& final(self).on_chain() == old(self).on_chain() - invoice.amount_msat / 1000
                &&& final(self).payments() == old(self).payments().insert(
                    invoice.payment_hash@,
                    final(self).payments()[invoice.payment_hash@],
                )
                &&& ({
                    let rec = final(self).payments()[invoice.payment_hash@];
                    &&& rec.hash@ == invoice.payment_hash@
                    &&& rec.amount_msat == invoice.amount_msat
                    &&& rec.description@ == invoice.description@
                    &&& rec.creation_time == current_time
                    &&& rec.status is Pending
                    &&& rec.preimage is None
                    &&& rec.channel_id is None
                })
                &&& final(self).payment_list() == old(self).payment_list().push(
                    final(self).payments()[invoice.payment_hash@],
                )
                &&& final(self).invoices() == old(self).invoices()
                &&& final(self).invoice_list() == old(self).invoice_list()
                &&& final(self).preimages() == old(self).preimages()
                &&& final(self).channels() == old(self).channels()
                &&& final(self).channels_sum() == old(self).channels_sum()
                &&& final(self).manager() == old(self).manager()
            },
    {
        let amount_sats = invoice.amount_msat / 1000;
        if self.on_chain_balance < amount_sats {
            return Err(
                WalletError::InsufficientFunds(
                    String::from_str("on-chain balance is below the invoice amount"),
                ),
            );
        }
        let dup = hfind(&self.payments, &invoice.payment_hash);
        proof {
            lemma_by_hash_index(self.payments@);
            lemma_map_of_contains(by_hash(self.payments@), invoice.payment_hash@);
            match dup {
                Some(i) => {
                    assert(by_hash(self.payments@)[i as int].0 == invoice.payment_hash@);
                },
                None => {
                    lemma_not_has_key(by_hash(self.payments@), invoice.payment_hash@);
                },
            }
        }
        if dup.is_some() {
            return Err(
                WalletError::PaymentError(
                    String::from_str("a payment is already recorded for this hash"),
                ),
            );
        }
        match self.debit(amount_sats) {
            Err(_) => {
                return unreached();
            },
            Ok(()) => {},
        }
        let payment = Payment {
            hash: invoice.payment_hash.duplicate(),
            amount_msat: invoice.amount_msat,
            description: invoice.description.clone(),
            creation_time: current_time,
            status: PaymentStatus::Pending,
            preimage: None,
            channel_id: None,
        };
        let ghost pre_pays = self.payments@;
        let key = invoice.payment_hash.duplicate();
        hupsert(&mut self.payments, key, payment);
        proof {
            assert forall|i: int| 0 <= i < self.payments@.len() implies {
                let p = #[trigger] self.payments@[i];
                p.0@.len() == 32 && p.0@ == p.1.hash@ && (p.1.preimage matches Some(pre)
                    ==> pre@.len() == 32)
            } by {
                let p = self.payments@[i];
                if pre_pays.contains(p) {
                    let k = choose|k: int| 0 <= k < pre_pays.len() && pre_pays[k] == p;
                }
            }
            assert(self.payments@ == pre_pays.push((key, payment)));
            assert(self.payment_list() =~= old(self).payment_list().push(payment));
        }
        Ok(())
    }

    /// Marks a `Pending` payment as `InProgress`: its funds are now
    /// committed to an in-flight route.
    pub fn mark_payment_in_progress(&mut self, payment_hash: &PaymentHash) -> (r: Result<
        (),
        WalletError,
    >)
        requires
            old(self).wf(),
        ensures
            final(self).wf(),
            r is Ok <==> old(self).payments().contains_key(payment_hash@) && old(
                self,
            ).payments()[payment_hash@].status is Pending,
            r matches Err(e) ==> e is PaymentError && *final(self) == *old(self),
            r is Ok ==> {
                &&& final(self).payments() == old(self).payments().insert(
                    payment_hash@,
                    final(self).payments()[payment_hash@],
                )
                &&& same_payment_core(
                    final(self).payments()[payment_hash@],
                    old(self).payments()[payment_hash@],
                )
                &&& final(self).payments()[payment_hash@].status is InProgress
                &&& (exists|i: int|
                    0 <= i < old(self).payment_list().len() && (#[trigger] old(
                        self,
                    ).payment_list()[i]).hash@ == payment_hash@ && final(self).payment_list()
                        == old(self).payment_list().update(
                        i,
                        final(self).payments()[payment_hash@],
                    ))
                &&& final(self).payment_list().len() == old(self).payment_list().len()
                &&& final(self).on_chain() == old(self).on_chain()
                &&& final(self).invoices() == old(self).invoices()
                &&& final(self).invoice_list() == old(self).invoice_list()
                &&& final(self).preimages() == old(self).preimages()
                &&& final(self).channels() == old(self).channels()
                &&& final(self).channels_sum() == old(self).channels_sum()
                &&& final(self).manager() == old(self).manager()
            },
    {
        let found = hfind(&self.payments, payment_hash);
        proof {
            lemma_by_hash_index(self.payments@);
            lemma_map_of_contains(by_hash(self.payments@), payment_hash@);
            match found {
                Some(i) => {
                    lemma_map_of_index(by_hash(self.payments@), i as int);
                },
                None => {
                    lemma_not_has_key(by_hash(self.payments@), payment_hash@);
                },
            }
        }
        let i = match found {
            Some(i) => i,
            None => {
                return Err(
                    WalletError::PaymentError(
                        String::from_str("no payment is recorded for this hash"),
                    ),
                );
            },
        };
        if !matches!(self.payments[i].1.status, PaymentStatus::Pending) {
            return Err(
                WalletError::PaymentError(String::from_str("payment is not pending")),
            );
        }
        let mut rec = self.payments[i].1.duplicate();
        rec.status = PaymentStatus::InProgress;
        let key = self.payments[i].0.duplicate();
        let ghost pre_pays = self.payments@;
        hupsert(&mut self.payments, key, rec);
        proof {
            self.lemma_after_record_update(pre_pays, *old(self), key, rec, payment_hash@);
        }
        Ok(())
    }

    /// Settles a payment on evidence: the supplied preimage must hash to
    /// the payment hash of a `Pending` or `InProgress` record. On success
    /// the record becomes `Succeeded` carrying the preimage, and the
    /// preimage is indexed by hash.
    pub fn settle_payment(
        &mut self,
        payment_hash: &PaymentHash,
        settlement_preimage: &PaymentPreimage,
    ) -> (r: Result<(), WalletError>)
        requires
            old(self).wf(),
            settlement_preimage.wf(),
        ensures
            final(self).wf(),
            r is Ok <==> {
                &&& old(self).payments().contains_key(payment_hash@)
                &&& (old(self).payments()[payment_hash@].status is Pending || old(
                    self,
                ).payments()[payment_hash@].status is InProgress)
                &&& digest_of(settlement_preimage@) == payment_hash@
            },
            r matches Err(e) ==> e is PaymentError && *final(self) == *old(self),
            r is Ok ==> {
                &&& final(self).payments() == old(self).payments().insert(
                    payment_hash@,
                    final(self).payments()[payment_hash@],
                )
                &&& ({
                    let rec = final(self).payments()[payment_hash@];
                    let prev = old(self).payments()[payment_hash@];
                    &&& rec.status is Succeeded
                    &&& rec.preimage matches Some(pre) && pre@ == settlement_preimage@
                    &&& rec.hash@ == prev.hash@
                    &&& rec.amount_msat == prev.amount_msat
                    &&& rec.description@ == prev.description@
                    &&& rec.creation_time == prev.creation_time
                    &&& rec.channel_id == prev.channel_id
                })
                &&& (exists|i: int|
                    0 <= i < old(self).payment_list().len() && (#[trigger] old(
                        self,
                    ).payment_list()[i]).hash@ == payment_hash@ && final(self).payment_list()
                        == old(self).payment_list().update(
                        i,
                        final(self).payments()[payment_hash@],
                    ))
                &&& final(self).payment_list().len() == old(self).payment_list().len()
                &&& final(self).preimages() == old(self).preimages().insert(
                    payment_hash@,
                    final(self).preimages()[payment_hash@],
                )
                &&& final(self).preimages()[payment_hash@]@ == settlement_preimage@
                &&& final(self).on_chain() == old(self).on_chain()
                &&& final(self).invoices() == old(self).invoices()
                &&& final(self).invoice_list() == old(self).invoice_list()
                &&& final(self).channels() == old(self).channels()
                &&& final(self).channels_sum() == old(self).channels_sum()
                &&& final(self).manager() == old(self).manager()
            },
    {
        let found = hfind(&self.payments, payment_hash);
        proof {
            lemma_by_hash_index(self.payments@);
            lemma_map_of_contains(by_hash(self.payments@), payment_hash@);
            match found {
                Some(i) => {
                    lemma_map_of_index(by_hash(self.payments@), i as int);
                },
                None => {
                    lemma_not_has_key(by_hash(self.payments@), payment_hash@);
                },
            }
        }
        let i = match found {
            Some(i) => i,
            None => {
                return Err(
                    WalletError::PaymentError(
                        String::from_str("no payment is recorded for this hash"),
                    ),
                );
            },
        };
        if !matches!(
            self.payments[i].1.status,
            PaymentStatus::Pending | PaymentStatus::InProgress
        ) {
            return Err(
                WalletError::PaymentError(String::from_str("payment is already settled")),
            );
        }
        let evidence = settlement_preimage.hash();
        if !evidence.matches_hash(payment_hash) {
            return Err(
                WalletError::PaymentError(
                    String::from_str("settlement preimage does not match the payment hash"),
                ),
            );
        }
        let mut rec = self.payments[i].1.duplicate();
        rec.status = PaymentStatus::Succeeded;
        rec.preimage = Some(settlement_preimage.duplicate());
        let key = self.payments[i].0.duplicate();
        let ghost pre_pays = self.payments@;
        hupsert(&mut self.payments, key, rec);
        proof {
            self.lemma_after_record_update(pre_pays, *old(self), key, rec, payment_hash@);
        }
        let ghost pre_pres = self.preimages@;
        let key2 = self.payments[i].0.duplicate();
        proof {
            assert(key2@ == payment_hash@);
        }
        hupsert(&mut self.preimages, key2, settlement_preimage.duplicate());
        proof {
            lemma_map_of_contains(by_hash(self.preimages@), payment_hash@);
            lemma_by_hash_index(self.preimages@);
            assert forall|j: int| 0 <= j < self.preimages@.len() implies {
                let p = #[trigger] self.preimages@[j];
                p.1@.len() == 32 && p.0@ == digest_of(p.1@)
            } by {
                let p = self.preimages@[j];
                if pre_pres.contains(p) {
                    let k = choose|k: int| 0 <= k < pre_pres.len() && pre_pres[k] == p;
                }
            }
            assert forall|j: int| 0 <= j < self.invoices@.len() implies {
                let p = #[trigger] self.invoices@[j];
                p.1.wf() && p.0@ == p.1.payment_hash@ && has_key(by_hash(self.preimages@), p.0@)
            } by {
                let p = self.invoices@[j];
                assert(has_key(by_hash(pre_pres), p.0@));
                lemma_map_of_contains(by_hash(pre_pres), p.0@);
                lemma_map_of_contains(by_hash(self.preimages@), p.0@);
            }
        }
        Ok(())
    }

    /// Records that a `Pending` or `InProgress` payment failed, with the
    /// reason. The record is kept for audit; the committed funds stay
    /// debited, as recovery of routed funds belongs to the channel layer.
    pub fn fail_payment(&mut self, payment_hash: &PaymentHash, reason: &str) -> (r: Result<
        (),
        WalletError,
    >)
        requires
            old(self).wf(),
        ensures
            final(self).wf(),
            r is Ok <==> old(self).payments().contains_key(payment_hash@) && (old(
                self,
            ).payments()[payment_hash@].status is Pending || old(
                self,
            ).payments()[payment_hash@].status is InProgress),
            r matches Err(e) ==> e is PaymentError && *final(self) == *old(self),
            r is Ok ==> {
                &&& final(self).payments() == old(self).payments().insert(
                    payment_hash@,
                    final(self).payments()[payment_hash@],
                )
                &&& same_payment_core(
                    final(self).payments()[payment_hash@],
                    old(self).payments()[payment_hash@],
                )
                &&& final(self).payments()[payment_hash@].status matches PaymentStatus::Failed(why)
                    && why@ == reason@
                &&& (exists|i: int|
                    0 <= i < old(self).payment_list().len() && (#[trigger] old(
                        self,
                    ).payment_list()[i]).hash@ == payment_hash@ && final(self).payment_list()
                        == old(self).payment_list().update(
                        i,
                        final(self).payments()[payment_hash@],
                    ))
                &&& final(self).payment_list().len() == old(self).payment_list().len()
                &&& final(self).on_chain() == old(self).on_chain()
                &&& final(self).invoices() == old(self).invoices()
                &&& final(self).invoice_list() == old(self).invoice_list()
                &&& final(self).preimages() == old(self).preimages()
                &&& final(self).channels() == old(self).channels()
                &&& final(self).channels_sum() == old(self).channels_sum()
                &&& final(self).manager() == old(self).manager()
            },
    {
        let found = hfind(&self.payments, payment_hash);
        proof {
            lemma_by_hash_index(self.payments@);
            lemma_map_of_contains(by_hash(self.payments@), payment_hash@);
            match found {
                Some(i) => {
                    lemma_map_of_index(by_hash(self.payments@), i as int);
                },
                None => {
                    lemma_not_has_key(by_hash(self.payments@), payment_hash@);
                },
            }
        }
        let i = match found {
            Some(i) => i,
            None => {
                return Err(
                    WalletError::PaymentError(
                        String::from_str("no payment is recorded for this hash"),
                    ),
                );
            },
        };
        if !matches!(
            self.payments[i].1.status,
            PaymentStatus::Pending | PaymentStatus::InProgress
        ) {
            return Err(
                WalletError::PaymentError(String::from_str("payment is already settled")),
            );
        }
        let mut rec = self.payments[i].1.duplicate();
        rec.status = PaymentStatus::Failed(String::from_str(reason));
        let key = self.payments[i].0.duplicate();
        let ghost pre_pays = self.payments@;
        hupsert(&mut self.payments, key, rec);
        proof {
            self.lemma_after_record_update(pre_pays, *old(self), key, rec, payment_hash@);
        }
        Ok(())
    }

    /// After overwriting the record keyed `h` (already present in `pre`,
    /// the payment store of `prior`) with `rec` under key `key`, the store
    /// is well-formed again and the list view is the pointwise update.
    proof fn lemma_after_record_update(
        self,
        pre: Seq<(PaymentHash, Payment)>,
        prior: LightningWallet,
        key: PaymentHash,
        rec: Payment,
        h: Seq<u8>,
    )
        requires
            prior.wf(),
            pre == prior.payments@,
            key@ == h,
            rec.hash@ == h,
            h.len() == 32,
            rec.preimage matches Some(pre_img) ==> pre_img@.len() == 32,
            map_of(by_hash(pre)).contains_key(h),
            map_of(by_hash(self.payments@)) == map_of(by_hash(pre)).insert(h, rec),
            keys_unique(by_hash(self.payments@)),
            forall|j: int|
                0 <= j < self.payments@.len() ==> ((#[trigger] self.payments@[j]) == (key, rec)
                    || pre.contains(self.payments@[j])),
            exists|i: int|
                0 <= i < pre.len() && (#[trigger] pre[i]).0@ == h && self.payments@ == pre.update(
                    i,
                    (key, rec),
                ),
        ensures
            forall|j: int|
                0 <= j < self.payments@.len() ==> {
                    let p = #[trigger] self.payments@[j];
                    p.0@.len() == 32 && p.0@ == p.1.hash@ && (p.1.preimage matches Some(pre_img)
                        ==> pre_img@.len() == 32)
                },
            map_of(by_hash(self.payments@))[h] == rec,
            exists|i: int|
                0 <= i < prior.payment_list().len() && (#[trigger] prior.payment_list()[i]).hash@
                    == h && self.payment_list() == prior.payment_list().update(i, rec),
            self.payment_list().len() == prior.payment_list().len(),
    {
        assert forall|j: int| 0 <= j < self.payments@.len() implies {
            let p = #[trigger] self.payments@[j];
            p.0@.len() == 32 && p.0@ == p.1.hash@ && (p.1.preimage matches Some(pre_img)
                ==> pre_img@.len() == 32)
        } by {
            let p = self.payments@[j];
            if pre.contains(p) {
                let k = choose|k: int| 0 <= k < pre.len() && pre[k] == p;
            }
        }
        let i = choose|i: int|
            0 <= i < pre.len() && (#[trigger] pre[i]).0@ == h && self.payments@ == pre.update(
                i,
                (key, rec),
            );
        assert(prior.payment_list()[i].hash@ == h);
        assert(self.payment_list() =~= prior.payment_list().update(i, rec));
    }

    /// All registered invoices, in registration order.
    pub fn get_invoices(&self) -> (r: Vec<Invoice>)
        ensures
            r@.len() == self.invoice_list().len(),
            forall|i: int|
                0 <= i < r@.len() ==> inv_equiv(#[trigger] r@[i], self.invoice_list()[i]),
    {
        let mut out: Vec<Invoice> = Vec::new();
        let mut i: usize = 0;
        while i < self.invoices.len()
            invariant
                i <= self.invoices@.len(),
                out@.len() == i,
                forall|j: int|
                    0 <= j < i ==> inv_equiv(#[trigger] out@[j], self.invoice_list()[j]),
            decreases self.invoices@.len() - i,
        {
            out.push(self.invoices[i].1.duplicate());
            i += 1;
        }
        out
    }

    /// All payment records, in registration order.
    pub fn get_payments(&self) -> (r: Vec<Payment>)
        ensures
            r@.len() == self.payment_list().len(),
            forall|i: int|
                0 <= i < r@.len() ==> pay_equiv(#[trigger] r@[i], self.payment_list()[i]),
    {
        let mut out: Vec<Payment> = Vec::new();
        let mut i: usize = 0;
        while i < self.payments.len()
            invariant
                i <= self.payments@.len(),
                out@.len() == i,
                forall|j: int|
                    0 <= j < i ==> pay_equiv(#[trigger] out@[j], self.payment_list()[j]),
            decreases self.payments@.len() - i,
        {
            out.push(self.payments[i].1.duplicate());
            i += 1;
        }
        out
    }

    /// Looks up the invoice registered under a payment hash.
    pub fn get_invoice(&self, payment_hash: &PaymentHash) -> (r: Option<Invoice>)
        requires
            self.wf(),
        ensures
            match r {
                Some(inv) => self.invoices().contains_key(payment_hash@) && inv_equiv(
                    inv,
                    self.invoices()[payment_hash@],
                ) && inv.payment_hash@ == payment_hash@,
                None => !self.invoices().contains_key(payment_hash@),
            },
    {
        match hfind(&self.invoices, payment_hash) {
            Some(i) => {
                proof {
                    lemma_by_hash_index(self.invoices@);
                    lemma_map_of_index(by_hash(self.invoices@), i as int);
                }
                Some(self.invoices[i].1.duplicate())
            },
            None => {
                proof {
                    lemma_by_hash_index(self.invoices@);
                    lemma_not_has_key(by_hash(self.invoices@), payment_hash@);
                    lemma_map_of_contains(by_hash(self.invoices@), payment_hash@);
                }
                None
            },
        }
    }

    /// Looks up the payment record for a payment hash.
    pub fn get_payment(&self, payment_hash: &PaymentHash) -> (r: Option<Payment>)
        requires
            self.wf(),
        ensures
            match r {
                Some(p) => self.payments().contains_key(payment_hash@) && pay_equiv(
                    p,
                    self.payments()[payment_hash@],
                ) && p.hash@ == payment_hash@,
                None => !self.payments().contains_key(payment_hash@),
            },
    {
        match hfind(&self.payments, payment_hash) {
            Some(i) => {
                proof {
                    lemma_by_hash_index(self.payments@);
                    lemma_map_of_index(by_hash(self.payments@), i as int);
                }
                Some(self.payments[i].1.duplicate())
            },
            None => {
                proof {
                    lemma_by_hash_index(self.payments@);
                    lemma_not_has_key(by_hash(self.payments@), payment_hash@);
                    lemma_map_of_contains(by_hash(self.payments@), payment_hash@);
                }
                None
            },
        }
    }

    /// Whether a payment with this hash has settled: true exactly when a
    /// recorded payment for the hash has status `Succeeded`.
    pub fn is_paid(&self, payment_hash: &PaymentHash) -> (r: bool)
        requires
            self.wf(),
        ensures
            r == (self.payments().contains_key(payment_hash@) && self.payments()[payment_hash@].status
                is Succeeded),
    {
        match hfind(&self.payments, payment_hash) {
            Some(i) => {
                proof {
                    lemma_by_hash_index(self.payments@);
                    lemma_map_of_index(by_hash(self.payments@), i as int);
                }
                matches!(self.payments[i].1.status, PaymentStatus::Succeeded)
            },
            None => {
                proof {
                    lemma_by_hash_index(self.payments@);
                    lemma_not_has_key(by_hash(self.payments@), payment_hash@);
                    lemma_map_of_contains(by_hash(self.payments@), payment_hash@);
                }
                false
            },
        }
    }

    /// Looks up the stored preimage for a payment hash, if the wallet
    /// holds one.
    pub fn get_preimage(&self, payment_hash: &PaymentHash) -> (r: Option<PaymentPreimage>)
        requires
            self.wf(),
        ensures
            match r {
                Some(p) => self.preimages().contains_key(payment_hash@) && p@
                    == self.preimages()[payment_hash@]@,
                None => !self.preimages().contains_key(payment_hash@),
            },
    {
        match hfind(&self.preimages, payment_hash) {
            Some(i) => {
                proof {
                    lemma_by_hash_index(self.preimages@);
                    lemma_map_of_index(by_hash(self.preimages@), i as int);
                }
                Some(self.preimages[i].1.duplicate())
            },
            None => {
                proof {
                    lemma_by_hash_index(self.preimages@);
                    lemma_not_has_key(by_hash(self.preimages@), payment_hash@);
                    lemma_map_of_contains(by_hash(self.preimages@), payment_hash@);
                }
                None
            },
        }
    }
}

/// In an empty wallet every index denotes the empty map and the channel
/// sum is zero; such a wallet is well-formed whenever its key manager is.
proof fn lemma_empty_wallet(w: LightningWallet)
    requires
        w.key_manager.wf(),
        w.channel_balances@.len() == 0,
        w.invoices@.len() == 0,
        w.payments@.len() == 0,
        w.preimages@.len() == 0,
    ensures
        w.wf(),
        w.channels() == Map::<ChannelId, u64>::empty(),
        w.channels_sum() == 0,
        w.invoices() == Map::<Seq<u8>, Invoice>::empty(),
        w.payments() == Map::<Seq<u8>, Payment>::empty(),
        w.preimages() == Map::<Seq<u8>, PaymentPreimage>::empty(),
        w.invoice_list() == Seq::<Invoice>::empty(),
        w.payment_list() == Seq::<Payment>::empty(),
{
    assert(w.invoice_list() =~= Seq::<Invoice>::empty());
    assert(w.payment_list() =~= Seq::<Payment>::empty());
    assert(by_hash(w.invoices@) =~= Seq::<(Seq<u8>, Invoice)>::empty());
    assert(by_hash(w.payments@) =~= Seq::<(Seq<u8>, Payment)>::empty());
    assert(by_hash(w.preimages@) =~= Seq::<(Seq<u8>, PaymentPreimage)>::empty());
}

/// Commitment coherence: for every registered invoice the wallet stores a
/// preimage whose digest is exactly that invoice's payment hash.
pub proof fn lemma_invoice_commitment(w: LightningWallet, h: Seq<u8>)
    requires
        w.wf(),
        w.invoices().contains_key(h),
    ensures
        w.preimages().contains_key(h),
        digest_of(w.preimages()[h]@) == h,
        w.invoices()[h].payment_hash@ == h,
{
    lemma_by_hash_index(w.invoices@);
    lemma_map_of_contains(by_hash(w.invoices@), h);
    let i = choose|i: int| 0 <= i < by_hash(w.invoices@).len() && by_hash(w.invoices@)[i].0 == h;
    lemma_map_of_index(by_hash(w.invoices@), i);
    assert(has_key(by_hash(w.preimages@), h));
    lemma_by_hash_index(w.preimages@);
    let j = choose|j: int| 0 <= j < by_hash(w.preimages@).len() && by_hash(w.preimages@)[j].0 == h;
    lemma_map_of_index(by_hash(w.preimages@), j);
    lemma_map_of_contains(by_hash(w.preimages@), h);
}

} // verus!
