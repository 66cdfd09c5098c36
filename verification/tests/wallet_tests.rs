use lnwallet::{
    InvoiceError, KeyManager, LightningWallet, PaymentHash, PaymentPreimage, PaymentStatus,
    QuantumScheme, WalletError,
};
use lnwallet::WalletConversion;
use sha2::{Digest, Sha256};

fn digest(parts: &[&[u8]]) -> Vec<u8> {
    let mut hasher = Sha256::new();
    for p in parts {
        hasher.update(p);
    }
    hasher.finalize().to_vec()
}

#[test]
fn node_identity_is_deterministic() {
    let seed = vec![7u8; 32];
    let a = KeyManager::new(seed.clone(), false, None).unwrap();
    let b = KeyManager::new(seed, false, None).unwrap();
    assert_eq!(a.node_private_key(), b.node_private_key());
}

#[test]
fn node_identity_matches_known_digest() {
    let seed = vec![0u8; 32];
    let km = KeyManager::new(seed.clone(), false, None).unwrap();
    let expected = digest(&[&seed, b"node_key"]);
    assert_eq!(km.node_private_key(), expected.as_slice());
    // the digest really transformed its input
    assert_ne!(km.node_private_key(), seed.as_slice());
}

#[test]
fn classical_derivation_matches_digest_and_memoizes() {
    let seed = vec![0u8; 32];
    let mut km = KeyManager::new(seed.clone(), false, None).unwrap();
    let first = km.derive_key("channel_1").unwrap();
    let expected = digest(&[&seed, b"channel_1"]);
    assert_eq!(first, expected);
    let second = km.derive_key("channel_1").unwrap();
    assert_eq!(first, second);
    let other = km.derive_key("channel_2").unwrap();
    assert_ne!(first, other);
}

#[test]
fn quantum_derivation_memoizes() {
    let seed = vec![3u8; 32];
    let mut km = KeyManager::new(seed, true, Some(QuantumScheme::Dilithium)).unwrap();
    assert!(km.get_quantum_keypair("routing").is_none());
    let first = km.derive_key("routing").unwrap();
    let second = km.derive_key("routing").unwrap();
    assert_eq!(first, second);
    let pair = km.get_quantum_keypair("routing").unwrap();
    assert_eq!(pair.private_key, first);
    assert_eq!(pair.scheme, QuantumScheme::Dilithium);
    assert!(km.get_quantum_keypair("unseen").is_none());
}

#[test]
fn quantum_without_scheme_is_a_key_error() {
    let err = KeyManager::new(vec![1u8; 32], true, None).unwrap_err();
    assert!(matches!(err, WalletError::KeyError(_)));
    let err = LightningWallet::new(vec![1u8; 32], true, None).unwrap_err();
    assert!(matches!(err, WalletError::KeyError(_)));
}

#[test]
fn classical_scheme_has_no_quantum_keypairs() {
    let mut km = KeyManager::new(vec![2u8; 32], false, None).unwrap();
    km.derive_key("funding").unwrap();
    assert!(km.get_quantum_keypair("funding").is_none());
}

#[test]
fn commitment_is_32_bytes_and_pure() {
    let secret = vec![9u8; 32];
    let p1 = PaymentPreimage::new(secret.clone());
    let p2 = PaymentPreimage::new(secret.clone());
    let h1 = p1.hash();
    let h2 = p2.hash();
    assert_eq!(h1.bytes().len(), 32);
    assert_eq!(h1, h2);
    assert_eq!(h1.bytes().as_slice(), digest(&[&secret]).as_slice());
    // the commitment is not the secret itself
    assert_ne!(h1.bytes().as_slice(), secret.as_slice());
}

#[test]
fn create_invoice_rejects_zero_amount() {
    let mut wallet = LightningWallet::new_test_wallet(1000);
    let err = wallet.create_invoice(0, "nothing", 3600, 100).unwrap_err();
    assert!(matches!(err, WalletError::InvoiceError(InvoiceError::ZeroAmount)));
    assert!(wallet.get_invoices().is_empty());
}

#[test]
fn create_invoice_rejects_zero_expiry() {
    let mut wallet = LightningWallet::new_test_wallet(1000);
    let err = wallet.create_invoice(5000, "nothing", 0, 100).unwrap_err();
    assert!(matches!(err, WalletError::InvoiceError(InvoiceError::ZeroExpiry)));
    assert!(wallet.get_invoices().is_empty());
}

#[test]
fn create_invoice_registers_invoice_and_preimage() {
    let mut wallet = LightningWallet::new_test_wallet(1000);
    let invoice = wallet.create_invoice(25_000, "coffee", 3600, 500).unwrap();
    assert_eq!(invoice.amount_msat, 25_000);
    assert_eq!(invoice.description, "coffee");
    assert_eq!(invoice.expiry_seconds, 3600);
    assert_eq!(invoice.creation_time, 500);

    let stored = wallet.get_invoice(&invoice.payment_hash).unwrap();
    assert_eq!(stored.amount_msat, 25_000);
    assert_eq!(stored.description, "coffee");
    assert!(stored.payment_hash.matches_hash(&invoice.payment_hash));

    // the stored preimage hashes back to the payment hash
    let preimage = wallet.get_preimage(&invoice.payment_hash).unwrap();
    assert_eq!(
        digest(&[preimage.bytes().as_slice()]).as_slice(),
        invoice.payment_hash.bytes().as_slice()
    );
    assert_eq!(wallet.get_invoices().len(), 1);
}

#[test]
fn pay_invoice_with_insufficient_funds_changes_nothing() {
    let mut payee = LightningWallet::new_test_wallet(0);
    let invoice = payee.create_invoice(1000, "toll", 3600, 1).unwrap();
    let preimage = payee.get_preimage(&invoice.payment_hash).unwrap();

    let mut payer = LightningWallet::new_test_wallet(0);
    let err = payer.pay_invoice(&invoice, &preimage, 2).unwrap_err();
    assert!(matches!(err, WalletError::InsufficientFunds(_)));
    assert_eq!(payer.get_on_chain_balance(), 0);
    assert!(payer.get_payments().is_empty());
    assert!(payer.get_payment(&invoice.payment_hash).is_none());
    assert!(!payer.is_paid(&invoice.payment_hash));
}

#[test]
fn pay_invoice_rejects_a_preimage_that_does_not_match() {
    let mut payee = LightningWallet::new_test_wallet(0);
    let invoice = payee.create_invoice(1000, "toll", 3600, 1).unwrap();

    let mut payer = LightningWallet::new_test_wallet(10_000);
    let bogus = PaymentPreimage::new(vec![0x55u8; 32]);
    let err = payer.pay_invoice(&invoice, &bogus, 2).unwrap_err();
    assert!(matches!(err, WalletError::PaymentError(_)));
    assert_eq!(payer.get_on_chain_balance(), 10_000);
    assert!(payer.get_payments().is_empty());
    assert!(payer.get_preimage(&invoice.payment_hash).is_none());
}

#[test]
fn pay_invoice_debits_exactly_and_records_success() {
    let mut payee = LightningWallet::new_test_wallet(0);
    let invoice = payee.create_invoice(50_000_000, "rent", 3600, 10).unwrap();

    let settlement = payee.get_preimage(&invoice.payment_hash).unwrap();
    let mut payer = LightningWallet::new_test_wallet(100_000);
    let preimage = payer.pay_invoice(&invoice, &settlement, 11).unwrap();
    assert_eq!(preimage, settlement);
    assert_eq!(preimage.bytes().len(), 32);
    assert_eq!(payer.get_on_chain_balance(), 50_000);
    // the settlement preimage is now indexed by hash in the payer's store
    let indexed = payer.get_preimage(&invoice.payment_hash).unwrap();
    assert_eq!(indexed, settlement);

    let records = payer.get_payments();
    assert_eq!(records.len(), 1);
    assert!(matches!(records[0].status, PaymentStatus::Succeeded));
    assert_eq!(records[0].amount_msat, 50_000_000);
    assert_eq!(records[0].description, "rent");
    assert_eq!(records[0].creation_time, 11);
    assert!(records[0].hash.matches_hash(&invoice.payment_hash));

    let record = payer.get_payment(&invoice.payment_hash).unwrap();
    assert_eq!(record.preimage.as_ref().unwrap(), &preimage);
    assert!(payer.is_paid(&invoice.payment_hash));
}

#[test]
fn paying_twice_is_refused_and_keeps_the_first_record() {
    let mut payee = LightningWallet::new_test_wallet(0);
    let invoice = payee.create_invoice(2_000_000, "twice", 3600, 3).unwrap();
    let settlement = payee.get_preimage(&invoice.payment_hash).unwrap();

    let mut payer = LightningWallet::new_test_wallet(10_000);
    payer.pay_invoice(&invoice, &settlement, 4).unwrap();
    let err = payer.pay_invoice(&invoice, &settlement, 5).unwrap_err();
    assert!(matches!(err, WalletError::PaymentError(_)));
    // the ledger is append-only: the first record stands, funds moved once
    assert_eq!(payer.get_on_chain_balance(), 10_000 - 2_000);
    assert_eq!(payer.get_payments().len(), 1);
    assert_eq!(payer.get_payment(&invoice.payment_hash).unwrap().creation_time, 4);
}

#[test]
fn payment_lifecycle_drives_the_record_through_its_states() {
    let mut payee = LightningWallet::new_test_wallet(0);
    let invoice = payee.create_invoice(3_000_000, "hop", 3600, 20).unwrap();
    let settlement = payee.get_preimage(&invoice.payment_hash).unwrap();

    let mut payer = LightningWallet::new_test_wallet(50_000);
    payer.begin_payment(&invoice, 21).unwrap();
    assert_eq!(payer.get_on_chain_balance(), 50_000 - 3_000);
    let rec = payer.get_payment(&invoice.payment_hash).unwrap();
    assert!(matches!(rec.status, PaymentStatus::Pending));
    assert!(rec.preimage.is_none());
    assert!(!payer.is_paid(&invoice.payment_hash));

    payer.mark_payment_in_progress(&invoice.payment_hash).unwrap();
    let rec = payer.get_payment(&invoice.payment_hash).unwrap();
    assert!(matches!(rec.status, PaymentStatus::InProgress));

    payer.settle_payment(&invoice.payment_hash, &settlement).unwrap();
    assert!(payer.is_paid(&invoice.payment_hash));
    let rec = payer.get_payment(&invoice.payment_hash).unwrap();
    assert!(matches!(rec.status, PaymentStatus::Succeeded));
    assert_eq!(rec.preimage.unwrap(), settlement);
    assert_eq!(payer.get_preimage(&invoice.payment_hash).unwrap(), settlement);

    // terminal states are terminal
    let err = payer.settle_payment(&invoice.payment_hash, &settlement).unwrap_err();
    assert!(matches!(err, WalletError::PaymentError(_)));
    let err = payer.fail_payment(&invoice.payment_hash, "late").unwrap_err();
    assert!(matches!(err, WalletError::PaymentError(_)));
}

#[test]
fn failed_payment_keeps_an_audit_record() {
    let mut payee = LightningWallet::new_test_wallet(0);
    let invoice = payee.create_invoice(4_000_000, "detour", 3600, 30).unwrap();
    let settlement = payee.get_preimage(&invoice.payment_hash).unwrap();

    let mut payer = LightningWallet::new_test_wallet(50_000);
    payer.begin_payment(&invoice, 31).unwrap();
    payer.fail_payment(&invoice.payment_hash, "route exhausted").unwrap();
    assert!(!payer.is_paid(&invoice.payment_hash));
    let rec = payer.get_payment(&invoice.payment_hash).unwrap();
    match rec.status {
        PaymentStatus::Failed(why) => assert_eq!(why, "route exhausted"),
        other => panic!("expected a failed record, found {:?}", other),
    }
    // settlement evidence arriving after the failure is refused
    let err = payer.settle_payment(&invoice.payment_hash, &settlement).unwrap_err();
    assert!(matches!(err, WalletError::PaymentError(_)));
    // a pending record for the hash still blocks a fresh begin_payment
    let err = payer.begin_payment(&invoice, 32).unwrap_err();
    assert!(matches!(err, WalletError::PaymentError(_)));
}

#[test]
fn begin_payment_checks_funds_first() {
    let mut payee = LightningWallet::new_test_wallet(0);
    let invoice = payee.create_invoice(9_000_000, "big", 3600, 40).unwrap();

    let mut payer = LightningWallet::new_test_wallet(1_000);
    let err = payer.begin_payment(&invoice, 41).unwrap_err();
    assert!(matches!(err, WalletError::InsufficientFunds(_)));
    assert_eq!(payer.get_on_chain_balance(), 1_000);
    assert!(payer.get_payments().is_empty());
}

#[test]
fn debit_refuses_overdraft_and_decrements() {
    let mut wallet = LightningWallet::new_test_wallet(100);
    let err = wallet.debit(101).unwrap_err();
    assert!(matches!(err, WalletError::InsufficientFunds(_)));
    assert_eq!(wallet.get_on_chain_balance(), 100);
    wallet.debit(40).unwrap();
    assert_eq!(wallet.get_on_chain_balance(), 60);
    wallet.debit(60).unwrap();
    assert_eq!(wallet.get_on_chain_balance(), 0);
}

#[test]
fn balance_is_on_chain_plus_channel_sum() {
    let mut wallet = LightningWallet::new_test_wallet(0);
    assert_eq!(wallet.get_balance(), 0);
    wallet.update_on_chain_balance(100);
    wallet.update_channel_balance(1, 50);
    wallet.update_channel_balance(2, 70);
    assert_eq!(wallet.get_balance(), 220);
    // upsert replaces, it does not add a second entry
    wallet.update_channel_balance(1, 60);
    assert_eq!(wallet.get_balance(), 230);
    assert_eq!(wallet.get_on_chain_balance(), 100);
}

#[test]
fn is_paid_only_for_succeeded_records() {
    let mut wallet = LightningWallet::new_test_wallet(5_000);
    let invoice = wallet.create_invoice(1_000_000, "unpaid", 3600, 7).unwrap();
    // registered as payee, but never paid: no payment record exists
    assert!(!wallet.is_paid(&invoice.payment_hash));
    let unknown = PaymentHash::new(vec![0xabu8; 32]);
    assert!(!wallet.is_paid(&unknown));

    let settlement = wallet.get_preimage(&invoice.payment_hash).unwrap();
    wallet.pay_invoice(&invoice, &settlement, 8).unwrap();
    assert!(wallet.is_paid(&invoice.payment_hash));
}

#[test]
fn invoice_expiry_is_checked_against_supplied_time() {
    let mut wallet = LightningWallet::new_test_wallet(0);
    let invoice = wallet.create_invoice(1000, "soon", 60, 1_000).unwrap();
    assert!(!invoice.is_expired(1_000));
    assert!(!invoice.is_expired(1_060));
    assert!(invoice.is_expired(1_061));
    assert!(!invoice.is_expired(0));
}

struct FixedSource {
    seed: Vec<u8>,
}

impl WalletConversion for FixedSource {
    fn get_seed(&self) -> Result<Vec<u8>, WalletError> {
        Ok(self.seed.clone())
    }

    fn uses_quantum_keys(&self) -> bool {
        false
    }

    fn get_quantum_scheme(&self) -> Option<QuantumScheme> {
        None
    }
}

struct FailingSource;

impl WalletConversion for FailingSource {
    fn get_seed(&self) -> Result<Vec<u8>, WalletError> {
        Err(WalletError::DatabaseError("seed unavailable".to_string()))
    }

    fn uses_quantum_keys(&self) -> bool {
        false
    }

    fn get_quantum_scheme(&self) -> Option<QuantumScheme> {
        None
    }
}

#[test]
fn from_node_wallet_bootstraps_from_capability() {
    let source = FixedSource { seed: vec![5u8; 32] };
    let wallet = LightningWallet::from_node_wallet(&source).unwrap();
    assert_eq!(wallet.get_balance(), 0);
    assert!(wallet.get_invoices().is_empty());
    assert!(wallet.get_payments().is_empty());
}

#[test]
fn from_node_wallet_propagates_source_errors() {
    let err = LightningWallet::from_node_wallet(&FailingSource).unwrap_err();
    assert!(matches!(err, WalletError::DatabaseError(_)));
}

#[test]
fn test_wallet_starts_with_requested_balance() {
    let wallet = LightningWallet::new_test_wallet(42);
    assert_eq!(wallet.get_on_chain_balance(), 42);
    assert_eq!(wallet.get_balance(), 42);
}
