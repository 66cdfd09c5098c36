//! A custodial wallet core for a payment-channel network: deterministic and
//! post-quantum key derivation, hash/preimage payment commitments, invoice
//! issuance, outbound payment settlement, and a non-negative balance ledger.

pub mod assoc;
pub mod crypto;
pub mod errors;
pub mod invoice;
pub mod keys;
pub mod wallet;

pub use crypto::{PaymentHash, PaymentPreimage};
pub use errors::{InvoiceError, WalletError};
pub use invoice::Invoice;
pub use keys::{KeyDerivation, KeyManager, QuantumKeyPair, QuantumScheme};
pub use wallet::{ChannelId, LightningWallet, Payment, PaymentStatus, WalletConversion};
