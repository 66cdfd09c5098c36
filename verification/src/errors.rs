//! The error taxonomy of the wallet core.
//!
//! Every fallible operation returns one of these tagged errors; nothing in
//! the core aborts the process.

use vstd::prelude::*;

verus! {

/// Rejection reasons for invoice construction.
#[derive(Debug, Clone, Copy, PartialEq, Eq, Structural)]
pub enum InvoiceError {
    /// The requested amount was zero.
    ZeroAmount,
    /// The requested expiry was zero seconds.
    ZeroExpiry,
}

/// Errors returned by wallet operations.
///
/// `KeyError` is fatal only to wallet construction; `InsufficientFunds` and
/// `InvoiceError` are expected, recoverable conditions; the remaining
/// variants report a failing collaborator and are never retried here.
#[derive(Debug, Clone)]
pub enum WalletError {
    /// Key-management misconfiguration or derivation failure.
    KeyError(String),
    /// A payment was attempted beyond the available on-chain balance.
    InsufficientFunds(String),
    /// Invalid invoice parameters.
    InvoiceError(InvoiceError),
    /// Generic settlement failure.
    PaymentError(String),
    /// A balance update referenced an unknown or invalid channel.
    ChannelError(String),
    /// A persistence dependency failed; propagated unmodified.
    DatabaseError(String),
    /// Cryptographic key-pair generation failed.
    CryptoError(String),
}

} // verus!
