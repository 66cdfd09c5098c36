//! Invoices: an amount, a description and an expiry bound to a fresh
//! payment commitment. An invoice is immutable once created.

use vstd::prelude::*;

use crate::crypto::PaymentHash;
use crate::errors::InvoiceError;

verus! {

/// Two invoices carry the same data (their byte and character contents
/// agree field by field).
pub open spec fn inv_equiv(a: Invoice, b: Invoice) -> bool {
    &&& a.payment_hash@ == b.payment_hash@
    &&& a.amount_msat == b.amount_msat
    &&& a.description@ == b.description@
    &&& a.creation_time == b.creation_time
    &&& a.expiry_seconds == b.expiry_seconds
}

/// An invoice for receiving a payment.
///
/// Invariant: the amount and the expiry are positive, and the payment hash
/// is a 32-byte digest. The core never expires invoices by itself: a
/// consumer compares `creation_time + expiry_seconds` against the current
/// time before accepting payment.
#[derive(Debug)]
pub struct Invoice {
    /// The 32-byte commitment identifying this invoice.
    pub payment_hash: PaymentHash,
    /// The amount in millisatoshis; always positive.
    pub amount_msat: u64,
    /// A free-form description.
    pub description: String,
    /// Unix time (seconds) at which the invoice was created.
    pub creation_time: u64,
    /// Seconds after `creation_time` at which the invoice lapses; positive.
    pub expiry_seconds: u32,
}

impl Invoice {
    /// The invoice invariant: positive amount, positive expiry, 32-byte hash.
    pub open spec fn wf(self) -> bool {
        &&& self.amount_msat > 0
        &&& self.expiry_seconds > 0
        &&& self.payment_hash.wf()
    }

    /// Builds an invoice, rejecting a zero amount or a zero expiry.
    pub fn new(
        payment_hash: PaymentHash,
        amount_msat: u64,
        description: String,
        expiry_seconds: u32,
        creation_time: u64,
    ) -> (r: Result<Invoice, InvoiceError>)
        requires
            payment_hash.wf(),
        ensures
            r is Ok <==> amount_msat > 0 && expiry_seconds > 0,
            amount_msat == 0 ==> r == Result::<Invoice, InvoiceError>::Err(
                InvoiceError::ZeroAmount,
            ),
            amount_msat > 0 && expiry_seconds == 0 ==> r == Result::<Invoice, InvoiceError>::Err(
                InvoiceError::ZeroExpiry,
            ),
            r matches Ok(inv) ==> {
                &&& inv.wf()
                &&& inv.payment_hash@ == payment_hash@
                &&& inv.amount_msat == amount_msat
                &&& inv.description@ == description@
                &&& inv.creation_time == creation_time
                &&& inv.expiry_seconds == expiry_seconds
            },
    {
        if amount_msat == 0 {
            Err(InvoiceError::ZeroAmount)
        } else if expiry_seconds == 0 {
            Err(InvoiceError::ZeroExpiry)
        } else {
            Ok(
                Invoice {
                    payment_hash,
                    amount_msat,
                    description,
                    creation_time,
                    expiry_seconds,
                },
            )
        }
    }

    /// An owned copy of this invoice.
    pub fn duplicate(&self) -> (r: Self)
        ensures
            r.payment_hash@ == self.payment_hash@,
            r.amount_msat == self.amount_msat,
            r.description@ == self.description@,
            r.creation_time == self.creation_time,
            r.expiry_seconds == self.expiry_seconds,
            self.wf() ==> r.wf(),
    {
        Invoice {
            payment_hash: self.payment_hash.duplicate(),
            amount_msat: self.amount_msat,
            description: self.description.clone(),
            creation_time: self.creation_time,
            expiry_seconds: self.expiry_seconds,
        }
    }

    /// Whether the invoice has lapsed at `current_time` (Unix seconds).
    pub fn is_expired(&self, current_time: u64) -> (r: bool)
        ensures
            r == (self.creation_time + self.expiry_seconds < current_time),
    {
        if current_time <= self.creation_time {
            false
        } else {
            current_time - self.creation_time > self.expiry_seconds as u64
        }
    }
}

} // verus!
