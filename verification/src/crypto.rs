//! Payment-commitment primitives: 32-byte secrets, their single-round
//! digests, and the byte-level helpers the rest of the core builds on.

use sha2::{Digest, Sha256};
use rand::Rng;
use vstd::prelude::*;
use vstd::slice::slice_to_vec;

verus! {

/// The digest that the commitment scheme assigns to a byte sequence.
///
/// The function itself is left unspecified: it stands for the SHA-256
/// compression performed by the `sha2` crate, and everything the core
/// proves about commitments goes through this name.
pub uninterp spec fn digest_of(data: Seq<u8>) -> Seq<u8>;

/// Relies on `sha2::Sha256` (`Digest::new`/`update`/`finalize`): the result
/// is the SHA-256 digest of the input, a 32-byte value that depends on the
/// input bytes alone.
#[verifier::external_body]
pub(crate) fn sha256(data: &Vec<u8>) -> (r: Vec<u8>)
    ensures
        r@ == digest_of(data@),
        r@.len() == 32,
{
    let mut hasher = Sha256::new();
    hasher.update(data.as_slice());
    hasher.finalize().to_vec()
}

/// Relies on `rand::thread_rng` and `rand::Rng::fill`: fills a fresh buffer
/// with 32 random bytes. Nothing is promised of the values themselves.
#[verifier::external_body]
pub(crate) fn random_bytes32() -> (r: Vec<u8>)
    ensures
        r@.len() == 32,
{
    let mut bytes = vec![0u8; 32];
    rand::thread_rng().fill(bytes.as_mut_slice());
    bytes
}

/// Copies a byte vector.
pub(crate) fn copy_bytes(v: &Vec<u8>) -> (r: Vec<u8>)
    ensures
        r@ == v@,
{
    slice_to_vec(v.as_slice())
}

/// Compares two byte vectors for equality of contents.
pub(crate) fn bytes_eq(a: &Vec<u8>, b: &Vec<u8>) -> (r: bool)
    ensures
        r == (a@ == b@),
{
    if a.len() != b.len() {
        return false;
    }
    let mut i: usize = 0;
    while i < a.len()
        invariant
            a@.len() == b@.len(),
            i <= a@.len(),
            forall|j: int| 0 <= j < i ==> a@[j] == b@[j],
        decreases a@.len() - i,
    {
        if a[i] != b[i] {
            return false;
        }
        i += 1;
    }
    proof {
        assert(a@ =~= b@);
    }
    true
}

/// Appends the contents of `src` to `dst`.
pub(crate) fn append_bytes(dst: &mut Vec<u8>, src: &Vec<u8>)
    ensures
        final(dst)@ == old(dst)@ + src@,
{
    let mut i: usize = 0;
    while i < src.len()
        invariant
            i <= src@.len(),
            dst@ == old(dst)@ + src@.take(i as int),
        decreases src@.len() - i,
    {
        dst.push(src[i]);
        proof {
            assert(old(dst)@ + src@.take(i + 1 as int) =~= (old(dst)@ + src@.take(i as int)).push(
                src@[i as int],
            ));
        }
        i += 1;
    }
    proof {
        assert(src@.take(src@.len() as int) =~= src@);
    }
}

/// A payment hash: the 32-byte digest that identifies an invoice or payment
/// and commits to its settlement secret.
#[derive(Debug, PartialEq, Eq)]
pub struct PaymentHash {
    bytes: Vec<u8>,
}

impl View for PaymentHash {
    type V = Seq<u8>;

    closed spec fn view(&self) -> Seq<u8> {
        self.bytes@
    }
}

impl PaymentHash {
    /// A payment hash is exactly 32 bytes long.
    pub open spec fn wf(self) -> bool {
        self@.len() == 32
    }

    /// Wraps 32 bytes as a payment hash.
    pub fn new(bytes: Vec<u8>) -> (r: Self)
        requires
            bytes@.len() == 32,
        ensures
            r@ == bytes@,
    {
        PaymentHash { bytes }
    }

    /// The raw digest bytes.
    pub fn bytes(&self) -> (r: &Vec<u8>)
        ensures
            r@ == self@,
    {
        &self.bytes
    }

    /// An owned copy of this hash.
    pub fn duplicate(&self) -> (r: Self)
        ensures
            r@ == self@,
    {
        PaymentHash { bytes: copy_bytes(&self.bytes) }
    }

    /// Whether this hash holds the same digest as `other`.
    pub fn matches_hash(&self, other: &PaymentHash) -> (r: bool)
        ensures
            r == (self@ == other@),
    {
        bytes_eq(&self.bytes, &other.bytes)
    }
}

/// A payment preimage: the 32-byte secret whose digest is a payment hash;
/// disclosing it proves settlement.
#[derive(Debug, PartialEq, Eq)]
pub struct PaymentPreimage {
    bytes: Vec<u8>,
}

impl View for PaymentPreimage {
    type V = Seq<u8>;

    closed spec fn view(&self) -> Seq<u8> {
        self.bytes@
    }
}

impl PaymentPreimage {
    /// A payment preimage is exactly 32 bytes long.
    pub open spec fn wf(self) -> bool {
        self@.len() == 32
    }

    /// Wraps 32 bytes as a payment preimage.
    pub fn new(bytes: Vec<u8>) -> (r: Self)
        requires
            bytes@.len() == 32,
        ensures
            r@ == bytes@,
    {
        PaymentPreimage { bytes }
    }

    /// Generates a fresh, uniformly random 32-byte preimage.
    pub fn generate() -> (r: Self)
        ensures
            r.wf(),
    {
        PaymentPreimage { bytes: random_bytes32() }
    }

    /// The raw secret bytes.
    pub fn bytes(&self) -> (r: &Vec<u8>)
        ensures
            r@ == self@,
    {
        &self.bytes
    }

    /// An owned copy of this preimage.
    pub fn duplicate(&self) -> (r: Self)
        ensures
            r@ == self@,
    {
        PaymentPreimage { bytes: copy_bytes(&self.bytes) }
    }

    /// The commitment to this preimage: its single-round digest.
    pub fn hash(&self) -> (r: PaymentHash)
        ensures
            r@ == digest_of(self@),
            r.wf(),
    {
        PaymentHash::new(sha256(&self.bytes))
    }
}

/// The commitment is a pure function of the preimage: equal secrets commit
/// to equal digests.
pub proof fn lemma_commitment_is_pure(a: PaymentPreimage, b: PaymentPreimage)
    requires
        a@ == b@,
    ensures
        digest_of(a@) == digest_of(b@),
{
}

} // verus!
