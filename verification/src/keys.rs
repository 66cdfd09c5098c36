//! Deterministic and post-quantum key derivation.
//!
//! A [`KeyManager`] owns the master seed, the node identity key, and a
//! per-purpose key cache. Classical derivation hashes the seed with the
//! purpose label and is deterministic; post-quantum derivation generates a
//! key pair on first use and memoizes it, since regeneration would silently
//! re-key the wallet.

use vstd::prelude::*;
use vstd::string::StrSliceExecFns;
use vstd::string::StringExecFns;
use vstd::string::StringSliceAdditionalSpecFns;
use vstd::utf8::encode_utf8;

use crate::assoc::{
    keys_unique, lemma_map_of_contains, lemma_map_of_index, lemma_map_of_push,
    lemma_not_has_key, lemma_push_unique, map_of,
};
use crate::crypto::{append_bytes, copy_bytes, digest_of, random_bytes32, sha256};
use crate::errors::WalletError;

verus! {

/// The label mixed into the seed to obtain the node identity key.
pub open spec fn node_key_label() -> Seq<u8> {
    "node_key".spec_bytes()
}

/// A post-quantum key-generation scheme tag.
#[derive(Debug, Clone, Copy, PartialEq, Eq, Structural)]
pub enum QuantumScheme {
    /// A lattice-based signature scheme.
    Dilithium,
    /// A compact lattice-based signature scheme.
    Falcon,
    /// A hash-based signature scheme.
    SphincsPlus,
}

/// A generated post-quantum key pair for one purpose.
#[derive(Debug)]
pub struct QuantumKeyPair {
    /// The scheme the pair was generated under.
    pub scheme: QuantumScheme,
    /// The public half.
    pub public_key: Vec<u8>,
    /// The private half.
    pub private_key: Vec<u8>,
}

impl QuantumKeyPair {
    /// Both halves are 32 bytes long.
    pub open spec fn wf(self) -> bool {
        self.public_key@.len() == 32 && self.private_key@.len() == 32
    }

    /// Generates a fresh key pair under `scheme`.
    ///
    /// Generation draws fresh randomness, so nothing relates the result to
    /// earlier calls; callers that need stability must memoize.
    pub fn generate(scheme: QuantumScheme) -> (r: Result<QuantumKeyPair, WalletError>)
        ensures
            r matches Ok(kp) && kp.scheme == scheme && kp.wf(),
    {
        Ok(QuantumKeyPair { scheme, public_key: random_bytes32(), private_key: random_bytes32() })
    }

    /// An owned copy of this key pair.
    pub fn duplicate(&self) -> (r: Self)
        ensures
            r.scheme == self.scheme,
            r.public_key@ == self.public_key@,
            r.private_key@ == self.private_key@,
    {
        QuantumKeyPair {
            scheme: self.scheme,
            public_key: copy_bytes(&self.public_key),
            private_key: copy_bytes(&self.private_key),
        }
    }
}

/// The key derivation scheme a wallet is constructed with; exactly one
/// variant is active for the wallet's lifetime.
#[derive(Debug)]
pub enum KeyDerivation {
    /// Classical derivation along a fixed path.
    Bip32(String),
    /// Post-quantum derivation: a scheme tag plus the seed it works from.
    Quantum {
        /// The active scheme tag.
        scheme: QuantumScheme,
        /// The seed the scheme derives from.
        seed: Vec<u8>,
    },
}

/// The label/value pairs of a cache, as the sequences they denote.
pub open spec fn by_name_bytes(s: Seq<(String, Vec<u8>)>) -> Seq<(Seq<char>, Seq<u8>)>
    decreases s.len(),
{
    if s.len() == 0 {
        Seq::empty()
    } else {
        by_name_bytes(s.drop_last()).push((s.last().0@, s.last().1@))
    }
}

/// Pointwise characterization of [`by_name_bytes`].
pub proof fn lemma_by_name_bytes_index(s: Seq<(String, Vec<u8>)>)
    ensures
        by_name_bytes(s).len() == s.len(),
        forall|i: int|
            0 <= i < s.len() ==> #[trigger] by_name_bytes(s)[i] == (s[i].0@, s[i].1@),
    decreases s.len(),
{
    if s.len() > 0 {
        lemma_by_name_bytes_index(s.drop_last());
    }
}

/// The label/pair entries of a quantum store, keyed by label view.
pub open spec fn by_name_pairs(s: Seq<(String, QuantumKeyPair)>) -> Seq<
    (Seq<char>, QuantumKeyPair),
>
    decreases s.len(),
{
    if s.len() == 0 {
        Seq::empty()
    } else {
        by_name_pairs(s.drop_last()).push((s.last().0@, s.last().1))
    }
}

/// Pointwise characterization of [`by_name_pairs`].
pub proof fn lemma_by_name_pairs_index(s: Seq<(String, QuantumKeyPair)>)
    ensures
        by_name_pairs(s).len() == s.len(),
        forall|i: int|
            0 <= i < s.len() ==> #[trigger] by_name_pairs(s)[i] == (s[i].0@, s[i].1),
    decreases s.len(),
{
    if s.len() > 0 {
        lemma_by_name_pairs_index(s.drop_last());
    }
}

/// Finds the index of the entry labelled `name`, if any.
fn nfind<V>(list: &Vec<(String, V)>, name: &String) -> (r: Option<usize>)
    ensures
        match r {
            Some(i) => 0 <= (i as int) && (i as int) < list@.len() && list@[i as int].0@ == name@,
            None => forall|j: int| 0 <= j < list@.len() ==> (#[trigger] list@[j]).0@ != name@,
        },
{
    let mut i: usize = 0;
    while i < list.len()
        invariant
            i <= list@.len(),
            forall|j: int| 0 <= j < i ==> (#[trigger] list@[j]).0@ != name@,
        decreases list@.len() - i,
    {
        if list[i].0 == *name {
            return Some(i);
        }
        i += 1;
    }
    None
}

/// The key manager: master seed, derivation scheme, node identity key, and
/// the per-purpose key caches. The seed never leaves the manager.
#[derive(Debug)]
pub struct KeyManager {
    master_seed: Vec<u8>,
    derivation_scheme: KeyDerivation,
    node_private_key: Vec<u8>,
    cached_keys: Vec<(String, Vec<u8>)>,
    quantum_keys: Option<Vec<(String, QuantumKeyPair)>>,
}

impl KeyManager {
    /// The master seed bytes.
    pub closed spec fn seed(self) -> Seq<u8> {
        self.master_seed@
    }

    /// The node identity key bytes.
    pub closed spec fn node_key(self) -> Seq<u8> {
        self.node_private_key@
    }

    /// Whether the post-quantum scheme is active.
    pub closed spec fn is_quantum(self) -> bool {
        self.derivation_scheme is Quantum
    }

    /// The active post-quantum scheme tag, when one is active.
    pub closed spec fn quantum_tag(self) -> QuantumScheme {
        match self.derivation_scheme {
            KeyDerivation::Quantum { scheme, .. } => scheme,
            KeyDerivation::Bip32(_) => vstd::pervasive::arbitrary(),
        }
    }

    /// The memoized classical keys, by purpose label.
    pub closed spec fn cache(self) -> Map<Seq<char>, Seq<u8>> {
        map_of(by_name_bytes(self.cached_keys@))
    }

    /// The memoized post-quantum key pairs, by purpose label.
    pub closed spec fn qmap(self) -> Map<Seq<char>, QuantumKeyPair> {
        match self.quantum_keys {
            Some(store) => map_of(by_name_pairs(store@)),
            None => Map::empty(),
        }
    }

    /// The key this manager has memoized for a purpose, if any.
    pub open spec fn key_for(self, p: Seq<char>) -> Option<Seq<u8>> {
        if self.is_quantum() {
            if self.qmap().contains_key(p) {
                Some(self.qmap()[p].private_key@)
            } else {
                None
            }
        } else {
            if self.cache().contains_key(p) {
                Some(self.cache()[p])
            } else {
                None
            }
        }
    }

    /// Structural invariant: the node key is the digest of the seed and its
    /// label; the quantum store exists exactly under the quantum scheme;
    /// cached classical keys are the digests they memoize; and each store
    /// has pairwise-distinct labels.
    pub closed spec fn wf(self) -> bool {
        &&& self.node_private_key@ == digest_of(self.master_seed@ + node_key_label())
        &&& self.node_private_key@.len() == 32
        &&& (self.derivation_scheme is Quantum <==> self.quantum_keys is Some)
        &&& match self.derivation_scheme {
            KeyDerivation::Quantum { scheme: _, seed } => seed@ == self.master_seed@,
            KeyDerivation::Bip32(_) => true,
        }
        &&& keys_unique(by_name_bytes(self.cached_keys@))
        &&& forall|i: int|
            0 <= i < self.cached_keys@.len() ==> (#[trigger] self.cached_keys@[i]).1@ == digest_of(
                self.master_seed@ + encode_utf8(self.cached_keys@[i].0@),
            ) && self.cached_keys@[i].1@.len() == 32
        &&& match self.quantum_keys {
            Some(store) => keys_unique(by_name_pairs(store@)) && forall|i: int|
                0 <= i < store@.len() ==> (#[trigger] store@[i]).1.wf() && store@[i].1.scheme
                    == self.quantum_tag(),
            None => true,
        }
    }

    /// Creates a key manager from a seed.
    ///
    /// The node identity key is derived once as the digest of the seed and
    /// its label, so it is identical across reconstructions from the same
    /// seed. Requesting quantum derivation without a scheme is refused.
    pub fn new(seed: Vec<u8>, use_quantum: bool, quantum_scheme: Option<QuantumScheme>) -> (r:
        Result<KeyManager, WalletError>)
        ensures
            r is Ok <==> !(use_quantum && quantum_scheme is None),
            r matches Err(e) ==> e is KeyError,
            r matches Ok(km) ==> {
                &&& km.wf()
                &&& km.seed() == seed@
                &&& km.node_key() == digest_of(seed@ + node_key_label())
                &&& km.node_key().len() == 32
                &&& km.is_quantum() == use_quantum
                &&& use_quantum ==> km.quantum_tag() == quantum_scheme->Some_0
                &&& km.cache() == Map::<Seq<char>, Seq<u8>>::empty()
                &&& km.qmap() == Map::<Seq<char>, QuantumKeyPair>::empty()
            },
    {
        let mut data = copy_bytes(&seed);
        let label = "node_key".as_bytes_vec();
        append_bytes(&mut data, &label);
        let node_private_key = sha256(&data);

        let derivation_scheme = if use_quantum {
            match quantum_scheme {
                Some(scheme) => KeyDerivation::Quantum { scheme, seed: copy_bytes(&seed) },
                None => {
                    return Err(
                        WalletError::KeyError(
                            String::from_str("quantum derivation requested but no scheme provided"),
                        ),
                    );
                },
            }
        } else {
            KeyDerivation::Bip32(String::from_str("m/84'/0'/0'/0/0"))
        };

        let quantum_keys: Option<Vec<(String, QuantumKeyPair)>> = if use_quantum {
            Some(Vec::new())
        } else {
            None
        };

        let km = KeyManager {
            master_seed: seed,
            derivation_scheme,
            node_private_key,
            cached_keys: Vec::new(),
            quantum_keys,
        };
        Ok(km)
    }

    /// The node identity key.
    pub fn node_private_key(&self) -> (r: &[u8])
        ensures
            r@ == self.node_key(),
    {
        self.node_private_key.as_slice()
    }

    /// Derives (or returns the memoized) key for a purpose.
    ///
    /// Under the classical scheme the key is the digest of the seed and the
    /// purpose label, so it is deterministic; under the post-quantum scheme
    /// a pair is generated on first use and the memoized private half is
    /// returned ever after. Either way, a second call for the same purpose
    /// returns byte-identical key material and leaves the manager unchanged.
    pub fn derive_key(&mut self, purpose: &str) -> (r: Result<Vec<u8>, WalletError>)
        requires
            old(self).wf(),
        ensures
            final(self).wf(),
            final(self).seed() == old(self).seed(),
            final(self).node_key() == old(self).node_key(),
            final(self).is_quantum() == old(self).is_quantum(),
            final(self).quantum_tag() == old(self).quantum_tag(),
            r is Ok,
            final(self).key_for(purpose@) == Some(r->Ok_0@),
            r->Ok_0@.len() == 32,
            !old(self).is_quantum() ==> {
                &&& r->Ok_0@ == digest_of(old(self).seed() + purpose.spec_bytes())
                &&& final(self).cache() == old(self).cache().insert(purpose@, r->Ok_0@)
                &&& final(self).qmap() == old(self).qmap()
            },
            old(self).is_quantum() ==> {
                &&& final(self).qmap() == old(self).qmap().insert(
                    purpose@,
                    final(self).qmap()[purpose@],
                )
                &&& final(self).cache() == old(self).cache()
            },
            old(self).key_for(purpose@) is Some ==> old(self).key_for(purpose@) == Some(r->Ok_0@)
                && *final(self) == *old(self),
    {
        let pname: String = String::from_str(purpose);
        let scheme_opt: Option<QuantumScheme> = match &self.derivation_scheme {
            KeyDerivation::Bip32(_) => None,
            KeyDerivation::Quantum { scheme, .. } => Some(*scheme),
        };
        match scheme_opt {
            None => {
                // classical: digest of seed and purpose, memoized
                match nfind(&self.cached_keys, &pname) {
                    Some(i) => {
                        let key = copy_bytes(&self.cached_keys[i].1);
                        proof {
                            lemma_by_name_bytes_index(self.cached_keys@);
                            lemma_map_of_index(by_name_bytes(self.cached_keys@), i as int);
                            assert(self.cache().insert(purpose@, key@) =~= self.cache());
                        }
                        Ok(key)
                    },
                    None => {
                        let mut data = copy_bytes(&self.master_seed);
                        let pbytes = purpose.as_bytes_vec();
                        append_bytes(&mut data, &pbytes);
                        let key = sha256(&data);
                        let stored = copy_bytes(&key);
                        proof {
                            lemma_by_name_bytes_index(self.cached_keys@);
                            lemma_not_has_key(by_name_bytes(self.cached_keys@), pname@);
                            lemma_push_unique(by_name_bytes(self.cached_keys@), pname@, stored@);
                            lemma_map_of_push(by_name_bytes(self.cached_keys@), pname@, stored@);
                            lemma_map_of_contains(by_name_bytes(self.cached_keys@), pname@);
                        }
                        let ghost pre = self.cached_keys@;
                        self.cached_keys.push((pname, stored));
                        proof {
                            assert(by_name_bytes(self.cached_keys@) =~= by_name_bytes(pre).push(
                                (purpose@, stored@),
                            )) by {
                                assert(self.cached_keys@.drop_last() =~= pre);
                            }
                            lemma_by_name_bytes_index(self.cached_keys@);
                            lemma_map_of_index(
                                by_name_bytes(self.cached_keys@),
                                self.cached_keys@.len() - 1,
                            );
                        }
                        Ok(key)
                    },
                }
            },
            Some(scheme) => {
                // post-quantum: memoized pair, generated on first use
                if let Some(store) = &mut self.quantum_keys {
                    match nfind(store, &pname) {
                        Some(i) => {
                            let key = copy_bytes(&store[i].1.private_key);
                            proof {
                                lemma_by_name_pairs_index(store@);
                                lemma_map_of_index(by_name_pairs(store@), i as int);
                                assert(old(self).qmap().insert(
                                    purpose@,
                                    old(self).qmap()[purpose@],
                                ) =~= old(self).qmap());
                            }
                            Ok(key)
                        },
                        None => {
                            let pair = match QuantumKeyPair::generate(scheme) {
                                Ok(p) => p,
                                Err(e) => {
                                    return Err(e);
                                },
                            };
                            let key = copy_bytes(&pair.private_key);
                            proof {
                                lemma_by_name_pairs_index(store@);
                                lemma_not_has_key(by_name_pairs(store@), pname@);
                                lemma_push_unique(by_name_pairs(store@), pname@, pair);
                                lemma_map_of_push(by_name_pairs(store@), pname@, pair);
                                lemma_map_of_contains(by_name_pairs(store@), pname@);
                            }
                            let ghost pre = store@;
                            store.push((pname, pair));
                            proof {
                                assert(by_name_pairs(store@) =~= by_name_pairs(pre).push(
                                    (purpose@, store@.last().1),
                                )) by {
                                    assert(store@.drop_last() =~= pre);
                                }
                                lemma_by_name_pairs_index(store@);
                                lemma_map_of_index(by_name_pairs(store@), store@.len() - 1);
                            }
                            Ok(key)
                        },
                    }
                } else {
                    Err(
                        WalletError::KeyError(
                            String::from_str("quantum keys not initialized"),
                        ),
                    )
                }
            },
        }
    }

    /// Looks up the memoized post-quantum key pair for a purpose.
    ///
    /// Returns nothing when the purpose was never derived or when the
    /// classical scheme is active.
    pub fn get_quantum_keypair(&self, purpose: &str) -> (r: Option<QuantumKeyPair>)
        requires
            self.wf(),
        ensures
            match r {
                Some(pair) => {
                    &&& self.qmap().contains_key(purpose@)
                    &&& pair.scheme == self.qmap()[purpose@].scheme
                    &&& pair.public_key@ == self.qmap()[purpose@].public_key@
                    &&& pair.private_key@ == self.qmap()[purpose@].private_key@
                },
                None => !self.qmap().contains_key(purpose@),
            },
    {
        let pname: String = String::from_str(purpose);
        match &self.quantum_keys {
            None => None,
            Some(store) => {
                match nfind(store, &pname) {
                    Some(i) => {
                        proof {
                            lemma_by_name_pairs_index(store@);
                            lemma_map_of_index(by_name_pairs(store@), i as int);
                        }
                        Some(store[i].1.duplicate())
                    },
                    None => {
                        proof {
                            lemma_by_name_pairs_index(store@);
                            lemma_not_has_key(by_name_pairs(store@), pname@);
                            lemma_map_of_contains(by_name_pairs(store@), pname@);
                        }
                        None
                    },
                }
            },
        }
    }
}

/// Determinism of the node identity: two well-formed managers built from
/// the same seed hold the same node identity key.
pub proof fn lemma_node_identity_deterministic(a: KeyManager, b: KeyManager)
    requires
        a.wf(),
        b.wf(),
        a.seed() == b.seed(),
    ensures
        a.node_key() == b.node_key(),
{
}

} // verus!
