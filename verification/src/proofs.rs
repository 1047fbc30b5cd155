//! Merkle proofs: the sibling-hash path produced for a key, and the
//! verifier that recomputes the root digest from a claimed key and value.

use vstd::prelude::*;
use crate::bit_at;
use crate::has_bit;
use crate::hasher::{blake2b_of, hash, hash_internal, hash_leaf, internal_digest, leaf_digest, zero32, Digest};

verus! {

/// What a proof claims: the key is present, a different leaf sits on its
/// path, or the path dead-ends in an Empty node.
#[derive(Debug, PartialEq, Eq, Structural, Clone, Copy)]
pub enum ProofType {
    Exists,
    Collision,
    Deadend,
}

/// A compact proof: the sibling digests met on the way down, and — by
/// type — the value found, or the colliding leaf's key and value digest.
pub struct Proof {
    pub proof_type: ProofType,
    pub node_hashes: Vec<Digest>,
    pub key: Option<Digest>,
    pub hash: Option<Digest>,
    pub value: Option<Vec<u8>>,
}

/// The byte views of a list of digests.
pub open spec fn digests_view(v: Seq<Digest>) -> Seq<Seq<u8>> {
    v.map_values(|d: Digest| d@)
}

/// Recompute a root digest from a sibling path: the first sibling sits at
/// `depth`, and at each level the key's bit decides whether the running
/// digest is the left or the right child.
pub open spec fn spec_fold(sibs: Seq<Seq<u8>>, depth: int, leaf: Seq<u8>, kb: Seq<u8>) -> Seq<u8>
    decreases sibs.len(),
{
    if sibs.len() == 0 {
        leaf
    } else {
        let below = spec_fold(sibs.skip(1), depth + 1, leaf, kb);
        if bit_at(kb, depth) {
            internal_digest(sibs[0], below)
        } else {
            internal_digest(below, sibs[0])
        }
    }
}

/// The digest a proof starts its fold from, by type: the zero digest for
/// a dead end, the colliding leaf's digest, or the leaf digest of the
/// queried key and the claimed value.
pub open spec fn proof_term_digest(p: Proof, kb: Seq<u8>) -> Seq<u8> {
    match p.proof_type {
        ProofType::Deadend => zero32(),
        ProofType::Collision => blake2b_of(
            seq![crate::LEAF_PREFIX] + p.key.unwrap()@ + p.hash.unwrap()@,
        ),
        ProofType::Exists => leaf_digest(kb, p.value.unwrap()@),
    }
}

/// Structural sanity of a proof, by type. A dead end is never sane for
/// verification: it claims nothing that could yield a value.
pub open spec fn spec_sane(p: Proof) -> bool {
    match p.proof_type {
        ProofType::Exists => p.key is None && p.hash is None && p.value is Some
            && p.value.unwrap()@.len() <= 0xffff,
        ProofType::Collision => p.key is Some && p.hash is Some && p.value is None
            && p.key.unwrap()@.len() == 32 && p.hash.unwrap()@.len() == 32,
        ProofType::Deadend => false,
    }
}

impl Default for Proof {
    /// The empty dead-end proof.
    fn default() -> (r: Proof)
        ensures
            r.proof_type == ProofType::Deadend,
            r.sibs() =~= Seq::<Seq<u8>>::empty(),
            r.key is None,
            r.hash is None,
            r.value is None,
    {
        Proof::empty()
    }
}

impl Proof {
    /// The sibling digests, root level first.
    pub open spec fn sibs(self) -> Seq<Seq<u8>> {
        digests_view(self.node_hashes@)
    }

    /// A proof verifies against `root` for hashed key `kb` when it is
    /// sane, no deeper than the trie, names a different key on a
    /// collision, and folds back to `root`.
    pub open spec fn spec_verify_ok(self, root: Seq<u8>, kb: Seq<u8>) -> bool {
        &&& spec_sane(self)
        &&& self.sibs().len() <= 256
        &&& (self.proof_type == ProofType::Collision ==> self.key.unwrap()@ != kb)
        &&& spec_fold(self.sibs(), 0, proof_term_digest(self, kb), kb) == root
    }

    /// An empty dead-end proof, ready to be filled during descent.
    pub fn empty() -> (r: Proof)
        ensures
            r.proof_type == ProofType::Deadend,
            r.sibs() =~= Seq::<Seq<u8>>::empty(),
            r.key is None,
            r.hash is None,
            r.value is None,
    {
        Proof {
            proof_type: ProofType::Deadend,
            node_hashes: Vec::new(),
            key: None,
            hash: None,
            value: None,
        }
    }

    /// How many siblings the proof carries: the depth of the leaf (or
    /// dead end) it reaches.
    pub fn depth(&self) -> (r: usize)
        ensures
            r == self.sibs().len(),
    {
        self.node_hashes.len()
    }

    /// Append one sibling digest to the path.
    pub fn push(&mut self, hash: Digest)
        ensures
            final(self).sibs() =~= old(self).sibs().push(hash@),
            final(self).proof_type == old(self).proof_type,
            final(self).key == old(self).key,
            final(self).hash == old(self).hash,
            final(self).value == old(self).value,
    {
        self.node_hashes.push(hash);
    }

    /// Assemble a proof from a gathered sibling path and its outcome.
    pub fn assemble(
        node_hashes: Vec<Digest>,
        proof_type: ProofType,
        key: Option<Digest>,
        hash: Option<Digest>,
        value: Option<Vec<u8>>,
    ) -> (r: Proof)
        ensures
            r.sibs() == digests_view(node_hashes@),
            r.proof_type == proof_type,
            r.key == key,
            r.hash == hash,
            r.value == value,
    {
        Proof { proof_type, node_hashes, key, hash, value }
    }

    /// Whether the proof is structurally fit for verification.
    pub fn is_sane(&self) -> (r: bool)
        ensures
            r == spec_sane(*self),
    {
        match self.proof_type {
            ProofType::Exists => {
                match &self.value {
                    Some(v) => self.key.is_none() && self.hash.is_none() && v.len() <= 0xffff,
                    None => false,
                }
            },
            ProofType::Collision => {
                match (&self.key, &self.hash) {
                    (Some(k), Some(h)) => self.value.is_none() && k.byte_len() == 32
                        && h.byte_len() == 32,
                    _ => false,
                }
            },
            ProofType::Deadend => false,
        }
    }

    /// Check the proof against a root digest for the given raw key: fold
    /// the sibling path back up and compare. Returns the proven value on
    /// success; a sound proof of absence (collision or dead end) never
    /// yields a value.
    pub fn verify(&mut self, root_hash: Digest, nkey: &[u8]) -> (r: Result<Vec<u8>, &'static str>)
        requires
            root_hash.wf(),
        ensures
            r is Ok <==> (old(self).spec_verify_ok(root_hash@, blake2b_of(nkey@)) && old(
                self,
            ).proof_type == ProofType::Exists),
            r is Ok ==> r.unwrap()@ == old(self).value.unwrap()@,
            r is Ok ==> final(self).value is None,
            r is Ok ==> final(self).proof_type == old(self).proof_type && final(self).sibs()
                == old(self).sibs() && final(self).key == old(self).key && final(self).hash
                == old(self).hash,
            r is Err ==> *final(self) == *old(self),
            (old(self).proof_type == ProofType::Collision && spec_sane(*old(self)) && old(
                self,
            ).sibs().len() <= 256 && old(self).key.unwrap()@ == blake2b_of(nkey@)) ==> r is Err
                && r->Err_0@ == "Same Key"@,
    {
        let ghost kb = blake2b_of(nkey@);
        let hashed_key = hash(nkey);
        if !self.is_sane() {
            return Err("Unknown");
        }
        let n: usize = self.node_hashes.len();
        if n > 256 {
            return Err("Unknown");
        }
        let leaf: Digest = match self.proof_type {
            ProofType::Deadend => {
                proof {
                    assert(false);
                }
                Digest::zero()
            },
            ProofType::Collision => {
                let k = match &self.key {
                    Some(k) => k,
                    None => {
                        proof {
                            assert(false);
                        }
                        return Err("Unknown");
                    },
                };
                if hashed_key.equals(k) {
                    return Err("Same Key");
                }
                let h = match &self.hash {
                    Some(h) => h.to_vec(),
                    None => {
                        proof {
                            assert(false);
                        }
                        return Err("Unknown");
                    },
                };
                hash_leaf(k, h.as_slice())
            },
            ProofType::Exists => {
                let v = match &self.value {
                    Some(v) => v,
                    None => {
                        proof {
                            assert(false);
                        }
                        return Err("Unknown");
                    },
                };
                crate::hasher::hash_leaf_value(&hashed_key, v.as_slice())
            },
        };
        proof {
            assert(leaf@ == proof_term_digest(*self, kb));
        }
        let ghost sibs = self.sibs();
        let mut cur: Digest = leaf;
        let mut j: usize = n;
        proof {
            assert(sibs.subrange(j as int, n as int) =~= Seq::<Seq<u8>>::empty());
        }
        while j > 0
            invariant
                n == self.sibs().len(),
                n == self.node_hashes.len(),
                n <= 256,
                sibs == self.sibs(),
                j <= n,
                hashed_key.wf(),
                hashed_key@ == kb,
                cur.wf(),
                cur@ == spec_fold(sibs.subrange(j as int, n as int), j as int, leaf@, kb),
            decreases j,
        {
            j = j - 1;
            let sib = &self.node_hashes[j];
            proof {
                assert(sibs.subrange(j as int, n as int).len() == n - j);
                assert(sibs.subrange(j as int, n as int)[0] == sib@);
                assert(sibs.subrange(j as int, n as int).skip(1) =~= sibs.subrange(
                    j + 1,
                    n as int,
                ));
            }
            if has_bit(&hashed_key, j) {
                cur = hash_internal(sib, &cur);
            } else {
                cur = hash_internal(&cur, sib);
            }
        }
        proof {
            assert(sibs.subrange(0, n as int) =~= sibs);
        }
        if !cur.equals(&root_hash) {
            return Err("Head Mismatch");
        }
        match self.value.take() {
            Some(v) => Ok(v),
            None => Err("Bad Verification"),
        }
    }
}

} // verus!
