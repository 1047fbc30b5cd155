//! The 32-byte digest type and the domain-separated hash helpers.
//!
//! Hashing itself is done by BLAKE2b-256 from the `blake2-rfc` crate; its
//! result is named by the uninterpreted function [`blake2b_of`], and every
//! contract in the crate speaks of digests through that name.

use vstd::prelude::*;

verus! {

/// The 32-byte digest that a BLAKE2b-256 call returns, as a function of the
/// input bytes alone.
pub uninterp spec fn blake2b_of(data: Seq<u8>) -> Seq<u8>;

/// The all-zero digest: the hash of an empty tree and the sentinel for an
/// absent child.
pub open spec fn zero32() -> Seq<u8> {
    Seq::new(32, |i: int| 0u8)
}

/// The digest of a leaf holding `key` and the raw `value` bytes:
/// `H(0x00 || key || H(value))`. The double hash keeps proofs constant-size
/// regardless of value length.
pub open spec fn leaf_digest(key: Seq<u8>, value: Seq<u8>) -> Seq<u8> {
    blake2b_of(seq![crate::LEAF_PREFIX] + key + blake2b_of(value))
}

/// The digest of an internal node from its children's digests:
/// `H(0x01 || left || right)`.
pub open spec fn internal_digest(left: Seq<u8>, right: Seq<u8>) -> Seq<u8> {
    blake2b_of(seq![crate::INTERNAL_PREFIX] + left + right)
}

/// Relies on `blake2_rfc::blake2b::blake2b`: the digest is a pure function
/// of the input bytes, and with digest length 32 the result holds exactly
/// 32 bytes (`Blake2bResult::as_bytes` returns `&h[..nn]` with `nn == 32`).
#[verifier::external_body]
fn blake2b256(data: &[u8]) -> (r: Vec<u8>)
    ensures
        r@ == blake2b_of(data@),
        r@.len() == 32,
{
    blake2_rfc::blake2b::blake2b(32, &[], data).as_bytes().to_vec()
}

/// A 32-byte digest value.
#[derive(Debug, PartialEq)]
pub struct Digest {
    bytes: Vec<u8>,
}

impl View for Digest {
    type V = Seq<u8>;

    closed spec fn view(&self) -> Seq<u8> {
        self.bytes@
    }
}

impl Default for Digest {
    /// The zero digest: the sentinel for an absent subtree.
    fn default() -> (r: Digest)
        ensures
            r.wf(),
            r@ == zero32(),
    {
        Digest::zero()
    }
}

impl Digest {
    /// A digest is well formed when it holds exactly 32 bytes.
    pub open spec fn wf(&self) -> bool {
        self@.len() == 32
    }

    /// The all-zero digest, used as the sentinel for the empty tree.
    pub fn zero() -> (r: Digest)
        ensures
            r.wf(),
            r@ == zero32(),
    {
        let mut b: Vec<u8> = Vec::new();
        let mut i: usize = 0;
        while i < 32
            invariant
                i <= 32,
                b@.len() == i as int,
                forall|j: int| 0 <= j < i ==> b@[j] == 0u8,
            decreases 32 - i,
        {
            b.push(0u8);
            i = i + 1;
        }
        proof {
            assert(b@ =~= zero32());
        }
        Digest { bytes: b }
    }

    /// Wrap 32 bytes as a digest.
    pub fn from_vec(v: Vec<u8>) -> (r: Digest)
        requires
            v@.len() == 32,
        ensures
            r.wf(),
            r@ == v@,
    {
        Digest { bytes: v }
    }

    /// The number of bytes the digest holds (32 for every digest this
    /// crate builds).
    pub fn byte_len(&self) -> (r: usize)
        ensures
            r == self@.len(),
    {
        self.bytes.len()
    }

    /// Byte `i` of the digest.
    pub fn byte(&self, i: usize) -> (r: u8)
        requires
            self.wf(),
            i < 32,
        ensures
            r == self@[i as int],
    {
        self.bytes[i]
    }

    /// A copy of the digest bytes.
    pub fn to_vec(&self) -> (r: Vec<u8>)
        ensures
            r@ == self@,
    {
        let mut out: Vec<u8> = Vec::new();
        append_slice(&mut out, self.bytes.as_slice());
        out
    }

    /// An independent copy of the digest.
    pub fn duplicate(&self) -> (r: Digest)
        ensures
            r@ == self@,
    {
        Digest { bytes: self.to_vec() }
    }

    /// Byte-for-byte equality of two digests.
    pub fn equals(&self, other: &Digest) -> (r: bool)
        requires
            self.wf(),
            other.wf(),
        ensures
            r == (self@ == other@),
    {
        let mut i: usize = 0;
        while i < 32
            invariant
                self.wf(),
                other.wf(),
                i <= 32,
                forall|j: int| 0 <= j < i ==> self@[j] == other@[j],
            decreases 32 - i,
        {
            if self.bytes[i] != other.bytes[i] {
                return false;
            }
            i = i + 1;
        }
        proof {
            assert(self@ =~= other@);
        }
        true
    }

    /// Whether this digest is all zero bytes.
    pub fn is_zero(&self) -> (r: bool)
        requires
            self.wf(),
        ensures
            r == (self@ == zero32()),
    {
        let z = Digest::zero();
        self.equals(&z)
    }
}

/// Append every byte of `src` to `dst`.
pub fn append_slice(dst: &mut Vec<u8>, src: &[u8])
    ensures
        final(dst)@ == old(dst)@ + src@,
{
    let mut i: usize = 0;
    while i < src.len()
        invariant
            i <= src@.len(),
            dst@ == old(dst)@ + src@.subrange(0, i as int),
        decreases src@.len() - i,
    {
        dst.push(src[i]);
        proof {
            assert(dst@ =~= old(dst)@ + src@.subrange(0, i + 1));
        }
        i = i + 1;
    }
    proof {
        assert(src@.subrange(0, src@.len() as int) =~= src@);
    }
}

/// The plain hash of a byte string.
pub fn hash(data: &[u8]) -> (r: Digest)
    ensures
        r.wf(),
        r@ == blake2b_of(data@),
{
    Digest::from_vec(blake2b256(data))
}

/// The leaf hash over a key digest and an already-hashed value digest:
/// `H(0x00 || key || value_hash)`.
pub fn hash_leaf(key: &Digest, value_hash: &[u8]) -> (r: Digest)
    ensures
        r.wf(),
        r@ == blake2b_of(seq![crate::LEAF_PREFIX] + key@ + value_hash@),
{
    let mut buf: Vec<u8> = Vec::new();
    buf.push(crate::LEAF_PREFIX);
    append_slice(&mut buf, key.bytes.as_slice());
    append_slice(&mut buf, value_hash);
    proof {
        assert(buf@ =~= seq![crate::LEAF_PREFIX] + key@ + value_hash@);
    }
    Digest::from_vec(blake2b256(buf.as_slice()))
}

/// The full leaf hash over a key digest and the raw value bytes.
pub fn hash_leaf_value(key: &Digest, value: &[u8]) -> (r: Digest)
    ensures
        r.wf(),
        r@ == leaf_digest(key@, value@),
{
    let vh = hash(value);
    hash_leaf(key, vh.bytes.as_slice())
}

/// The internal-node hash over two child digests: `H(0x01 || left || right)`.
pub fn hash_internal(left: &Digest, right: &Digest) -> (r: Digest)
    ensures
        r.wf(),
        r@ == internal_digest(left@, right@),
{
    let mut buf: Vec<u8> = Vec::new();
    buf.push(crate::INTERNAL_PREFIX);
    append_slice(&mut buf, left.bytes.as_slice());
    append_slice(&mut buf, right.bytes.as_slice());
    proof {
        assert(buf@ =~= seq![crate::INTERNAL_PREFIX] + left@ + right@);
    }
    Digest::from_vec(blake2b256(buf.as_slice()))
}

} // verus!
