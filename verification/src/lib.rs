//! A base-2 sparse Merkle ("Urkel") trie with an append-only, log-structured
//! backing store.
//!
//! A committed tree is summarised by a single 32-byte root digest; for any
//! key a compact proof can be produced and checked against that root. The
//! trie engine, the node codec, the log store and the proof machinery all
//! carry contracts that tie them to a mathematical model of the tree: a map
//! from 32-byte key digests to value byte strings.

use vstd::prelude::*;

pub mod encoding;
pub mod errors;
pub mod hasher;
pub mod model;
pub mod node;
pub mod proofs;
pub mod store;
pub mod trie;

verus! {

/// Number of bits in a key digest; the trie descends one bit per level.
pub const KEY_SIZE: usize = 256;

/// Domain-separation prefix for leaf hashes.
pub const LEAF_PREFIX: u8 = 0x00;

/// Domain-separation prefix for internal hashes.
pub const INTERNAL_PREFIX: u8 = 0x01;

/// Bit `index` of a 32-byte key digest, most significant bit of byte 0 first.
pub open spec fn bit_at(key: Seq<u8>, index: int) -> bool {
    (key[index / 8] >> (7 - (index % 8)) as u8) & 1 == 1
}

/// Which direction to take at depth `index` when descending for `key`:
/// `false` means left, `true` means right.
pub fn has_bit(key: &hasher::Digest, index: usize) -> (r: bool)
    requires
        key.wf(),
        index < KEY_SIZE,
    ensures
        r == bit_at(key@, index as int),
{
    let oct: usize = index / 8;
    let bit: usize = index % 8;
    let byte: u8 = key.byte(oct);
    ((byte >> (7 - bit) as u8) & 1) == 1
}

} // verus!
