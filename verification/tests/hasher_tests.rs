use urkel_trie::errors::Error;
use urkel_trie::hasher::{hash, hash_internal, hash_leaf, hash_leaf_value, Digest};

#[test]
fn digest_basics() {
    let z = Digest::zero();
    assert!(z.is_zero());
    assert_eq!(z.byte_len(), 32);
    assert_eq!(z.to_vec(), vec![0u8; 32]);

    let h = hash(b"name-1");
    assert_eq!(h.byte_len(), 32);
    assert!(!h.is_zero());
    assert!(h.equals(&h.duplicate()));
    assert!(!h.equals(&z));
}

#[test]
fn hashing_is_deterministic_and_domain_separated() {
    let a = hash(b"abc");
    let b = hash(b"abc");
    assert_eq!(a, b);
    assert_ne!(hash(b"abc"), hash(b"abd"));

    let k = hash(b"key");
    let vh = hash(b"value");
    let leaf = hash_leaf(&k, &vh.to_vec());
    let leaf2 = hash_leaf_value(&k, b"value");
    assert_eq!(leaf, leaf2);

    // A leaf hash and an internal hash over the same 65 payload bytes
    // differ by their domain prefix.
    let l = hash(b"left");
    let r = hash(b"right");
    let internal = hash_internal(&l, &r);
    let as_leaf = hash_leaf(&l, &r.to_vec());
    assert_ne!(internal, as_leaf);
}

#[test]
fn error_variants_are_distinct() {
    assert_ne!(Error::Io, Error::MetaRootNotFound);
    assert_ne!(Error::MetaRootNotFound, Error::NoLogFiles);
    assert_eq!(Error::Io, Error::Io);
}
