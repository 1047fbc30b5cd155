use urkel_trie::hasher::{hash, hash_leaf_value};
use urkel_trie::node::Node;

#[test]
fn test_node_codec() {
    let k = hash(b"name-1");
    let v = Vec::from("value-1");
    let leaf_hash = hash_leaf_value(&k, v.as_slice());
    let sz: u16 = v.len() as u16;
    let leaf = Node::Leaf {
        index: 1,
        pos: 235,
        data: leaf_hash.duplicate(),
        key: k,
        value: Some(v),
        vindex: 1,
        vpos: 500,
        vsize: sz,
    };
    let bits = leaf.encode();
    assert!(bits.is_ok());

    let back = Node::decode(bits.unwrap(), true);
    assert!(back.is_ok());

    let r = match back.unwrap() {
        Node::Leaf {
            key,
            vindex,
            vpos,
            vsize,
            ..
        } => {
            assert_eq!(hash(b"name-1"), key);
            assert_eq!(1, vindex);
            assert_eq!(500, vpos);
            assert_eq!(7, vsize);
            true
        }
        _ => false,
    };
    assert!(r);

    let internal = Node::Internal {
        index: 0,
        pos: 0,
        data: urkel_trie::hasher::Digest::zero(),
        left: leaf.into_boxed(),
        right: Node::Empty {}.into_boxed(),
    };
    let ibits = internal.encode();
    assert!(ibits.is_ok());

    let iback = Node::decode(ibits.unwrap(), false);
    assert!(iback.is_ok());

    let r1 = match iback.unwrap() {
        Node::Internal { left, right, .. } => {
            let (li, lp) = left.get_storage_location();
            assert_eq!(left.hash(), leaf_hash);
            assert_eq!(1, li);
            assert_eq!(235, lp);
            assert_eq!(Node::Empty {}, *right);
            true
        }
        _ => false,
    };

    assert!(r1);

    let shouldnot = Node::Empty {}.encode();
    assert!(shouldnot.is_err());
}

#[test]
fn test_codec_rejects_wrong_length() {
    let bits: Vec<u8> = vec![0u8; 39];
    assert!(Node::decode(bits, true).is_err());
    let bits: Vec<u8> = vec![0u8; 75];
    assert!(Node::decode(bits, false).is_err());
    let bits: Vec<u8> = vec![0u8; 40];
    assert!(Node::decode(bits, true).is_ok());
    let bits: Vec<u8> = vec![0u8; 76];
    assert!(Node::decode(bits, false).is_ok());
}

#[test]
fn test_tag_pos_roundtrip() {
    let tagged = Node::tag_pos_for_leaf_or_internal(235, true);
    assert_eq!(tagged, 471);
    let (pos, is_leaf) = Node::get_pos_tag(tagged);
    assert_eq!(pos, 235);
    assert_eq!(is_leaf, 1);

    let tagged = Node::tag_pos_for_leaf_or_internal(500, false);
    assert_eq!(tagged, 1000);
    let (pos, is_leaf) = Node::get_pos_tag(tagged);
    assert_eq!(pos, 500);
    assert_eq!(is_leaf, 0);
}
