use urkel_trie::hasher::hash;
use urkel_trie::node::Node;
use urkel_trie::store::{
    get_db_file_path, get_log_filename, valid_log_filename, Meta, Store,
};

#[test]
fn test_store_initial() {
    let mut leaf = Node::new_leaf_node(hash(b"name-1"), Vec::from("value-1"));
    let mut store = Store::open(Vec::new()).unwrap();

    // Logic in the tree's commit walk: write the value first, record its
    // coordinates in the leaf, then write the encoded node.
    let value = Vec::from("value-1");
    let (vi, vp) = store.write_value(&value).unwrap();
    leaf.update_value_storage_location(vi, vp);
    let (ni, np) = store.write_node(leaf.encode().unwrap()).unwrap();
    leaf.update_storage_location(ni, np);

    assert!(store.commit(ni, np, true).is_ok());

    let result = store.get_value(vi, vp, value.len() as u16);
    assert!(result.is_ok());
    assert_eq!(vec![118, 97, 108, 117, 101, 45, 49], result.unwrap());

    let node = store.get_node(ni, np, true);
    assert!(node.is_ok());
    assert!(node.unwrap().is_leaf());
}

#[test]
fn test_store() {
    let mut leaf = Node::new_leaf_node(hash(b"name-1"), Vec::from("value-1"));
    let mut store = Store::open(Vec::new()).unwrap();

    let value = Vec::from("value-1");
    let (vi, vp) = store.write_value(&value).unwrap();
    leaf.update_value_storage_location(vi, vp);
    let (ni, np) = store.write_node(leaf.encode().unwrap()).unwrap();
    leaf.update_storage_location(ni, np);

    assert_eq!((vi, vp), (1, 0));
    assert!(store.commit(ni, np, true).is_ok());

    // The meta now in force points at the committed leaf.
    assert_eq!((1, 7), (ni, np));
}

#[test]
fn test_meta() {
    {
        let meta = Meta::open(&Vec::new(), 1);
        assert!(meta.is_ok());
    }

    {
        let meta = Meta::open(&Vec::new(), 1).unwrap();
        assert_eq!((1, 0), meta.get());
    }

    // Several metas appended in order: the last one wins on recovery.
    let mut file: Vec<u8> = vec![0u8; 16];
    for (index, pos) in [(1u16, 20u32), (2, 40), (3, 60), (5, 80)] {
        let m = Meta {
            index: 1,
            pos: file.len() as u32,
            root_index: index,
            root_pos: pos,
            is_leaf: false,
        };
        file.extend_from_slice(&m.encode());
    }
    let meta = Meta::open(&file, 1).unwrap();
    assert_eq!((5, 80), meta.get());
}

#[test]
fn test_meta_encoding() {
    // Dummy data padded to a 16-byte boundary, then one meta record.
    let mut file: Vec<u8> = vec![1u8; 567];
    file.resize(576, 0);

    let m = Meta {
        index: 1,
        pos: 576,
        root_pos: 567,
        root_index: 1,
        is_leaf: false,
    };
    file.extend_from_slice(&m.encode());

    let meta = Meta::open(&file, 1).unwrap();
    assert_eq!(567, meta.root_pos);
    assert_eq!(576, meta.pos);
    assert_eq!(false, meta.is_leaf);
    assert_eq!(1, meta.root_index);
    assert_eq!(1, meta.index);
}

#[test]
fn test_meta_scan_ignores_trailing_garbage() {
    let mut file: Vec<u8> = vec![7u8; 16];
    let m = Meta {
        index: 1,
        pos: 16,
        root_index: 1,
        root_pos: 4,
        is_leaf: true,
    };
    file.extend_from_slice(&m.encode());
    // A torn write after the last commit: recovery still finds the meta.
    file.extend_from_slice(&[9u8; 13]);
    let meta = Meta::open(&file, 1).unwrap();
    assert_eq!((1, 4), meta.get());
    assert!(meta.is_leaf);
}

#[test]
fn test_meta_scan_fails_without_magic() {
    let file: Vec<u8> = vec![2u8; 64];
    let meta = Meta::open(&file, 1);
    assert!(meta.is_err());
}

#[test]
fn test_log_filenames() {
    assert_eq!(get_log_filename(1), "0000000001");
    assert_eq!(get_log_filename(65535), "0000065535");
    assert_eq!(get_log_filename(0), "0000000000");

    assert_eq!(valid_log_filename("0000000001"), 1);
    assert_eq!(valid_log_filename("0000065535"), 65535);
    assert_eq!(valid_log_filename("0000000000"), 0);
    assert_eq!(valid_log_filename("short"), 0);
    assert_eq!(valid_log_filename("00000000001"), 0);
    assert_eq!(valid_log_filename("99999999999"), 0);
    assert_eq!(valid_log_filename("00000000ab"), 0);
    assert_eq!(valid_log_filename("0000070000"), 0);
    assert_eq!(valid_log_filename("meta"), 0);

    assert_eq!(get_db_file_path("data", 1), "data/0000000001");
}
