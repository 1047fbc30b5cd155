use urkel_trie::hasher::Digest;
use urkel_trie::proofs::ProofType;
use urkel_trie::trie::UrkelTree;

fn open_empty() -> UrkelTree {
    UrkelTree::new(Vec::new()).expect("open fresh store")
}

fn reopen(disk: &Vec<u8>) -> UrkelTree {
    UrkelTree::new(vec![disk.clone()]).expect("reopen store")
}

#[test]
fn test_tree_commit() {
    let mut disk: Vec<u8> = Vec::new();
    let root_one = {
        let mut tree = open_empty();
        tree.set(b"name-1", Vec::from("value-1"));
        tree.set(b"name-2", Vec::from("value-2"));
        tree.set(b"name-3", Vec::from("value-3"));
        tree.set(b"name-4", Vec::from("value-4"));
        let chunk = tree.commit().expect("commit");
        disk.extend_from_slice(&chunk);

        assert_eq!(tree.get(b"name-1"), Some(Vec::from("value-1")));
        assert_eq!(tree.get(b"name-3"), Some(Vec::from("value-3")));

        tree.set(b"name-5", Vec::from("value-5"));
        tree.set(b"name-6", Vec::from("value-6"));
        let chunk = tree.commit().expect("commit");
        disk.extend_from_slice(&chunk);

        assert_eq!(tree.get(b"name-1"), Some(Vec::from("value-1")));
        assert_eq!(tree.get(b"name-5"), Some(Vec::from("value-5")));
        tree.get_root_hash()
    };

    {
        let tree = reopen(&disk);
        assert_eq!(tree.get(b"name-1"), Some(Vec::from("value-1")));
        assert_eq!(tree.get(b"name-5"), Some(Vec::from("value-5")));

        let mut proof1 = tree.prove(b"name-1");
        assert_eq!(proof1.proof_type, ProofType::Exists);

        let r = proof1.verify(tree.get_root_hash(), b"name-1");
        assert!(r.is_ok());
        assert_eq!(Ok(Vec::from("value-1")), r);

        assert_eq!(root_one, tree.get_root_hash());
    }
}

#[test]
fn scenario_two_pairs_get_and_prove() {
    let mut tree = open_empty();
    tree.set(b"name-1", Vec::from("value-1"));
    tree.set(b"name-2", Vec::from("value-2"));
    assert_eq!(tree.get(b"name-1"), Some(Vec::from("value-1")));
    assert_eq!(tree.get(b"name-2"), Some(Vec::from("value-2")));

    let mut p = tree.prove(b"name-1");
    assert_eq!(p.proof_type, ProofType::Exists);
    let r = p.verify(tree.get_root_hash(), b"name-1");
    assert_eq!(r, Ok(Vec::from("value-1")));
}

#[test]
fn scenario_many_pairs() {
    let mut tree = open_empty();
    for i in 1..10000u32 {
        let key = format!("name-{}", i);
        let value = format!("value-{}", i);
        tree.set(key.as_bytes(), value.into_bytes());
    }
    assert_eq!(tree.get(b"name-5001"), Some(Vec::from("value-5001")));

    let mut p = tree.prove(b"name-401");
    assert_eq!(p.proof_type, ProofType::Exists);
    let r = p.verify(tree.get_root_hash(), b"name-401");
    assert_eq!(r, Ok(Vec::from("value-401")));
}

#[test]
fn scenario_remove_all_yields_zero_root() {
    let mut tree = open_empty();
    tree.set(b"name-1", Vec::from("value-1"));
    tree.set(b"name-2", Vec::from("value-2"));
    tree.remove(b"name-1");
    tree.remove(b"name-2");
    assert_eq!(tree.get_root_hash(), Digest::zero());
    assert!(tree.get_root_hash().is_zero());
}

#[test]
fn scenario_absence_proof_rejected() {
    let mut tree = open_empty();
    tree.set(b"name-1", Vec::from("value-1"));
    tree.set(b"name-2", Vec::from("value-2"));

    let mut p = tree.prove(b"NOPE");
    assert!(p.proof_type == ProofType::Deadend || p.proof_type == ProofType::Collision);
    let r = p.verify(tree.get_root_hash(), b"NOPE");
    assert!(r.is_err());

    // A dead-end proof in particular is never fit for verification.
    if p.proof_type == ProofType::Deadend {
        assert!(!p.is_sane());
    }
}

#[test]
fn scenario_commit_reopen_all_present() {
    let mut disk: Vec<u8> = Vec::new();
    let mut tree = open_empty();
    tree.set(b"name-1", Vec::from("value-1"));
    tree.set(b"name-2", Vec::from("value-2"));
    tree.set(b"name-3", Vec::from("value-3"));
    tree.set(b"name-4", Vec::from("value-4"));
    let chunk = tree.commit().expect("commit");
    disk.extend_from_slice(&chunk);
    tree.set(b"name-5", Vec::from("value-5"));
    tree.set(b"name-6", Vec::from("value-6"));
    let chunk = tree.commit().expect("commit");
    disk.extend_from_slice(&chunk);

    let reopened = reopen(&disk);
    for i in 1..7u32 {
        let key = format!("name-{}", i);
        let value = format!("value-{}", i);
        assert_eq!(reopened.get(key.as_bytes()), Some(value.into_bytes()));
    }
    assert_eq!(reopened.get_root_hash(), tree.get_root_hash());
}

#[test]
fn scenario_insertion_order_does_not_matter() {
    let mut a = open_empty();
    let mut b = open_empty();
    for i in 1..50u32 {
        let key = format!("name-{}", i);
        let value = format!("value-{}", i);
        a.set(key.as_bytes(), value.into_bytes());
    }
    for i in (1..50u32).rev() {
        let key = format!("name-{}", i);
        let value = format!("value-{}", i);
        b.set(key.as_bytes(), value.into_bytes());
    }
    assert_eq!(a.get_root_hash(), b.get_root_hash());
}

#[test]
fn last_insert_wins_and_remove_then_insert() {
    let mut tree = open_empty();
    tree.set(b"k", Vec::from("v1"));
    tree.set(b"k", Vec::from("v2"));
    assert_eq!(tree.get(b"k"), Some(Vec::from("v2")));

    // remove(k) then insert(k, v) matches a tree that never removed k.
    let mut a = open_empty();
    a.set(b"k", Vec::from("v2"));
    a.set(b"other", Vec::from("x"));
    a.remove(b"k");
    a.set(b"k", Vec::from("v2"));

    let mut b = open_empty();
    b.set(b"k", Vec::from("v2"));
    b.set(b"other", Vec::from("x"));

    assert_eq!(a.get_root_hash(), b.get_root_hash());
}

#[test]
fn removed_key_is_absent_after_commit() {
    let mut disk: Vec<u8> = Vec::new();
    let mut tree = open_empty();
    tree.set(b"stay", Vec::from("a"));
    tree.set(b"gone", Vec::from("b"));
    let chunk = tree.commit().expect("commit");
    disk.extend_from_slice(&chunk);
    tree.remove(b"gone");
    let chunk = tree.commit().expect("commit");
    disk.extend_from_slice(&chunk);

    assert_eq!(tree.get(b"gone"), None);
    assert_eq!(tree.get(b"stay"), Some(Vec::from("a")));

    let reopened = reopen(&disk);
    assert_eq!(reopened.get(b"gone"), None);
    assert_eq!(reopened.get(b"stay"), Some(Vec::from("a")));
    assert_eq!(reopened.get_root_hash(), tree.get_root_hash());
}

#[test]
fn crash_truncation_recovers_a_committed_root() {
    let mut disk: Vec<u8> = Vec::new();
    let mut tree = open_empty();
    tree.set(b"name-1", Vec::from("value-1"));
    tree.set(b"name-2", Vec::from("value-2"));
    let chunk = tree.commit().expect("commit");
    disk.extend_from_slice(&chunk);
    let root_one = tree.get_root_hash();

    tree.set(b"name-3", Vec::from("value-3"));
    let chunk2 = tree.commit().expect("commit");
    disk.extend_from_slice(&chunk2);
    let root_two = tree.get_root_hash();

    // Losing any suffix of the second epoch leaves either the new root
    // (nothing lost) or the previous one — never garbage.
    for k in 0..chunk2.len() {
        let kept = disk[..disk.len() - k].to_vec();
        let reopened = reopen(&kept);
        let root = reopened.get_root_hash();
        if k == 0 {
            assert_eq!(root, root_two);
        } else {
            assert_eq!(root, root_one);
        }
    }

    // Losing the whole second epoch simply reopens the first root.
    let kept = disk[..disk.len() - chunk2.len()].to_vec();
    let reopened = reopen(&kept);
    assert_eq!(reopened.get_root_hash(), root_one);
}

#[test]
fn proof_depth_and_push() {
    let mut p = urkel_trie::proofs::Proof::empty();
    assert_eq!(p.depth(), 0);
    p.push(Digest::zero());
    assert_eq!(p.depth(), 1);
}

#[test]
fn open_checked_accepts_committed_and_rejects_tampering() {
    let mut disk: Vec<u8> = Vec::new();
    let mut tree = open_empty();
    tree.set(b"name-1", Vec::from("value-1"));
    tree.set(b"name-2", Vec::from("value-2"));
    let chunk = tree.commit().expect("commit");
    disk.extend_from_slice(&chunk);

    // A store written by commit withstands full validation.
    let checked = UrkelTree::open_checked(vec![disk.clone()]).expect("validated open");
    assert_eq!(checked.get_root_hash(), tree.get_root_hash());
    assert_eq!(checked.get(b"name-1"), Some(Vec::from("value-1")));

    // Corrupting a committed value blob breaks a stored child digest,
    // and the validating open refuses the store.
    let mut tampered = disk.clone();
    tampered[0] ^= 0xff;
    assert!(UrkelTree::open_checked(vec![tampered]).is_err());
}
