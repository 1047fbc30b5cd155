//! The trie engine: insertion, deletion, lookup and commit over the node
//! tree, with on-demand resolution of persisted subtrees.
//!
//! The tree's contract is its abstract view: a map from 32-byte key
//! digests to value byte strings. Insert and remove are exactly map
//! insert and remove; lookups are map lookups; and the canonical shape
//! invariant [`wf_shape`] makes the root digest a function of that map
//! alone, whatever order the operations came in.

use vstd::prelude::*;
use crate::bit_at;
use crate::encoding::{le16, le32, read_u16_le, read_u32_le};
use crate::errors::Error;
use crate::has_bit;
use crate::hasher::{hash, hash_internal, hash_leaf_value, internal_digest, leaf_digest, zero32, Digest};
use crate::model::{
    keys_of, lemma_empty_facts, lemma_internal_facts, lemma_internal_two_keys,
    lemma_keys_eq_dom, lemma_leaf_facts, lemma_split, map_of, prefix_ok, tree_hash, wf_shape,
    SpecNode,
};
use crate::node::{
    child_ok, file_at, files_extend, lemma_written_internal_reads_back,
    lemma_written_leaf_reads_back, spec_child_desc, spec_encode_leaf, stored_view, Node,
    POS_LIMIT,
};
use crate::proofs::{
    digests_view, proof_term_digest, spec_fold, spec_sane, Proof, ProofType,
};
use crate::store::{
    find_meta_pos, meta_decoded, views_of, Meta, Store, FILE_SIZE_LIMIT, WRITE_LIMIT,
};

verus! {

/// The subtree denoted by `n` under file images `fv`.
pub open spec fn nview(n: Node, fv: Seq<Seq<u8>>) -> SpecNode {
    n.view_in(fv).unwrap()
}

/// The tree that opening a store over `files` yields: the empty tree for
/// a fresh store, the stored root for a recovered meta, nothing when the
/// active file holds no recoverable meta.
pub open spec fn opened_tree(files: Seq<Seq<u8>>) -> Option<SpecNode> {
    if files.len() == 0 {
        Some(SpecNode::Empty)
    } else {
        let active = files.last();
        if active.len() == 0 {
            Some(SpecNode::Empty)
        } else {
            match find_meta_pos(active) {
                Some(p) => {
                    let m = meta_decoded(active.subrange(p, p + 16));
                    if m.root_index != 0 && m.pos != 0 {
                        stored_view(files, m.root_index as int, m.root_pos as int, m.is_leaf)
                    } else {
                        Some(SpecNode::Empty)
                    }
                },
                None => None,
            }
        }
    }
}

/// What a well-formed set of file images promises: if recovery finds a
/// meta pointing at a root, that root's stored form is intact and its
/// tree canonical. Every commit leaves the files in this state.
pub open spec fn store_ok(files: Seq<Seq<u8>>) -> bool {
    files.len() > 0 ==> {
        let active = files.last();
        active.len() > 0 ==> match find_meta_pos(active) {
            Some(p) => {
                let m = meta_decoded(active.subrange(p, p + 16));
                (m.root_index != 0 && m.pos != 0) ==> {
                    let sv = stored_view(files, m.root_index as int, m.root_pos as int, m.is_leaf);
                    sv is Some && wf_shape(sv.unwrap(), 0)
                }
            },
            None => true,
        }
    }
}

/// The authenticated key-value tree: the in-memory root (possibly a lazy
/// placeholder into the store) and the log-structured store behind it.
pub struct UrkelTree {
    root: Option<Box<Node>>,
    store: Store,
}

impl View for UrkelTree {
    type V = Map<Seq<u8>, Seq<u8>>;

    /// The map this tree holds: 32-byte key digests to value bytes.
    closed spec fn view(&self) -> Map<Seq<u8>, Seq<u8>> {
        map_of(self.rtree())
    }
}

impl UrkelTree {
    /// The store's file images.
    pub closed spec fn fv(self) -> Seq<Seq<u8>> {
        self.store.files_view()
    }

    /// The abstract tree the root denotes.
    pub closed spec fn rtree(self) -> SpecNode {
        nview(*self.root.unwrap(), self.fv())
    }

    /// The root digest as a spec value.
    pub open spec fn root_digest(self) -> Seq<u8> {
        tree_hash(self.rtree())
    }

    /// Tree sanity: the store is sound, the root denotes a subtree, and
    /// that subtree is in canonical shape.
    pub closed spec fn wf(self) -> bool {
        &&& self.store.wf()
        &&& self.root is Some
        &&& (*self.root.unwrap()).wf_in(self.fv())
        &&& (*self.root.unwrap()).view_in(self.fv()) is Some
        &&& wf_shape(self.rtree(), 0)
    }

    /// How many bytes of the active file the caller has persisted.
    pub closed spec fn spec_synced(self) -> int {
        self.store.spec_synced()
    }

    /// How many bytes a commit would append for the tree's dirty nodes:
    /// the pending work a commit must fit into the active file.
    pub closed spec fn pending_bytes(self) -> int {
        spec_dirty_size(*self.root.unwrap())
    }

    /// The current length of the active file image.
    pub closed spec fn active_len(self) -> int {
        self.store.active_len()
    }

    /// Open a tree over the images of the store's log files (ordered by
    /// file id, active file last), recovering the last committed root.
    pub fn new(files: Vec<Vec<u8>>) -> (r: Result<UrkelTree, Error>)
        requires
            files@.len() <= 0xffff,
            forall|i: int|
                0 <= i < files@.len() ==> (#[trigger] files@[i])@.len() <= FILE_SIZE_LIMIT,
            store_ok(views_of(files@)),
        ensures
            r is Ok <==> opened_tree(views_of(files@)) is Some,
            r is Ok ==> {
                let t = r.unwrap();
                &&& t.wf()
                &&& t.rtree() == opened_tree(views_of(files@)).unwrap()
                &&& t@ == map_of(opened_tree(views_of(files@)).unwrap())
                &&& t.root_digest() == tree_hash(opened_tree(views_of(files@)).unwrap())
            },
    {
        let ghost given = views_of(files@);
        let ghost was_empty = files@.len() == 0;
        let store = match Store::open(files) {
            Ok(s) => s,
            Err(e) => {
                return Err(e);
            },
        };
        proof {
            if !was_empty {
                assert(store.files_view() == given);
            }
            assert(store.spec_meta().root_pos < POS_LIMIT);
            if store.root_nonempty() {
                assert(opened_tree(given) == stored_view(
                    given,
                    store.spec_meta().root_index as int,
                    store.spec_meta().root_pos as int,
                    store.spec_meta().is_leaf,
                ));
                assert(opened_tree(given) is Some);
            }
        }
        let root = match store.get_root_node() {
            Ok(n) => n,
            Err(_) => {
                proof {
                    assert(false);
                }
                return Err(Error::Io);
            },
        };
        let tree = UrkelTree { root: Some(root), store };
        proof {
            if was_empty {
                assert(opened_tree(given) == Some(SpecNode::Empty));
                assert(tree.rtree() == SpecNode::Empty);
            } else {
                assert(tree.rtree() == opened_tree(given).unwrap());
            }
            assert(wf_shape(tree.rtree(), 0));
        }
        Ok(tree)
    }

    /// The root digest: zero for the empty tree, else the Merkle digest
    /// of the whole mapping.
    pub fn get_root_hash(&self) -> (r: Digest)
        requires
            self.wf(),
        ensures
            r.wf(),
            r@ == self.root_digest(),
    {
        match &self.root {
            Some(n) => {
                let h = n.hash();
                proof {
                    assert((*self.root.unwrap()).wf_in(self.fv()));
                }
                h
            },
            None => Digest::zero(),
        }
    }

    /// Look up the value stored under `key` (the raw key; it is hashed
    /// to the 32-byte digest that indexes the trie).
    pub fn get(&self, key: &[u8]) -> (r: Option<Vec<u8>>)
        requires
            self.wf(),
        ensures
            r is Some <==> self@.dom().contains(crate::hasher::blake2b_of(key@)),
            r is Some ==> r.unwrap()@ == self@[crate::hasher::blake2b_of(key@)],
    {
        let hashed = hash(key);
        match &self.root {
            Some(n) => Self::get_at(&self.store, n, &hashed, 0),
            None => None,
        }
    }

    /// Recursive descent for `get`: at an internal node follow the key's
    /// bit for this depth, resolve lazy nodes on the way, and compare
    /// keys at a leaf.
    fn get_at(store: &Store, node: &Node, key: &Digest, depth: usize) -> (r: Option<Vec<u8>>)
        requires
            store.wf(),
            node.wf_in(store.files_view()),
            node.view_in(store.files_view()) is Some,
            key.wf(),
            depth <= 256,
            wf_shape(nview(*node, store.files_view()), depth as int),
            prefix_ok(nview(*node, store.files_view()), key@, depth as int),
        ensures
            r is Some <==> map_of(nview(*node, store.files_view())).dom().contains(key@),
            r is Some ==> r.unwrap()@ == map_of(nview(*node, store.files_view()))[key@],
        decreases 256 - depth, (if node is Hash {
            1int
        } else {
            0int
        }),
    {
        let ghost fv = store.files_view();
        let ghost t = nview(*node, fv);
        match node {
            Node::Empty => None,
            Node::Hash { index, pos, data, is_leaf } => {
                let copy = Node::Hash {
                    index: *index,
                    pos: *pos,
                    data: data.duplicate(),
                    is_leaf: *is_leaf,
                };
                proof {
                    assert(copy.wf_in(fv));
                    assert(copy.view_in(fv) == node.view_in(fv));
                }
                let resolved = store.resolve(copy);
                Self::get_at(store, &resolved, key, depth)
            },
            Node::Leaf { key: k2, value, vindex, vpos, vsize, .. } => {
                proof {
                    lemma_keys_eq_dom(t);
                }
                if key.equals(k2) {
                    match value {
                        Some(v) => Some(crate::encoding::copy_range(v.as_slice(), 0, v.len())),
                        None => {
                            match store.get_value(*vindex, *vpos, *vsize) {
                                Ok(v) => Some(v),
                                Err(_) => {
                                    proof {
                                        assert(false);
                                    }
                                    None
                                },
                            }
                        },
                    }
                } else {
                    proof {
                        assert(map_of(t).dom() =~= set![t->Leaf_key]);
                    }
                    None
                }
            },
            Node::Internal { left, right, .. } => {
                proof {
                    lemma_split(t, depth as int);
                    lemma_keys_eq_dom(nview(**left, fv));
                    lemma_keys_eq_dom(nview(**right, fv));
                }
                if has_bit(key, depth) {
                    let r = Self::get_at(store, right, key, depth + 1);
                    proof {
                        if map_of(t).dom().contains(key@) {
                            assert(map_of(nview(**right, fv)).dom().contains(key@));
                        }
                        if map_of(nview(**right, fv)).dom().contains(key@) {
                            assert(map_of(t).dom().contains(key@));
                            assert(map_of(t)[key@] == map_of(nview(**right, fv))[key@]);
                        }
                    }
                    r
                } else {
                    let r = Self::get_at(store, left, key, depth + 1);
                    proof {
                        if map_of(t).dom().contains(key@) {
                            assert(map_of(nview(**left, fv)).dom().contains(key@));
                        }
                        if map_of(nview(**left, fv)).dom().contains(key@) {
                            assert(map_of(t).dom().contains(key@));
                            assert(map_of(t)[key@] == map_of(nview(**left, fv))[key@]);
                        }
                    }
                    r
                }
            },
        }
    }
}


/// Inserting on the right half commutes with the union when the key is
/// not on the left.
proof fn lemma_union_insert_right(
    ml: Map<Seq<u8>, Seq<u8>>,
    mr: Map<Seq<u8>, Seq<u8>>,
    k: Seq<u8>,
    v: Seq<u8>,
)
    requires
        !ml.dom().contains(k),
    ensures
        ml.union_prefer_right(mr).insert(k, v) =~= ml.union_prefer_right(mr.insert(k, v)),
{
}

/// Inserting on the left half commutes with the union when the key is
/// not on the right.
proof fn lemma_union_insert_left(
    ml: Map<Seq<u8>, Seq<u8>>,
    mr: Map<Seq<u8>, Seq<u8>>,
    k: Seq<u8>,
    v: Seq<u8>,
)
    requires
        !mr.dom().contains(k),
    ensures
        ml.union_prefer_right(mr).insert(k, v) =~= ml.insert(k, v).union_prefer_right(mr),
{
}

impl UrkelTree {
    /// Insert or replace the value stored under `key` (the raw key; it
    /// is hashed to the digest that indexes the trie).
    pub fn set(&mut self, key: &[u8], value: Vec<u8>)
        requires
            old(self).wf(),
            value@.len() <= 0xffff,
        ensures
            final(self).wf(),
            final(self)@ == old(self)@.insert(crate::hasher::blake2b_of(key@), value@),
            final(self).fv() == old(self).fv(),
            final(self).spec_synced() == old(self).spec_synced(),
    {
        let hashed = hash(key);
        let root = self.root.take().unwrap();
        let newroot = Self::insert_at(&self.store, root, &hashed, value, 0);
        self.root = Some(newroot);
    }

    /// Recursive descent for insertion at `depth`, returning the new
    /// subtree. The subtree's map gains exactly the `key -> value`
    /// binding, and the canonical shape is preserved.
    #[verifier::rlimit(100)]
    fn insert_at(store: &Store, node: Box<Node>, key: &Digest, value: Vec<u8>, depth: usize) -> (r:
        Box<Node>)
        requires
            store.wf(),
            node.wf_in(store.files_view()),
            node.view_in(store.files_view()) is Some,
            key.wf(),
            value@.len() <= 0xffff,
            depth <= 256,
            wf_shape(nview(*node, store.files_view()), depth as int),
            prefix_ok(nview(*node, store.files_view()), key@, depth as int),
        ensures
            r.wf_in(store.files_view()),
            r.view_in(store.files_view()) is Some,
            map_of(nview(*r, store.files_view())) == map_of(
                nview(*node, store.files_view()),
            ).insert(key@, value@),
            wf_shape(nview(*r, store.files_view()), depth as int),
            prefix_ok(nview(*r, store.files_view()), key@, depth as int),
            !(nview(*r, store.files_view()) is Empty),
        decreases 256 - depth, (if *node is Hash {
            1int
        } else {
            0int
        }), 2int,
    {
        let ghost fv = store.files_view();
        let ghost t = nview(*node, fv);
        match *node {
            Node::Empty => {
                let nl = Node::new_leaf_node(key.duplicate(), value);
                proof {
                    let nlt = SpecNode::Leaf { key: key@, value: value@ };
                    assert(nl.wf_in(fv));
                    assert(nl.view_in(fv) == Some(nlt));
                    crate::model::lemma_leaf_facts(key@, value@);
                    crate::model::lemma_empty_facts();
                    assert(map_of(nlt) =~= map_of(t).insert(key@, value@));
                    assert forall|k: Seq<u8>, i: int|
                        keys_of(nlt).contains(k) && 0 <= i < depth implies bit_at(k, i) == bit_at(
                        key@,
                        i,
                    ) by {
                        assert(k == key@);
                    }
                }
                Box::new(nl)
            },
            Node::Hash { index, pos, data, is_leaf } => {
                let h = Node::Hash { index, pos, data, is_leaf };
                proof {
                    assert(h.wf_in(fv));
                    assert(h.view_in(fv) == Some(t));
                }
                let resolved = store.resolve(h);
                Self::insert_at(store, resolved, key, value, depth)
            },
            Node::Leaf { index, pos, data, key: k2, value: v2, vindex, vpos, vsize } => {
                let back = Node::Leaf {
                    index,
                    pos,
                    data,
                    key: k2,
                    value: v2,
                    vindex,
                    vpos,
                    vsize,
                };
                proof {
                    assert(back == *node);
                }
                Self::insert_leaf_case(store, Box::new(back), key, value, depth)
            },
            Node::Internal { index, pos, data, left, right } => {
                let back = Node::Internal { index, pos, data, left, right };
                proof {
                    assert(back == *node);
                }
                Self::insert_internal_case(store, Box::new(back), key, value, depth)
            },
        }
    }

    /// Insertion when the subtree is a single leaf: replace it for an
    /// equal key, or split the path where the two keys part ways.
    #[verifier::rlimit(100)]
    fn insert_leaf_case(store: &Store, node: Box<Node>, key: &Digest, value: Vec<u8>, depth: usize) -> (r: Box<Node>)
        requires
            store.wf(),
            node.wf_in(store.files_view()),
            node.view_in(store.files_view()) is Some,
            *node is Leaf,
            key.wf(),
            value@.len() <= 0xffff,
            depth <= 256,
            wf_shape(nview(*node, store.files_view()), depth as int),
            prefix_ok(nview(*node, store.files_view()), key@, depth as int),
        ensures
            r.wf_in(store.files_view()),
            r.view_in(store.files_view()) is Some,
            map_of(nview(*r, store.files_view())) == map_of(
                nview(*node, store.files_view()),
            ).insert(key@, value@),
            wf_shape(nview(*r, store.files_view()), depth as int),
            prefix_ok(nview(*r, store.files_view()), key@, depth as int),
            !(nview(*r, store.files_view()) is Empty),
        decreases 256 - depth, 0int, 1int,
    {
        let ghost fv = store.files_view();
        let ghost t = nview(*node, fv);
        match *node {
            Node::Leaf { index, pos, data, key: k2, value: v2, vindex, vpos, vsize } => {
                proof {
                    lemma_keys_eq_dom(t);
                    assert(keys_of(t).contains(k2@));
                    assert(map_of(t).dom() =~= set![k2@]);
                    assert(map_of(t)[k2@] == t->Leaf_value);
                }
                if key.equals(&k2) {
                    // Same key: if the value is unchanged the subtree is
                    // reused untouched; otherwise a fresh leaf replaces it.
                    let same: bool = match &v2 {
                        Some(v) => {
                            let ghost existing = t->Leaf_value;
                            bytes_equal(v, &value)
                        },
                        None => {
                            match store.get_value(vindex, vpos, vsize) {
                                Ok(v) => bytes_equal(&v, &value),
                                Err(_) => {
                                    proof {
                                        assert(false);
                                    }
                                    false
                                },
                            }
                        },
                    };
                    if same {
                        let back = Node::Leaf {
                            index,
                            pos,
                            data,
                            key: k2,
                            value: v2,
                            vindex,
                            vpos,
                            vsize,
                        };
                        proof {
                            assert(back == *node);
                            assert(back.wf_in(fv));
                            assert(back.view_in(fv) == Some(t));
                            assert(map_of(t)[key@] == value@);
                            assert(map_of(t) =~= map_of(t).insert(key@, value@));
                        }
                        Box::new(back)
                    } else {
                        let nl = Node::new_leaf_node(key.duplicate(), value);
                        proof {
                            let nlt = SpecNode::Leaf { key: key@, value: value@ };
                            assert(nl.wf_in(fv));
                            assert(nl.view_in(fv) == Some(nlt));
                            crate::model::lemma_leaf_facts(key@, value@);
                            assert(map_of(nlt) =~= map_of(t).insert(key@, value@));
                            assert(wf_shape(nlt, depth as int));
                            assert forall|k: Seq<u8>, i: int|
                                keys_of(nlt).contains(k) && 0 <= i < depth implies bit_at(k, i)
                                == bit_at(key@, i) by {
                                assert(k == key@);
                            }
                            assert(prefix_ok(nlt, key@, depth as int));
                        }
                        Box::new(nl)
                    }
                } else {
                    // Two distinct keys: they differ at some bit at or
                    // past this depth, so the split below terminates.
                    proof {
                        crate::model::lemma_distinct_keys_differ(key@, k2@);
                        let i = choose|i: int|
                            0 <= i < 256 && bit_at(key@, i) != bit_at(k2@, i);
                        assert(i >= depth);
                        assert(depth < 256);
                    }
                    let kbit = has_bit(key, depth);
                    let obit = has_bit(&k2, depth);
                    let back = Node::Leaf {
                        index,
                        pos,
                        data,
                        key: k2,
                        value: v2,
                        vindex,
                        vpos,
                        vsize,
                    };
                    proof {
                        assert(back == *node);
                    }
                    if kbit == obit {
                        // Both keys continue on the same side: push the
                        // existing leaf one level down and recurse.
                        proof {
                            assert(prefix_ok(t, key@, depth + 1));
                        }
                        let deeper = Self::insert_at(store, Box::new(back), key, value, depth + 1);
                        let ghost dt = nview(*deeper, fv);
                        proof {
                            assert((*deeper).wf_in(fv));
                            assert((*deeper).view_in(fv) == Some(dt));
                            lemma_keys_eq_dom(dt);
                            assert(map_of(dt).dom().contains(key@));
                            assert(map_of(dt).dom().contains(k2@));
                            if dt is Leaf {
                                assert(map_of(dt).dom() =~= set![dt->Leaf_key]);
                            }
                            assert(dt is Internal);
                        }
                        if kbit {
                            let r = Node::new_internal_node(Node::Empty, *deeper);
                            proof {
                                let rt = nview(r, fv);
                                assert(rt == (SpecNode::Internal {
                                    left: Box::new(SpecNode::Empty),
                                    right: Box::new(dt),
                                }));
                                lemma_empty_facts();
                                lemma_internal_facts(SpecNode::Empty, dt, depth as int);
                                assert(map_of(rt) =~= map_of(dt));
                                assert(map_of(rt) =~= map_of(t).insert(key@, value@));
                                assert forall|k: Seq<u8>| keys_of(dt).contains(k) implies bit_at(
                                    k,
                                    depth as int,
                                ) by {
                                    assert(map_of(dt).dom().contains(k));
                                    assert(k == key@ || k == k2@);
                                }
                                assert(wf_shape(rt, depth as int));
                                assert(r.view_in(fv) is Some);
                                assert(r is Internal);
                                assert(*r->Internal_left == Node::Empty);
                                assert((*r->Internal_left).wf_in(fv));
                                assert((*r->Internal_right).wf_in(fv));
                                assert(r->Internal_pos < POS_LIMIT);
                                assert(r->Internal_index == 0);
                                assert(r.wf_in(fv));
                            }
                            Box::new(r)
                        } else {
                            let r = Node::new_internal_node(*deeper, Node::Empty);
                            proof {
                                let rt = nview(r, fv);
                                assert(rt == (SpecNode::Internal {
                                    left: Box::new(dt),
                                    right: Box::new(SpecNode::Empty),
                                }));
                                lemma_empty_facts();
                                lemma_internal_facts(dt, SpecNode::Empty, depth as int);
                                assert(map_of(rt) =~= map_of(dt));
                                assert(map_of(rt) =~= map_of(t).insert(key@, value@));
                                assert forall|k: Seq<u8>| keys_of(dt).contains(k) implies !bit_at(
                                    k,
                                    depth as int,
                                ) by {
                                    assert(map_of(dt).dom().contains(k));
                                    assert(k == key@ || k == k2@);
                                }
                                assert(wf_shape(rt, depth as int));
                                assert(r.view_in(fv) is Some);
                                assert(r is Internal);
                                assert((*r->Internal_left).wf_in(fv));
                                assert((*r->Internal_right).wf_in(fv));
                                assert(r->Internal_pos < POS_LIMIT);
                                assert(r->Internal_index == 0);
                                assert(r.wf_in(fv));
                            }
                            Box::new(r)
                        }
                    } else {
                        // The keys part ways right here.
                        let nl = Node::new_leaf_node(key.duplicate(), value);
                        let ghost nlt = SpecNode::Leaf { key: key@, value: value@ };
                        proof {
                            assert(nl.view_in(fv) == Some(nlt));
                            assert(nl.wf_in(fv));
                        }
                        if kbit {
                            let r = Node::new_internal_node(back, nl);
                            proof {
                                let rt = nview(r, fv);
                                assert(rt == (SpecNode::Internal {
                                    left: Box::new(t),
                                    right: Box::new(nlt),
                                }));
                                lemma_leaf_facts(key@, value@);
                                lemma_internal_facts(t, nlt, depth as int);
                                assert(map_of(rt) =~= map_of(t).insert(key@, value@));
                                assert(wf_shape(rt, depth as int));
                                assert(r.view_in(fv) is Some);
                                assert(r is Internal);
                                assert((*r->Internal_left).wf_in(fv));
                                assert((*r->Internal_right).wf_in(fv));
                                assert(r->Internal_pos < POS_LIMIT);
                                assert(r->Internal_index == 0);
                                assert(r.wf_in(fv));
                            }
                            Box::new(r)
                        } else {
                            let r = Node::new_internal_node(nl, back);
                            proof {
                                let rt = nview(r, fv);
                                assert(rt == (SpecNode::Internal {
                                    left: Box::new(nlt),
                                    right: Box::new(t),
                                }));
                                lemma_leaf_facts(key@, value@);
                                lemma_internal_facts(nlt, t, depth as int);
                                assert(map_of(rt) =~= map_of(t).insert(key@, value@));
                                assert(wf_shape(rt, depth as int));
                                assert(r.view_in(fv) is Some);
                                assert(r is Internal);
                                assert((*r->Internal_left).wf_in(fv));
                                assert((*r->Internal_right).wf_in(fv));
                                assert(r->Internal_pos < POS_LIMIT);
                                assert(r->Internal_index == 0);
                                assert(r.wf_in(fv));
                            }
                            Box::new(r)
                        }
                    }
                }
            },
            _ => {
                proof {
                    assert(false);
                }
                node
            },
        }
    }

    /// Insertion below an internal node: descend along the key's bit and
    /// rebuild this node over the changed child.
    #[verifier::rlimit(100)]
    fn insert_internal_case(store: &Store, node: Box<Node>, key: &Digest, value: Vec<u8>, depth: usize) -> (r: Box<Node>)
        requires
            store.wf(),
            node.wf_in(store.files_view()),
            node.view_in(store.files_view()) is Some,
            *node is Internal,
            key.wf(),
            value@.len() <= 0xffff,
            depth <= 256,
            wf_shape(nview(*node, store.files_view()), depth as int),
            prefix_ok(nview(*node, store.files_view()), key@, depth as int),
        ensures
            r.wf_in(store.files_view()),
            r.view_in(store.files_view()) is Some,
            map_of(nview(*r, store.files_view())) == map_of(
                nview(*node, store.files_view()),
            ).insert(key@, value@),
            wf_shape(nview(*r, store.files_view()), depth as int),
            prefix_ok(nview(*r, store.files_view()), key@, depth as int),
            !(nview(*r, store.files_view()) is Empty),
        decreases 256 - depth, 0int, 1int,
    {
        let ghost fv = store.files_view();
        let ghost t = nview(*node, fv);
        match *node {
            Node::Internal { index, pos, data, left, right } => {
                proof {
                    lemma_split(t, depth as int);
                    lemma_keys_eq_dom(nview(*left, fv));
                    lemma_keys_eq_dom(nview(*right, fv));
                    lemma_internal_two_keys(t, depth as int);
                }
                let ghost lt = nview(*left, fv);
                let ghost rt0 = nview(*right, fv);
                if has_bit(key, depth) {
                    proof {
                        assert(prefix_ok(rt0, key@, depth + 1));
                    }
                    let nr = Self::insert_at(store, right, key, value, depth + 1);
                    let ghost nrt = nview(*nr, fv);
                    let r = Node::Internal {
                        index: 0,
                        pos: 0,
                        data: Digest::zero(),
                        left,
                        right: nr,
                    };
                    proof {
                        let rt = nview(r, fv);
                        assert(rt == (SpecNode::Internal {
                            left: Box::new(lt),
                            right: Box::new(nrt),
                        }));
                        lemma_internal_facts(lt, nrt, depth as int);
                        lemma_keys_eq_dom(nrt);
                        assert(!map_of(lt).dom().contains(key@)) by {
                            if map_of(lt).dom().contains(key@) {
                                assert(keys_of(lt).contains(key@));
                            }
                        }
                        lemma_union_insert_right(map_of(lt), map_of(rt0), key@, value@);
                        assert(map_of(rt) =~= map_of(t).insert(key@, value@));
                        assert forall|k: Seq<u8>| keys_of(nrt).contains(k) implies bit_at(
                            k,
                            depth as int,
                        ) by {
                            assert(map_of(nrt).dom().contains(k));
                            assert(k == key@ || map_of(rt0).dom().contains(k));
                            if k != key@ {
                                assert(keys_of(rt0).contains(k));
                            }
                        }
                        if lt is Empty && nrt is Leaf {
                            assert(rt0 is Internal);
                            lemma_internal_two_keys(rt0, depth + 1);
                            let (k1, k2) = choose|k1: Seq<u8>, k2: Seq<u8>|
                                keys_of(rt0).contains(k1) && keys_of(rt0).contains(k2) && k1
                                    != k2;
                            assert(map_of(rt0).dom().contains(k1));
                            assert(map_of(rt0).dom().contains(k2));
                            assert(map_of(nrt).dom().contains(k1));
                            assert(map_of(nrt).dom().contains(k2));
                            assert(keys_of(nrt).contains(k1));
                            assert(keys_of(nrt).contains(k2));
                            assert(keys_of(nrt) =~= set![nrt->Leaf_key]);
                            assert(false);
                        }
                        assert(wf_shape(rt, depth as int));
                        assert forall|k: Seq<u8>, i: int|
                            keys_of(rt).contains(k) && 0 <= i < depth implies bit_at(k, i)
                            == bit_at(key@, i) by {
                            if keys_of(lt).contains(k) {
                                assert(keys_of(t).contains(k));
                            } else {
                                assert(keys_of(nrt).contains(k));
                            }
                        }
                        assert(prefix_ok(rt, key@, depth as int));
                        assert(r.view_in(fv) is Some);
                        assert(r is Internal);
                        assert((*r->Internal_left).wf_in(fv));
                        assert((*r->Internal_right).wf_in(fv));
                        assert(r->Internal_pos < POS_LIMIT);
                        assert(r->Internal_index == 0);
                        assert(r.wf_in(fv));
                    }
                    Box::new(r)
                } else {
                    proof {
                        assert(prefix_ok(lt, key@, depth + 1));
                    }
                    let nl = Self::insert_at(store, left, key, value, depth + 1);
                    let ghost nlt2 = nview(*nl, fv);
                    let r = Node::Internal {
                        index: 0,
                        pos: 0,
                        data: Digest::zero(),
                        left: nl,
                        right,
                    };
                    proof {
                        let rt = nview(r, fv);
                        assert(rt == (SpecNode::Internal {
                            left: Box::new(nlt2),
                            right: Box::new(rt0),
                        }));
                        lemma_internal_facts(nlt2, rt0, depth as int);
                        lemma_keys_eq_dom(nlt2);
                        assert(!map_of(rt0).dom().contains(key@)) by {
                            if map_of(rt0).dom().contains(key@) {
                                assert(keys_of(rt0).contains(key@));
                            }
                        }
                        lemma_union_insert_left(map_of(lt), map_of(rt0), key@, value@);
                        assert(map_of(rt) =~= map_of(t).insert(key@, value@));
                        assert forall|k: Seq<u8>| keys_of(nlt2).contains(k) implies !bit_at(
                            k,
                            depth as int,
                        ) by {
                            assert(map_of(nlt2).dom().contains(k));
                            assert(k == key@ || map_of(lt).dom().contains(k));
                            if k != key@ {
                                assert(keys_of(lt).contains(k));
                            }
                        }
                        if rt0 is Empty && nlt2 is Leaf {
                            assert(lt is Internal);
                            lemma_internal_two_keys(lt, depth + 1);
                            let (k1, k2) = choose|k1: Seq<u8>, k2: Seq<u8>|
                                keys_of(lt).contains(k1) && keys_of(lt).contains(k2) && k1 != k2;
                            assert(map_of(lt).dom().contains(k1));
                            assert(map_of(lt).dom().contains(k2));
                            assert(map_of(nlt2).dom().contains(k1));
                            assert(map_of(nlt2).dom().contains(k2));
                            assert(keys_of(nlt2).contains(k1));
                            assert(keys_of(nlt2).contains(k2));
                            assert(keys_of(nlt2) =~= set![nlt2->Leaf_key]);
                            assert(false);
                        }
                        assert(wf_shape(rt, depth as int));
                        assert forall|k: Seq<u8>, i: int|
                            keys_of(rt).contains(k) && 0 <= i < depth implies bit_at(k, i)
                            == bit_at(key@, i) by {
                            if keys_of(rt0).contains(k) {
                                assert(keys_of(t).contains(k));
                            } else {
                                assert(keys_of(nlt2).contains(k));
                            }
                        }
                        assert(prefix_ok(rt, key@, depth as int));
                        assert(r.view_in(fv) is Some);
                        assert(r is Internal);
                        assert((*r->Internal_left).wf_in(fv));
                        assert((*r->Internal_right).wf_in(fv));
                        assert(r->Internal_pos < POS_LIMIT);
                        assert(r->Internal_index == 0);
                        assert(r.wf_in(fv));
                    }
                    Box::new(r)
                }
            },
            _ => {
                proof {
                    assert(false);
                }
                node
            },
        }
    }
}

/// Byte-for-byte equality of two byte vectors.
fn bytes_equal(a: &Vec<u8>, b: &Vec<u8>) -> (r: bool)
    ensures
        r == (a@ == b@),
{
    if a.len() != b.len() {
        return false;
    }
    let n: usize = a.len();
    let mut i: usize = 0;
    while i < n
        invariant
            n == a@.len(),
            n == b@.len(),
            i <= n,
            forall|j: int| 0 <= j < i ==> a@[j] == b@[j],
        decreases n - i,
    {
        if a[i] != b[i] {
            return false;
        }
        i = i + 1;
    }
    proof {
        assert(a@ =~= b@);
    }
    true
}


/// Removing on the right half commutes with the union when the key is
/// not on the left.
proof fn lemma_union_remove_right(
    ml: Map<Seq<u8>, Seq<u8>>,
    mr: Map<Seq<u8>, Seq<u8>>,
    k: Seq<u8>,
)
    requires
        !ml.dom().contains(k),
    ensures
        ml.union_prefer_right(mr).remove(k) =~= ml.union_prefer_right(mr.remove(k)),
{
}

/// Removing on the left half commutes with the union when the key is
/// not on the right.
proof fn lemma_union_remove_left(
    ml: Map<Seq<u8>, Seq<u8>>,
    mr: Map<Seq<u8>, Seq<u8>>,
    k: Seq<u8>,
)
    requires
        !mr.dom().contains(k),
    ensures
        ml.union_prefer_right(mr).remove(k) =~= ml.remove(k).union_prefer_right(mr),
{
}

impl UrkelTree {
    /// A well-formed node's lazy kind flag agrees with the kind of the
    /// subtree it denotes, and only the Empty node denotes the empty
    /// subtree.
    proof fn lemma_view_kind(n: Node, fv: Seq<Seq<u8>>)
        requires
            n.wf_in(fv),
            n.view_in(fv) is Some,
        ensures
            (n.view_in(fv).unwrap() is Leaf) <==> n.spec_is_leaf(),
            (n.view_in(fv).unwrap() is Empty) <==> n is Empty,
            (n.view_in(fv).unwrap() is Internal) <==> (!n.spec_is_leaf() && !(n is Empty)),
    {
        match n {
            Node::Empty => {},
            Node::Hash { index, pos, is_leaf, .. } => {
                if is_leaf == 1 {
                    assert(stored_view(fv, index as int, pos as int, true)
                        == crate::node::stored_leaf_view(fv, index as int, pos as int));
                }
            },
            Node::Leaf { .. } => {},
            Node::Internal { left, right, .. } => {
                (*left).lemma_wf_view_some(fv);
                (*right).lemma_wf_view_some(fv);
            },
        }
    }

    /// Remove the value stored under `key`, restoring the canonical
    /// shape (a leaf left with an empty sibling bubbles up).
    pub fn remove(&mut self, key: &[u8])
        requires
            old(self).wf(),
        ensures
            final(self).wf(),
            final(self)@ == old(self)@.remove(crate::hasher::blake2b_of(key@)),
            final(self).fv() == old(self).fv(),
            final(self).spec_synced() == old(self).spec_synced(),
    {
        let hashed = hash(key);
        let root = self.root.take().unwrap();
        let newroot = Self::remove_at(&self.store, root, &hashed, 0);
        self.root = Some(newroot);
    }

    /// Recursive descent for removal at `depth`, returning the new
    /// subtree. The subtree's map loses exactly the `key` binding.
    fn remove_at(store: &Store, node: Box<Node>, key: &Digest, depth: usize) -> (r: Box<Node>)
        requires
            store.wf(),
            node.wf_in(store.files_view()),
            node.view_in(store.files_view()) is Some,
            key.wf(),
            depth <= 256,
            wf_shape(nview(*node, store.files_view()), depth as int),
            prefix_ok(nview(*node, store.files_view()), key@, depth as int),
        ensures
            r.wf_in(store.files_view()),
            r.view_in(store.files_view()) is Some,
            map_of(nview(*r, store.files_view())) == map_of(
                nview(*node, store.files_view()),
            ).remove(key@),
            wf_shape(nview(*r, store.files_view()), depth as int),
            prefix_ok(nview(*r, store.files_view()), key@, depth as int),
        decreases 256 - depth, (if *node is Hash {
            1int
        } else {
            0int
        }), 2int,
    {
        let ghost fv = store.files_view();
        let ghost t = nview(*node, fv);
        match *node {
            Node::Empty => {
                proof {
                    crate::model::lemma_empty_facts();
                    assert(map_of(t) =~= map_of(t).remove(key@));
                }
                Box::new(Node::Empty)
            },
            Node::Hash { index, pos, data, is_leaf } => {
                let h = Node::Hash { index, pos, data, is_leaf };
                proof {
                    assert(h.wf_in(fv));
                    assert(h.view_in(fv) == Some(t));
                }
                let resolved = store.resolve(h);
                Self::remove_at(store, resolved, key, depth)
            },
            Node::Leaf { index, pos, data, key: k2, value: v2, vindex, vpos, vsize } => {
                proof {
                    lemma_keys_eq_dom(t);
                    assert(keys_of(t).contains(k2@));
                    assert(map_of(t).dom() =~= set![k2@]);
                }
                if key.equals(&k2) {
                    proof {
                        crate::model::lemma_empty_facts();
                        assert(map_of(SpecNode::Empty) =~= map_of(t).remove(key@));
                    }
                    Box::new(Node::Empty)
                } else {
                    let back = Node::Leaf {
                        index,
                        pos,
                        data,
                        key: k2,
                        value: v2,
                        vindex,
                        vpos,
                        vsize,
                    };
                    proof {
                        assert(back == *node);
                        assert(map_of(t) =~= map_of(t).remove(key@));
                    }
                    Box::new(back)
                }
            },
            Node::Internal { index, pos, data, left, right } => {
                let back = Node::Internal { index, pos, data, left, right };
                proof {
                    assert(back == *node);
                }
                Self::remove_internal_case(store, Box::new(back), key, depth)
            },
        }
    }

    /// Removal below an internal node: descend along the key's bit, then
    /// restore the canonical shape — a leaf whose sibling became Empty
    /// replaces this node one level up.
    #[verifier::rlimit(100)]
    fn remove_internal_case(store: &Store, node: Box<Node>, key: &Digest, depth: usize) -> (r: Box<Node>)
        requires
            store.wf(),
            node.wf_in(store.files_view()),
            node.view_in(store.files_view()) is Some,
            *node is Internal,
            key.wf(),
            depth <= 256,
            wf_shape(nview(*node, store.files_view()), depth as int),
            prefix_ok(nview(*node, store.files_view()), key@, depth as int),
        ensures
            r.wf_in(store.files_view()),
            r.view_in(store.files_view()) is Some,
            map_of(nview(*r, store.files_view())) == map_of(
                nview(*node, store.files_view()),
            ).remove(key@),
            wf_shape(nview(*r, store.files_view()), depth as int),
            prefix_ok(nview(*r, store.files_view()), key@, depth as int),
        decreases 256 - depth, 0int, 1int,
    {
        let ghost fv = store.files_view();
        let ghost t = nview(*node, fv);
        match *node {
            Node::Internal { index, pos, data, left, right } => {
                proof {
                    lemma_split(t, depth as int);
                    lemma_keys_eq_dom(nview(*left, fv));
                    lemma_keys_eq_dom(nview(*right, fv));
                }
                let ghost lt = nview(*left, fv);
                let ghost rt0 = nview(*right, fv);
                if has_bit(key, depth) {
                    proof {
                        assert(prefix_ok(rt0, key@, depth + 1));
                    }
                    let cnew = Self::remove_at(store, right, key, depth + 1);
                    let ghost ct = nview(*cnew, fv);
                    proof {
                        assert((*cnew).wf_in(fv));
                        assert((*cnew).view_in(fv) == Some(ct));
                        assert((*left).wf_in(fv));
                        assert((*left).view_in(fv) == Some(lt));
                        assert(!map_of(lt).dom().contains(key@)) by {
                            if map_of(lt).dom().contains(key@) {
                                assert(keys_of(lt).contains(key@));
                            }
                        }
                        lemma_union_remove_right(map_of(lt), map_of(rt0), key@);
                        Self::lemma_view_kind(*cnew, fv);
                        Self::lemma_view_kind(*left, fv);
                        lemma_keys_eq_dom(ct);
                        crate::model::lemma_empty_facts();
                    }
                    let cnew_empty = cnew.is_empty();
                    let cnew_leaf = cnew.is_leaf();
                    let other_empty = left.is_empty();
                    let other_leaf = left.is_leaf();
                    if cnew_empty && other_leaf {
                        proof {
                            assert(ct is Empty);
                            assert(lt is Leaf);
                            assert(map_of(lt) =~= map_of(t).remove(key@));
                        }
                        left
                    } else if cnew_leaf && other_empty {
                        proof {
                            assert(ct is Leaf);
                            assert(lt is Empty);
                            assert(map_of(ct) =~= map_of(t).remove(key@));
                        }
                        cnew
                    } else {
                        proof {
                            if ct is Empty && lt is Empty {
                                assert(rt0 is Internal);
                                lemma_internal_two_keys(rt0, depth + 1);
                                let (k1, k2) = choose|k1: Seq<u8>, k2: Seq<u8>|
                                    keys_of(rt0).contains(k1) && keys_of(rt0).contains(k2) && k1
                                        != k2;
                                assert(map_of(rt0).dom().contains(k1));
                                assert(map_of(rt0).dom().contains(k2));
                                assert(map_of(ct).dom().contains(k1) || map_of(
                                    ct,
                                ).dom().contains(k2));
                                assert(false);
                            }
                        }
                        let r = Node::Internal {
                            index: 0,
                            pos: 0,
                            data: Digest::zero(),
                            left,
                            right: cnew,
                        };
                        proof {
                            let rt = nview(r, fv);
                            assert(rt == (SpecNode::Internal {
                                left: Box::new(lt),
                                right: Box::new(ct),
                            }));
                            lemma_internal_facts(lt, ct, depth as int);
                            assert(map_of(rt) =~= map_of(t).remove(key@));
                            assert forall|k: Seq<u8>| keys_of(ct).contains(k) implies bit_at(
                                k,
                                depth as int,
                            ) by {
                                assert(map_of(ct).dom().contains(k));
                                assert(map_of(rt0).dom().contains(k));
                                assert(keys_of(rt0).contains(k));
                            }
                            assert(!(lt is Empty && ct is Empty));
                            assert(!(lt is Leaf && ct is Empty));
                            assert(!(lt is Empty && ct is Leaf));
                            assert(wf_shape(rt, depth as int));
                            assert forall|k: Seq<u8>, i: int|
                                keys_of(rt).contains(k) && 0 <= i < depth implies bit_at(k, i)
                                == bit_at(key@, i) by {
                                if keys_of(lt).contains(k) {
                                    assert(keys_of(t).contains(k));
                                } else {
                                    assert(keys_of(ct).contains(k));
                                    assert(keys_of(rt0).contains(k));
                                    assert(keys_of(t).contains(k));
                                }
                            }
                            assert(prefix_ok(rt, key@, depth as int));
                            assert(r is Internal);
                            assert((*r->Internal_left).wf_in(fv));
                            assert((*r->Internal_right).wf_in(fv));
                            assert(r->Internal_pos < POS_LIMIT);
                            assert(r->Internal_index == 0);
                            assert(r.wf_in(fv));
                        }
                        Box::new(r)
                    }
                } else {
                    proof {
                        assert(prefix_ok(lt, key@, depth + 1));
                    }
                    let cnew = Self::remove_at(store, left, key, depth + 1);
                    let ghost ct = nview(*cnew, fv);
                    proof {
                        assert((*cnew).wf_in(fv));
                        assert((*cnew).view_in(fv) == Some(ct));
                        assert((*right).wf_in(fv));
                        assert((*right).view_in(fv) == Some(rt0));
                        assert(!map_of(rt0).dom().contains(key@)) by {
                            if map_of(rt0).dom().contains(key@) {
                                assert(keys_of(rt0).contains(key@));
                            }
                        }
                        lemma_union_remove_left(map_of(lt), map_of(rt0), key@);
                        Self::lemma_view_kind(*cnew, fv);
                        Self::lemma_view_kind(*right, fv);
                        lemma_keys_eq_dom(ct);
                        crate::model::lemma_empty_facts();
                    }
                    let cnew_empty = cnew.is_empty();
                    let cnew_leaf = cnew.is_leaf();
                    let other_empty = right.is_empty();
                    let other_leaf = right.is_leaf();
                    if cnew_empty && other_leaf {
                        proof {
                            assert(ct is Empty);
                            assert(rt0 is Leaf);
                            assert(map_of(rt0) =~= map_of(t).remove(key@));
                        }
                        right
                    } else if cnew_leaf && other_empty {
                        proof {
                            assert(ct is Leaf);
                            assert(rt0 is Empty);
                            assert(map_of(ct) =~= map_of(t).remove(key@));
                        }
                        cnew
                    } else {
                        proof {
                            if ct is Empty && rt0 is Empty {
                                assert(lt is Internal);
                                lemma_internal_two_keys(lt, depth + 1);
                                let (k1, k2) = choose|k1: Seq<u8>, k2: Seq<u8>|
                                    keys_of(lt).contains(k1) && keys_of(lt).contains(k2) && k1
                                        != k2;
                                assert(map_of(lt).dom().contains(k1));
                                assert(map_of(lt).dom().contains(k2));
                                assert(map_of(ct).dom().contains(k1) || map_of(
                                    ct,
                                ).dom().contains(k2));
                                assert(false);
                            }
                        }
                        let r = Node::Internal {
                            index: 0,
                            pos: 0,
                            data: Digest::zero(),
                            left: cnew,
                            right,
                        };
                        proof {
                            let rt = nview(r, fv);
                            assert(rt == (SpecNode::Internal {
                                left: Box::new(ct),
                                right: Box::new(rt0),
                            }));
                            lemma_internal_facts(ct, rt0, depth as int);
                            assert(map_of(rt) =~= map_of(t).remove(key@));
                            assert forall|k: Seq<u8>| keys_of(ct).contains(k) implies !bit_at(
                                k,
                                depth as int,
                            ) by {
                                assert(map_of(ct).dom().contains(k));
                                assert(map_of(lt).dom().contains(k));
                                assert(keys_of(lt).contains(k));
                            }
                            assert(!(ct is Empty && rt0 is Empty));
                            assert(!(ct is Leaf && rt0 is Empty));
                            assert(!(ct is Empty && rt0 is Leaf));
                            assert(wf_shape(rt, depth as int));
                            assert forall|k: Seq<u8>, i: int|
                                keys_of(rt).contains(k) && 0 <= i < depth implies bit_at(k, i)
                                == bit_at(key@, i) by {
                                if keys_of(rt0).contains(k) {
                                    assert(keys_of(t).contains(k));
                                } else {
                                    assert(keys_of(ct).contains(k));
                                    assert(keys_of(lt).contains(k));
                                    assert(keys_of(t).contains(k));
                                }
                            }
                            assert(prefix_ok(rt, key@, depth as int));
                            assert(r is Internal);
                            assert((*r->Internal_left).wf_in(fv));
                            assert((*r->Internal_right).wf_in(fv));
                            assert(r->Internal_pos < POS_LIMIT);
                            assert(r->Internal_index == 0);
                            assert(r.wf_in(fv));
                        }
                        Box::new(r)
                    }
                }
            },
            _ => {
                proof {
                    assert(false);
                }
                node
            },
        }
    }
}


/// The digest a proof outcome starts its fold from, before the proof
/// object is assembled: zero for a dead end, the colliding leaf's digest,
/// or the leaf digest of the queried key and found value.
pub open spec fn outcome_digest(
    pt: ProofType,
    k2: Option<Digest>,
    vh: Option<Digest>,
    value: Option<Vec<u8>>,
    kb: Seq<u8>,
) -> Seq<u8> {
    match pt {
        ProofType::Deadend => zero32(),
        ProofType::Collision => crate::hasher::blake2b_of(
            seq![crate::LEAF_PREFIX] + k2.unwrap()@ + vh.unwrap()@,
        ),
        ProofType::Exists => leaf_digest(kb, value.unwrap()@),
    }
}

/// Everything [`UrkelTree::prove`] promises of the proof it returns for
/// the hashed key `kb`: the sibling fold reproduces the root digest, the
/// proof type says exactly whether `kb` is present, a present key carries
/// its value, and an absence proof can never be mistaken for the key.
pub open spec fn prove_post(tree: UrkelTree, p: Proof, kb: Seq<u8>) -> bool {
    &&& p.sibs().len() <= 256
    &&& spec_fold(p.sibs(), 0, proof_term_digest(p, kb), kb) == tree.root_digest()
    &&& (p.proof_type == ProofType::Exists <==> tree@.dom().contains(kb))
    &&& (p.proof_type == ProofType::Exists ==> spec_sane(p) && p.value.unwrap()@ == tree@[kb])
    &&& (p.proof_type == ProofType::Collision ==> spec_sane(p) && p.key.unwrap()@ != kb)
    &&& (p.proof_type == ProofType::Deadend ==> p.key is None && p.hash is None && p.value is None)
}

/// For every key present in a well-formed tree, the proof produced for it
/// verifies against the root digest and carries exactly the stored value;
/// for every absent key the proof is a collision or dead end, which the
/// verifier never rewards with a value.
pub proof fn lemma_prove_then_verify(tree: UrkelTree, p: Proof, kb: Seq<u8>)
    requires
        tree.wf(),
        prove_post(tree, p, kb),
    ensures
        tree@.dom().contains(kb) ==> p.proof_type == ProofType::Exists && p.spec_verify_ok(
            tree.root_digest(),
            kb,
        ) && p.value.unwrap()@ == tree@[kb],
        !tree@.dom().contains(kb) ==> p.proof_type != ProofType::Exists,
{
}

impl UrkelTree {
    /// Produce a Merkle proof for `key`: the sibling digests along its
    /// path, ending in the value found, a colliding leaf, or a dead end.
    pub fn prove(&self, key: &[u8]) -> (p: Proof)
        requires
            self.wf(),
        ensures
            prove_post(*self, p, crate::hasher::blake2b_of(key@)),
    {
        let hashed = hash(key);
        let mut sibs: Vec<Digest> = Vec::new();
        let root: &Node = match &self.root {
            Some(n) => n,
            None => {
                proof {
                    assert(false);
                }
                return Proof::empty();
            },
        };
        let (pt, k2, vh, value) = Self::prove_at(&self.store, root, &hashed, 0, &mut sibs);
        let ghost sv = sibs@;
        let p = Proof::assemble(sibs, pt, k2, vh, value);
        proof {
            let fv = self.store.files_view();
            assert(p.sibs() == digests_view(sv));
            assert(sv.skip(0) =~= sv);
            assert(proof_term_digest(p, hashed@) == outcome_digest(pt, k2, vh, value, hashed@));
            assert(nview(*root, fv) == self.rtree());
            assert(spec_fold(p.sibs(), 0, proof_term_digest(p, hashed@), hashed@)
                == self.root_digest());
            assert(self@ == map_of(self.rtree()));
        }
        p
    }

    /// Recursive descent for proof generation: at each internal node push
    /// the opposite child's digest and follow the key's bit.
    #[verifier::rlimit(100)]
    fn prove_at(
        store: &Store,
        node: &Node,
        key: &Digest,
        depth: usize,
        sibs: &mut Vec<Digest>,
    ) -> (out: (ProofType, Option<Digest>, Option<Digest>, Option<Vec<u8>>))
        requires
            store.wf(),
            node.wf_in(store.files_view()),
            node.view_in(store.files_view()) is Some,
            key.wf(),
            depth <= 256,
            old(sibs)@.len() == depth,
            wf_shape(nview(*node, store.files_view()), depth as int),
            prefix_ok(nview(*node, store.files_view()), key@, depth as int),
        ensures
            final(sibs)@.len() <= 256,
            final(sibs)@.len() >= depth as int,
            final(sibs)@.subrange(0, depth as int) == old(sibs)@,
            spec_fold(
                digests_view(final(sibs)@.skip(depth as int)),
                depth as int,
                outcome_digest(out.0, out.1, out.2, out.3, key@),
                key@,
            ) == tree_hash(nview(*node, store.files_view())),
            out.0 == ProofType::Exists <==> map_of(
                nview(*node, store.files_view()),
            ).dom().contains(key@),
            out.0 == ProofType::Exists ==> out.1 is None && out.2 is None && out.3 is Some
                && out.3.unwrap()@.len() <= 0xffff && out.3.unwrap()@ == map_of(
                nview(*node, store.files_view()),
            )[key@],
            out.0 == ProofType::Collision ==> out.1 is Some && out.1.unwrap()@.len() == 32
                && out.1.unwrap()@ != key@ && out.2 is Some && out.2.unwrap()@.len() == 32
                && out.3 is None,
            out.0 == ProofType::Deadend ==> out.1 is None && out.2 is None && out.3 is None,
        decreases 256 - depth, (if node is Hash {
            1int
        } else {
            0int
        }),
    {
        let ghost fv = store.files_view();
        let ghost t = nview(*node, fv);
        match node {
            Node::Empty => {
                proof {
                    crate::model::lemma_empty_facts();
                    assert(sibs@.skip(depth as int) =~= Seq::<Digest>::empty());
                    assert(digests_view(Seq::<Digest>::empty()) =~= Seq::<Seq<u8>>::empty());
                    assert(sibs@.subrange(0, depth as int) =~= sibs@);
                }
                (ProofType::Deadend, None, None, None)
            },
            Node::Hash { index, pos, data, is_leaf } => {
                let copy = Node::Hash {
                    index: *index,
                    pos: *pos,
                    data: data.duplicate(),
                    is_leaf: *is_leaf,
                };
                proof {
                    assert(copy.wf_in(fv));
                    assert(copy.view_in(fv) == node.view_in(fv));
                }
                let resolved = store.resolve(copy);
                Self::prove_at(store, &resolved, key, depth, sibs)
            },
            Node::Leaf { key: k2, value, vindex, vpos, vsize, .. } => {
                proof {
                    lemma_keys_eq_dom(t);
                    assert(keys_of(t).contains(k2@));
                    assert(map_of(t).dom() =~= set![k2@]);
                    assert(map_of(t)[k2@] == t->Leaf_value);
                }
                let v: Vec<u8> = match value {
                    Some(v) => crate::encoding::copy_range(v.as_slice(), 0, v.len()),
                    None => {
                        match store.get_value(*vindex, *vpos, *vsize) {
                            Ok(v) => v,
                            Err(_) => {
                                proof {
                                    assert(false);
                                }
                                Vec::new()
                            },
                        }
                    },
                };
                proof {
                    assert(v@ == t->Leaf_value);
                    assert(sibs@.skip(depth as int) =~= Seq::<Digest>::empty());
                    assert(digests_view(Seq::<Digest>::empty()) =~= Seq::<Seq<u8>>::empty());
                    assert(sibs@.subrange(0, depth as int) =~= sibs@);
                }
                if key.equals(k2) {
                    proof {
                        assert(t == (SpecNode::Leaf { key: key@, value: v@ }));
                    }
                    (ProofType::Exists, None, None, Some(v))
                } else {
                    let vh = hash(v.as_slice());
                    let kc = k2.duplicate();
                    proof {
                        assert(crate::hasher::blake2b_of(
                            seq![crate::LEAF_PREFIX] + kc@ + vh@,
                        ) == leaf_digest(k2@, v@));
                        assert(tree_hash(t) == leaf_digest(k2@, v@));
                    }
                    (ProofType::Collision, Some(kc), Some(vh), None)
                }
            },
            Node::Internal { left, right, .. } => {
                proof {
                    lemma_split(t, depth as int);
                    lemma_keys_eq_dom(nview(**left, fv));
                    lemma_keys_eq_dom(nview(**right, fv));
                }
                let ghost lt = nview(**left, fv);
                let ghost rt0 = nview(**right, fv);
                if has_bit(key, depth) {
                    let opp = left.hash();
                    proof {
                        assert((**left).wf_in(fv));
                        assert(opp@ == tree_hash(lt));
                        assert(prefix_ok(rt0, key@, depth + 1));
                    }
                    let ghost before = sibs@;
                    sibs.push(opp);
                    let ghost mid = sibs@;
                    proof {
                        assert(mid == before.push(opp));
                        assert(mid[depth as int] == opp);
                    }
                    let out = Self::prove_at(store, right, key, depth + 1, sibs);
                    proof {
                        assert(sibs@.subrange(0, depth + 1) == mid);
                        assert(mid.len() == depth + 1);
                        assert forall|i: int| 0 <= i < depth + 1 implies sibs@[i] == mid[i] by {
                            assert(sibs@.subrange(0, depth + 1)[i] == sibs@[i]);
                        }
                        assert(sibs@.subrange(0, depth as int) =~= mid.subrange(
                            0,
                            depth as int,
                        ));
                        assert(mid.subrange(0, depth as int) =~= old(sibs)@);
                        assert(sibs@[depth as int] == opp);
                        assert(sibs@.skip(depth as int) =~= seq![opp] + sibs@.skip(depth + 1));
                        let dv = digests_view(sibs@.skip(depth as int));
                        assert(dv[0] == opp@);
                        assert(dv.skip(1) =~= digests_view(sibs@.skip(depth + 1)));
                        let term = outcome_digest(out.0, out.1, out.2, out.3, key@);
                        assert(spec_fold(dv, depth as int, term, key@) == internal_digest(
                            opp@,
                            spec_fold(digests_view(sibs@.skip(depth + 1)), depth + 1, term, key@),
                        ));
                        assert(tree_hash(t) == internal_digest(tree_hash(lt), tree_hash(rt0)));
                        if map_of(t).dom().contains(key@) {
                            assert(map_of(rt0).dom().contains(key@));
                        }
                        if map_of(rt0).dom().contains(key@) {
                            assert(map_of(t).dom().contains(key@));
                            assert(map_of(t)[key@] == map_of(rt0)[key@]);
                        }
                    }
                    out
                } else {
                    let opp = right.hash();
                    proof {
                        assert((**right).wf_in(fv));
                        assert(opp@ == tree_hash(rt0));
                        assert(prefix_ok(lt, key@, depth + 1));
                    }
                    let ghost before = sibs@;
                    sibs.push(opp);
                    let ghost mid = sibs@;
                    proof {
                        assert(mid == before.push(opp));
                        assert(mid[depth as int] == opp);
                    }
                    let out = Self::prove_at(store, left, key, depth + 1, sibs);
                    proof {
                        assert(sibs@.subrange(0, depth + 1) == mid);
                        assert(mid.len() == depth + 1);
                        assert forall|i: int| 0 <= i < depth + 1 implies sibs@[i] == mid[i] by {
                            assert(sibs@.subrange(0, depth + 1)[i] == sibs@[i]);
                        }
                        assert(sibs@.subrange(0, depth as int) =~= mid.subrange(
                            0,
                            depth as int,
                        ));
                        assert(mid.subrange(0, depth as int) =~= old(sibs)@);
                        assert(sibs@[depth as int] == opp);
                        assert(sibs@.skip(depth as int) =~= seq![opp] + sibs@.skip(depth + 1));
                        let dv = digests_view(sibs@.skip(depth as int));
                        assert(dv[0] == opp@);
                        assert(dv.skip(1) =~= digests_view(sibs@.skip(depth + 1)));
                        let term = outcome_digest(out.0, out.1, out.2, out.3, key@);
                        assert(spec_fold(dv, depth as int, term, key@) == internal_digest(
                            spec_fold(digests_view(sibs@.skip(depth + 1)), depth + 1, term, key@),
                            opp@,
                        ));
                        assert(tree_hash(t) == internal_digest(tree_hash(lt), tree_hash(rt0)));
                        if map_of(t).dom().contains(key@) {
                            assert(map_of(lt).dom().contains(key@));
                        }
                        if map_of(lt).dom().contains(key@) {
                            assert(map_of(t).dom().contains(key@));
                            assert(map_of(t)[key@] == map_of(lt)[key@]);
                        }
                    }
                    out
                }
            },
        }
    }
}


/// How many bytes the commit walk appends for the dirty part of a
/// subtree: each in-memory leaf costs its value blob plus a 40-byte
/// record, each unpersisted internal node a 76-byte record.
pub open spec fn spec_dirty_size(n: Node) -> int
    decreases n,
{
    match n {
        Node::Empty => 0,
        Node::Hash { .. } => 0,
        Node::Leaf { value, .. } => if value is Some {
            40 + value.unwrap()@.len() as int
        } else {
            0
        },
        Node::Internal { index, left, right, .. } => (if index == 0 {
            76int
        } else {
            0int
        }) + spec_dirty_size(*left) + spec_dirty_size(*right),
    }
}

/// The dirty size is never negative.
proof fn lemma_dirty_size_nonneg(n: Node)
    ensures
        spec_dirty_size(n) >= 0,
    decreases n,
{
    match n {
        Node::Internal { left, right, .. } => {
            lemma_dirty_size_nonneg(*left);
            lemma_dirty_size_nonneg(*right);
        },
        _ => {},
    }
}

/// Every file extends itself.
proof fn lemma_files_extend_refl(f: Seq<Seq<u8>>)
    ensures
        files_extend(f, f),
{
    assert forall|i: int| 0 <= i < f.len() implies f[i].is_prefix_of(#[trigger] f[i]) by {
        assert(f[i].subrange(0, f[i].len() as int) =~= f[i]);
    }
}

/// Extension is transitive.
proof fn lemma_files_extend_trans(a: Seq<Seq<u8>>, b: Seq<Seq<u8>>, c: Seq<Seq<u8>>)
    requires
        files_extend(a, b),
        files_extend(b, c),
    ensures
        files_extend(a, c),
{
    assert forall|i: int| 0 <= i < a.len() implies a[i].is_prefix_of(#[trigger] c[i]) by {
        assert(a[i].is_prefix_of(b[i]));
        assert(b[i].is_prefix_of(c[i]));
        assert(c[i].subrange(0, a[i].len() as int) =~= a[i]);
    }
}

/// Checked 64-bit addition.
fn add_u64(a: u64, b: u64) -> (r: Option<u64>)
    ensures
        r is Some <==> a + b <= u64::MAX,
        r is Some ==> r.unwrap() == a + b,
{
    if b <= u64::MAX - a {
        Some(a + b)
    } else {
        None
    }
}

impl UrkelTree {
    /// Compute the bytes a commit would append for this subtree.
    fn dirty_size(node: &Node) -> (r: Option<u64>)
        ensures
            r is Some ==> r.unwrap() as int == spec_dirty_size(*node),
            r is None ==> spec_dirty_size(*node) > u64::MAX,
        decreases node,
    {
        match node {
            Node::Empty => Some(0),
            Node::Hash { .. } => Some(0),
            Node::Leaf { value, .. } => {
                match value {
                    Some(v) => add_u64(40, v.len() as u64),
                    None => Some(0),
                }
            },
            Node::Internal { index, left, right, .. } => {
                proof {
                    lemma_dirty_size_nonneg(**left);
                    lemma_dirty_size_nonneg(**right);
                }
                let sl = match Self::dirty_size(left) {
                    Some(x) => x,
                    None => {
                        return None;
                    },
                };
                let sr = match Self::dirty_size(right) {
                    Some(x) => x,
                    None => {
                        return None;
                    },
                };
                let c: u64 = if *index == 0 {
                    76
                } else {
                    0
                };
                match add_u64(sl, sr) {
                    Some(x) => add_u64(x, c),
                    None => None,
                }
            },
        }
    }

    /// The commit walk: persist every dirty node bottom-up, replacing
    /// each persisted subtree by a lazy placeholder carrying its digest
    /// and coordinates. The subtree's meaning is unchanged.
    fn write_to_store(store: &mut Store, node: Box<Node>) -> (r: Box<Node>)
        requires
            old(store).wf(),
            node.wf_in(old(store).files_view()),
            node.view_in(old(store).files_view()) is Some,
            old(store).active_len() + spec_dirty_size(*node) <= WRITE_LIMIT,
        ensures
            final(store).wf(),
            files_extend(old(store).files_view(), final(store).files_view()),
            final(store).files_view().len() == old(store).files_view().len(),
            final(store).active_len() <= old(store).active_len() + spec_dirty_size(*node),
            final(store).spec_meta() == old(store).spec_meta(),
            final(store).spec_synced() == old(store).spec_synced(),
            r.wf_in(final(store).files_view()),
            r.view_in(final(store).files_view()) == node.view_in(old(store).files_view()),
            (*r is Hash) || (*r is Empty),
            (*r is Empty) <==> (*node is Empty),
            r.spec_pos() < POS_LIMIT,
            r.spec_is_leaf() == node.spec_is_leaf() || *node is Internal,
        decreases node, 1int,
    {
        let ghost fv0 = store.files_view();
        proof {
            lemma_files_extend_refl(fv0);
        }
        match *node {
            Node::Empty => Box::new(Node::Empty),
            Node::Hash { index, pos, data, is_leaf } => {
                let h = Node::Hash { index, pos, data, is_leaf };
                proof {
                    assert(h == *node);
                }
                Box::new(h)
            },
            Node::Leaf { index, pos, data, key, value, vindex, vpos, vsize } => {
                let back = Node::Leaf { index, pos, data, key, value, vindex, vpos, vsize };
                proof {
                    assert(back == *node);
                }
                Self::store_leaf(store, Box::new(back))
            },
            Node::Internal { index, pos, data, left, right } => {
                let back = Node::Internal { index, pos, data, left, right };
                proof {
                    assert(back == *node);
                }
                Self::store_internal(store, Box::new(back))
            },
        }
    }

    /// Persist one leaf: append the value blob and the 40-byte record,
    /// then collapse to a placeholder. A leaf with no in-memory value is
    /// already persisted and only collapses.
    #[verifier::rlimit(100)]
    fn store_leaf(store: &mut Store, node: Box<Node>) -> (r: Box<Node>)
        requires
            old(store).wf(),
            node.wf_in(old(store).files_view()),
            node.view_in(old(store).files_view()) is Some,
            *node is Leaf,
            old(store).active_len() + spec_dirty_size(*node) <= WRITE_LIMIT,
        ensures
            final(store).wf(),
            files_extend(old(store).files_view(), final(store).files_view()),
            final(store).files_view().len() == old(store).files_view().len(),
            final(store).active_len() <= old(store).active_len() + spec_dirty_size(*node),
            final(store).spec_meta() == old(store).spec_meta(),
            final(store).spec_synced() == old(store).spec_synced(),
            r.wf_in(final(store).files_view()),
            r.view_in(final(store).files_view()) == node.view_in(old(store).files_view()),
            *r is Hash,
            r.spec_pos() < POS_LIMIT,
            r.spec_is_leaf(),
        decreases node, 0int,
    {
        let ghost fv0 = store.files_view();
        let ghost t = nview(*node, fv0);
        match *node {
            Node::Leaf { index, pos, data, key, value, vindex, vpos, vsize } => {
                match value {
                    None => {
                        let back = Node::Leaf {
                            index,
                            pos,
                            data,
                            key,
                            value: None,
                            vindex,
                            vpos,
                            vsize,
                        };
                        proof {
                            lemma_files_extend_refl(fv0);
                            assert(back == *node);
                            assert(back.wf_in(fv0));
                            assert(back.persisted_at(fv0));
                        }
                        let h = back.into_hash_node();
                        Box::new(h)
                    },
                    Some(v) => {
                        proof {
                            assert(spec_dirty_size(*node) == 40 + v@.len());
                        }
                        let (vi, vp) = match store.write_value(&v) {
                            Ok(x) => x,
                            Err(_) => {
                                proof {
                                    assert(false);
                                }
                                return Box::new(Node::Empty);
                            },
                        };
                        let ghost fv1 = store.files_view();
                        let leaf2 = Node::Leaf {
                            index,
                            pos,
                            data,
                            key,
                            value: Some(v),
                            vindex: vi,
                            vpos: vp,
                            vsize,
                        };
                        proof {
                            assert(leaf2.view_in(fv1) == Some(t));
                            assert(leaf2.wf_in(fv1));
                        }
                        let bits = match leaf2.encode() {
                            Ok(b) => b,
                            Err(_) => {
                                proof {
                                    assert(false);
                                }
                                return Box::new(Node::Empty);
                            },
                        };
                        proof {
                            assert(bits@ == spec_encode_leaf(
                                vi,
                                vp,
                                vsize,
                                leaf2->Leaf_key@,
                            ));
                            assert(bits@.len() == 40);
                        }
                        proof {
                            old(store).lemma_wf_len();
                            assert(fv1.len() == fv0.len());
                            assert(fv1[fv0.len() - 1] == fv0.last() + v@);
                            assert(fv1.last() == fv0.last() + v@);
                            assert(store.active_len() == fv0.last().len() + v@.len());
                            assert(fv1.last().subrange(vp as int, vp + vsize) =~= v@);
                        }
                        let (ni, np) = match store.write_node(bits) {
                            Ok(x) => x,
                            Err(_) => {
                                proof {
                                    assert(false);
                                }
                                return Box::new(Node::Empty);
                            },
                        };
                        let ghost fv2 = store.files_view();
                        let mut leaf3 = leaf2;
                        leaf3.update_storage_location(ni, np);
                        proof {
                            old(store).lemma_wf_len();
                            Self::lemma_leaf_persisted(
                                fv1,
                                fv2,
                                ni,
                                np,
                                vi,
                                vp,
                                vsize,
                                t->Leaf_key,
                                t->Leaf_value,
                            );
                            assert(leaf3.view_in(fv2) == Some(t));
                            assert(leaf3.wf_in(fv2));
                            assert(leaf3.persisted_at(fv2));
                            lemma_files_extend_trans(fv0, fv1, fv2);
                        }
                        let h = leaf3.into_hash_node();
                        Box::new(h)
                    },
                }
            },
            _ => {
                proof {
                    assert(false);
                }
                node
            },
        }
    }

    /// Persist one internal node: persist both children first, then
    /// append the 76-byte record over their descriptors, then collapse
    /// to a placeholder. An already persisted node only collapses.
    #[verifier::rlimit(100)]
    fn store_internal(store: &mut Store, node: Box<Node>) -> (r: Box<Node>)
        requires
            old(store).wf(),
            node.wf_in(old(store).files_view()),
            node.view_in(old(store).files_view()) is Some,
            *node is Internal,
            old(store).active_len() + spec_dirty_size(*node) <= WRITE_LIMIT,
        ensures
            final(store).wf(),
            files_extend(old(store).files_view(), final(store).files_view()),
            final(store).files_view().len() == old(store).files_view().len(),
            final(store).active_len() <= old(store).active_len() + spec_dirty_size(*node),
            final(store).spec_meta() == old(store).spec_meta(),
            final(store).spec_synced() == old(store).spec_synced(),
            r.wf_in(final(store).files_view()),
            r.view_in(final(store).files_view()) == node.view_in(old(store).files_view()),
            *r is Hash,
            r.spec_pos() < POS_LIMIT,
            !r.spec_is_leaf(),
        decreases node, 0int,
    {
        let ghost fv0 = store.files_view();
        let ghost t = nview(*node, fv0);
        match *node {
            Node::Internal { index, pos, data, left, right } => {
                let ghost lt = nview(*left, fv0);
                let ghost rt0 = nview(*right, fv0);
                proof {
                    lemma_dirty_size_nonneg(*left);
                    lemma_dirty_size_nonneg(*right);
                    (*left).lemma_wf_view_some(fv0);
                    (*right).lemma_wf_view_some(fv0);
                }
                proof {
                    assert(spec_dirty_size(*node) == (if index == 0 {
                        76int
                    } else {
                        0int
                    }) + spec_dirty_size(*left) + spec_dirty_size(*right));
                }
                let l2 = Self::write_to_store(store, left);
                let ghost fv1 = store.files_view();
                proof {
                    assert((*l2).view_in(fv1) == Some(lt));
                    (*right).lemma_wf_in_extends(fv0, fv1);
                    assert((*right).wf_in(fv1));
                    assert((*right).view_in(fv1) == Some(rt0));
                }
                let r2 = Self::write_to_store(store, right);
                let ghost fv2 = store.files_view();
                proof {
                    (*l2).lemma_wf_in_extends(fv1, fv2);
                    assert((*l2).wf_in(fv2));
                    assert((*l2).view_in(fv2) == Some(lt));
                    assert((*r2).wf_in(fv2));
                    assert((*r2).view_in(fv2) == Some(rt0));
                    lemma_files_extend_trans(fv0, fv1, fv2);
                }
                let nn = Node::Internal { index, pos, data: Digest::zero(), left: l2, right: r2 };
                proof {
                    assert(nn.view_in(fv2) == Some(t));
                    if index != 0 {
                        crate::node::lemma_stored_view_extends(
                            fv0,
                            fv2,
                            index as int,
                            pos as int,
                            false,
                        );
                        assert(stored_view(fv2, index as int, pos as int, false) == Some(t));
                    }
                    assert(nn.wf_in(fv2));
                }
                if index == 0 {
                    let h = Self::persist_internal(store, nn, Ghost(t), Ghost(lt), Ghost(rt0));
                    proof {
                        lemma_files_extend_trans(fv0, fv2, store.files_view());
                    }
                    h
                } else {
                    proof {
                        assert(nn.persisted_at(fv2));
                    }
                    let h = nn.into_hash_node();
                    Box::new(h)
                }
            },
            _ => {
                proof {
                    assert(false);
                }
                node
            },
        }
    }
}


impl UrkelTree {
    /// After the commit walk appends an internal record at the tail of
    /// the active file, the record reads back as the internal node over
    /// the two children's subtrees.
    proof fn lemma_internal_persisted(
        fv2: Seq<Seq<u8>>,
        fv3: Seq<Seq<u8>>,
        ni: u16,
        np: u32,
        cl: Node,
        cr: Node,
        lt: SpecNode,
        rt0: SpecNode,
        bits: Seq<u8>,
    )
        requires
            fv2.len() >= 1,
            fv3 =~= fv2.update(fv2.len() - 1, fv2.last() + bits),
            files_extend(fv2, fv3),
            ni as int == fv2.len(),
            np as int == fv2.last().len(),
            bits == spec_child_desc(cl, fv2) + spec_child_desc(cr, fv2),
            cl is Empty || (cl is Hash && cl.wf_in(fv2) && cl.view_in(fv2) == Some(lt)),
            cr is Empty || (cr is Hash && cr.wf_in(fv2) && cr.view_in(fv2) == Some(rt0)),
            cl is Empty ==> lt == SpecNode::Empty,
            cr is Empty ==> rt0 == SpecNode::Empty,
        ensures
            stored_view(fv3, ni as int, np as int, false) == Some(
                SpecNode::Internal { left: Box::new(lt), right: Box::new(rt0) },
            ),
    {
        assert(file_at(fv3, ni as int) == fv2.last() + bits);
        assert(file_at(fv3, ni as int).subrange(np as int, np + bits.len()) =~= bits);
        if cl is Hash {
            cl.lemma_wf_in_extends(fv2, fv3);
        }
        if cr is Hash {
            cr.lemma_wf_in_extends(fv2, fv3);
        }
        assert(spec_child_desc(cl, fv3) =~= spec_child_desc(cl, fv2));
        assert(spec_child_desc(cr, fv3) =~= spec_child_desc(cr, fv2));
        assert(child_ok(cl, fv3, ni as int, np as int, lt)) by {
            if cl is Hash {
                crate::node::lemma_stored_view_bounds(
                    fv2,
                    cl->Hash_index as int,
                    cl->Hash_pos as int,
                    cl->Hash_is_leaf == 1,
                );
            }
        }
        assert(child_ok(cr, fv3, ni as int, np as int, rt0)) by {
            if cr is Hash {
                crate::node::lemma_stored_view_bounds(
                    fv2,
                    cr->Hash_index as int,
                    cr->Hash_pos as int,
                    cr->Hash_is_leaf == 1,
                );
            }
        }
        crate::node::lemma_stored_view_bounds_all(fv2, cl);
        crate::node::lemma_stored_view_bounds_all(fv2, cr);
        assert(bits.len() == 76);
        assert(np + 76 <= file_at(fv3, ni as int).len());
        assert(file_at(fv3, ni as int).subrange(np as int, np + 76) == spec_child_desc(cl, fv3)
            + spec_child_desc(cr, fv3));
        lemma_written_internal_reads_back(fv3, ni as int, np as int, cl, cr, lt, rt0);
    }
}


impl UrkelTree {
    /// After the commit walk appends a leaf record at the tail of the
    /// active file, just past the leaf's value blob, the record reads
    /// back as exactly that leaf.
    proof fn lemma_leaf_persisted(
        fv1: Seq<Seq<u8>>,
        fv2: Seq<Seq<u8>>,
        ni: u16,
        np: u32,
        vi: u16,
        vp: u32,
        vs: u16,
        key: Seq<u8>,
        val: Seq<u8>,
    )
        requires
            fv1.len() >= 1,
            fv2 =~= fv1.update(fv1.len() - 1, fv1.last() + spec_encode_leaf(vi, vp, vs, key)),
            ni as int == fv1.len(),
            np as int == fv1.last().len(),
            key.len() == 32,
            vi as int == fv1.len(),
            vp + vs <= fv1.last().len(),
            fv1.last().subrange(vp as int, vp + vs) == val,
            val.len() == vs,
        ensures
            stored_view(fv2, ni as int, np as int, true) == Some(
                SpecNode::Leaf { key, value: val },
            ),
    {
        let bits = spec_encode_leaf(vi, vp, vs, key);
        assert(bits.len() == 40);
        assert(file_at(fv2, ni as int) == fv1.last() + bits);
        assert(file_at(fv2, ni as int).subrange(np as int, np + 40) =~= bits);
        assert(file_at(fv2, vi as int).subrange(vp as int, vp + vs) =~= val);
        lemma_written_leaf_reads_back(fv2, ni as int, np as int, vi, vp, vs, key, val);
    }
}


impl UrkelTree {
    /// Append the 76-byte record of an internal node whose children are
    /// already persisted, and collapse it to a placeholder.
    #[verifier::rlimit(100)]
    fn persist_internal(
        store: &mut Store,
        nn: Node,
        Ghost(t): Ghost<SpecNode>,
        Ghost(lt): Ghost<SpecNode>,
        Ghost(rt0): Ghost<SpecNode>,
    ) -> (r: Box<Node>)
        requires
            old(store).wf(),
            nn is Internal,
            nn->Internal_index == 0,
            (*nn->Internal_left is Hash) || (*nn->Internal_left is Empty),
            (*nn->Internal_right is Hash) || (*nn->Internal_right is Empty),
            nn.wf_in(old(store).files_view()),
            (*nn->Internal_left).view_in(old(store).files_view()) == Some(lt),
            (*nn->Internal_right).view_in(old(store).files_view()) == Some(rt0),
            t == (SpecNode::Internal { left: Box::new(lt), right: Box::new(rt0) }),
            nn.view_in(old(store).files_view()) == Some(t),
            old(store).active_len() + 76 <= WRITE_LIMIT,
        ensures
            final(store).wf(),
            files_extend(old(store).files_view(), final(store).files_view()),
            final(store).files_view().len() == old(store).files_view().len(),
            final(store).active_len() <= old(store).active_len() + 76,
            final(store).spec_meta() == old(store).spec_meta(),
            final(store).spec_synced() == old(store).spec_synced(),
            r.wf_in(final(store).files_view()),
            r.view_in(final(store).files_view()) == Some(t),
            *r is Hash,
            r.spec_pos() < POS_LIMIT,
            !r.spec_is_leaf(),
    {
        let ghost fv2 = store.files_view();
        proof {
            old(store).lemma_wf_len();
            assert((*nn->Internal_left).spec_pos() < POS_LIMIT) by {
                if *nn->Internal_left is Hash {
                    assert((*nn->Internal_left).wf_in(fv2));
                }
            }
            assert((*nn->Internal_right).spec_pos() < POS_LIMIT) by {
                if *nn->Internal_right is Hash {
                    assert((*nn->Internal_right).wf_in(fv2));
                }
            }
        }
        let bits = match nn.encode() {
            Ok(b) => b,
            Err(_) => {
                proof {
                    assert(false);
                }
                return Box::new(Node::Empty);
            },
        };
        proof {
            assert(bits@ == spec_child_desc(*nn->Internal_left, fv2) + spec_child_desc(
                *nn->Internal_right,
                fv2,
            ));
            crate::node::lemma_stored_view_bounds_all(fv2, *nn->Internal_left);
            crate::node::lemma_stored_view_bounds_all(fv2, *nn->Internal_right);
            assert(bits@.len() == 76);
        }
        let (ni, np) = match store.write_node(bits) {
            Ok(x) => x,
            Err(_) => {
                proof {
                    assert(false);
                }
                return Box::new(Node::Empty);
            },
        };
        let ghost fv3 = store.files_view();
        let mut nn2 = nn;
        nn2.update_storage_location(ni, np);
        proof {
            Self::lemma_internal_persisted(
                fv2,
                fv3,
                ni,
                np,
                *nn2->Internal_left,
                *nn2->Internal_right,
                lt,
                rt0,
                bits@,
            );
            if *nn2->Internal_left is Hash {
                (*nn2->Internal_left).lemma_wf_in_extends(fv2, fv3);
            }
            if *nn2->Internal_right is Hash {
                (*nn2->Internal_right).lemma_wf_in_extends(fv2, fv3);
            }
            assert((*nn2->Internal_left).wf_in(fv3));
            assert((*nn2->Internal_right).wf_in(fv3));
            assert((*nn2->Internal_left).view_in(fv3) == Some(lt));
            assert((*nn2->Internal_right).view_in(fv3) == Some(rt0));
            assert(nn2.view_in(fv3) == Some(t));
            assert(nn2.wf_in(fv3));
            assert(nn2.persisted_at(fv3));
        }
        let h = nn2.into_hash_node();
        Box::new(h)
    }
}


impl UrkelTree {
    /// Commit: persist every dirty node bottom-up, then seal the epoch
    /// with padding and a fresh meta record. Returns exactly the bytes
    /// appended to the active file since the last commit (or open); the
    /// caller appends them to the real file and syncs it. Reopening the
    /// resulting images yields this very tree. Fails, changing nothing,
    /// only when the pending data would not fit in the active file.
    #[verifier::rlimit(100)]
    pub fn commit(&mut self) -> (r: Result<Vec<u8>, Error>)
        requires
            old(self).wf(),
        ensures
            final(self).wf(),
            final(self)@ == old(self)@,
            final(self).root_digest() == old(self).root_digest(),
            r is Ok <==> old(self).active_len() + old(self).pending_bytes() <= WRITE_LIMIT,
            r is Err ==> final(self).fv() == old(self).fv() && final(self).spec_synced() == old(
                self,
            ).spec_synced(),
            r is Ok ==> {
                let active = final(self).fv().last();
                &&& store_ok(final(self).fv())
                &&& opened_tree(final(self).fv()) == Some(final(self).rtree())
                &&& files_extend(old(self).fv(), final(self).fv())
                &&& final(self).fv().len() == old(self).fv().len()
                &&& final(self).spec_synced() == active.len()
                &&& r.unwrap()@ == active.subrange(old(self).spec_synced(), active.len() as int)
            },
    {
        let root = self.root.take().unwrap();
        let ghost fv0 = self.store.files_view();
        proof {
            lemma_dirty_size_nonneg(*root);
        }
        let sz = match Self::dirty_size(&root) {
            Some(x) => x,
            None => {
                self.root = Some(root);
                return Err(Error::Io);
            },
        };
        let alen = self.store.active_file_len();
        if alen > WRITE_LIMIT || sz > (WRITE_LIMIT - alen) as u64 {
            self.root = Some(root);
            return Err(Error::Io);
        }
        proof {
            (*root).lemma_wf_view_some(fv0);
        }
        let ghost t0 = nview(*root, fv0);
        let (newroot, chunk) = Self::commit_flush(&mut self.store, root, Ghost(t0));
        self.root = Some(newroot);
        proof {
            assert(self.rtree() == t0);
            assert(self.rtree() == old(self).rtree());
            assert(self@ == old(self)@);
            assert(wf_shape(self.rtree(), 0));
        }
        Ok(chunk)
    }
}


impl UrkelTree {
    /// Recovery on the images a commit leaves behind finds the meta just
    /// written, whose root coordinates read back as exactly the tree
    /// that was committed.
    proof fn lemma_commit_recovers(fv3: Seq<Seq<u8>>, m: Meta, nr: Node, t: SpecNode)
        requires
            fv3.len() >= 1,
            fv3.last().len() >= 32,
            find_meta_pos(fv3.last()) == Some(fv3.last().len() - 16),
            meta_decoded(
                fv3.last().subrange(fv3.last().len() - 16, fv3.last().len() as int),
            ) == m,
            m.pos != 0,
            nr is Hash || nr is Empty,
            m.root_index == nr.spec_index(),
            m.root_pos == nr.spec_pos(),
            m.is_leaf == nr.spec_is_leaf(),
            nr.wf_in(fv3),
            nr.view_in(fv3) == Some(t),
            wf_shape(t, 0),
        ensures
            opened_tree(fv3) == Some(t),
            store_ok(fv3),
    {
        let active2 = fv3.last();
        let p = active2.len() - 16;
        if nr is Empty {
            assert(nr.spec_index() == 0);
            assert(m.root_index == 0);
            assert(opened_tree(fv3) == Some(SpecNode::Empty));
            assert(t == SpecNode::Empty);
        } else {
            crate::node::lemma_stored_view_bounds(
                fv3,
                nr->Hash_index as int,
                nr->Hash_pos as int,
                nr->Hash_is_leaf == 1,
            );
            assert(m.root_index != 0);
            assert(m.is_leaf == (nr->Hash_is_leaf == 1));
            assert(stored_view(fv3, m.root_index as int, m.root_pos as int, m.is_leaf) == Some(
                t,
            ));
            assert(opened_tree(fv3) == Some(t));
        }
    }
}


impl UrkelTree {
    /// Persist the dirty tree and seal the epoch with a meta record.
    /// Returns the collapsed root and the bytes appended to the active
    /// file since the last sync.
    #[verifier::rlimit(100)]
    fn commit_flush(store: &mut Store, root: Box<Node>, Ghost(t0): Ghost<SpecNode>) -> (out: (
        Box<Node>,
        Vec<u8>,
    ))
        requires
            old(store).wf(),
            root.wf_in(old(store).files_view()),
            root.view_in(old(store).files_view()) == Some(t0),
            wf_shape(t0, 0),
            old(store).active_len() + spec_dirty_size(*root) <= WRITE_LIMIT,
        ensures
            final(store).wf(),
            files_extend(old(store).files_view(), final(store).files_view()),
            final(store).files_view().len() == old(store).files_view().len(),
            out.0.wf_in(final(store).files_view()),
            out.0.view_in(final(store).files_view()) == Some(t0),
            final(store).spec_synced() == final(store).files_view().last().len(),
            out.1@ == final(store).files_view().last().subrange(
                old(store).spec_synced(),
                final(store).files_view().last().len() as int,
            ),
            store_ok(final(store).files_view()),
            opened_tree(final(store).files_view()) == Some(t0),
    {
        let ghost fv0 = store.files_view();
        let newroot = Self::write_to_store(store, root);
        let ghost fv2 = store.files_view();
        let (ri, rp) = newroot.get_storage_location();
        let rl = newroot.is_leaf();
        proof {
            assert(rp < POS_LIMIT);
            assert(store.active_len() + crate::store::pad_of(store.active_len()) + 16
                <= FILE_SIZE_LIMIT);
        }
        let ghost st2 = *store;
        let chunk = match store.commit(ri, rp, rl) {
            Ok(c) => c,
            Err(_) => {
                proof {
                    assert(false);
                }
                return (Box::new(Node::Empty), Vec::new());
            },
        };
        let ghost fv3 = store.files_view();
        proof {
            st2.lemma_wf_len();
            let m = st2.commit_meta(ri, rp, rl);
            let appended = crate::store::zeros_seq(crate::store::pad_of(st2.active_len()))
                + crate::store::meta_encoded(m);
            let active2 = st2.files_view().last() + appended;
            assert(store.spec_meta() == m);
            assert(fv3 =~= st2.files_view().update(st2.files_view().len() - 1, active2));
            assert(fv3.last() == active2);
            let p = active2.len() - 16;
            assert(active2.subrange(p, p + 16) == crate::store::meta_encoded(m));
            assert(meta_decoded(active2.subrange(p, p + 16)) == m);
            assert(m.pos != 0);
            assert(m.root_index == ri && m.root_pos == rp && m.is_leaf == rl);
            (*newroot).lemma_wf_in_extends(fv2, fv3);
            Self::lemma_commit_recovers(fv3, m, *newroot, t0);
            lemma_files_extend_trans(fv0, fv2, fv3);
        }
        (newroot, chunk)
    }
}


/// The root digest depends only on the set of key-value pairs present,
/// not on the order of the insertions and removals that built it: two
/// well-formed trees holding the same map have the same root digest.
pub proof fn lemma_same_map_same_root(a: UrkelTree, b: UrkelTree)
    requires
        a.wf(),
        b.wf(),
        a@ == b@,
    ensures
        a.root_digest() == b.root_digest(),
{
    crate::model::lemma_canonical_unique(a.rtree(), b.rtree(), 0);
}

/// Removing a key and inserting a value for it again yields the same
/// root as a tree that never had the key removed, when the final
/// mappings match.
pub proof fn lemma_remove_insert_same_root(
    a: UrkelTree,
    b: UrkelTree,
    m: Map<Seq<u8>, Seq<u8>>,
    k: Seq<u8>,
    v: Seq<u8>,
)
    requires
        a.wf(),
        b.wf(),
        a@ == m.remove(k).insert(k, v),
        b@ == m.insert(k, v),
    ensures
        a.root_digest() == b.root_digest(),
{
    crate::model::lemma_remove_then_insert(m, k, v);
    assert(a@ == b@);
    lemma_same_map_same_root(a, b);
}

/// A tree holding no keys — fresh, or after every key was removed — has
/// the all-zero root digest.
pub proof fn lemma_empty_tree_zero_root(a: UrkelTree)
    requires
        a.wf(),
        a@ == Map::<Seq<u8>, Seq<u8>>::empty(),
    ensures
        a.root_digest() == zero32(),
{
    crate::model::lemma_empty_map_is_empty_tree(a.rtree(), 0);
}


/// Sequential-insert law: after any sequence of insertions into a fresh
/// tree, each key maps to the value of the last insertion that named it
/// — so a lookup returns exactly that value. Pairs carry the hashed key
/// and the value bytes; `i` names the last pair inserting its key.
pub proof fn lemma_sequential_inserts(
    tree: UrkelTree,
    ps: Seq<(Seq<u8>, Seq<u8>)>,
    i: int,
)
    requires
        tree.wf(),
        tree@ == crate::model::apply_pairs(Map::<Seq<u8>, Seq<u8>>::empty(), ps),
        0 <= i < ps.len(),
        forall|j: int| i < j < ps.len() ==> (#[trigger] ps[j]).0 != ps[i].0,
    ensures
        tree@.dom().contains(ps[i].0),
        tree@[ps[i].0] == ps[i].1,
{
    crate::model::lemma_last_insert_wins(Map::<Seq<u8>, Seq<u8>>::empty(), ps, i);
}


/// Durability law: a tree whose store images recover to its own tree
/// (as every commit ensures), reopened through [`UrkelTree::new`],
/// reproduces the same map and the same root digest.
pub proof fn lemma_commit_then_reopen(committed: UrkelTree, reopened: UrkelTree)
    requires
        committed.wf(),
        reopened.wf(),
        opened_tree(committed.fv()) == Some(committed.rtree()),
        reopened.rtree() == opened_tree(committed.fv()).unwrap(),
    ensures
        reopened@ == committed@,
        reopened.root_digest() == committed.root_digest(),
{
}


/// Setting one bit of a byte leaves every other bit of it unchanged.
proof fn lemma_u8_set_bit(a: u8, s: u8, s2: u8)
    requires
        s < 8,
        s2 < 8,
    ensures
        s == s2 ==> ((a | (1u8 << s)) >> s2) & 1 == 1,
        s == s2 ==> ((a & !(1u8 << s)) >> s2) & 1 == 0,
        s != s2 ==> ((a | (1u8 << s)) >> s2) & 1 == (a >> s2) & 1,
        s != s2 ==> ((a & !(1u8 << s)) >> s2) & 1 == (a >> s2) & 1,
{
    assert(s == s2 ==> ((a | (1u8 << s)) >> s2) & 1 == 1) by (bit_vector)
        requires
            s < 8,
            s2 < 8,
    ;
    assert(s == s2 ==> ((a & !(1u8 << s)) >> s2) & 1 == 0) by (bit_vector)
        requires
            s < 8,
            s2 < 8,
    ;
    assert(s != s2 ==> ((a | (1u8 << s)) >> s2) & 1 == (a >> s2) & 1) by (bit_vector)
        requires
            s < 8,
            s2 < 8,
    ;
    assert(s != s2 ==> ((a & !(1u8 << s)) >> s2) & 1 == (a >> s2) & 1) by (bit_vector)
        requires
            s < 8,
            s2 < 8,
    ;
}

/// A copy of `path` whose bit `i` is forced to `b`, all other bits kept.
fn with_bit(path: &Digest, i: usize, b: bool) -> (r: Digest)
    requires
        path.wf(),
        i < 256,
    ensures
        r.wf(),
        bit_at(r@, i as int) == b,
        forall|j: int| 0 <= j < 256 && j != i ==> bit_at(r@, j) == bit_at(path@, j),
{
    let oct: usize = i / 8;
    let sh: u8 = (7 - (i % 8)) as u8;
    let old_byte: u8 = path.byte(oct);
    let new_byte: u8 = if b {
        old_byte | (1u8 << sh)
    } else {
        old_byte & !(1u8 << sh)
    };
    let mut bytes = path.to_vec();
    bytes.set(oct, new_byte);
    let r = Digest::from_vec(bytes);
    proof {
        assert(r@ == path@.update(oct as int, new_byte));
        lemma_u8_set_bit(old_byte, sh, sh);
        assert(bit_at(r@, i as int) == b) by {
            assert(r@[i as int / 8] == new_byte);
            assert((7 - (i as int % 8)) as u8 == sh);
        }
        assert forall|j: int| 0 <= j < 256 && j != i implies bit_at(r@, j) == bit_at(
            path@,
            j,
        ) by {
            if j / 8 == i as int / 8 {
                assert(j % 8 != i as int % 8);
                let s2 = (7 - (j % 8)) as u8;
                assert(s2 < 8 && s2 != sh);
                lemma_u8_set_bit(old_byte, sh, s2);
                assert(r@[j / 8] == new_byte);
            } else {
                assert(r@[j / 8] == path@[j / 8]);
            }
        }
    }
    r
}


/// Everything a child descriptor of an internal record at depth `depth`
/// must satisfy for the subtree to be intact and canonical: the stored
/// child exists (digest checks included), its shape is canonical one
/// level down, its keys carry `side` as their bit at `depth`, and they
/// agree with the path walked so far.
spec fn child_valid(
    fv: Seq<Seq<u8>>,
    pindex: int,
    ppos: int,
    d: Seq<u8>,
    depth: int,
    path: Seq<u8>,
    side: bool,
) -> bool {
    let sc = crate::node::stored_child(fv, pindex, ppos, d);
    &&& sc is Some
    &&& wf_shape(sc.unwrap(), depth + 1)
    &&& (forall|k: Seq<u8>| keys_of(sc.unwrap()).contains(k) ==> bit_at(k, depth) == side)
    &&& (forall|k: Seq<u8>, j: int|
        keys_of(sc.unwrap()).contains(k) && 0 <= j < depth ==> bit_at(k, j) == bit_at(path, j))
}

impl UrkelTree {
    /// Walk a stored subtree and check everything the fast open takes on
    /// trust: every record in range, every cached child digest equal to
    /// the digest of the subtree it names, the canonical shape intact,
    /// and every key on the path the bits say it is on. Returns the
    /// subtree's digest exactly when all of that holds.
    #[verifier::rlimit(100)]
    fn validate_node(
        store: &Store,
        index: u16,
        pos: u32,
        is_leaf: bool,
        depth: usize,
        path: &Digest,
    ) -> (r: Option<Digest>)
        requires
            store.wf(),
            depth <= 256,
            path.wf(),
        ensures
            ({
                let sv = stored_view(store.files_view(), index as int, pos as int, is_leaf);
                &&& (r is Some <==> sv is Some && wf_shape(sv.unwrap(), depth as int)
                    && prefix_ok(sv.unwrap(), path@, depth as int))
                &&& (r is Some ==> r.unwrap().wf() && r.unwrap()@ == tree_hash(sv.unwrap()))
            }),
        decreases index, pos, 1int,
    {
        let ghost fv = store.files_view();
        if is_leaf {
            let bytes = match store.get_value(index, pos, 40) {
                Ok(b) => b,
                Err(_) => {
                    proof {
                        assert(stored_view(fv, index as int, pos as int, true) is None);
                    }
                    return None;
                },
            };
            let ghost b = file_at(fv, index as int).subrange(pos as int, pos + 40);
            proof {
                assert(bytes@ == b);
                assert(b.subrange(0, 2) =~= bytes@.subrange(0, 2));
                assert(b.subrange(2, 6) =~= bytes@.subrange(2, 6));
                assert(b.subrange(6, 8) =~= bytes@.subrange(6, 8));
                assert(b.subrange(8, 40) =~= bytes@.subrange(8, 40));
            }
            let vi = read_u16_le(bytes.as_slice(), 0);
            let vp = read_u32_le(bytes.as_slice(), 2);
            let vs = read_u16_le(bytes.as_slice(), 6);
            let keyv = crate::encoding::copy_range(bytes.as_slice(), 8, 32);
            let key = Digest::from_vec(keyv);
            let value = match store.get_value(vi, vp, vs) {
                Ok(v) => v,
                Err(_) => {
                    proof {
                        assert(stored_view(fv, index as int, pos as int, true) is None);
                    }
                    return None;
                },
            };
            let ghost sv = stored_view(fv, index as int, pos as int, true);
            proof {
                assert(sv == Some(SpecNode::Leaf { key: key@, value: value@ }));
                lemma_leaf_facts(key@, value@);
            }
            let mut i: usize = 0;
            while i < depth
                invariant
                    i <= depth,
                    depth <= 256,
                    key.wf(),
                    path.wf(),
                    is_leaf,
                    fv == store.files_view(),
                    sv == stored_view(fv, index as int, pos as int, is_leaf),
                    sv == Some(SpecNode::Leaf { key: key@, value: value@ }),
                    forall|j: int| 0 <= j < i ==> bit_at(key@, j) == bit_at(path@, j),
                decreases depth - i,
            {
                if has_bit(&key, i) != has_bit(path, i) {
                    proof {
                        lemma_leaf_facts(key@, value@);
                        assert(keys_of(sv.unwrap()).contains(key@));
                        assert(bit_at(key@, i as int) != bit_at(path@, i as int));
                        assert(!prefix_ok(sv.unwrap(), path@, depth as int)) by {
                            if prefix_ok(sv.unwrap(), path@, depth as int) {
                                assert(bit_at(key@, i as int) == bit_at(path@, i as int));
                            }
                        }
                    }
                    return None;
                }
                i = i + 1;
            }
            let d = hash_leaf_value(&key, value.as_slice());
            proof {
                let t = sv.unwrap();
                assert(wf_shape(t, depth as int));
                assert forall|k: Seq<u8>, j: int|
                    keys_of(t).contains(k) && 0 <= j < depth implies bit_at(k, j) == bit_at(
                    path@,
                    j,
                ) by {
                    assert(k == key@);
                }
                assert(prefix_ok(t, path@, depth as int));
            }
            Some(d)
        } else {
            let ghost sv = stored_view(fv, index as int, pos as int, false);
            if depth >= 256 {
                proof {
                    if sv is Some {
                        assert(sv.unwrap() is Internal);
                        assert(!wf_shape(sv.unwrap(), depth as int));
                    }
                }
                return None;
            }
            let bytes = match store.get_value(index, pos, 76) {
                Ok(b) => b,
                Err(_) => {
                    proof {
                        assert(sv is None);
                    }
                    return None;
                },
            };
            let ghost b = file_at(fv, index as int).subrange(pos as int, pos + 76);
            let ghost dl = b.subrange(0, 38);
            let ghost dr = b.subrange(38, 76);
            let ghost lsc = crate::node::stored_child(fv, index as int, pos as int, dl);
            let ghost rsc = crate::node::stored_child(fv, index as int, pos as int, dr);
            proof {
                assert(bytes@ == b);
                assert(dl.subrange(0, 2) =~= bytes@.subrange(0, 2));
                assert(dl.subrange(2, 6) =~= bytes@.subrange(2, 6));
                assert(dl.subrange(6, 38) =~= bytes@.subrange(6, 38));
                assert(dr.subrange(0, 2) =~= bytes@.subrange(38, 40));
                assert(dr.subrange(2, 6) =~= bytes@.subrange(40, 44));
                assert(dr.subrange(6, 38) =~= bytes@.subrange(44, 76));
            }
            let (lkind, lhash) = match Self::validate_child(
                store,
                &bytes,
                0,
                index,
                pos,
                depth,
                path,
                false,
                Ghost(dl),
            ) {
                Some(x) => x,
                None => {
                    proof {
                        if sv is Some && wf_shape(sv.unwrap(), depth as int) && prefix_ok(
                            sv.unwrap(),
                            path@,
                            depth as int,
                        ) {
                            Self::lemma_internal_side_valid(
                                fv,
                                index as int,
                                pos as int,
                                depth as int,
                                path@,
                                false,
                            );
                            assert(false);
                        }
                    }
                    return None;
                },
            };
            let (rkind, rhash) = match Self::validate_child(
                store,
                &bytes,
                38,
                index,
                pos,
                depth,
                path,
                true,
                Ghost(dr),
            ) {
                Some(x) => x,
                None => {
                    proof {
                        if sv is Some && wf_shape(sv.unwrap(), depth as int) && prefix_ok(
                            sv.unwrap(),
                            path@,
                            depth as int,
                        ) {
                            Self::lemma_internal_side_valid(
                                fv,
                                index as int,
                                pos as int,
                                depth as int,
                                path@,
                                true,
                            );
                            assert(false);
                        }
                    }
                    return None;
                },
            };
            if (lkind == 0 && rkind == 0) || (lkind == 1 && rkind == 0) || (lkind == 0 && rkind
                == 1) {
                proof {
                    assert(sv == Some(SpecNode::Internal {
                        left: Box::new(lsc.unwrap()),
                        right: Box::new(rsc.unwrap()),
                    }));
                    assert(!wf_shape(sv.unwrap(), depth as int));
                }
                return None;
            }
            let d = hash_internal(&lhash, &rhash);
            proof {
                let lv = lsc.unwrap();
                let rv = rsc.unwrap();
                assert(sv == Some(SpecNode::Internal { left: Box::new(lv), right: Box::new(rv) }));
                let t = sv.unwrap();
                lemma_internal_facts(lv, rv, depth as int);
                assert(d@ == tree_hash(t));
                assert forall|k: Seq<u8>| keys_of(lv).contains(k) implies !bit_at(
                    k,
                    depth as int,
                ) by {}
                assert forall|k: Seq<u8>| keys_of(rv).contains(k) implies bit_at(
                    k,
                    depth as int,
                ) by {}
                assert(wf_shape(t, depth as int));
                assert forall|k: Seq<u8>, j: int|
                    keys_of(t).contains(k) && 0 <= j < depth implies bit_at(k, j) == bit_at(
                    path@,
                    j,
                ) by {
                    if keys_of(lv).contains(k) {
                    } else {
                        assert(keys_of(rv).contains(k));
                    }
                }
                assert(prefix_ok(t, path@, depth as int));
            }
            Some(d)
        }
    }

    /// An intact, canonical internal record passes its side conditions on
    /// to each child descriptor: each child is intact, canonical one level
    /// down, and on the path its side dictates.
    proof fn lemma_internal_side_valid(
        fv: Seq<Seq<u8>>,
        index: int,
        pos: int,
        depth: int,
        path: Seq<u8>,
        side: bool,
    )
        requires
            ({
                let sv = stored_view(fv, index, pos, false);
                sv is Some && wf_shape(sv.unwrap(), depth) && prefix_ok(sv.unwrap(), path, depth)
            }),
        ensures
            ({
                let b = file_at(fv, index).subrange(pos, pos + 76);
                let d = if side {
                    b.subrange(38, 76)
                } else {
                    b.subrange(0, 38)
                };
                child_valid(fv, index, pos, d, depth, path, side)
            }),
    {
        let sv = stored_view(fv, index, pos, false);
        let t = sv.unwrap();
        let b = file_at(fv, index).subrange(pos, pos + 76);
        let dl = b.subrange(0, 38);
        let dr = b.subrange(38, 76);
        let lsc = crate::node::stored_child(fv, index, pos, dl);
        let rsc = crate::node::stored_child(fv, index, pos, dr);
        assert(lsc is Some && rsc is Some);
        let lv = lsc.unwrap();
        let rv = rsc.unwrap();
        assert(t == (SpecNode::Internal { left: Box::new(lv), right: Box::new(rv) }));
        lemma_internal_facts(lv, rv, depth);
        let cv = if side {
            rv
        } else {
            lv
        };
        assert(wf_shape(cv, depth + 1));
        assert forall|k: Seq<u8>| keys_of(cv).contains(k) implies bit_at(k, depth) == side by {}
        assert forall|k: Seq<u8>, j: int|
            keys_of(cv).contains(k) && 0 <= j < depth implies bit_at(k, j) == bit_at(path, j) by {
            assert(keys_of(t).contains(k));
        }
    }

    /// Validate one child descriptor of an internal record: Empty must be
    /// encoded canonically; a real child must sit strictly earlier in the
    /// log, validate recursively, and match the digest stored for it.
    /// Returns the child's kind (0 Empty, 1 leaf, 2 internal) and digest
    /// exactly when the descriptor withstands the check.
    #[verifier::rlimit(100)]
    fn validate_child(
        store: &Store,
        bytes: &Vec<u8>,
        off: usize,
        pindex: u16,
        ppos: u32,
        depth: usize,
        path: &Digest,
        side: bool,
        Ghost(d): Ghost<Seq<u8>>,
    ) -> (r: Option<(u8, Digest)>)
        requires
            store.wf(),
            depth < 256,
            path.wf(),
            off + 38 <= bytes@.len(),
            d.len() == 38,
            d.subrange(0, 2) == bytes@.subrange(off as int, off + 2),
            d.subrange(2, 6) == bytes@.subrange(off + 2, off + 6),
            d.subrange(6, 38) == bytes@.subrange(off + 6, off + 38),
        ensures
            r is Some <==> child_valid(
                store.files_view(),
                pindex as int,
                ppos as int,
                d,
                depth as int,
                path@,
                side,
            ),
            r is Some ==> {
                let sc = crate::node::stored_child(
                    store.files_view(),
                    pindex as int,
                    ppos as int,
                    d,
                );
                let kind = r.unwrap().0;
                &&& (kind == 0 || kind == 1 || kind == 2)
                &&& (kind == 0 <==> sc.unwrap() is Empty)
                &&& (kind == 1 <==> sc.unwrap() is Leaf)
                &&& (kind == 2 <==> sc.unwrap() is Internal)
                &&& r.unwrap().1.wf()
                &&& r.unwrap().1@ == tree_hash(sc.unwrap())
            },
        decreases pindex, ppos, 0int,
    {
        let ghost fv = store.files_view();
        let ghost sc = crate::node::stored_child(fv, pindex as int, ppos as int, d);
        let n: usize = bytes.len();
        let ci = read_u16_le(bytes.as_slice(), off);
        let tagged = read_u32_le(bytes.as_slice(), off + 2);
        let chashv = crate::encoding::copy_range(bytes.as_slice(), off + 6, 32);
        let chash = Digest::from_vec(chashv);
        proof {
            assert(le16(d.subrange(0, 2)) == ci as int);
            assert(le32(d.subrange(2, 6)) == tagged as int);
            assert(chash@ == d.subrange(6, 38));
        }
        if ci == 0 {
            if tagged != 0 {
                proof {
                    assert(sc is None);
                }
                return None;
            }
            if !chash.is_zero() {
                proof {
                    assert(sc is None);
                }
                return None;
            }
            proof {
                assert(sc == Some(SpecNode::Empty));
                lemma_empty_facts();
                assert(child_valid(fv, pindex as int, ppos as int, d, depth as int, path@, side));
            }
            Some((0, Digest::zero()))
        } else {
            let (cp, cl) = Node::get_pos_tag(tagged);
            if !(ci < pindex || (ci == pindex && cp < ppos)) {
                proof {
                    assert(sc is None);
                }
                return None;
            }
            let cpath = with_bit(path, depth, side);
            let ghost csv = stored_view(fv, ci as int, cp as int, cl == 1);
            let dc = match Self::validate_node(store, ci, cp, cl == 1, depth + 1, &cpath) {
                Some(x) => x,
                None => {
                    proof {
                        if child_valid(fv, pindex as int, ppos as int, d, depth as int, path@,
                            side) {
                            let cv = sc.unwrap();
                            assert(csv == Some(cv));
                            assert(wf_shape(cv, depth + 1));
                            assert forall|k: Seq<u8>, j: int|
                                keys_of(cv).contains(k) && 0 <= j < depth + 1 implies bit_at(
                                k,
                                j,
                            ) == bit_at(cpath@, j) by {
                                if j == depth {
                                    assert(bit_at(k, depth as int) == side);
                                    assert(bit_at(cpath@, depth as int) == side);
                                } else {
                                    assert(bit_at(k, j) == bit_at(path@, j));
                                    assert(bit_at(cpath@, j) == bit_at(path@, j));
                                }
                            }
                            assert(prefix_ok(cv, cpath@, depth + 1));
                            assert(false);
                        }
                    }
                    return None;
                },
            };
            if !dc.equals(&chash) {
                proof {
                    if child_valid(fv, pindex as int, ppos as int, d, depth as int, path@, side) {
                        let cv = sc.unwrap();
                        assert(csv == Some(cv));
                        assert(tree_hash(cv) == d.subrange(6, 38));
                        assert(dc@ == tree_hash(csv.unwrap()));
                        assert(false);
                    }
                }
                return None;
            }
            proof {
                let cv = csv.unwrap();
                assert(tree_hash(cv) == chash@);
                assert(sc == Some(cv));
                if cl == 1 {
                    assert(cv is Leaf);
                } else {
                    assert(cv is Internal);
                }
                assert forall|k: Seq<u8>| keys_of(cv).contains(k) implies bit_at(
                    k,
                    depth as int,
                ) == side by {
                    assert(bit_at(k, depth as int) == bit_at(cpath@, depth as int));
                }
                assert forall|k: Seq<u8>, j: int|
                    keys_of(cv).contains(k) && 0 <= j < depth implies bit_at(k, j) == bit_at(
                    path@,
                    j,
                ) by {
                    assert(bit_at(k, j) == bit_at(cpath@, j));
                }
                assert(child_valid(fv, pindex as int, ppos as int, d, depth as int, path@, side));
            }
            if cl == 1 {
                Some((1, chash))
            } else {
                Some((2, chash))
            }
        }
    }
}

impl UrkelTree {
    /// Open a tree as [`UrkelTree::new`] does, but first validate the
    /// recovered root subtree record by record instead of taking the
    /// store's integrity on trust: bounds, child digests, canonical
    /// shape and key paths are all checked against the bytes. Succeeds
    /// exactly on the stores that recover to an intact, canonical root —
    /// in particular on everything a commit leaves behind.
    #[verifier::rlimit(100)]
    pub fn open_checked(files: Vec<Vec<u8>>) -> (r: Result<UrkelTree, Error>)
        requires
            files@.len() <= 0xffff,
            forall|i: int|
                0 <= i < files@.len() ==> (#[trigger] files@[i])@.len() <= FILE_SIZE_LIMIT,
        ensures
            r is Ok <==> (opened_tree(views_of(files@)) is Some && store_ok(views_of(files@))),
            r is Ok ==> {
                let t = r.unwrap();
                &&& t.wf()
                &&& opened_tree(views_of(files@)) == Some(t.rtree())
                &&& t@ == map_of(t.rtree())
                &&& t.root_digest() == tree_hash(t.rtree())
            },
    {
        let ghost given = views_of(files@);
        let ghost was_empty = files@.len() == 0;
        let store = match Store::open(files) {
            Ok(s) => s,
            Err(_) => {
                proof {
                    assert(opened_tree(given) is None);
                }
                return Err(Error::MetaRootNotFound);
            },
        };
        proof {
            if !was_empty {
                assert(store.files_view() == given);
            }
            assert(store.spec_meta().root_pos < POS_LIMIT);
        }
        let m = store.current_meta();
        if m.root_index != 0 && m.pos != 0 {
            let zero_path = Digest::zero();
            match Self::validate_node(&store, m.root_index, m.root_pos, m.is_leaf, 0, &zero_path)
            {
                Some(_) => {},
                None => {
                    proof {
                        let sv = stored_view(
                            given,
                            m.root_index as int,
                            m.root_pos as int,
                            m.is_leaf,
                        );
                        assert(opened_tree(given) == sv);
                        if opened_tree(given) is Some && store_ok(given) {
                            assert(sv is Some && wf_shape(sv.unwrap(), 0));
                            assert(prefix_ok(sv.unwrap(), zero_path@, 0));
                            assert(false);
                        }
                    }
                    return Err(Error::Io);
                },
            }
        }
        let root = match store.get_root_node() {
            Ok(n) => n,
            Err(_) => {
                proof {
                    assert(false);
                }
                return Err(Error::Io);
            },
        };
        let tree = UrkelTree { root: Some(root), store };
        proof {
            if was_empty {
                assert(opened_tree(given) == Some(SpecNode::Empty));
                assert(tree.rtree() == SpecNode::Empty);
                crate::model::lemma_empty_facts();
            } else if tree.store.root_nonempty() {
                assert(opened_tree(given) == stored_view(
                    given,
                    m.root_index as int,
                    m.root_pos as int,
                    m.is_leaf,
                ));
            }
            assert(opened_tree(given) == Some(tree.rtree()));
            assert(wf_shape(tree.rtree(), 0));
            assert(store_ok(given));
        }
        Ok(tree)
    }
}

} // verus!
