//! The mathematical model of the trie: an abstract node tree, the map it
//! denotes, its Merkle hash, and the canonical-shape predicate under which
//! the map determines the tree (and therefore the root digest) uniquely.

use vstd::prelude::*;
use crate::bit_at;
use crate::hasher::{internal_digest, leaf_digest, zero32};

verus! {

/// An abstract trie node: what an in-memory or stored node denotes once all
/// lazy references are followed.
pub enum SpecNode {
    Empty,
    Leaf { key: Seq<u8>, value: Seq<u8> },
    Internal { left: Box<SpecNode>, right: Box<SpecNode> },
}

/// The set of key digests held by the leaves of `t`.
pub open spec fn keys_of(t: SpecNode) -> Set<Seq<u8>>
    decreases t,
{
    match t {
        SpecNode::Empty => Set::empty(),
        SpecNode::Leaf { key, .. } => set![key],
        SpecNode::Internal { left, right } => keys_of(*left).union(keys_of(*right)),
    }
}

/// The key-to-value map denoted by `t`.
pub open spec fn map_of(t: SpecNode) -> Map<Seq<u8>, Seq<u8>>
    decreases t,
{
    match t {
        SpecNode::Empty => Map::empty(),
        SpecNode::Leaf { key, value } => Map::empty().insert(key, value),
        SpecNode::Internal { left, right } => map_of(*left).union_prefer_right(map_of(*right)),
    }
}

/// The Merkle digest of `t`: zero for the empty tree, the leaf hash for a
/// leaf, and the domain-separated hash of the children's digests for an
/// internal node.
pub open spec fn tree_hash(t: SpecNode) -> Seq<u8>
    decreases t,
{
    match t {
        SpecNode::Empty => zero32(),
        SpecNode::Leaf { key, value } => leaf_digest(key, value),
        SpecNode::Internal { left, right } => internal_digest(
            tree_hash(*left),
            tree_hash(*right),
        ),
    }
}

/// Canonical well-formedness of a subtree rooted at depth `depth`:
/// keys are 32 bytes and values encodable, each internal node splits its
/// keys by bit `depth`, and no internal node has the degenerate child pairs
/// (Empty, Empty), (Leaf, Empty) or (Empty, Leaf) — the shapes that would
/// make two different trees denote the same map.
pub open spec fn wf_shape(t: SpecNode, depth: int) -> bool
    decreases t,
{
    match t {
        SpecNode::Empty => true,
        SpecNode::Leaf { key, value } => key.len() == 32 && value.len() <= 0xffff,
        SpecNode::Internal { left, right } => {
            &&& 0 <= depth < 256
            &&& wf_shape(*left, depth + 1)
            &&& wf_shape(*right, depth + 1)
            &&& (forall|k: Seq<u8>| keys_of(*left).contains(k) ==> !bit_at(k, depth))
            &&& (forall|k: Seq<u8>| keys_of(*right).contains(k) ==> bit_at(k, depth))
            &&& !(*left is Empty && *right is Empty)
            &&& !(*left is Leaf && *right is Empty)
            &&& !(*left is Empty && *right is Leaf)
        },
    }
}

/// Every key of a subtree agrees with `kb` on the bits before `depth`.
/// This is the path constraint: a subtree reached by descending `depth`
/// levels along the bits of `kb` holds only keys with that bit prefix.
pub open spec fn prefix_ok(t: SpecNode, kb: Seq<u8>, depth: int) -> bool {
    forall|k: Seq<u8>, i: int|
        keys_of(t).contains(k) && 0 <= i < depth ==> bit_at(k, i) == bit_at(kb, i)
}

/// The domain of the denoted map is exactly the key set.
pub proof fn lemma_keys_eq_dom(t: SpecNode)
    ensures
        keys_of(t) =~= map_of(t).dom(),
    decreases t,
{
    match t {
        SpecNode::Empty => {},
        SpecNode::Leaf { .. } => {},
        SpecNode::Internal { left, right } => {
            lemma_keys_eq_dom(*left);
            lemma_keys_eq_dom(*right);
        },
    }
}

/// A well-formed non-empty subtree holds at least one key.
pub proof fn lemma_nonempty_has_key(t: SpecNode, depth: int)
    requires
        wf_shape(t, depth),
        !(t is Empty),
    ensures
        exists|k: Seq<u8>| keys_of(t).contains(k),
    decreases t,
{
    match t {
        SpecNode::Empty => {},
        SpecNode::Leaf { key, .. } => {
            assert(keys_of(t).contains(key));
        },
        SpecNode::Internal { left, right } => {
            if !(*left is Empty) {
                lemma_nonempty_has_key(*left, depth + 1);
                let k = choose|k: Seq<u8>| keys_of(*left).contains(k);
                assert(keys_of(t).contains(k));
            } else {
                lemma_nonempty_has_key(*right, depth + 1);
                let k = choose|k: Seq<u8>| keys_of(*right).contains(k);
                assert(keys_of(t).contains(k));
            }
        },
    }
}

/// A well-formed internal node holds at least two distinct keys.
pub proof fn lemma_internal_two_keys(t: SpecNode, depth: int)
    requires
        wf_shape(t, depth),
        t is Internal,
    ensures
        exists|k1: Seq<u8>, k2: Seq<u8>|
            keys_of(t).contains(k1) && keys_of(t).contains(k2) && k1 != k2,
    decreases t,
{
    let left = *t->Internal_left;
    let right = *t->Internal_right;
    if left is Internal {
        lemma_internal_two_keys(left, depth + 1);
        let (k1, k2) = choose|k1: Seq<u8>, k2: Seq<u8>|
            keys_of(left).contains(k1) && keys_of(left).contains(k2) && k1 != k2;
        assert(keys_of(t).contains(k1) && keys_of(t).contains(k2));
    } else if right is Internal {
        lemma_internal_two_keys(right, depth + 1);
        let (k1, k2) = choose|k1: Seq<u8>, k2: Seq<u8>|
            keys_of(right).contains(k1) && keys_of(right).contains(k2) && k1 != k2;
        assert(keys_of(t).contains(k1) && keys_of(t).contains(k2));
    } else {
        // Neither child is internal; the degenerate pairs are excluded, so
        // both children are leaves, and their keys differ at bit `depth`.
        let k1 = left->Leaf_key;
        let k2 = right->Leaf_key;
        assert(keys_of(left).contains(k1));
        assert(keys_of(right).contains(k2));
        assert(keys_of(t).contains(k1) && keys_of(t).contains(k2));
        assert(!bit_at(k1, depth));
        assert(bit_at(k2, depth));
        assert(k1 != k2);
    }
}

/// The two halves of a well-formed internal node hold disjoint key sets, so
/// the denoted map splits cleanly: a key with bit `depth` set is found in
/// the right child, one with the bit clear in the left child.
pub proof fn lemma_split(t: SpecNode, depth: int)
    requires
        wf_shape(t, depth),
        t is Internal,
    ensures
        map_of(t).dom() =~= map_of(*t->Internal_left).dom() + map_of(*t->Internal_right).dom(),
        forall|k: Seq<u8>|
            map_of(*t->Internal_left).dom().contains(k) ==> map_of(t)[k] == map_of(
                *t->Internal_left,
            )[k],
        forall|k: Seq<u8>|
            map_of(*t->Internal_right).dom().contains(k) ==> map_of(t)[k] == map_of(
                *t->Internal_right,
            )[k],
        forall|k: Seq<u8>|
            map_of(t).dom().contains(k) && bit_at(k, depth) ==> map_of(
                *t->Internal_right,
            ).dom().contains(k),
        forall|k: Seq<u8>|
            map_of(t).dom().contains(k) && !bit_at(k, depth) ==> map_of(
                *t->Internal_left,
            ).dom().contains(k),
{
    let left = *t->Internal_left;
    let right = *t->Internal_right;
    lemma_keys_eq_dom(t);
    lemma_keys_eq_dom(left);
    lemma_keys_eq_dom(right);
    assert forall|k: Seq<u8>| map_of(left).dom().contains(k) implies map_of(t)[k] == map_of(
        left,
    )[k] by {
        assert(!bit_at(k, depth));
        assert(!map_of(right).dom().contains(k));
    }
}

/// A well-formed tree denoting the empty map is the Empty node, so its hash
/// is the zero digest.
pub proof fn lemma_empty_map_is_empty_tree(t: SpecNode, depth: int)
    requires
        wf_shape(t, depth),
        map_of(t) == Map::<Seq<u8>, Seq<u8>>::empty(),
    ensures
        t is Empty,
        tree_hash(t) == zero32(),
{
    lemma_keys_eq_dom(t);
    if !(t is Empty) {
        lemma_nonempty_has_key(t, depth);
        let k = choose|k: Seq<u8>| keys_of(t).contains(k);
        assert(map_of(t).dom().contains(k));
    }
}

/// Canonical uniqueness: two well-formed trees at the same depth denoting
/// the same map are identical — the heart of insertion-order independence
/// of the root digest.
pub proof fn lemma_canonical_unique(t1: SpecNode, t2: SpecNode, depth: int)
    requires
        wf_shape(t1, depth),
        wf_shape(t2, depth),
        map_of(t1) == map_of(t2),
    ensures
        t1 == t2,
    decreases t1,
{
    lemma_keys_eq_dom(t1);
    lemma_keys_eq_dom(t2);
    match t1 {
        SpecNode::Empty => {
            match t2 {
                SpecNode::Empty => {},
                SpecNode::Leaf { key, .. } => {
                    assert(map_of(t2).dom().contains(key));
                    assert(map_of(t1).dom().contains(key));
                },
                SpecNode::Internal { .. } => {
                    lemma_internal_two_keys(t2, depth);
                    let k = choose|k: Seq<u8>| keys_of(t2).contains(k);
                    lemma_nonempty_has_key(t2, depth);
                    assert(map_of(t1).dom().contains(k));
                },
            }
        },
        SpecNode::Leaf { key: key1, value: value1 } => {
            match t2 {
                SpecNode::Empty => {
                    assert(map_of(t1).dom().contains(key1));
                },
                SpecNode::Leaf { key: key2, value: value2 } => {
                    assert(map_of(t1).dom().contains(key1));
                    assert(map_of(t2).dom().contains(key2));
                    assert(map_of(t2).dom() =~= set![key2]);
                    assert(key1 == key2);
                    assert(map_of(t1)[key1] == value1);
                    assert(map_of(t2)[key2] == value2);
                },
                SpecNode::Internal { .. } => {
                    lemma_internal_two_keys(t2, depth);
                    let (k1, k2) = choose|k1: Seq<u8>, k2: Seq<u8>|
                        keys_of(t2).contains(k1) && keys_of(t2).contains(k2) && k1 != k2;
                    assert(map_of(t1).dom() =~= set![key1]);
                    assert(map_of(t2).dom().contains(k1));
                    assert(map_of(t2).dom().contains(k2));
                },
            }
        },
        SpecNode::Internal { left: l1, right: r1 } => {
            match t2 {
                SpecNode::Empty => {
                    lemma_internal_two_keys(t1, depth);
                    let k = choose|k: Seq<u8>| keys_of(t1).contains(k);
                    lemma_nonempty_has_key(t1, depth);
                    assert(map_of(t2).dom().contains(k));
                },
                SpecNode::Leaf { key: key2, .. } => {
                    lemma_internal_two_keys(t1, depth);
                    let (k1, k2) = choose|k1: Seq<u8>, k2: Seq<u8>|
                        keys_of(t1).contains(k1) && keys_of(t1).contains(k2) && k1 != k2;
                    assert(map_of(t2).dom() =~= set![key2]);
                    assert(map_of(t1).dom().contains(k1));
                    assert(map_of(t1).dom().contains(k2));
                },
                SpecNode::Internal { left: l2, right: r2 } => {
                    lemma_split(t1, depth);
                    lemma_split(t2, depth);
                    lemma_keys_eq_dom(*l1);
                    lemma_keys_eq_dom(*r1);
                    lemma_keys_eq_dom(*l2);
                    lemma_keys_eq_dom(*r2);
                    assert forall|k: Seq<u8>| map_of(*l1).dom().contains(k) implies map_of(
                        *l2,
                    ).dom().contains(k) by {
                        assert(keys_of(*l1).contains(k));
                        assert(!bit_at(k, depth));
                        assert(map_of(t1).dom().contains(k));
                        assert(map_of(t2).dom().contains(k));
                    }
                    assert forall|k: Seq<u8>| map_of(*l2).dom().contains(k) implies map_of(
                        *l1,
                    ).dom().contains(k) by {
                        assert(keys_of(*l2).contains(k));
                        assert(!bit_at(k, depth));
                        assert(map_of(t2).dom().contains(k));
                        assert(map_of(t1).dom().contains(k));
                    }
                    assert forall|k: Seq<u8>| map_of(*r1).dom().contains(k) implies map_of(
                        *r2,
                    ).dom().contains(k) by {
                        assert(keys_of(*r1).contains(k));
                        assert(bit_at(k, depth));
                        assert(map_of(t1).dom().contains(k));
                        assert(map_of(t2).dom().contains(k));
                    }
                    assert forall|k: Seq<u8>| map_of(*r2).dom().contains(k) implies map_of(
                        *r1,
                    ).dom().contains(k) by {
                        assert(keys_of(*r2).contains(k));
                        assert(bit_at(k, depth));
                        assert(map_of(t2).dom().contains(k));
                        assert(map_of(t1).dom().contains(k));
                    }
                    assert(map_of(*l1).dom() =~= map_of(*l2).dom());
                    assert(map_of(*r1).dom() =~= map_of(*r2).dom());
                    assert forall|k: Seq<u8>| map_of(*l1).dom().contains(k) implies map_of(*l1)[k]
                        == map_of(*l2)[k] by {
                        assert(map_of(t1)[k] == map_of(*l1)[k]);
                        assert(map_of(t2)[k] == map_of(*l2)[k]);
                    }
                    assert forall|k: Seq<u8>| map_of(*r1).dom().contains(k) implies map_of(*r1)[k]
                        == map_of(*r2)[k] by {
                        assert(map_of(t1)[k] == map_of(*r1)[k]);
                        assert(map_of(t2)[k] == map_of(*r2)[k]);
                    }
                    assert(map_of(*l1) =~= map_of(*l2));
                    assert(map_of(*r1) =~= map_of(*r2));
                    lemma_canonical_unique(*l1, *l2, depth + 1);
                    lemma_canonical_unique(*r1, *r2, depth + 1);
                },
            }
        },
    }
}

/// A byte is determined by its eight bits.
proof fn lemma_u8_from_bits(a: u8, b: u8)
    requires
        forall|r: u8| r < 8 ==> #[trigger] ((a >> r) & 1) == ((b >> r) & 1),
    ensures
        a == b,
{
    assert(((a >> 7u8) & 1) == ((b >> 7u8) & 1));
    assert(((a >> 6u8) & 1) == ((b >> 6u8) & 1));
    assert(((a >> 5u8) & 1) == ((b >> 5u8) & 1));
    assert(((a >> 4u8) & 1) == ((b >> 4u8) & 1));
    assert(((a >> 3u8) & 1) == ((b >> 3u8) & 1));
    assert(((a >> 2u8) & 1) == ((b >> 2u8) & 1));
    assert(((a >> 1u8) & 1) == ((b >> 1u8) & 1));
    assert(((a >> 0u8) & 1) == ((b >> 0u8) & 1));
    assert(((a >> 7u8) & 1) == ((b >> 7u8) & 1) && ((a >> 6u8) & 1) == ((b >> 6u8) & 1) && ((a
        >> 5u8) & 1) == ((b >> 5u8) & 1) && ((a >> 4u8) & 1) == ((b >> 4u8) & 1) && ((a >> 3u8)
        & 1) == ((b >> 3u8) & 1) && ((a >> 2u8) & 1) == ((b >> 2u8) & 1) && ((a >> 1u8) & 1) == ((b
        >> 1u8) & 1) && ((a >> 0u8) & 1) == ((b >> 0u8) & 1) ==> a == b) by (bit_vector);
}

/// Keys that agree bitwise on all 256 positions are the same 32 bytes.
pub proof fn lemma_bits_determine_key(k1: Seq<u8>, k2: Seq<u8>)
    requires
        k1.len() == 32,
        k2.len() == 32,
        forall|i: int| 0 <= i < 256 ==> bit_at(k1, i) == bit_at(k2, i),
    ensures
        k1 == k2,
{
    assert forall|j: int| 0 <= j < 32 implies k1[j] == k2[j] by {
        let a = k1[j];
        let b = k2[j];
        assert forall|r: u8| r < 8 implies #[trigger] ((a >> r) & 1) == ((b >> r) & 1) by {
            let i = 8 * j + (7 - r);
            assert(0 <= i < 256);
            assert(i / 8 == j && i % 8 == 7 - r) by (nonlinear_arith)
                requires
                    0 <= j < 32,
                    r < 8,
                    i == 8 * j + (7 - r),
            ;
            assert(bit_at(k1, i) == bit_at(k2, i));
            assert((7 - i % 8) as u8 == r);
            assert(((a >> r) & 1 == 1) == ((b >> r) & 1 == 1));
            assert(((a >> r) & 1) == 0 || ((a >> r) & 1) == 1) by (bit_vector);
            assert(((b >> r) & 1) == 0 || ((b >> r) & 1) == 1) by (bit_vector);
        }
        lemma_u8_from_bits(a, b);
    }
    assert(k1 =~= k2);
}

/// Two distinct 32-byte keys differ at some bit position below 256.
pub proof fn lemma_distinct_keys_differ(k1: Seq<u8>, k2: Seq<u8>)
    requires
        k1.len() == 32,
        k2.len() == 32,
        k1 != k2,
    ensures
        exists|i: int| 0 <= i < 256 && bit_at(k1, i) != bit_at(k2, i),
{
    if forall|i: int| 0 <= i < 256 ==> bit_at(k1, i) == bit_at(k2, i) {
        lemma_bits_determine_key(k1, k2);
    }
}


/// Definitional facts for the Empty node, packaged for callers.
pub proof fn lemma_empty_facts()
    ensures
        map_of(SpecNode::Empty) == Map::<Seq<u8>, Seq<u8>>::empty(),
        keys_of(SpecNode::Empty) == Set::<Seq<u8>>::empty(),
        forall|d: int| wf_shape(SpecNode::Empty, d),
        tree_hash(SpecNode::Empty) == zero32(),
{
    assert(map_of(SpecNode::Empty) =~= Map::<Seq<u8>, Seq<u8>>::empty());
    assert(keys_of(SpecNode::Empty) =~= Set::<Seq<u8>>::empty());
    assert forall|d: int| wf_shape(SpecNode::Empty, d) by {}
}

/// Definitional facts for a leaf node, packaged for callers.
pub proof fn lemma_leaf_facts(key: Seq<u8>, value: Seq<u8>)
    ensures
        map_of(SpecNode::Leaf { key, value }) == Map::<Seq<u8>, Seq<u8>>::empty().insert(
            key,
            value,
        ),
        keys_of(SpecNode::Leaf { key, value }) == set![key],
        map_of(SpecNode::Leaf { key, value }).dom() == set![key],
        forall|d: int|
            #[trigger] wf_shape(SpecNode::Leaf { key, value }, d) <==> (key.len() == 32
                && value.len() <= 0xffff),
        tree_hash(SpecNode::Leaf { key, value }) == leaf_digest(key, value),
{
    assert(map_of(SpecNode::Leaf { key, value }).dom() =~= set![key]);
}

/// Definitional facts for an internal node over two subtrees, together
/// with its canonical-shape introduction rule.
pub proof fn lemma_internal_facts(l: SpecNode, r: SpecNode, depth: int)
    ensures
        map_of(SpecNode::Internal { left: Box::new(l), right: Box::new(r) }) == map_of(
            l,
        ).union_prefer_right(map_of(r)),
        keys_of(SpecNode::Internal { left: Box::new(l), right: Box::new(r) }) == keys_of(l).union(
            keys_of(r),
        ),
        tree_hash(SpecNode::Internal { left: Box::new(l), right: Box::new(r) })
            == internal_digest(tree_hash(l), tree_hash(r)),
        (0 <= depth < 256 && wf_shape(l, depth + 1) && wf_shape(r, depth + 1) && (forall|
            k: Seq<u8>,
        |
            keys_of(l).contains(k) ==> !bit_at(k, depth)) && (forall|k: Seq<u8>|
            keys_of(r).contains(k) ==> bit_at(k, depth)) && !(l is Empty && r is Empty) && !(
        l is Leaf && r is Empty) && !(l is Empty && r is Leaf)) ==> wf_shape(
            SpecNode::Internal { left: Box::new(l), right: Box::new(r) },
            depth,
        ),
{
    let t = SpecNode::Internal { left: Box::new(l), right: Box::new(r) };
    assert(map_of(t) == map_of(l).union_prefer_right(map_of(r)));
    assert(keys_of(t) == keys_of(l).union(keys_of(r)));
}


/// Apply a sequence of insertions to a map, first pair first.
pub open spec fn apply_pairs(
    m: Map<Seq<u8>, Seq<u8>>,
    ps: Seq<(Seq<u8>, Seq<u8>)>,
) -> Map<Seq<u8>, Seq<u8>>
    decreases ps.len(),
{
    if ps.len() == 0 {
        m
    } else {
        apply_pairs(m.insert(ps[0].0, ps[0].1), ps.skip(1))
    }
}

/// A key never inserted keeps whatever binding it had.
pub proof fn lemma_apply_pairs_untouched(
    m: Map<Seq<u8>, Seq<u8>>,
    ps: Seq<(Seq<u8>, Seq<u8>)>,
    k: Seq<u8>,
)
    requires
        forall|j: int| 0 <= j < ps.len() ==> (#[trigger] ps[j]).0 != k,
    ensures
        apply_pairs(m, ps).dom().contains(k) == m.dom().contains(k),
        m.dom().contains(k) ==> apply_pairs(m, ps)[k] == m[k],
    decreases ps.len(),
{
    if ps.len() > 0 {
        lemma_apply_pairs_untouched(m.insert(ps[0].0, ps[0].1), ps.skip(1), k);
    }
}

/// After any sequence of insertions, a key maps to the value of the last
/// pair that inserted it.
pub proof fn lemma_last_insert_wins(
    m: Map<Seq<u8>, Seq<u8>>,
    ps: Seq<(Seq<u8>, Seq<u8>)>,
    i: int,
)
    requires
        0 <= i < ps.len(),
        forall|j: int| i < j < ps.len() ==> (#[trigger] ps[j]).0 != ps[i].0,
    ensures
        apply_pairs(m, ps).dom().contains(ps[i].0),
        apply_pairs(m, ps)[ps[i].0] == ps[i].1,
    decreases ps.len(),
{
    let k = ps[i].0;
    if i == 0 {
        assert forall|j: int| 0 <= j < ps.skip(1).len() implies (#[trigger] ps.skip(
            1,
        )[j]).0 != k by {
            assert(ps.skip(1)[j] == ps[j + 1]);
        }
        lemma_apply_pairs_untouched(m.insert(k, ps[0].1), ps.skip(1), k);
    } else {
        assert(ps.skip(1)[i - 1] == ps[i]);
        assert forall|j: int| i - 1 < j < ps.skip(1).len() implies (#[trigger] ps.skip(
            1,
        )[j]).0 != ps.skip(1)[i - 1].0 by {
            assert(ps.skip(1)[j] == ps[j + 1]);
        }
        lemma_last_insert_wins(m.insert(ps[0].0, ps[0].1), ps.skip(1), i - 1);
    }
}

/// Removing a key and inserting it again is the same as inserting it
/// straight away.
pub proof fn lemma_remove_then_insert(m: Map<Seq<u8>, Seq<u8>>, k: Seq<u8>, v: Seq<u8>)
    ensures
        m.remove(k).insert(k, v) =~= m.insert(k, v),
{
}

} // verus!
