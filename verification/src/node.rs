//! The in-memory node representation, its fixed-size binary codec, and the
//! spec-level reading of nodes out of stored file bytes.
//!
//! A node is `Empty`, a `Leaf`, an `Internal` branch, or a lazy `Hash`
//! placeholder that names a persisted node by `(file index, position)`.
//! The meaning of a node is given relative to the store's file contents by
//! [`Node::view_in`]; [`stored_view`] is the denotation of a persisted node
//! read back from raw bytes, hash checks included.

use vstd::prelude::*;
use crate::encoding::{le16, le32, u16_le, u32_le};
use crate::encoding::{copy_range, read_u16_le, read_u32_le, write_u16_le, write_u32_le};
use crate::errors::Error;
use crate::hasher::{append_slice, hash_internal, hash_leaf_value, internal_digest, leaf_digest, zero32, Digest};
use crate::model::{tree_hash, SpecNode};

verus! {

/// Encoded size of a leaf node.
pub const LEAF_NODE_SIZE: usize = 40;

/// Encoded size of an internal node.
pub const INTERNAL_NODE_SIZE: usize = 76;

/// Storage positions stay below this bound so that the tagged position
/// `pos * 2 + is_leaf` still fits in 32 bits.
pub const POS_LIMIT: u32 = 0x8000_0000;

/// The file with 1-based index `index`.
pub open spec fn file_at(files: Seq<Seq<u8>>, index: int) -> Seq<u8> {
    files[index - 1]
}

/// The tagged on-disk position: the position shifted up one bit, with the
/// "is a leaf" flag in the low bit.
pub open spec fn spec_tagged(pos: u32, is_leaf: bool) -> u32 {
    (pos * 2 + if is_leaf {
        1int
    } else {
        0int
    }) as u32
}

/// The subtree denoted by the leaf record at `(index, pos)`: its key and
/// the value bytes fetched from the value coordinates it carries. `None`
/// when any coordinate is out of range.
pub open spec fn stored_leaf_view(files: Seq<Seq<u8>>, index: int, pos: int) -> Option<SpecNode> {
    if 1 <= index <= files.len() && 0 <= pos && pos + 40 <= file_at(files, index).len() {
        let b = file_at(files, index).subrange(pos, pos + 40);
        let vindex = le16(b.subrange(0, 2));
        let vpos = le32(b.subrange(2, 6));
        let vsize = le16(b.subrange(6, 8));
        let key = b.subrange(8, 40);
        if 1 <= vindex <= files.len() && vpos + vsize <= file_at(files, vindex).len() {
            Some(
                SpecNode::Leaf {
                    key,
                    value: file_at(files, vindex).subrange(vpos, vpos + vsize),
                },
            )
        } else {
            None
        }
    } else {
        None
    }
}

/// The subtree denoted by the node record at `(index, pos)` in `files`,
/// with all lazy references followed and every stored child digest checked
/// against the subtree it points at. `None` when the record or any node
/// below it is malformed.
pub open spec fn stored_view(files: Seq<Seq<u8>>, index: int, pos: int, is_leaf: bool) -> Option<
    SpecNode,
>
    decreases index, pos, 1int,
{
    if is_leaf {
        stored_leaf_view(files, index, pos)
    } else {
        if 1 <= index <= files.len() && 0 <= pos && pos + 76 <= file_at(files, index).len() {
            let b = file_at(files, index).subrange(pos, pos + 76);
            let lchild = stored_child(files, index, pos, b.subrange(0, 38));
            let rchild = stored_child(files, index, pos, b.subrange(38, 76));
            if lchild is Some && rchild is Some {
                Some(
                    SpecNode::Internal {
                        left: Box::new(lchild.unwrap()),
                        right: Box::new(rchild.unwrap()),
                    },
                )
            } else {
                None
            }
        } else {
            None
        }
    }
}

/// The subtree denoted by one 38-byte child descriptor of the internal
/// node at `(pindex, ppos)`. A zero file index with a zero tagged position
/// and a zero hash denotes an Empty child; otherwise the descriptor must
/// point strictly earlier in the log than its parent, and its stored hash
/// must equal the digest of the subtree it points at.
pub open spec fn stored_child(files: Seq<Seq<u8>>, pindex: int, ppos: int, d: Seq<u8>) -> Option<
    SpecNode,
>
    decreases pindex, ppos, 0int,
{
    let cindex = le16(d.subrange(0, 2));
    let tagged = le32(d.subrange(2, 6));
    let chash = d.subrange(6, 38);
    if cindex == 0 {
        if tagged == 0 && chash == zero32() {
            Some(SpecNode::Empty)
        } else {
            None
        }
    } else {
        let cpos = tagged / 2;
        let cleaf = tagged % 2 == 1;
        if cindex < pindex || (cindex == pindex && cpos < ppos) {
            match stored_view(files, cindex, cpos, cleaf) {
                Some(ct) => if tree_hash(ct) == chash {
                    Some(ct)
                } else {
                    None
                },
                None => None,
            }
        } else {
            None
        }
    }
}

/// A trie node: the absence sentinel, a lazy placeholder for a persisted
/// node, a leaf, or an internal branch.
#[derive(Debug, PartialEq)]
pub enum Node {
    /// The "no child in this direction" sentinel; hashes as the zero digest.
    Empty,
    /// A persisted subtree not yet materialised: its digest, its storage
    /// coordinates, and one bit saying whether it is a leaf.
    Hash { index: u16, pos: u32, data: Digest, is_leaf: u8 },
    /// A leaf: its cached hash `data`, key digest, optional in-memory value
    /// and the storage coordinates of both the node and the value blob.
    Leaf {
        index: u16,
        pos: u32,
        data: Digest,
        key: Digest,
        value: Option<Vec<u8>>,
        vindex: u16,
        vpos: u32,
        vsize: u16,
    },
    /// An internal branch with its two children.
    Internal { index: u16, pos: u32, data: Digest, left: Box<Node>, right: Box<Node> },
}

impl Node {
    /// The node's storage file index (0 when unpersisted or Empty).
    pub open spec fn spec_index(self) -> u16 {
        match self {
            Node::Empty => 0,
            Node::Hash { index, .. } => index,
            Node::Leaf { index, .. } => index,
            Node::Internal { index, .. } => index,
        }
    }

    /// The node's storage position (0 when unpersisted or Empty).
    pub open spec fn spec_pos(self) -> u32 {
        match self {
            Node::Empty => 0,
            Node::Hash { pos, .. } => pos,
            Node::Leaf { pos, .. } => pos,
            Node::Internal { pos, .. } => pos,
        }
    }

    /// Whether the node is (or stands for) a leaf.
    pub open spec fn spec_is_leaf(self) -> bool {
        match self {
            Node::Leaf { .. } => true,
            Node::Hash { is_leaf, .. } => is_leaf == 1,
            _ => false,
        }
    }

    /// The subtree this node denotes, relative to the store's file bytes:
    /// a Hash placeholder denotes whatever its coordinates hold, a leaf
    /// without an in-memory value fetches its value bytes from the store.
    pub open spec fn view_in(self, files: Seq<Seq<u8>>) -> Option<SpecNode>
        decreases self,
    {
        match self {
            Node::Empty => Some(SpecNode::Empty),
            Node::Hash { index, pos, is_leaf, .. } => stored_view(
                files,
                index as int,
                pos as int,
                is_leaf == 1,
            ),
            Node::Leaf { key, value, vindex, vpos, vsize, .. } => match value {
                Some(v) => Some(SpecNode::Leaf { key: key@, value: v@ }),
                None => if 1 <= vindex && vindex <= files.len() && vpos + vsize <= file_at(
                    files,
                    vindex as int,
                ).len() {
                    Some(
                        SpecNode::Leaf {
                            key: key@,
                            value: file_at(files, vindex as int).subrange(
                                vpos as int,
                                vpos + vsize,
                            ),
                        },
                    )
                } else {
                    None
                },
            },
            Node::Internal { left, right, .. } => {
                if (*left).view_in(files) is Some && (*right).view_in(files) is Some {
                    Some(
                        SpecNode::Internal {
                            left: Box::new((*left).view_in(files).unwrap()),
                            right: Box::new((*right).view_in(files).unwrap()),
                        },
                    )
                } else {
                    None
                }
            },
        }
    }

    /// Well-formedness of an in-memory node relative to the store's files:
    /// cached digests equal the digests of the subtrees they summarise,
    /// positions stay below [`POS_LIMIT`], and a node that claims storage
    /// coordinates really is stored there.
    pub open spec fn wf_in(self, files: Seq<Seq<u8>>) -> bool
        decreases self,
    {
        match self {
            Node::Empty => true,
            Node::Hash { index, pos, data, is_leaf } => {
                &&& data@.len() == 32
                &&& (is_leaf == 0 || is_leaf == 1)
                &&& pos < POS_LIMIT
                &&& stored_view(files, index as int, pos as int, is_leaf == 1) is Some
                &&& data@ == tree_hash(
                    stored_view(files, index as int, pos as int, is_leaf == 1).unwrap(),
                )
            },
            Node::Leaf { index, pos, data, key, value, vindex, vpos, vsize } => {
                &&& key@.len() == 32
                &&& data@.len() == 32
                &&& pos < POS_LIMIT
                &&& vsize <= 0xffff
                &&& self.view_in(files) is Some
                &&& data@ == tree_hash(self.view_in(files).unwrap())
                &&& (value is Some ==> value.unwrap()@.len() == vsize)
                &&& (value is None ==> stored_view(files, index as int, pos as int, true)
                    == self.view_in(files))
            },
            Node::Internal { index, pos, left, right, .. } => {
                &&& pos < POS_LIMIT
                &&& (*left).wf_in(files)
                &&& (*right).wf_in(files)
                &&& (index != 0 ==> stored_view(files, index as int, pos as int, false)
                    == self.view_in(files))
            },
        }
    }

    /// Whether the node's claimed storage coordinates hold exactly the
    /// subtree it denotes (trivial for Empty and Hash nodes).
    pub open spec fn persisted_at(self, files: Seq<Seq<u8>>) -> bool {
        match self {
            Node::Empty => true,
            Node::Hash { .. } => true,
            Node::Leaf { index, pos, .. } => stored_view(files, index as int, pos as int, true)
                == self.view_in(files),
            Node::Internal { index, pos, .. } => stored_view(
                files,
                index as int,
                pos as int,
                false,
            ) == self.view_in(files),
        }
    }

    /// `self` with its cached digest replaced.
    pub open spec fn with_data(self, h: Digest) -> Node {
        match self {
            Node::Empty => self,
            Node::Hash { index, pos, is_leaf, .. } => Node::Hash { index, pos, data: h, is_leaf },
            Node::Leaf { index, pos, key, value, vindex, vpos, vsize, .. } => Node::Leaf {
                index,
                pos,
                data: h,
                key,
                value,
                vindex,
                vpos,
                vsize,
            },
            Node::Internal { index, pos, left, right, .. } => Node::Internal {
                index,
                pos,
                data: h,
                left,
                right,
            },
        }
    }

    /// `self` with its storage coordinates replaced.
    pub open spec fn with_location(self, i: u16, p: u32) -> Node {
        match self {
            Node::Empty => self,
            Node::Hash { data, is_leaf, .. } => Node::Hash { index: i, pos: p, data, is_leaf },
            Node::Leaf { data, key, value, vindex, vpos, vsize, .. } => Node::Leaf {
                index: i,
                pos: p,
                data,
                key,
                value,
                vindex,
                vpos,
                vsize,
            },
            Node::Internal { data, left, right, .. } => Node::Internal {
                index: i,
                pos: p,
                data,
                left,
                right,
            },
        }
    }

    /// A well-formed node always denotes a subtree.
    pub proof fn lemma_wf_view_some(self, files: Seq<Seq<u8>>)
        requires
            self.wf_in(files),
        ensures
            self.view_in(files) is Some,
        decreases self,
    {
        match self {
            Node::Internal { left, right, .. } => {
                (*left).lemma_wf_view_some(files);
                (*right).lemma_wf_view_some(files);
            },
            _ => {},
        }
    }

    /// The digest of the subtree this node denotes: the cached digest for
    /// leaves and placeholders, recomputed bottom-up for internal nodes.
    pub fn hash(&self) -> (r: Digest)
        ensures
            forall|files: Seq<Seq<u8>>| #[trigger]
                self.wf_in(files) ==> r.wf() && r@ == tree_hash(self.view_in(files).unwrap()),
            self is Empty || self is Internal ==> r.wf(),
        decreases self,
    {
        match self {
            Node::Empty => {
                let r = Digest::zero();
                proof {
                    assert forall|files: Seq<Seq<u8>>| #[trigger] self.wf_in(files) implies r.wf()
                        && r@ == tree_hash(self.view_in(files).unwrap()) by {
                        assert(self.view_in(files) == Some(SpecNode::Empty));
                        assert(tree_hash(SpecNode::Empty) == zero32());
                    }
                }
                r
            },
            Node::Hash { data, .. } => {
                let r = data.duplicate();
                proof {
                    assert forall|files: Seq<Seq<u8>>| #[trigger] self.wf_in(files) implies r.wf()
                        && r@ == tree_hash(self.view_in(files).unwrap()) by {
                        assert(data@ == tree_hash(self.view_in(files).unwrap()));
                    }
                }
                r
            },
            Node::Leaf { data, .. } => {
                let r = data.duplicate();
                proof {
                    assert forall|files: Seq<Seq<u8>>| #[trigger] self.wf_in(files) implies r.wf()
                        && r@ == tree_hash(self.view_in(files).unwrap()) by {
                        assert(data@ == tree_hash(self.view_in(files).unwrap()));
                    }
                }
                r
            },
            Node::Internal { left, right, .. } => {
                let lh = left.hash();
                let rh = right.hash();
                let r = hash_internal(&lh, &rh);
                proof {
                    assert forall|files: Seq<Seq<u8>>| #[trigger] self.wf_in(files) implies r.wf()
                        && r@ == tree_hash(self.view_in(files).unwrap()) by {
                        assert((**left).wf_in(files));
                        assert((**right).wf_in(files));
                        (**left).lemma_wf_view_some(files);
                        (**right).lemma_wf_view_some(files);
                        let lv = (**left).view_in(files).unwrap();
                        let rv = (**right).view_in(files).unwrap();
                        assert(lh@ == tree_hash(lv));
                        assert(rh@ == tree_hash(rv));
                        assert(self.view_in(files) == Some(
                            SpecNode::Internal { left: Box::new(lv), right: Box::new(rv) },
                        ));
                        assert(tree_hash(
                            SpecNode::Internal { left: Box::new(lv), right: Box::new(rv) },
                        ) == internal_digest(tree_hash(lv), tree_hash(rv)));
                    }
                }
                r
            },
        }
    }

    /// Replace the cached digest; used by resolution to carry a lazy
    /// placeholder's digest into the node read back for it.
    pub fn update_data_value(&mut self, h: Digest)
        requires
            !(*old(self) is Empty),
        ensures
            *final(self) == old(self).with_data(h),
    {
        match self {
            Node::Hash { data, .. } => *data = h,
            Node::Leaf { data, .. } => *data = h,
            Node::Internal { data, .. } => *data = h,
            Node::Empty => {},
        }
    }

    /// The cached digest (zero for Empty; internal nodes cache nothing
    /// meaningful here, their digest is recomputed by [`Node::hash`]).
    pub fn get_data_value(&self) -> (r: Digest)
        ensures
            r@ == self.spec_data_view(),
    {
        match self {
            Node::Empty => Digest::zero(),
            Node::Hash { data, .. } => data.duplicate(),
            Node::Leaf { data, .. } => data.duplicate(),
            Node::Internal { data, .. } => data.duplicate(),
        }
    }

    /// The cached digest as bytes, zero for Empty.
    pub open spec fn spec_data_view(self) -> Seq<u8> {
        match self {
            Node::Empty => zero32(),
            Node::Hash { data, .. } => data@,
            Node::Leaf { data, .. } => data@,
            Node::Internal { data, .. } => data@,
        }
    }

    /// Record where a leaf's value blob was stored.
    pub fn update_value_storage_location(&mut self, i: u16, p: u32)
        requires
            *old(self) is Leaf,
        ensures
            *final(self) == (Node::Leaf {
                index: old(self)->Leaf_index,
                pos: old(self)->Leaf_pos,
                data: old(self)->Leaf_data,
                key: old(self)->Leaf_key,
                value: old(self)->Leaf_value,
                vindex: i,
                vpos: p,
                vsize: old(self)->Leaf_vsize,
            }),
    {
        match self {
            Node::Leaf { vindex, vpos, .. } => {
                *vindex = i;
                *vpos = p;
            },
            _ => {},
        }
    }

    /// The node's storage coordinates, `(0, 0)` for Empty.
    pub fn get_storage_location(&self) -> (r: (u16, u32))
        ensures
            r.0 == self.spec_index(),
            r.1 == self.spec_pos(),
    {
        match self {
            Node::Leaf { index, pos, .. } => (*index, *pos),
            Node::Internal { index, pos, .. } => (*index, *pos),
            Node::Hash { index, pos, .. } => (*index, *pos),
            Node::Empty => (0, 0),
        }
    }

    /// Record where the node itself was stored.
    pub fn update_storage_location(&mut self, i: u16, p: u32)
        requires
            !(*old(self) is Empty),
        ensures
            *final(self) == old(self).with_location(i, p),
    {
        match self {
            Node::Leaf { index, pos, .. } => {
                *index = i;
                *pos = p;
            },
            Node::Internal { index, pos, .. } => {
                *index = i;
                *pos = p;
            },
            Node::Hash { index, pos, .. } => {
                *index = i;
                *pos = p;
            },
            Node::Empty => {},
        }
    }

    /// Collapse a persisted leaf or internal node into a lazy Hash
    /// placeholder carrying its digest and coordinates; Empty and Hash
    /// nodes are returned unchanged.
    pub fn into_hash_node(self) -> (r: Node)
        ensures
            r.spec_index() == self.spec_index(),
            r.spec_pos() == self.spec_pos(),
            r.spec_is_leaf() == self.spec_is_leaf(),
            self is Leaf || self is Internal ==> r is Hash,
            self is Empty || self is Hash ==> r == self,
            forall|files: Seq<Seq<u8>>|
                #[trigger] self.wf_in(files) && self.persisted_at(files) ==> r.wf_in(files)
                    && r.view_in(files) == self.view_in(files),
    {
        match &self {
            Node::Internal { index, pos, .. } => {
                let h = self.hash();
                let r = Node::Hash { index: *index, pos: *pos, data: h, is_leaf: 0 };
                proof {
                    assert forall|files: Seq<Seq<u8>>|
                        #[trigger] self.wf_in(files) && self.persisted_at(files) implies r.wf_in(
                        files,
                    ) && r.view_in(files) == self.view_in(files) by {
                        self.lemma_wf_view_some(files);
                    }
                }
                r
            },
            Node::Leaf { index, pos, .. } => {
                let h = self.hash();
                let r = Node::Hash { index: *index, pos: *pos, data: h, is_leaf: 1 };
                proof {
                    assert forall|files: Seq<Seq<u8>>|
                        #[trigger] self.wf_in(files) && self.persisted_at(files) implies r.wf_in(
                        files,
                    ) && r.view_in(files) == self.view_in(files) by {
                        self.lemma_wf_view_some(files);
                    }
                }
                r
            },
            _ => self,
        }
    }

    /// Whether the node is (or stands for) a leaf.
    pub fn is_leaf(&self) -> (r: bool)
        ensures
            r == self.spec_is_leaf(),
    {
        match self {
            Node::Leaf { .. } => true,
            Node::Hash { is_leaf, .. } => *is_leaf == 1,
            _ => false,
        }
    }

    /// Whether the node is the Empty sentinel.
    pub fn is_empty(&self) -> (r: bool)
        ensures
            r == (self is Empty),
    {
        match self {
            Node::Empty => true,
            _ => false,
        }
    }

    /// A fresh, unpersisted leaf for `(key, value)` with its digest
    /// computed.
    pub fn new_leaf_node(key: Digest, value: Vec<u8>) -> (r: Node)
        requires
            key.wf(),
            value@.len() <= 0xffff,
        ensures
            r is Leaf,
            r.spec_index() == 0,
            r.spec_pos() == 0,
            r->Leaf_key == key,
            r->Leaf_value == Some(value),
            r->Leaf_vindex == 0,
            r->Leaf_vpos == 0,
            r->Leaf_vsize == value@.len(),
            r->Leaf_data@ == leaf_digest(key@, value@),
            forall|files: Seq<Seq<u8>>| #[trigger] r.wf_in(files),
            forall|files: Seq<Seq<u8>>| #[trigger] r.view_in(files) == Some(
                SpecNode::Leaf { key: key@, value: value@ },
            ),
    {
        let sz = value.len() as u16;
        let data = hash_leaf_value(&key, value.as_slice());
        Node::Leaf {
            index: 0,
            pos: 0,
            data,
            key,
            value: Some(value),
            vindex: 0,
            vpos: 0,
            vsize: sz,
        }
    }

    /// A fresh, unpersisted internal node over two children.
    pub fn new_internal_node(left: Node, right: Node) -> (r: Node)
        ensures
            r is Internal,
            *r->Internal_left == left,
            *r->Internal_right == right,
            r.spec_index() == 0,
            r.spec_pos() == 0,
            r->Internal_data@ == zero32(),
    {
        Node::Internal {
            index: 0,
            pos: 0,
            data: Digest::zero(),
            left: Box::new(left),
            right: Box::new(right),
        }
    }

    /// Box the node.
    pub fn into_boxed(self) -> (r: Box<Node>)
        ensures
            *r == self,
    {
        Box::new(self)
    }

    /// Tag a position with the node-kind bit for the on-disk form.
    pub fn tag_pos_for_leaf_or_internal(pos: u32, is_leaf: bool) -> (r: u32)
        requires
            pos < POS_LIMIT,
        ensures
            r == spec_tagged(pos, is_leaf),
    {
        if is_leaf {
            pos * 2 + 1
        } else {
            pos * 2
        }
    }

    /// Split a tagged position into the true position and the leaf flag.
    pub fn get_pos_tag(flagged_pos: u32) -> (r: (u32, u8))
        ensures
            r.0 == flagged_pos / 2,
            r.1 == flagged_pos % 2,
            r.0 < POS_LIMIT,
    {
        let is_leaf = (flagged_pos % 2) as u8;
        let pos = flagged_pos / 2;
        (pos, is_leaf)
    }
}


/// The 40 encoded bytes of a leaf record.
pub open spec fn spec_encode_leaf(vindex: u16, vpos: u32, vsize: u16, key: Seq<u8>) -> Seq<u8> {
    u16_le(vindex) + u32_le(vpos) + u16_le(vsize) + key
}

/// The 38 encoded bytes of one child descriptor: file index, tagged
/// position, and the digest of the subtree the child denotes.
pub open spec fn spec_child_desc(c: Node, files: Seq<Seq<u8>>) -> Seq<u8> {
    u16_le(c.spec_index()) + u32_le(spec_tagged(c.spec_pos(), c.spec_is_leaf())) + tree_hash(
        c.view_in(files).unwrap(),
    )
}

/// What a decoded child of an internal record looks like: Empty for a zero
/// file index, otherwise a Hash placeholder carrying the descriptor's
/// coordinates, kind bit and digest.
pub open spec fn child_matches(c: Node, d: Seq<u8>) -> bool {
    if le16(d.subrange(0, 2)) == 0 {
        c is Empty
    } else {
        &&& c is Hash
        &&& c->Hash_index as int == le16(d.subrange(0, 2))
        &&& c->Hash_pos as int == le32(d.subrange(2, 6)) / 2
        &&& c->Hash_is_leaf as int == le32(d.subrange(2, 6)) % 2
        &&& c->Hash_data@ == d.subrange(6, 38)
    }
}

impl Node {
    /// Encode a leaf or internal node into its fixed-size storage form;
    /// Empty and Hash nodes have no encoding of their own.
    pub fn encode(&self) -> (r: Result<Vec<u8>, Error>)
        requires
            self is Leaf ==> self->Leaf_value is Some,
            self is Internal ==> (*self->Internal_left).spec_pos() < POS_LIMIT && (
            *self->Internal_right).spec_pos() < POS_LIMIT,
        ensures
            r is Ok <==> (self is Leaf || self is Internal),
            self is Leaf ==> r.unwrap()@ == spec_encode_leaf(
                self->Leaf_vindex,
                self->Leaf_vpos,
                self->Leaf_vsize,
                self->Leaf_key@,
            ),
            self is Internal ==> forall|files: Seq<Seq<u8>>| #[trigger]
                self.wf_in(files) ==> r.unwrap()@ == spec_child_desc(*self->Internal_left, files)
                    + spec_child_desc(*self->Internal_right, files),
    {
        match self {
            Node::Leaf { key, vindex, vpos, vsize, .. } => {
                let mut w: Vec<u8> = Vec::new();
                write_u16_le(&mut w, *vindex);
                write_u32_le(&mut w, *vpos);
                write_u16_le(&mut w, *vsize);
                let kb = key.to_vec();
                append_slice(&mut w, kb.as_slice());
                proof {
                    assert(w@ =~= spec_encode_leaf(*vindex, *vpos, *vsize, key@));
                }
                Ok(w)
            },
            Node::Internal { left, right, .. } => {
                let mut w: Vec<u8> = Vec::new();
                let (lindex, lpos) = left.get_storage_location();
                let left_is_leaf = left.is_leaf();
                write_u16_le(&mut w, lindex);
                let ltag = Node::tag_pos_for_leaf_or_internal(lpos, left_is_leaf);
                write_u32_le(&mut w, ltag);
                let lh = left.hash();
                let lhb = lh.to_vec();
                append_slice(&mut w, lhb.as_slice());

                let (rindex, rpos) = right.get_storage_location();
                let right_is_leaf = right.is_leaf();
                write_u16_le(&mut w, rindex);
                let rtag = Node::tag_pos_for_leaf_or_internal(rpos, right_is_leaf);
                write_u32_le(&mut w, rtag);
                let rh = right.hash();
                let rhb = rh.to_vec();
                append_slice(&mut w, rhb.as_slice());
                proof {
                    assert forall|files: Seq<Seq<u8>>| #[trigger] self.wf_in(files) implies w@
                        == spec_child_desc(*self->Internal_left, files) + spec_child_desc(
                        *self->Internal_right,
                        files,
                    ) by {
                        assert((**left).wf_in(files));
                        assert((**right).wf_in(files));
                        assert(lh@ == tree_hash((**left).view_in(files).unwrap()));
                        assert(rh@ == tree_hash((**right).view_in(files).unwrap()));
                        assert(w@ =~= spec_child_desc(**left, files) + spec_child_desc(
                            **right,
                            files,
                        ));
                    }
                }
                Ok(w)
            },
            _ => Err(Error::Io),
        }
    }

    /// Decode the storage form back into a node: a leaf with its value
    /// left unresolved, or an internal node whose children are lazy Hash
    /// placeholders (or Empty for an absent child). Fails exactly when the
    /// buffer length does not match the claimed kind.
    pub fn decode(bits: Vec<u8>, is_leaf: bool) -> (r: Result<Node, Error>)
        ensures
            r is Ok <==> bits@.len() == (if is_leaf {
                40int
            } else {
                76int
            }),
            (is_leaf && bits@.len() == 40) ==> {
                let n = r.unwrap();
                &&& n is Leaf
                &&& n->Leaf_key@ == bits@.subrange(8, 40)
                &&& n->Leaf_vindex as int == le16(bits@.subrange(0, 2))
                &&& n->Leaf_vpos as int == le32(bits@.subrange(2, 6))
                &&& n->Leaf_vsize as int == le16(bits@.subrange(6, 8))
                &&& n->Leaf_value is None
                &&& n->Leaf_index == 0
                &&& n->Leaf_pos == 0
                &&& n->Leaf_data@ == zero32()
            },
            (!is_leaf && bits@.len() == 76) ==> {
                let n = r.unwrap();
                &&& n is Internal
                &&& child_matches(*n->Internal_left, bits@.subrange(0, 38))
                &&& child_matches(*n->Internal_right, bits@.subrange(38, 76))
                &&& n->Internal_index == 0
                &&& n->Internal_pos == 0
                &&& n->Internal_data@ == zero32()
            },
    {
        if is_leaf {
            if bits.len() != LEAF_NODE_SIZE {
                return Err(Error::Io);
            }
            let vindex = read_u16_le(bits.as_slice(), 0);
            let vpos = read_u32_le(bits.as_slice(), 2);
            let vsize = read_u16_le(bits.as_slice(), 6);
            let keybytes = copy_range(bits.as_slice(), 8, 32);
            let key = Digest::from_vec(keybytes);
            Ok(
                Node::Leaf {
                    pos: 0,
                    index: 0,
                    data: Digest::zero(),
                    key,
                    value: None,
                    vindex,
                    vpos,
                    vsize,
                },
            )
        } else {
            if bits.len() != INTERNAL_NODE_SIZE {
                return Err(Error::Io);
            }
            let leftnode = Node::decode_child(&bits, 0);
            let rightnode = Node::decode_child(&bits, 38);
            proof {
                assert(bits@.subrange(0, 38).subrange(0, 2) =~= bits@.subrange(0, 2));
                assert(bits@.subrange(0, 38).subrange(2, 6) =~= bits@.subrange(2, 6));
                assert(bits@.subrange(0, 38).subrange(6, 38) =~= bits@.subrange(6, 38));
                assert(bits@.subrange(38, 76).subrange(0, 2) =~= bits@.subrange(38, 40));
                assert(bits@.subrange(38, 76).subrange(2, 6) =~= bits@.subrange(40, 44));
                assert(bits@.subrange(38, 76).subrange(6, 38) =~= bits@.subrange(44, 76));
            }
            Ok(
                Node::Internal {
                    pos: 0,
                    index: 0,
                    data: Digest::zero(),
                    left: Box::new(leftnode),
                    right: Box::new(rightnode),
                },
            )
        }
    }

    /// Decode one 38-byte child descriptor starting at `base`.
    fn decode_child(bits: &Vec<u8>, base: usize) -> (c: Node)
        requires
            base + 38 <= bits@.len(),
        ensures
            child_matches(c, bits@.subrange(base as int, base + 38)),
    {
        let n: usize = bits.len();
        let cindex = read_u16_le(bits.as_slice(), base);
        proof {
            assert(base + 38 <= n);
            assert(bits@.subrange(base as int, base + 38).subrange(0, 2) =~= bits@.subrange(
                base as int,
                base + 2,
            ));
            assert(bits@.subrange(base as int, base + 38).subrange(2, 6) =~= bits@.subrange(
                base + 2,
                base + 6,
            ));
            assert(bits@.subrange(base as int, base + 38).subrange(6, 38) =~= bits@.subrange(
                base + 6,
                base + 38,
            ));
        }
        if cindex != 0 {
            let tagged = read_u32_le(bits.as_slice(), base + 2);
            let (cpos, cleaf) = Node::get_pos_tag(tagged);
            let chash = copy_range(bits.as_slice(), base + 6, 32);
            Node::Hash { pos: cpos, index: cindex, data: Digest::from_vec(chash), is_leaf: cleaf }
        } else {
            Node::Empty
        }
    }
}

/// `f2` extends `f1` when every file of `f1` is a prefix of the matching
/// file of `f2`; appending to the log only ever extends in this sense.
pub open spec fn files_extend(f1: Seq<Seq<u8>>, f2: Seq<Seq<u8>>) -> bool {
    f1.len() <= f2.len() && forall|i: int| 0 <= i < f1.len() ==> f1[i].is_prefix_of(#[trigger] f2[i])
}

/// A subrange of a prefix equals the same subrange of the longer sequence.
pub proof fn lemma_prefix_subrange(a: Seq<u8>, b: Seq<u8>, lo: int, hi: int)
    requires
        a.is_prefix_of(b),
        0 <= lo <= hi <= a.len(),
    ensures
        b.subrange(lo, hi) == a.subrange(lo, hi),
{
    assert(b.subrange(lo, hi) =~= a.subrange(lo, hi));
}

/// Extending the log never changes the subtree a stored record denotes.
pub proof fn lemma_stored_view_extends(
    f1: Seq<Seq<u8>>,
    f2: Seq<Seq<u8>>,
    index: int,
    pos: int,
    is_leaf: bool,
)
    requires
        files_extend(f1, f2),
        stored_view(f1, index, pos, is_leaf) is Some,
    ensures
        stored_view(f2, index, pos, is_leaf) == stored_view(f1, index, pos, is_leaf),
    decreases index, pos, 1int,
{
    if is_leaf {
        let f = file_at(f1, index);
        assert(f.is_prefix_of(file_at(f2, index)));
        lemma_prefix_subrange(f, file_at(f2, index), pos, pos + 40);
        let b = f.subrange(pos, pos + 40);
        let vindex = le16(b.subrange(0, 2));
        let vpos = le32(b.subrange(2, 6));
        let vsize = le16(b.subrange(6, 8));
        assert(file_at(f1, vindex).is_prefix_of(file_at(f2, vindex)));
        lemma_prefix_subrange(file_at(f1, vindex), file_at(f2, vindex), vpos, vpos + vsize);
    } else {
        let f = file_at(f1, index);
        assert(f.is_prefix_of(file_at(f2, index)));
        lemma_prefix_subrange(f, file_at(f2, index), pos, pos + 76);
        let b = f.subrange(pos, pos + 76);
        lemma_stored_child_extends(f1, f2, index, pos, b.subrange(0, 38));
        lemma_stored_child_extends(f1, f2, index, pos, b.subrange(38, 76));
    }
}

/// Extending the log never changes the subtree a child descriptor denotes.
pub proof fn lemma_stored_child_extends(
    f1: Seq<Seq<u8>>,
    f2: Seq<Seq<u8>>,
    pindex: int,
    ppos: int,
    d: Seq<u8>,
)
    requires
        files_extend(f1, f2),
        stored_child(f1, pindex, ppos, d) is Some,
    ensures
        stored_child(f2, pindex, ppos, d) == stored_child(f1, pindex, ppos, d),
    decreases pindex, ppos, 0int,
{
    let cindex = le16(d.subrange(0, 2));
    let tagged = le32(d.subrange(2, 6));
    if cindex != 0 {
        lemma_stored_view_extends(f1, f2, cindex, tagged / 2, tagged % 2 == 1);
    }
}

impl Node {
    /// Extending the log preserves a node's well-formedness and meaning.
    pub proof fn lemma_wf_in_extends(self, f1: Seq<Seq<u8>>, f2: Seq<Seq<u8>>)
        requires
            files_extend(f1, f2),
            self.wf_in(f1),
        ensures
            self.wf_in(f2),
            self.view_in(f2) == self.view_in(f1),
        decreases self,
    {
        match self {
            Node::Empty => {},
            Node::Hash { index, pos, is_leaf, .. } => {
                lemma_stored_view_extends(f1, f2, index as int, pos as int, is_leaf == 1);
            },
            Node::Leaf { index, pos, value, vindex, vpos, vsize, .. } => {
                if value is None {
                    assert(file_at(f1, vindex as int).is_prefix_of(file_at(f2, vindex as int)));
                    lemma_prefix_subrange(
                        file_at(f1, vindex as int),
                        file_at(f2, vindex as int),
                        vpos as int,
                        vpos + vsize,
                    );
                    lemma_stored_view_extends(f1, f2, index as int, pos as int, true);
                }
            },
            Node::Internal { index, pos, left, right, .. } => {
                (*left).lemma_wf_in_extends(f1, f2);
                (*right).lemma_wf_in_extends(f1, f2);
                (*left).lemma_wf_view_some(f1);
                (*right).lemma_wf_view_some(f1);
                if index != 0 {
                    assert(stored_view(f1, index as int, pos as int, false) == self.view_in(f1));
                    assert(self.view_in(f1) is Some);
                    lemma_stored_view_extends(f1, f2, index as int, pos as int, false);
                }
            },
        }
    }
}


/// A readable stored record implies its coordinates are in range: the
/// file id names a file and the record fits inside it.
pub proof fn lemma_stored_view_bounds(files: Seq<Seq<u8>>, index: int, pos: int, is_leaf: bool)
    requires
        stored_view(files, index, pos, is_leaf) is Some,
    ensures
        1 <= index <= files.len(),
        0 <= pos,
        pos + (if is_leaf {
            40int
        } else {
            76int
        }) <= file_at(files, index).len(),
{
}


/// What the commit walk guarantees of a child just before it encodes the
/// parent: the child is Empty, or a well-formed placeholder that points
/// strictly earlier in the log than the parent's position.
pub open spec fn child_ok(c: Node, files: Seq<Seq<u8>>, ni: int, np: int, cv: SpecNode) -> bool {
    ||| (c is Empty && cv == SpecNode::Empty)
    ||| (c is Hash && c.wf_in(files) && c.view_in(files) == Some(cv) && (c->Hash_index < ni || (
    c->Hash_index == ni && c->Hash_pos < np)))
}

/// A leaf record appended at the end of the active file, whose value
/// bytes are already in place, reads back as exactly that leaf.
pub proof fn lemma_written_leaf_reads_back(
    files: Seq<Seq<u8>>,
    ni: int,
    np: int,
    vi: u16,
    vp: u32,
    vs: u16,
    key: Seq<u8>,
    value: Seq<u8>,
)
    requires
        1 <= ni <= files.len(),
        0 <= np,
        np + 40 <= file_at(files, ni).len(),
        file_at(files, ni).subrange(np, np + 40) == spec_encode_leaf(vi, vp, vs, key),
        key.len() == 32,
        1 <= vi as int <= files.len(),
        vp + vs <= file_at(files, vi as int).len(),
        file_at(files, vi as int).subrange(vp as int, vp + vs) == value,
        value.len() == vs,
    ensures
        stored_view(files, ni, np, true) == Some(SpecNode::Leaf { key, value }),
{
    let b = file_at(files, ni).subrange(np, np + 40);
    crate::encoding::lemma_u16_le_inverse(vi);
    crate::encoding::lemma_u32_le_inverse(vp);
    crate::encoding::lemma_u16_le_inverse(vs);
    assert(b.subrange(0, 2) =~= u16_le(vi));
    assert(b.subrange(2, 6) =~= u32_le(vp));
    assert(b.subrange(6, 8) =~= u16_le(vs));
    assert(b.subrange(8, 40) =~= key);
}

/// An internal record appended at the end of the active file, over two
/// children already persisted earlier in the log, reads back as the
/// internal node denoting those children's subtrees.
pub proof fn lemma_written_internal_reads_back(
    files: Seq<Seq<u8>>,
    ni: int,
    np: int,
    l: Node,
    r: Node,
    lv: SpecNode,
    rv: SpecNode,
)
    requires
        1 <= ni <= files.len(),
        0 <= np,
        np + 76 <= file_at(files, ni).len(),
        file_at(files, ni).subrange(np, np + 76) == spec_child_desc(l, files) + spec_child_desc(
            r,
            files,
        ),
        child_ok(l, files, ni, np, lv),
        child_ok(r, files, ni, np, rv),
    ensures
        stored_view(files, ni, np, false) == Some(
            SpecNode::Internal { left: Box::new(lv), right: Box::new(rv) },
        ),
{
    let b = file_at(files, ni).subrange(np, np + 76);
    lemma_child_desc_len(l, files, ni, np, lv);
    lemma_child_desc_len(r, files, ni, np, rv);
    assert(b.subrange(0, 38) =~= spec_child_desc(l, files));
    assert(b.subrange(38, 76) =~= spec_child_desc(r, files));
    lemma_child_desc_reads_back(files, ni, np, l, lv);
    lemma_child_desc_reads_back(files, ni, np, r, rv);
    assert(stored_child(files, ni, np, b.subrange(0, 38)) == Some(lv));
    assert(stored_child(files, ni, np, b.subrange(38, 76)) == Some(rv));
}

/// The digest of a subtree denoted by an Empty or well-formed Hash child
/// is 32 bytes, so a child descriptor is exactly 38 bytes.
proof fn lemma_child_desc_len(c: Node, files: Seq<Seq<u8>>, ni: int, np: int, cv: SpecNode)
    requires
        child_ok(c, files, ni, np, cv),
    ensures
        tree_hash(cv).len() == 32,
        spec_child_desc(c, files).len() == 38,
{
    if c is Empty {
        assert(tree_hash(SpecNode::Empty) == zero32());
    }
}

/// One just-encoded child descriptor decodes back to the child's subtree.
proof fn lemma_child_desc_reads_back(files: Seq<Seq<u8>>, ni: int, np: int, c: Node, cv: SpecNode)
    requires
        child_ok(c, files, ni, np, cv),
    ensures
        stored_child(files, ni, np, spec_child_desc(c, files)) == Some(cv),
{
    let d = spec_child_desc(c, files);
    lemma_child_desc_len(c, files, ni, np, cv);
    crate::encoding::lemma_u16_le_inverse(c.spec_index());
    crate::encoding::lemma_u32_le_inverse(spec_tagged(c.spec_pos(), c.spec_is_leaf()));
    assert(d.subrange(0, 2) =~= u16_le(c.spec_index()));
    assert(d.subrange(2, 6) =~= u32_le(spec_tagged(c.spec_pos(), c.spec_is_leaf())));
    assert(d.subrange(6, 38) =~= tree_hash(cv));
    if c is Empty {
        assert(c.spec_index() == 0);
        assert(spec_tagged(0, false) == 0);
        assert(tree_hash(SpecNode::Empty) == zero32());
        assert(stored_child(files, ni, np, d) == Some(SpecNode::Empty));
    } else {
        let ci = c->Hash_index;
        let cp = c->Hash_pos;
        let fl = c->Hash_is_leaf;
        lemma_stored_view_bounds(files, ci as int, cp as int, fl == 1);
        assert(ci >= 1);
        let tagged = spec_tagged(cp, fl == 1);
        assert(cp < POS_LIMIT);
        if fl == 1 {
            assert(tagged == cp * 2 + 1);
            assert(tagged as int / 2 == cp as int);
            assert(tagged as int % 2 == 1);
        } else {
            assert(tagged == cp * 2);
            assert(tagged as int / 2 == cp as int);
            assert(tagged as int % 2 == 0);
        }
        assert(c.spec_is_leaf() == (fl == 1));
        assert(stored_view(files, ci as int, cp as int, fl == 1) == Some(cv));
        assert(tree_hash(cv) == c->Hash_data@);
    }
}


/// A well-formed Hash or Empty child has a 32-byte subtree digest.
pub proof fn lemma_stored_view_bounds_all(files: Seq<Seq<u8>>, c: Node)
    requires
        c is Empty || (c is Hash && c.wf_in(files)),
    ensures
        c.view_in(files) is Some,
        tree_hash(c.view_in(files).unwrap()).len() == 32,
{
    if c is Empty {
        assert(tree_hash(SpecNode::Empty) == zero32());
    } else {
        assert(c->Hash_data@.len() == 32);
    }
}


/// Codec round trip for a leaf record: every field read back from the 40
/// encoded bytes equals the field that was written.
pub proof fn lemma_leaf_codec_roundtrip(vindex: u16, vpos: u32, vsize: u16, key: Seq<u8>)
    requires
        key.len() == 32,
    ensures
        ({
            let b = spec_encode_leaf(vindex, vpos, vsize, key);
            &&& b.len() == 40
            &&& le16(b.subrange(0, 2)) == vindex
            &&& le32(b.subrange(2, 6)) == vpos
            &&& le16(b.subrange(6, 8)) == vsize
            &&& b.subrange(8, 40) == key
        }),
{
    let b = spec_encode_leaf(vindex, vpos, vsize, key);
    crate::encoding::lemma_u16_le_inverse(vindex);
    crate::encoding::lemma_u32_le_inverse(vpos);
    crate::encoding::lemma_u16_le_inverse(vsize);
    assert(b.subrange(0, 2) =~= u16_le(vindex));
    assert(b.subrange(2, 6) =~= u32_le(vpos));
    assert(b.subrange(6, 8) =~= u16_le(vsize));
    assert(b.subrange(8, 40) =~= key);
}

/// Codec round trip for one child descriptor of an internal record: the
/// file index, the untagged position, the kind bit and the digest all
/// read back exactly.
pub proof fn lemma_child_codec_roundtrip(index: u16, pos: u32, is_leaf: bool, h: Seq<u8>)
    requires
        pos < POS_LIMIT,
        h.len() == 32,
    ensures
        ({
            let d = u16_le(index) + u32_le(spec_tagged(pos, is_leaf)) + h;
            &&& d.len() == 38
            &&& le16(d.subrange(0, 2)) == index
            &&& le32(d.subrange(2, 6)) / 2 == pos
            &&& (le32(d.subrange(2, 6)) % 2 == 1) == is_leaf
            &&& d.subrange(6, 38) == h
        }),
{
    let d = u16_le(index) + u32_le(spec_tagged(pos, is_leaf)) + h;
    crate::encoding::lemma_u16_le_inverse(index);
    crate::encoding::lemma_u32_le_inverse(spec_tagged(pos, is_leaf));
    assert(d.subrange(0, 2) =~= u16_le(index));
    assert(d.subrange(2, 6) =~= u32_le(spec_tagged(pos, is_leaf)));
    assert(d.subrange(6, 38) =~= h);
    if is_leaf {
        assert(spec_tagged(pos, true) == pos * 2 + 1);
    } else {
        assert(spec_tagged(pos, false) == pos * 2);
    }
}

} // verus!
