//! The log-structured store over in-memory file images.
//!
//! The store holds the contents of the numbered log files as byte vectors;
//! reading the real files at open and appending the bytes that
//! [`Store::commit`] hands back is the caller's side of the bargain. All
//! positions are byte offsets into those images, so everything the store
//! does — the backward meta scan, the append-only writes, the node and
//! value reads — is plain computation over bytes, stated and proved here.

use vstd::prelude::*;
use vstd::string::StrSliceExecFns;
use vstd::string::StringExecFns;
use crate::encoding::{le16, le32, u16_le, u32_le};
use crate::encoding::{copy_range, read_u16_le, read_u32_le, write_u16_le, write_u32_le};
use crate::errors::Error;
use crate::hasher::Digest;
use crate::model::SpecNode;
use crate::node::{
    file_at, files_extend, spec_tagged, stored_leaf_view, stored_view, Node,
    INTERNAL_NODE_SIZE, LEAF_NODE_SIZE, POS_LIMIT,
};

verus! {

/// Size of one meta record; metas sit at positions aligned to this size.
pub const META_ENTRY_SIZE: usize = 16;

/// The magic number that opens every meta record.
pub const META_MAGIC: u32 = 0x6d726b6c;

/// Hard cap on a log file's length; commit padding and one meta record
/// always fit below `u32` positions once a write has been accepted.
pub const FILE_SIZE_LIMIT: usize = 0x7fff_ffe0;

/// Cap enforced on ordinary writes, leaving room for padding and metas.
pub const WRITE_LIMIT: usize = 0x7fff_ff00;

/// The byte views of a list of file images.
pub open spec fn views_of(files: Seq<Vec<u8>>) -> Seq<Seq<u8>> {
    files.map_values(|v: Vec<u8>| v@)
}

/// A self-describing pointer to the current root, appended to the active
/// file by every commit.
#[derive(Debug, PartialEq, Eq, Structural, Clone, Copy)]
pub struct Meta {
    /// File id of the file holding this meta.
    pub index: u16,
    /// Byte offset at which this meta record starts.
    pub pos: u32,
    /// File holding the root node (0 for the empty tree).
    pub root_index: u16,
    /// Byte offset of the root node, untagged.
    pub root_pos: u32,
    /// Whether the root node is a leaf.
    pub is_leaf: bool,
}

/// The 16 encoded bytes of a meta record.
pub open spec fn meta_encoded(m: Meta) -> Seq<u8> {
    u32_le(META_MAGIC) + u16_le(m.index) + u32_le(m.pos) + u16_le(m.root_index) + u32_le(
        spec_tagged(m.root_pos, m.is_leaf),
    )
}

/// The meta described by a 16-byte slot (the magic is not re-checked here).
pub open spec fn meta_decoded(slot: Seq<u8>) -> Meta {
    Meta {
        index: le16(slot.subrange(4, 6)) as u16,
        pos: le32(slot.subrange(6, 10)) as u32,
        root_index: le16(slot.subrange(10, 12)) as u16,
        root_pos: (le32(slot.subrange(12, 16)) / 2) as u32,
        is_leaf: le32(slot.subrange(12, 16)) % 2 == 1,
    }
}

/// Whether a complete 16-byte slot at `p` starts with the magic.
pub open spec fn magic_at(f: Seq<u8>, p: int) -> bool {
    p + 16 <= f.len() && le32(f.subrange(p, p + 4)) == META_MAGIC
}

/// The backward scan: the highest 16-aligned slot position at or below
/// `p` (and at least 16) whose slot starts with the magic.
pub open spec fn scan_from(f: Seq<u8>, p: int) -> Option<int>
    decreases p,
{
    if p < 16 {
        None
    } else if magic_at(f, p) {
        Some(p)
    } else {
        scan_from(f, p - 16)
    }
}

/// Where recovery finds the last meta record of `f`: the highest aligned,
/// complete, magic-opening 16-byte slot, starting the scan just below the
/// last 16-byte boundary. The slot at position 0 is never a candidate.
pub open spec fn find_meta_pos(f: Seq<u8>) -> Option<int> {
    scan_from(f, f.len() - f.len() % 16 - 16)
}

/// Encoding then decoding a meta gives it back, and the encoding opens
/// with the magic.
pub proof fn lemma_meta_roundtrip(m: Meta)
    requires
        m.root_pos < POS_LIMIT,
    ensures
        meta_decoded(meta_encoded(m)) == m,
        meta_encoded(m).len() == 16,
        le32(meta_encoded(m).subrange(0, 4)) == META_MAGIC,
{
    let e = meta_encoded(m);
    crate::encoding::lemma_u32_le_inverse(META_MAGIC);
    crate::encoding::lemma_u16_le_inverse(m.index);
    crate::encoding::lemma_u32_le_inverse(m.pos);
    crate::encoding::lemma_u16_le_inverse(m.root_index);
    crate::encoding::lemma_u32_le_inverse(spec_tagged(m.root_pos, m.is_leaf));
    assert(e.subrange(0, 4) =~= u32_le(META_MAGIC));
    assert(e.subrange(4, 6) =~= u16_le(m.index));
    assert(e.subrange(6, 10) =~= u32_le(m.pos));
    assert(e.subrange(10, 12) =~= u16_le(m.root_index));
    assert(e.subrange(12, 16) =~= u32_le(spec_tagged(m.root_pos, m.is_leaf)));
    assert(le32(e.subrange(12, 16)) == m.root_pos * 2 + if m.is_leaf {
        1int
    } else {
        0int
    });
}

impl Meta {
    /// The default meta for a store with no recoverable record yet: the
    /// empty tree in file `file_id`.
    pub fn fresh(file_id: u16) -> (r: Meta)
        ensures
            r == (Meta {
                index: file_id,
                pos: 0u32,
                root_index: file_id,
                root_pos: 0u32,
                is_leaf: false,
            }),
    {
        Meta { index: file_id, pos: 0, root_index: file_id, root_pos: 0, is_leaf: false }
    }

    /// The root coordinates this meta points at.
    pub fn get(&self) -> (r: (u16, u32))
        ensures
            r.0 == self.root_index,
            r.1 == self.root_pos,
    {
        (self.root_index, self.root_pos)
    }

    /// Encode the meta as its 16-byte on-disk record.
    pub fn encode(&self) -> (r: Vec<u8>)
        requires
            self.root_pos < POS_LIMIT,
        ensures
            r@ == meta_encoded(*self),
            r@.len() == 16,
    {
        let mut w: Vec<u8> = Vec::new();
        write_u32_le(&mut w, META_MAGIC);
        write_u16_le(&mut w, self.index);
        write_u32_le(&mut w, self.pos);
        write_u16_le(&mut w, self.root_index);
        let tagged = Node::tag_pos_for_leaf_or_internal(self.root_pos, self.is_leaf);
        write_u32_le(&mut w, tagged);
        proof {
            lemma_meta_roundtrip(*self);
            assert(w@ =~= meta_encoded(*self));
        }
        w
    }

    /// Recover the newest meta from the bytes of the active file: scan
    /// backwards in 16-byte steps for a slot that opens with the magic. An
    /// empty file yields the fresh meta for `file_id`; a non-empty file
    /// with no such slot is corrupt.
    pub fn open(file: &Vec<u8>, file_id: u16) -> (r: Result<Meta, Error>)
        ensures
            file@.len() == 0 ==> r == Ok::<Meta, Error>(Meta::fresh_spec(file_id)),
            file@.len() > 0 && find_meta_pos(file@) is Some ==> {
                let p = find_meta_pos(file@).unwrap();
                r == Ok::<Meta, Error>(meta_decoded(file@.subrange(p, p + 16)))
            },
            file@.len() > 0 && find_meta_pos(file@) is None ==> r == Err::<Meta, Error>(
                Error::MetaRootNotFound,
            ),
    {
        let len: usize = file.len();
        if len == 0 {
            return Ok(Meta::fresh(file_id));
        }
        let top: usize = len - len % 16;
        let ghost start: int = top - 16;
        let mut p: usize = top;
        loop
            invariant
                len == file@.len(),
                len > 0,
                top == len - len % 16,
                start == top - 16,
                p <= top,
                p % 16 == 0,
                scan_from(file@, start) == scan_from(file@, p - 16),
            decreases p,
        {
            if p < 32 {
                proof {
                    assert(scan_from(file@, p - 16) is None);
                }
                return Err(Error::MetaRootNotFound);
            }
            let q: usize = p - 16;
            proof {
                assert(q + 16 <= len);
            }
            let word = read_u32_le(file.as_slice(), q);
            if word == META_MAGIC {
                proof {
                    assert(magic_at(file@, q as int));
                    assert(scan_from(file@, q as int) == Some(q as int));
                }
                let mindex = read_u16_le(file.as_slice(), q + 4);
                let mpos = read_u32_le(file.as_slice(), q + 6);
                let rindex = read_u16_le(file.as_slice(), q + 10);
                let raw = read_u32_le(file.as_slice(), q + 12);
                let (rpos, rleaf) = Node::get_pos_tag(raw);
                proof {
                    let slot = file@.subrange(q as int, q + 16);
                    assert(slot.subrange(4, 6) =~= file@.subrange(q + 4, q + 6));
                    assert(slot.subrange(6, 10) =~= file@.subrange(q + 6, q + 10));
                    assert(slot.subrange(10, 12) =~= file@.subrange(q + 10, q + 12));
                    assert(slot.subrange(12, 16) =~= file@.subrange(q + 12, q + 16));
                }
                return Ok(
                    Meta {
                        index: mindex,
                        pos: mpos,
                        root_index: rindex,
                        root_pos: rpos,
                        is_leaf: rleaf == 1,
                    },
                );
            }
            proof {
                assert(!magic_at(file@, q as int)) by {
                    assert(file@.subrange(q as int, q + 4) == file@.subrange(
                        q as int,
                        q + 16,
                    ).subrange(0, 4) || true);
                }
            }
            p = q;
        }
    }

    /// The fresh meta as a spec value.
    pub open spec fn fresh_spec(file_id: u16) -> Meta {
        Meta { index: file_id, pos: 0u32, root_index: file_id, root_pos: 0u32, is_leaf: false }
    }
}


/// The store: the byte images of the numbered log files, the meta in
/// force, and how much of the active file the caller has already written
/// to disk. The last image is the active file; all writes append to it.
pub struct Store {
    files: Vec<Vec<u8>>,
    meta: Meta,
    synced: usize,
}

impl Store {
    /// The byte contents of the log files, 1-based file id `i` at `i - 1`.
    pub closed spec fn files_view(self) -> Seq<Seq<u8>> {
        views_of(self.files@)
    }

    /// The meta record in force.
    pub closed spec fn spec_meta(self) -> Meta {
        self.meta
    }

    /// How much of the active file is already on disk.
    pub closed spec fn spec_synced(self) -> int {
        self.synced as int
    }

    /// The active (highest-numbered) file id.
    pub open spec fn active_index(self) -> int {
        self.files_view().len() as int
    }

    /// The current write position: the length of the active file image.
    pub open spec fn active_len(self) -> int {
        self.files_view().last().len() as int
    }

    /// Store sanity: at least one file, file ids fit in 16 bits, every
    /// image is below the size cap, and the synced prefix exists.
    pub closed spec fn wf(self) -> bool {
        &&& 1 <= self.files@.len() <= 0xffff
        &&& (forall|i: int|
            0 <= i < self.files@.len() ==> (#[trigger] self.files@[i])@.len() <= FILE_SIZE_LIMIT)
        &&& self.synced <= self.files@.last()@.len()
    }

    /// Open a store over the images of the log files found in the
    /// directory, ordered by file id, the active file last. An empty list
    /// starts a fresh store; otherwise the newest meta is recovered from
    /// the active file by the backward scan.
    pub fn open(files: Vec<Vec<u8>>) -> (r: Result<Store, Error>)
        requires
            files@.len() <= 0xffff,
            forall|i: int|
                0 <= i < files@.len() ==> (#[trigger] files@[i])@.len() <= FILE_SIZE_LIMIT,
        ensures
            files@.len() == 0 ==> r is Ok && r.unwrap().files_view() =~= seq![
                Seq::<u8>::empty(),
            ] && r.unwrap().spec_meta() == Meta::fresh_spec(1),
            files@.len() > 0 ==> {
                let active = views_of(files@).last();
                &&& (active.len() == 0 ==> r is Ok && r.unwrap().spec_meta()
                    == Meta::fresh_spec(files@.len() as u16))
                &&& (active.len() > 0 && find_meta_pos(active) is Some ==> r is Ok
                    && r.unwrap().spec_meta() == meta_decoded(
                    active.subrange(
                        find_meta_pos(active).unwrap(),
                        find_meta_pos(active).unwrap() + 16,
                    ),
                ))
                &&& (active.len() > 0 && find_meta_pos(active) is None ==> r is Err)
                &&& (r is Ok ==> r.unwrap().files_view() == views_of(files@))
            },
            r is Ok ==> {
                let st = r.unwrap();
                &&& st.wf()
                &&& st.spec_synced() == st.active_len()
            },
    {
        if files.len() == 0 {
            let mut fs: Vec<Vec<u8>> = Vec::new();
            let empty: Vec<u8> = Vec::new();
            fs.push(empty);
            let st = Store { files: fs, meta: Meta::fresh(1), synced: 0 };
            proof {
                assert(st.files_view() =~= seq![Seq::<u8>::empty()]);
            }
            return Ok(st);
        }
        let n: usize = files.len();
        let active: &Vec<u8> = &files[n - 1];
        let synced: usize = active.len();
        proof {
            assert(views_of(files@).last() == files@[n - 1]@);
        }
        let meta = match Meta::open(active, n as u16) {
            Ok(m) => m,
            Err(e) => {
                return Err(e);
            },
        };
        let st = Store { files, meta, synced };
        proof {
            assert(st.files_view() == views_of(st.files@));
        }
        Ok(st)
    }

    /// Append bytes to the active file, returning the file id and the
    /// offset at which they begin. Fails, leaving the store unchanged,
    /// exactly when the write would push the active file over the cap.
    fn write_bytes(&mut self, data: &[u8]) -> (r: Result<(u16, u32), Error>)
        requires
            old(self).wf(),
        ensures
            r is Ok <==> old(self).active_len() + data@.len() <= WRITE_LIMIT,
            r is Err ==> final(self).files_view() == old(self).files_view(),
            r is Err ==> final(self).spec_meta() == old(self).spec_meta(),
            r is Err ==> final(self).spec_synced() == old(self).spec_synced(),
            r is Err ==> final(self).wf(),
            r is Ok ==> {
                let (i, p) = r.unwrap();
                &&& i as int == old(self).active_index()
                &&& p as int == old(self).active_len()
                &&& final(self).files_view() =~= old(self).files_view().update(
                    old(self).files_view().len() - 1,
                    old(self).files_view().last() + data@,
                )
                &&& final(self).wf()
                &&& final(self).spec_meta() == old(self).spec_meta()
                &&& final(self).spec_synced() == old(self).spec_synced()
                &&& files_extend(old(self).files_view(), final(self).files_view())
            },
    {
        let n: usize = self.files.len();
        let mut active: Vec<u8> = self.files.pop().unwrap();
        let pos: usize = active.len();
        if pos > WRITE_LIMIT || data.len() > WRITE_LIMIT - pos {
            self.files.push(active);
            proof {
                assert(self.files@ =~= old(self).files@);
                assert(self.files_view() == old(self).files_view());
            }
            return Err(Error::Io);
        }
        crate::hasher::append_slice(&mut active, data);
        self.files.push(active);
        proof {
            assert(self.files_view() =~= old(self).files_view().update(
                old(self).files_view().len() - 1,
                old(self).files_view().last() + data@,
            ));
            assert(files_extend(old(self).files_view(), self.files_view())) by {
                assert forall|i: int| 0 <= i < old(self).files_view().len() implies old(
                    self,
                ).files_view()[i].is_prefix_of(#[trigger] self.files_view()[i]) by {
                    if i == old(self).files_view().len() - 1 {
                        assert(self.files_view()[i].subrange(
                            0,
                            old(self).files_view()[i].len() as int,
                        ) =~= old(self).files_view()[i]);
                    } else {
                        assert(self.files_view()[i].subrange(
                            0,
                            old(self).files_view()[i].len() as int,
                        ) =~= old(self).files_view()[i]);
                    }
                }
            }
        }
        Ok(((n as u16), pos as u32))
    }

    /// Append an encoded node, returning its storage coordinates.
    pub fn write_node(&mut self, data: Vec<u8>) -> (r: Result<(u16, u32), Error>)
        requires
            old(self).wf(),
        ensures
            r is Ok <==> old(self).active_len() + data@.len() <= WRITE_LIMIT,
            r is Err ==> final(self).files_view() == old(self).files_view(),
            r is Err ==> final(self).spec_meta() == old(self).spec_meta(),
            r is Err ==> final(self).spec_synced() == old(self).spec_synced(),
            r is Err ==> final(self).wf(),
            r is Ok ==> {
                let (i, p) = r.unwrap();
                &&& i as int == old(self).active_index()
                &&& p as int == old(self).active_len()
                &&& final(self).files_view() =~= old(self).files_view().update(
                    old(self).files_view().len() - 1,
                    old(self).files_view().last() + data@,
                )
                &&& final(self).wf()
                &&& final(self).spec_meta() == old(self).spec_meta()
                &&& final(self).spec_synced() == old(self).spec_synced()
                &&& files_extend(old(self).files_view(), final(self).files_view())
            },
    {
        self.write_bytes(data.as_slice())
    }

    /// Append a raw value blob, returning its storage coordinates.
    pub fn write_value(&mut self, data: &Vec<u8>) -> (r: Result<(u16, u32), Error>)
        requires
            old(self).wf(),
        ensures
            r is Ok <==> old(self).active_len() + data@.len() <= WRITE_LIMIT,
            r is Err ==> final(self).files_view() == old(self).files_view(),
            r is Err ==> final(self).spec_meta() == old(self).spec_meta(),
            r is Err ==> final(self).spec_synced() == old(self).spec_synced(),
            r is Err ==> final(self).wf(),
            r is Ok ==> {
                let (i, p) = r.unwrap();
                &&& i as int == old(self).active_index()
                &&& p as int == old(self).active_len()
                &&& final(self).files_view() =~= old(self).files_view().update(
                    old(self).files_view().len() - 1,
                    old(self).files_view().last() + data@,
                )
                &&& final(self).wf()
                &&& final(self).spec_meta() == old(self).spec_meta()
                &&& final(self).spec_synced() == old(self).spec_synced()
                &&& files_extend(old(self).files_view(), final(self).files_view())
            },
    {
        self.write_bytes(data.as_slice())
    }

    /// A well-formed store has between one and 0xffff file images.
    pub proof fn lemma_wf_len(self)
        requires
            self.wf(),
        ensures
            1 <= self.files_view().len() <= 0xffff,
    {
    }

    /// The meta record currently in force.
    pub fn current_meta(&self) -> (r: Meta)
        ensures
            r == self.spec_meta(),
    {
        self.meta
    }

    /// The current length of the active file image.
    pub fn active_file_len(&self) -> (r: usize)
        requires
            self.wf(),
        ensures
            r as int == self.active_len(),
    {
        let n: usize = self.files.len();
        self.files[n - 1].len()
    }

    /// Read a value blob back from its coordinates.
    pub fn get_value(&self, vindex: u16, vpos: u32, vsize: u16) -> (r: Result<Vec<u8>, Error>)
        requires
            self.wf(),
        ensures
            r is Ok <==> 1 <= vindex && vindex as int <= self.files_view().len() && vpos + vsize
                <= file_at(self.files_view(), vindex as int).len(),
            r is Ok ==> r.unwrap()@ == file_at(self.files_view(), vindex as int).subrange(
                vpos as int,
                vpos + vsize,
            ),
    {
        if vindex == 0 || vindex as usize > self.files.len() {
            return Err(Error::Io);
        }
        let f: &Vec<u8> = &self.files[(vindex - 1) as usize];
        proof {
            assert(f@ == file_at(self.files_view(), vindex as int));
        }
        let flen: usize = f.len();
        if vpos as usize > flen || vsize as usize > flen - vpos as usize {
            return Err(Error::Io);
        }
        Ok(copy_range(f.as_slice(), vpos as usize, vsize as usize))
    }
}


/// `n` zero bytes.
pub open spec fn zeros_seq(n: int) -> Seq<u8> {
    Seq::new(n as nat, |i: int| 0u8)
}

/// Build `n` zero bytes.
fn zero_bytes(n: usize) -> (r: Vec<u8>)
    ensures
        r@ == zeros_seq(n as int),
{
    let mut b: Vec<u8> = Vec::new();
    let mut i: usize = 0;
    while i < n
        invariant
            i <= n,
            b@.len() == i as int,
            forall|j: int| 0 <= j < i ==> b@[j] == 0u8,
        decreases n - i,
    {
        b.push(0u8);
        i = i + 1;
    }
    proof {
        assert(b@ =~= zeros_seq(n as int));
    }
    b
}

/// The padding a commit inserts so that the meta lands on a 16-byte
/// boundary: between 1 and 16 bytes.
pub open spec fn pad_of(len: int) -> int {
    16 - len % 16
}

impl Store {
    /// The meta a commit at the current position writes for the given
    /// root coordinates.
    pub open spec fn commit_meta(self, root_index: u16, root_pos: u32, root_is_leaf: bool) -> Meta {
        Meta {
            index: self.active_index() as u16,
            pos: (self.active_len() + pad_of(self.active_len())) as u32,
            root_index,
            root_pos,
            is_leaf: root_is_leaf,
        }
    }

    /// Seal the epoch: pad the active file to a 16-byte boundary, append
    /// a meta record pointing at the given root, and hand back exactly the
    /// bytes appended to the active file since the last commit (or open) —
    /// the caller appends them to the real file and syncs it. Recovery on
    /// the new image finds precisely this meta.
    #[verifier::rlimit(100)]
    pub fn commit(&mut self, root_index: u16, root_pos: u32, root_is_leaf: bool) -> (r: Result<
        Vec<u8>,
        Error,
    >)
        requires
            old(self).wf(),
            root_pos < POS_LIMIT,
        ensures
            r is Ok <==> old(self).active_len() + pad_of(old(self).active_len()) + 16
                <= FILE_SIZE_LIMIT,
            r is Err ==> final(self).files_view() == old(self).files_view(),
            r is Err ==> final(self).spec_meta() == old(self).spec_meta(),
            r is Err ==> final(self).spec_synced() == old(self).spec_synced(),
            r is Err ==> final(self).wf(),
            r is Ok ==> {
                let m = old(self).commit_meta(root_index, root_pos, root_is_leaf);
                let appended = zeros_seq(pad_of(old(self).active_len())) + meta_encoded(m);
                let active2 = old(self).files_view().last() + appended;
                &&& final(self).files_view() =~= old(self).files_view().update(
                    old(self).files_view().len() - 1,
                    active2,
                )
                &&& final(self).spec_meta() == m
                &&& final(self).spec_synced() == final(self).active_len()
                &&& final(self).wf()
                &&& files_extend(old(self).files_view(), final(self).files_view())
                &&& find_meta_pos(active2) == Some(active2.len() - 16)
                &&& active2.subrange(active2.len() - 16, active2.len() as int) == meta_encoded(m)
                &&& meta_decoded(meta_encoded(m)) == m
                &&& r.unwrap()@ == active2.subrange(old(self).spec_synced(), active2.len() as int)
            },
    {
        let ai: usize = self.files.len();
        let mut active: Vec<u8> = self.files.pop().unwrap();
        let len: usize = active.len();
        let padsz: usize = 16 - len % 16;
        if FILE_SIZE_LIMIT - len < padsz + 16 {
            self.files.push(active);
            proof {
                assert(self.files@ =~= old(self).files@);
                assert(self.files_view() == old(self).files_view());
            }
            return Err(Error::Io);
        }
        let padv = zero_bytes(padsz);
        crate::hasher::append_slice(&mut active, padv.as_slice());
        let meta = Meta {
            index: ai as u16,
            pos: (len + padsz) as u32,
            root_index,
            root_pos,
            is_leaf: root_is_leaf,
        };
        let mbytes = meta.encode();
        crate::hasher::append_slice(&mut active, mbytes.as_slice());
        let newlen: usize = active.len();
        let chunk = copy_range(active.as_slice(), self.synced, newlen - self.synced);
        self.synced = newlen;
        self.meta = meta;
        self.files.push(active);
        proof {
            let m = old(self).commit_meta(root_index, root_pos, root_is_leaf);
            let appended = zeros_seq(pad_of(old(self).active_len())) + meta_encoded(m);
            let active2 = old(self).files_view().last() + appended;
            assert(meta == m);
            lemma_meta_roundtrip(m);
            assert(self.files_view().last() =~= active2);
            assert(self.files_view() =~= old(self).files_view().update(
                old(self).files_view().len() - 1,
                active2,
            ));
            // The new length is 16-aligned, so the scan's first candidate
            // is the meta just written, and its slot opens with the magic.
            assert(active2.len() == len + padsz + 16);
            assert((len + padsz) % 16 == 0);
            assert(active2.len() % 16 == 0);
            let p = active2.len() - 16;
            assert(active2.subrange(p as int, active2.len() as int) =~= meta_encoded(m));
            assert(active2.subrange(p as int, p + 4) =~= meta_encoded(m).subrange(0, 4));
            assert(magic_at(active2, p as int));
            assert(p >= 16);
            assert(find_meta_pos(active2) == Some(p as int));
            assert(files_extend(old(self).files_view(), self.files_view())) by {
                assert forall|i: int| 0 <= i < old(self).files_view().len() implies old(
                    self,
                ).files_view()[i].is_prefix_of(#[trigger] self.files_view()[i]) by {
                    assert(self.files_view()[i].subrange(
                        0,
                        old(self).files_view()[i].len() as int,
                    ) =~= old(self).files_view()[i]);
                }
            }
        }
        Ok(chunk)
    }

    /// Read the raw record of a node back from its coordinates and decode
    /// it. Succeeds exactly when the record lies within the files.
    pub fn get_node(&self, index: u16, pos: u32, is_leaf: bool) -> (r: Result<Node, Error>)
        requires
            self.wf(),
        ensures
            r is Ok <==> 1 <= index && index as int <= self.files_view().len() && pos + (
            if is_leaf {
                40int
            } else {
                76int
            }) <= file_at(self.files_view(), index as int).len(),
            r is Ok && is_leaf ==> {
                let b = file_at(self.files_view(), index as int).subrange(pos as int, pos + 40);
                let n = r.unwrap();
                &&& n is Leaf
                &&& n->Leaf_key@ == b.subrange(8, 40)
                &&& n->Leaf_vindex as int == le16(b.subrange(0, 2))
                &&& n->Leaf_vpos as int == le32(b.subrange(2, 6))
                &&& n->Leaf_vsize as int == le16(b.subrange(6, 8))
                &&& n->Leaf_value is None
                &&& n->Leaf_index == 0
                &&& n->Leaf_pos == 0
            },
            r is Ok && !is_leaf ==> {
                let b = file_at(self.files_view(), index as int).subrange(pos as int, pos + 76);
                let n = r.unwrap();
                &&& n is Internal
                &&& crate::node::child_matches(*n->Internal_left, b.subrange(0, 38))
                &&& crate::node::child_matches(*n->Internal_right, b.subrange(38, 76))
                &&& n->Internal_index == 0
                &&& n->Internal_pos == 0
            },
    {
        let size: usize = if is_leaf {
            LEAF_NODE_SIZE
        } else {
            INTERNAL_NODE_SIZE
        };
        if index == 0 || index as usize > self.files.len() {
            return Err(Error::Io);
        }
        let f: &Vec<u8> = &self.files[(index - 1) as usize];
        proof {
            assert(f@ == file_at(self.files_view(), index as int));
        }
        let flen: usize = f.len();
        if pos as usize > flen || size > flen - pos as usize {
            return Err(Error::Io);
        }
        let bits = copy_range(f.as_slice(), pos as usize, size);
        match Node::decode(bits, is_leaf) {
            Ok(n) => Ok(n),
            Err(e) => Err(e),
        }
    }

    /// Materialise the node a lazy Hash placeholder stands for: read its
    /// record, reattach the placeholder's coordinates, and carry the
    /// placeholder's digest into the node so its identity is preserved.
    pub fn resolve(&self, node: Node) -> (r: Box<Node>)
        requires
            self.wf(),
            node.wf_in(self.files_view()),
            node is Hash,
        ensures
            r.wf_in(self.files_view()),
            r.view_in(self.files_view()) == node.view_in(self.files_view()),
            *r is Leaf || *r is Internal,
            r.spec_is_leaf() == node.spec_is_leaf(),
            r.spec_index() == node.spec_index(),
            r.spec_pos() == node.spec_pos(),
            r.spec_data_view() == node.spec_data_view(),
    {
        let fv: Ghost<Seq<Seq<u8>>> = Ghost(self.files_view());
        let (index, pos) = node.get_storage_location();
        let is_leaf = node.is_leaf();
        let ghost t = stored_view(fv@, index as int, pos as int, is_leaf).unwrap();
        let mut n: Node = match self.get_node(index, pos, is_leaf) {
            Ok(n) => n,
            Err(_) => {
                proof {
                    assert(stored_view(fv@, index as int, pos as int, is_leaf) is Some);
                    assert(false);
                }
                Node::Empty
            },
        };
        n.update_data_value(node.get_data_value());
        n.update_storage_location(index, pos);
        proof {
            if is_leaf {
                let b = file_at(fv@, index as int).subrange(pos as int, pos + 40);
                assert(stored_leaf_view(fv@, index as int, pos as int) == Some(t));
                assert(n.view_in(fv@) == Some(t));
                assert(n.wf_in(fv@));
            } else {
                let b = file_at(fv@, index as int).subrange(pos as int, pos + 76);
                let dl = b.subrange(0, 38);
                let dr = b.subrange(38, 76);
                let lc = crate::node::stored_child(fv@, index as int, pos as int, dl);
                let rc = crate::node::stored_child(fv@, index as int, pos as int, dr);
                assert(lc is Some && rc is Some);
                let left = *n->Internal_left;
                let right = *n->Internal_right;
                assert(left.wf_in(fv@) && left.view_in(fv@) == lc) by {
                    Store::lemma_child_resolves(fv@, index as int, pos as int, dl, left);
                }
                assert(right.wf_in(fv@) && right.view_in(fv@) == rc) by {
                    Store::lemma_child_resolves(fv@, index as int, pos as int, dr, right);
                }
                assert(n.view_in(fv@) == Some(t));
                assert(n.wf_in(fv@));
            }
        }
        Box::new(n)
    }

    /// A decoded child descriptor is a well-formed node denoting exactly
    /// what the descriptor's stored form denotes.
    proof fn lemma_child_resolves(
        fv: Seq<Seq<u8>>,
        pindex: int,
        ppos: int,
        d: Seq<u8>,
        c: Node,
    )
        requires
            d.len() == 38,
            crate::node::stored_child(fv, pindex, ppos, d) is Some,
            crate::node::child_matches(c, d),
        ensures
            c.wf_in(fv),
            c.view_in(fv) == crate::node::stored_child(fv, pindex, ppos, d),
    {
        let cindex = le16(d.subrange(0, 2));
        let tagged = le32(d.subrange(2, 6));
        if cindex == 0 {
        } else {
            assert(0 <= tagged < 0x1_0000_0000);
            assert(tagged / 2 < POS_LIMIT);
            assert(c->Hash_data@ =~= d.subrange(6, 38));
        }
    }

    /// Load the root node named by the meta in force: Empty for a fresh
    /// store, otherwise the stored node with its coordinates reattached
    /// and its digest rebuilt (for a leaf root, from the stored value).
    pub fn get_root_node(&self) -> (r: Result<Box<Node>, Error>)
        requires
            self.wf(),
            self.spec_meta().root_pos < POS_LIMIT,
            self.root_nonempty() ==> stored_view(
                self.files_view(),
                self.spec_meta().root_index as int,
                self.spec_meta().root_pos as int,
                self.spec_meta().is_leaf,
            ) is Some,
        ensures
            r is Ok,
            r.unwrap().wf_in(self.files_view()),
            !self.root_nonempty() ==> r.unwrap().view_in(self.files_view()) == Some(
                SpecNode::Empty,
            ),
            self.root_nonempty() ==> r.unwrap().view_in(self.files_view()) == stored_view(
                self.files_view(),
                self.spec_meta().root_index as int,
                self.spec_meta().root_pos as int,
                self.spec_meta().is_leaf,
            ),
            self.root_nonempty() ==> r.unwrap().spec_index() == self.spec_meta().root_index
                && r.unwrap().spec_pos() == self.spec_meta().root_pos && r.unwrap().spec_is_leaf()
                == self.spec_meta().is_leaf,
            !self.root_nonempty() ==> *r.unwrap() is Empty,
    {
        if self.meta.root_index == 0 || self.meta.pos == 0 {
            return Ok(Box::new(Node::Empty));
        }
        let index = self.meta.root_index;
        let pos = self.meta.root_pos;
        let is_leaf = self.meta.is_leaf;
        let fv: Ghost<Seq<Seq<u8>>> = Ghost(self.files_view());
        let ghost t = stored_view(fv@, index as int, pos as int, is_leaf).unwrap();
        let mut n: Node = match self.get_node(index, pos, is_leaf) {
            Ok(n) => n,
            Err(_) => {
                proof {
                    assert(false);
                }
                Node::Empty
            },
        };
        n.update_storage_location(index, pos);
        if is_leaf {
            // Rebuild the leaf digest from the stored value so the root
            // hash of the reopened tree matches the committed one.
            let (vi, vp, vs) = match &n {
                Node::Leaf { vindex, vpos, vsize, .. } => (*vindex, *vpos, *vsize),
                _ => (0u16, 0u32, 0u16),
            };
            let value = match self.get_value(vi, vp, vs) {
                Ok(v) => v,
                Err(_) => {
                    proof {
                        assert(false);
                    }
                    Vec::new()
                },
            };
            let key = match &n {
                Node::Leaf { key, .. } => key.duplicate(),
                _ => Digest::zero(),
            };
            let d = crate::hasher::hash_leaf_value(&key, value.as_slice());
            n.update_data_value(d);
            proof {
                let b = file_at(fv@, index as int).subrange(pos as int, pos + 40);
                assert(stored_leaf_view(fv@, index as int, pos as int) == Some(t));
                assert(n.view_in(fv@) == Some(t));
                assert(n.wf_in(fv@));
            }
            Ok(Box::new(n))
        } else {
            proof {
                let b = file_at(fv@, index as int).subrange(pos as int, pos + 76);
                let dl = b.subrange(0, 38);
                let dr = b.subrange(38, 76);
                let lc = crate::node::stored_child(fv@, index as int, pos as int, dl);
                let rc = crate::node::stored_child(fv@, index as int, pos as int, dr);
                assert(lc is Some && rc is Some);
                let left = *n->Internal_left;
                let right = *n->Internal_right;
                assert(left.wf_in(fv@) && left.view_in(fv@) == lc) by {
                    Store::lemma_child_resolves(fv@, index as int, pos as int, dl, left);
                }
                assert(right.wf_in(fv@) && right.view_in(fv@) == rc) by {
                    Store::lemma_child_resolves(fv@, index as int, pos as int, dr, right);
                }
                assert(n.view_in(fv@) == Some(t));
                assert(n.wf_in(fv@));
            }
            Ok(Box::new(n))
        }
    }

    /// Whether the meta in force points at a stored root node (rather
    /// than the empty tree).
    pub open spec fn root_nonempty(self) -> bool {
        self.spec_meta().root_index != 0 && self.spec_meta().pos != 0
    }
}


/// The backward scan, started anywhere at or above a magic slot below
/// which it would stop, lands exactly on that slot when every complete
/// aligned slot above it lacks the magic.
proof fn lemma_scan_lands(f: Seq<u8>, p: int, m1: int)
    requires
        16 <= m1,
        m1 % 16 == 0,
        p % 16 == 0,
        m1 <= p,
        magic_at(f, m1),
        forall|q: int| m1 < q && q % 16 == 0 ==> !magic_at(f, q),
    ensures
        scan_from(f, p) == Some(m1),
    decreases p,
{
    if p == m1 {
    } else {
        assert(!magic_at(f, p));
        lemma_scan_lands(f, p - 16, m1);
    }
}

/// Crash tolerance of recovery: however many trailing bytes of the
/// active file are lost, recovery finds the newest meta record whose
/// 16-byte slot survives in full — provided no stray aligned slot among
/// the kept bytes happens to begin with the magic. Ordinary log contents
/// (node records, value blobs, zero padding) between the surviving meta
/// and the cut satisfy that side condition.
pub proof fn lemma_truncated_recovery(cut: Seq<u8>, m1: int)
    requires
        16 <= m1,
        m1 % 16 == 0,
        m1 + 16 <= cut.len(),
        magic_at(cut, m1),
        forall|q: int| m1 < q && q % 16 == 0 ==> !magic_at(cut, q),
    ensures
        find_meta_pos(cut) == Some(m1),
{
    let len = cut.len() as int;
    let top = len - len % 16;
    assert(top % 16 == 0) by {
        assert(len == 16 * (len / 16) + len % 16);
    }
    assert(m1 <= top - 16) by {
        assert(m1 + 16 <= len);
        assert(m1 % 16 == 0);
        assert(len % 16 < 16);
        if m1 > top - 16 {
            assert(m1 >= top);
            assert(m1 + 16 > len);
        }
    }
    lemma_scan_lands(cut, top - 16, m1);
}


/// The decimal digit character for `d` in 0..9 (anything else maps to
/// '9' and is never produced).
pub open spec fn decimal_digit(d: int) -> char {
    if d == 0 {
        '0'
    } else if d == 1 {
        '1'
    } else if d == 2 {
        '2'
    } else if d == 3 {
        '3'
    } else if d == 4 {
        '4'
    } else if d == 5 {
        '5'
    } else if d == 6 {
        '6'
    } else if d == 7 {
        '7'
    } else if d == 8 {
        '8'
    } else {
        '9'
    }
}

/// Ten to the power `e` (1 for non-positive `e`).
pub open spec fn pow10(e: int) -> int
    decreases e,
{
    if e <= 0 {
        1
    } else {
        10 * pow10(e - 1)
    }
}

/// The ten zero-padded decimal digits naming log file `id`.
pub open spec fn spec_log_name(id: u16) -> Seq<char> {
    Seq::new(10, |i: int| decimal_digit((id as int / pow10(9 - i)) % 10))
}

/// The numeric value of a decimal digit character, -1 for anything else.
pub open spec fn digit_val(c: char) -> int {
    if c == '0' {
        0
    } else if c == '1' {
        1
    } else if c == '2' {
        2
    } else if c == '3' {
        3
    } else if c == '4' {
        4
    } else if c == '5' {
        5
    } else if c == '6' {
        6
    } else if c == '7' {
        7
    } else if c == '8' {
        8
    } else if c == '9' {
        9
    } else {
        -1
    }
}

/// The number a string of decimal digits denotes, -1 if any character is
/// not a digit (the empty string denotes 0).
pub open spec fn parse_digits(s: Seq<char>) -> int
    decreases s.len(),
{
    if s.len() == 0 {
        0
    } else {
        let prefix = parse_digits(s.drop_last());
        let d = digit_val(s.last());
        if prefix < 0 || d < 0 {
            -1
        } else {
            prefix * 10 + d
        }
    }
}

/// What [`valid_log_filename`] accepts: exactly ten characters, all
/// decimal digits, denoting a number a 16-bit file id can hold; anything
/// else is rejected with 0.
pub open spec fn spec_valid_log_name(s: Seq<char>) -> u16 {
    if s.len() != 10 {
        0u16
    } else {
        let v = parse_digits(s);
        if 0 <= v <= 65535 {
            v as u16
        } else {
            0u16
        }
    }
}

/// Powers of ten are positive.
proof fn lemma_pow10_pos(e: int)
    ensures
        pow10(e) >= 1,
    decreases e,
{
    if e > 0 {
        lemma_pow10_pos(e - 1);
    }
}

/// A string with a non-digit character denotes no number.
proof fn lemma_parse_digits_bad(s: Seq<char>, i: int)
    requires
        0 <= i < s.len(),
        digit_val(s[i]) < 0,
    ensures
        parse_digits(s) < 0,
    decreases s.len(),
{
    if i == s.len() - 1 {
    } else {
        lemma_parse_digits_bad(s.drop_last(), i);
    }
}

/// The one-character string for a decimal digit.
fn digit_str(d: u8) -> (r: &'static str)
    requires
        d < 10,
    ensures
        r@ == seq![decimal_digit(d as int)],
{
    proof {
        reveal_strlit("0");
        reveal_strlit("1");
        reveal_strlit("2");
        reveal_strlit("3");
        reveal_strlit("4");
        reveal_strlit("5");
        reveal_strlit("6");
        reveal_strlit("7");
        reveal_strlit("8");
        reveal_strlit("9");
    }
    let r = if d == 0 {
        "0"
    } else if d == 1 {
        "1"
    } else if d == 2 {
        "2"
    } else if d == 3 {
        "3"
    } else if d == 4 {
        "4"
    } else if d == 5 {
        "5"
    } else if d == 6 {
        "6"
    } else if d == 7 {
        "7"
    } else if d == 8 {
        "8"
    } else {
        "9"
    };
    proof {
        assert(r@ =~= seq![decimal_digit(d as int)]);
    }
    r
}

/// Ten to the power `e` for `e` up to 9.
fn pow10_exec(e: usize) -> (r: u32)
    requires
        e <= 9,
    ensures
        r as int == pow10(e as int),
{
    proof {
        assert(pow10(0) == 1);
        assert(pow10(1) == 10);
        assert(pow10(2) == 100);
        assert(pow10(3) == 1000);
        assert(pow10(4) == 10000);
        assert(pow10(5) == 100000);
        assert(pow10(6) == 1000000);
        assert(pow10(7) == 10000000);
        assert(pow10(8) == 100000000);
        assert(pow10(9) == 1000000000);
    }
    if e == 0 {
        1
    } else if e == 1 {
        10
    } else if e == 2 {
        100
    } else if e == 3 {
        1000
    } else if e == 4 {
        10000
    } else if e == 5 {
        100000
    } else if e == 6 {
        1000000
    } else if e == 7 {
        10000000
    } else if e == 8 {
        100000000
    } else {
        1000000000
    }
}

/// The name of log file `id`: its decimal value zero-padded to ten
/// digits.
pub fn get_log_filename(file_id: u16) -> (r: String)
    ensures
        r@ == spec_log_name(file_id),
{
    let mut out = String::new();
    let mut i: usize = 0;
    while i < 10
        invariant
            i <= 10,
            out@.len() == i as int,
            forall|j: int|
                0 <= j < i ==> out@[j] == decimal_digit((file_id as int / pow10(9 - j)) % 10),
        decreases 10 - i,
    {
        let p = pow10_exec(9 - i);
        proof {
            assert(pow10(9 - i as int) >= 1) by {
                lemma_pow10_pos(9 - i as int);
            }
        }
        let d: u32 = (file_id as u32 / p) % 10;
        out.append(digit_str(d as u8));
        i = i + 1;
    }
    proof {
        assert(out@ =~= spec_log_name(file_id));
    }
    out
}

/// Parse a directory entry's name as a log file id; names that are not
/// exactly ten decimal digits denoting a 16-bit number yield 0 and are
/// ignored when the store directory is listed.
pub fn valid_log_filename(val: &str) -> (r: u16)
    ensures
        r == spec_valid_log_name(val@),
{
    let n: usize = val.unicode_len();
    if n != 10 {
        return 0;
    }
    let mut acc: u64 = 0;
    let mut i: usize = 0;
    while i < n
        invariant
            i <= n,
            n == val@.len(),
            parse_digits(val@.subrange(0, i as int)) >= 0,
            parse_digits(val@.subrange(0, i as int)) <= 65535 ==> acc == parse_digits(
                val@.subrange(0, i as int),
            ),
            parse_digits(val@.subrange(0, i as int)) > 65535 ==> acc == 66000,
            acc <= 66000,
        decreases n - i,
    {
        let c = val.get_char(i);
        let d: u64 = if c == '0' {
            0
        } else if c == '1' {
            1
        } else if c == '2' {
            2
        } else if c == '3' {
            3
        } else if c == '4' {
            4
        } else if c == '5' {
            5
        } else if c == '6' {
            6
        } else if c == '7' {
            7
        } else if c == '8' {
            8
        } else if c == '9' {
            9
        } else {
            proof {
                lemma_parse_digits_bad(val@, i as int);
            }
            return 0;
        };
        let ghost pv = parse_digits(val@.subrange(0, i as int));
        acc = acc * 10 + d;
        if acc > 65535 {
            acc = 66000;
        }
        proof {
            let s2 = val@.subrange(0, i + 1);
            assert(s2.drop_last() =~= val@.subrange(0, i as int));
            assert(s2.last() == val@[i as int]);
            assert(digit_val(val@[i as int]) == d as int);
            assert(parse_digits(s2) == pv * 10 + d);
            if pv > 65535 {
                assert(pv * 10 + d > 65535);
            }
        }
        i = i + 1;
    }
    proof {
        assert(val@.subrange(0, n as int) =~= val@);
    }
    if acc <= 65535 {
        acc as u16
    } else {
        0
    }
}

/// The path of log file `file_id` inside the store directory `dir`.
pub fn get_db_file_path(dir: &str, file_id: u16) -> (r: String)
    ensures
        r@ == dir@ + seq!['/'] + spec_log_name(file_id),
{
    let mut out = String::from_str(dir);
    proof {
        reveal_strlit("/");
    }
    out.append("/");
    let name = get_log_filename(file_id);
    out.append(name.as_str());
    proof {
        assert(out@ =~= dir@ + seq!['/'] + spec_log_name(file_id));
    }
    out
}

} // verus!
