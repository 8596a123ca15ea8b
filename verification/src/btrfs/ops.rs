//! What is asked of btrfs and what its answers mean.

use vstd::prelude::*;

use crate::btrfs::{le, lemma_le_bound, lemma_with_le_len, rd_u16, rd_u32, rd_u64, with_le, wr_u64};
use crate::btrfs::search::{item_views, Item, ItemView, SearchKey};
use vstd::slice::slice_subrange;
use vstd::utf8::{decode_utf8, valid_utf8};

verus! {

pub const FIRST_FREE_OBJECTID: u64 = 256;

pub const FS_TREE_OBJECTID: u64 = 5;

pub const ROOT_TREE_OBJECTID: u64 = 1;

pub const CHUNK_TREE_OBJECTID: u64 = 3;

pub const FIRST_CHUNK_TREE_OBJECTID: u64 = 256;

pub const EXTENT_DATA_KEY: u32 = 108;

pub const ROOT_BACKREF_KEY: u32 = 144;

pub const CHUNK_ITEM_KEY: u32 = 228;

pub const BLOCK_GROUP_DATA: u64 = 1;

pub const BLOCK_GROUP_SYSTEM: u64 = 2;

// ---- text ----

/// What [`String::from_utf8_lossy`] makes of some bytes.
pub uninterp spec fn lossy(bytes: Seq<u8>) -> Seq<char>;

/// [`String::from_utf8_lossy`]: bytes that are UTF-8 become the text that they
/// encode. What becomes of others has a name, and is not said: each ill-formed
/// part is replaced by one mark.
#[verifier::external_body]
pub(crate) fn from_utf8_lossy(bytes: &[u8]) -> (r: String)
    ensures
        r@ == lossy(bytes@),
        valid_utf8(bytes@) ==> r@ == decode_utf8(bytes@),
{
    String::from_utf8_lossy(bytes).into_owned()
}

/// Where the first zero byte from `from` on is, or the end.
pub open spec fn text_end(b: Seq<u8>, from: int) -> int
    decreases b.len() - from,
{
    if 0 <= from < b.len() && b[from] != 0 {
        text_end(b, from + 1)
    } else {
        from
    }
}

/// The bytes from `from` up to a zero byte or the end.
pub open spec fn text_bytes(b: Seq<u8>, from: int) -> Seq<u8> {
    b.subrange(from, text_end(b, from))
}

fn end_of_text(b: &[u8], from: usize) -> (r: usize)
    requires
        from <= b@.len(),
    ensures
        r == text_end(b@, from as int),
        from <= r <= b@.len(),
{
    let mut i: usize = from;
    while i < b.len() && b[i] != 0
        invariant
            from <= i <= b@.len(),
            text_end(b@, i as int) == text_end(b@, from as int),
        decreases b@.len() - i,
    {
        i += 1;
    }
    i
}

// ---- chunks ----

#[derive(Clone, Copy, Debug, PartialEq, Eq, Structural)]
pub struct Chunk {
    pub start: u64,
    pub len: u64,
    pub flags: u64,
}

/// The range of the chunk items.
pub open spec fn chunk_range() -> SearchKey {
    SearchKey {
        tree_id: 3,
        min_objectid: 256,
        max_objectid: 256,
        min_type: 228,
        max_type: 228,
        min_offset: 0,
        max_offset: u64::MAX,
    }
}

/// The range of the chunk items.
pub fn chunk_key() -> (r: SearchKey)
    ensures
        r == chunk_range(),
{
    SearchKey::exact(CHUNK_TREE_OBJECTID, FIRST_CHUNK_TREE_OBJECTID, CHUNK_ITEM_KEY)
}

/// The chunk that an item describes, if it is one of a chunk.
pub open spec fn chunk_of(i: ItemView) -> Option<Chunk> {
    if i.ty == 228 && i.data.len() >= 32 {
        Some(
            Chunk {
                start: i.offset,
                len: le(i.data, 0, 8) as u64,
                flags: le(i.data, 24, 8) as u64,
            },
        )
    } else {
        None
    }
}

/// The chunks that items describe.
pub open spec fn chunks_of(items: Seq<ItemView>) -> Seq<Chunk>
    decreases items.len(),
{
    if items.len() == 0 {
        Seq::empty()
    } else {
        let rest = chunks_of(items.drop_last());
        match chunk_of(items.last()) {
            Some(c) => rest.push(c),
            None => rest,
        }
    }
}

/// Adds the chunks that the items of a page describe.
pub fn chunks(chunks: &mut Vec<Chunk>, items: &Vec<Item<'_>>)
    ensures
        final(chunks)@ == old(chunks)@ + chunks_of(item_views(items@)),
{
    let ghost was = chunks@;
    let ghost all = item_views(items@);
    let mut n: usize = 0;
    assert(all.take(0) =~= Seq::<ItemView>::empty());
    while n < items.len()
        invariant
            all == item_views(items@),
            n <= items@.len(),
            chunks@ == was + chunks_of(all.take(n as int)),
        decreases items@.len() - n,
    {
        let it = &items[n];
        proof {
            assert(all.take(n + 1).drop_last() =~= all.take(n as int));
            assert(all[n as int] == it@);
            lemma_le_bound(it.data@, 0, 8);
            lemma_le_bound(it.data@, 24, 8);
        }
        if it.ty == CHUNK_ITEM_KEY && it.data.len() >= 32 {
            chunks.push(
                Chunk { start: it.offset, len: rd_u64(it.data, 0), flags: rd_u64(it.data, 24) },
            );
        }
        n += 1;
    }
    assert(all.take(all.len() as int) =~= all);
}

// ---- who owns a byte ----

#[derive(Clone, Copy, Debug, PartialEq, Eq, Structural)]
pub struct InodeRef {
    pub inum: u64,
    /// File offset of the resolved byte.
    pub offset: u64,
    pub root: u64,
}

/// How large the answer to a logical address may grow.
pub const MAX_LOGICAL_BUF: usize = 16777216;

/// The argument of a request about `what`, to be answered in `size` bytes at
/// `address`.
pub open spec fn container_request(what: nat, size: nat, address: nat) -> Seq<u8> {
    let zeros = Seq::new(56, |i: int| 0u8);
    with_le(with_le(with_le(zeros, 0, 8, what), 8, 8, size), 48, 8, address)
}

/// The argument of `LOGICAL_INO` about a logical address, or of `INO_PATHS`
/// about an inode, to be answered in `size` bytes at `address`.
pub fn container_args(what: u64, size: u64, address: u64) -> (r: Vec<u8>)
    ensures
        r@ == container_request(what as nat, size as nat, address as nat),
        r@.len() == 56,
{
    let mut args = zeros(56);
    let ghost z = args@;
    assert(z =~= Seq::new(56, |i: int| 0u8));
    wr_u64(args.as_mut_slice(), 0, what);
    proof {
        lemma_with_le_len(z, 0, 8, what as nat);
    }
    let ghost a = args@;
    wr_u64(args.as_mut_slice(), 8, size);
    proof {
        lemma_with_le_len(a, 8, 8, size as nat);
    }
    let ghost b = args@;
    wr_u64(args.as_mut_slice(), 48, address);
    proof {
        lemma_with_le_len(b, 48, 8, address as nat);
    }
    args
}

/// `n` zero bytes.
fn zeros(n: usize) -> (r: Vec<u8>)
    ensures
        r@ == Seq::new(n as nat, |i: int| 0u8),
{
    let mut v: Vec<u8> = Vec::new();
    let mut i: usize = 0;
    while i < n
        invariant
            i <= n,
            v@ == Seq::new(i as nat, |i: int| 0u8),
        decreases n - i,
    {
        v.push(0);
        assert(v@ =~= Seq::new((i + 1) as nat, |i: int| 0u8));
        i += 1;
    }
    v
}

/// What to do with the answer to a logical address.
#[derive(Clone, Debug)]
pub enum LogicalReply {
    /// Ask again with a buffer of this many bytes.
    Grow(usize),
    /// The references covering the byte.
    Refs(Vec<InodeRef>),
}

/// The least power of two that is at least `n`, starting from `p`.
pub open spec fn power_at_least(p: nat, n: nat) -> nat
    decreases
        (if p < n {
            n - p
        } else {
            0int
        }),
{
    if p >= n || p == 0 {
        p
    } else {
        power_at_least(2 * p, n)
    }
}

/// How many bytes did not fit the answer.
pub open spec fn missing_bytes(b: Seq<u8>) -> nat {
    le(b, 4, 4)
}

/// How many bytes to offer where `missing` did not fit `len`.
pub open spec fn grown_size(len: nat, missing: nat) -> nat {
    let want = power_at_least(1, len + missing);
    if want < 0x100_0000 {
        want
    } else {
        0x100_0000
    }
}

/// Whether to ask again with more room.
pub open spec fn must_grow(b: Seq<u8>) -> bool {
    missing_bytes(b) > 0 && b.len() < 0x100_0000
}

/// How many references an answer holds.
pub open spec fn ref_count(b: Seq<u8>) -> nat {
    le(b, 8, 4) / 3
}

/// Reference number `i` of an answer.
pub open spec fn ref_at(b: Seq<u8>, i: int) -> InodeRef {
    InodeRef {
        inum: le(b, 16 + i * 24, 8) as u64,
        offset: le(b, 16 + i * 24 + 8, 8) as u64,
        root: le(b, 16 + i * 24 + 16, 8) as u64,
    }
}

/// Whether all references of an answer lie within it.
pub open spec fn refs_within(b: Seq<u8>) -> bool {
    b.len() >= 16 && (must_grow(b) || 16 + ref_count(b) * 24 <= b.len())
}

/// Whether all references of an answer lie within it.
pub fn refs_are_within(buf: &[u8]) -> (r: bool)
    ensures
        r == refs_within(buf@),
{
    if buf.len() < 16 {
        return false;
    }
    let missing = rd_u32(buf, 4);
    if missing > 0 && buf.len() < MAX_LOGICAL_BUF {
        return true;
    }
    let cnt = rd_u32(buf, 8) / 3;
    (buf.len() - 16) / 24 >= cnt as usize
}

/// Reads the answer to a logical address.
pub fn logical_ino(buf: &[u8]) -> (r: LogicalReply)
    requires
        refs_within(buf@),
    ensures
        match r {
            LogicalReply::Grow(n) => must_grow(buf@) && n == grown_size(
                buf@.len(),
                missing_bytes(buf@),
            ) && n > buf@.len(),
            LogicalReply::Refs(refs) => !must_grow(buf@) && refs@ == Seq::new(
                ref_count(buf@),
                |i: int| ref_at(buf@, i),
            ),
        },
{
    let total = buf.len();
    let missing = rd_u32(buf, 4);
    if missing > 0 && buf.len() < MAX_LOGICAL_BUF {
        return LogicalReply::Grow(larger(buf.len(), missing));
    }
    let cnt = (rd_u32(buf, 8) / 3) as usize;
    let mut refs: Vec<InodeRef> = Vec::new();
    let mut i: usize = 0;
    while i < cnt
        invariant
            cnt == ref_count(buf@),
            16 + cnt * 24 <= buf@.len() <= usize::MAX,
            i <= cnt,
            refs@ == Seq::new(i as nat, |i: int| ref_at(buf@, i)),
        decreases cnt - i,
    {
        let p = 16 + i * 24;
        proof {
            lemma_le_bound(buf@, p as int, 8);
            lemma_le_bound(buf@, p + 8, 8);
            lemma_le_bound(buf@, p + 16, 8);
        }
        refs.push(
            InodeRef {
                inum: rd_u64(buf, p),
                offset: rd_u64(buf, p + 8),
                root: rd_u64(buf, p + 16),
            },
        );
        assert(refs@ =~= Seq::new((i + 1) as nat, |i: int| ref_at(buf@, i)));
        i += 1;
    }
    LogicalReply::Refs(refs)
}

fn larger(len: usize, missing: u32) -> (r: usize)
    requires
        len < MAX_LOGICAL_BUF,
        missing > 0,
    ensures
        r == grown_size(len as nat, missing as nat),
        len < r <= MAX_LOGICAL_BUF,
{
    let need: u64 = len as u64 + missing as u64;
    let mut p: u64 = 1;
    while p < need
        invariant
            need == len + missing,
            need < 0x2_0000_0000,
            1 <= p < 0x4_0000_0000,
            power_at_least(p as nat, need as nat) == power_at_least(1, need as nat),
        decreases 0x4_0000_0000 - p,
    {
        p = 2 * p;
    }
    if p < 16777216 {
        p as usize
    } else {
        MAX_LOGICAL_BUF
    }
}

// ---- paths of an inode ----

/// Whether bytes are shown as `text`: where they are UTF-8, as the text that they
/// encode.
pub open spec fn shown_as(bytes: Seq<u8>, text: Seq<char>) -> bool {
    &&& text == lossy(bytes)
    &&& valid_utf8(bytes) ==> text == decode_utf8(bytes)
}

/// The paths in an answer from number `i` on, as bytes; the list ends where a path
/// or its offset would lie outside.
pub open spec fn paths_from(b: Seq<u8>, i: nat, n: nat) -> Seq<Seq<u8>>
    decreases n - i,
{
    let slot = 16 + i * 8;
    if i >= n || slot + 8 > b.len() {
        Seq::empty()
    } else {
        let off = 16 + le(b, slot as int, 8);
        if off >= b.len() {
            Seq::empty()
        } else {
            seq![text_bytes(b, off as int)] + paths_from(b, i + 1, n)
        }
    }
}

/// The paths in the answer to an inode.
pub fn decode_paths(buf: &[u8]) -> (r: Vec<String>)
    requires
        buf@.len() >= 12,
    ensures
        r@.len() == paths_from(buf@, 0, le(buf@, 8, 4)).len(),
        forall|k: int|
            0 <= k < r@.len() ==> shown_as(
                paths_from(buf@, 0, le(buf@, 8, 4))[k],
                (#[trigger] r@[k])@,
            ),
{
    let cnt = rd_u32(buf, 8) as usize;
    let total = buf.len();
    let mut out: Vec<String> = Vec::new();
    let mut i: usize = 0;
    let ghost all = paths_from(buf@, 0, cnt as nat);
    assert(all.skip(0) =~= all);
    while i < cnt && total >= 16 && i < (total - 16) / 8
        invariant
            total == buf@.len(),
            i <= cnt,
            total >= 16 ==> i <= (total - 16) / 8,
            all == paths_from(buf@, 0, le(buf@, 8, 4)),
            out@.len() == i <= all.len(),
            all.skip(i as int) == paths_from(buf@, i as nat, cnt as nat),
            forall|k: int| 0 <= k < i ==> shown_as(all[k], (#[trigger] out@[k])@),
        decreases cnt - i,
    {
        let off = rd_u64(buf, 16 + i * 8);
        if off >= (total - 16) as u64 {
            assert(all.skip(i as int).len() == 0);
            return out;
        }
        let from = 16 + off as usize;
        let end = end_of_text(buf, from);
        let name = from_utf8_lossy(slice_subrange(buf, from, end));
        proof {
            let bytes = text_bytes(buf@, from as int);
            let rest = paths_from(buf@, (i + 1) as nat, cnt as nat);
            assert(all.skip(i as int) == seq![bytes] + rest);
            assert(all[i as int] == all.skip(i as int)[0]);
            assert(all.skip(i + 1) =~= all.skip(i as int).skip(1));
            assert((seq![bytes] + rest).skip(1) =~= rest);
        }
        out.push(name);
        i += 1;
    }
    assert(all.skip(i as int).len() == 0);
    out
}

// ---- where an inode lies ----

/// The argument of `INO_LOOKUP`.
pub open spec fn lookup_request(treeid: nat, objectid: nat) -> Seq<u8> {
    let zeros = Seq::new(4096, |i: int| 0u8);
    with_le(with_le(zeros, 0, 8, treeid), 8, 8, objectid)
}

/// The argument of `INO_LOOKUP`. With `treeid == 0` the kernel uses the root
/// that the file it is asked of belongs to.
pub fn lookup_args(treeid: u64, objectid: u64) -> (r: Vec<u8>)
    ensures
        r@ == lookup_request(treeid as nat, objectid as nat),
        r@.len() == 4096,
{
    let mut a = zeros(4096);
    let ghost z = a@;
    assert(z =~= Seq::new(4096, |i: int| 0u8));
    wr_u64(a.as_mut_slice(), 0, treeid);
    proof {
        lemma_with_le_len(z, 0, 8, treeid as nat);
    }
    let ghost b = a@;
    wr_u64(a.as_mut_slice(), 8, objectid);
    proof {
        lemma_with_le_len(b, 8, 8, objectid as nat);
    }
    a
}

/// The tree id and the directory path ("a/b/" or "") in an answer.
pub fn ino_lookup(buf: &[u8]) -> (r: (u64, String))
    requires
        buf@.len() >= 16,
    ensures
        r.0 == le(buf@, 0, 8),
        shown_as(text_bytes(buf@, 16), r.1@),
{
    let end = end_of_text(buf, 16);
    (rd_u64(buf, 0), from_utf8_lossy(slice_subrange(buf, 16, end)))
}

// ---- subvolumes ----

/// The range of the items that say where subvolume `root` hangs.
pub open spec fn backref_range(root: u64) -> SearchKey {
    SearchKey {
        tree_id: 1,
        min_objectid: root,
        max_objectid: root,
        min_type: 144,
        max_type: 144,
        min_offset: 0,
        max_offset: u64::MAX,
    }
}

/// The range of the items that say where subvolume `root` hangs.
pub fn backref_key(root: u64) -> (r: SearchKey)
    ensures
        r == backref_range(root),
{
    SearchKey::exact(ROOT_TREE_OBJECTID, root, ROOT_BACKREF_KEY)
}

/// Where a subvolume hangs: parent root, directory inode in the parent, and
/// name in there.
#[derive(Clone, Debug)]
pub struct Backref {
    pub parent: u64,
    pub dirid: u64,
    pub name: String,
}

/// Where a subvolume hangs.
#[verifier::ext_equal]
pub struct BackrefView {
    pub parent: u64,
    pub dirid: u64,
    pub name: Seq<char>,
}

impl View for Backref {
    type V = BackrefView;

    open spec fn view(&self) -> BackrefView {
        BackrefView { parent: self.parent, dirid: self.dirid, name: self.name@ }
    }
}

/// Whether an item says where a subvolume hangs.
pub open spec fn is_backref(i: ItemView) -> bool {
    i.ty == 144 && i.data.len() >= 18
}

/// The bytes of the name in an item that says where a subvolume hangs.
pub open spec fn backref_name(i: ItemView) -> Seq<u8> {
    let room = i.data.len() - 18;
    let said = le(i.data, 16, 2) as int;
    let n = if said < room {
        said
    } else {
        room
    };
    i.data.subrange(18, 18 + n)
}

/// Whether `r` is what an item says about where a subvolume hangs.
pub open spec fn tells(i: ItemView, r: BackrefView) -> bool {
    &&& r.parent == i.offset
    &&& r.dirid == le(i.data, 0, 8)
    &&& shown_as(backref_name(i), r.name)
}

/// The first such item.
pub open spec fn first_backref(items: Seq<ItemView>) -> Option<ItemView>
    decreases items.len(),
{
    if items.len() == 0 {
        None
    } else if is_backref(items.first()) {
        Some(items.first())
    } else {
        first_backref(items.drop_first())
    }
}

/// What the first item of a page that says where a subvolume hangs says.
pub fn root_backref(items: &Vec<Item<'_>>) -> (r: Option<Backref>)
    ensures
        match r {
            Some(b) => first_backref(item_views(items@)) matches Some(i) && tells(i, b@),
            None => first_backref(item_views(items@)) is None,
        },
{
    let ghost all = item_views(items@);
    let mut i: usize = 0;
    assert(all.skip(0) =~= all);
    while i < items.len()
        invariant
            all == item_views(items@),
            i <= items@.len(),
            first_backref(all.skip(i as int)) == first_backref(all),
        decreases items@.len() - i,
    {
        let it = &items[i];
        assert(all.skip(i as int).first() == it@);
        assert(all.skip(i as int).drop_first() =~= all.skip(i + 1));
        if it.ty == ROOT_BACKREF_KEY && it.data.len() >= 18 {
            proof {
                lemma_le_bound(it.data@, 0, 8);
            }
            let said = rd_u16(it.data, 16) as usize;
            let room = it.data.len() - 18;
            let n = if said < room {
                said
            } else {
                room
            };
            return Some(
                Backref {
                    parent: it.offset,
                    dirid: rd_u64(it.data, 0),
                    name: from_utf8_lossy(slice_subrange(it.data, 18, 18 + n)),
                },
            );
        }
        i += 1;
    }
    assert(all.skip(all.len() as int) =~= Seq::<ItemView>::empty());
    None
}

// ---- extents ----

#[derive(Clone, Copy, Debug, PartialEq, Eq, Structural)]
pub struct FileExtent {
    pub file_offset: u64,
    /// 0 inline, 1 regular, 2 prealloc.
    pub kind: u8,
    /// 0 none, 1 zlib, 2 lzo, 3 zstd.
    pub compression: u8,
    pub ram_bytes: u64,
    pub disk_bytenr: u64,
    pub disk_num_bytes: u64,
    pub num_bytes: u64,
}

/// The extent that an item describes: nothing where the item is cut short. An
/// inline extent has no place on disk of its own.
pub open spec fn extent_of(file_offset: u64, d: Seq<u8>) -> Option<FileExtent> {
    if d.len() < 21 {
        None
    } else if d[20] == 0 {
        Some(
            FileExtent {
                file_offset,
                kind: 0,
                compression: d[16],
                ram_bytes: le(d, 8, 8) as u64,
                disk_bytenr: 0,
                disk_num_bytes: 0,
                num_bytes: le(d, 8, 8) as u64,
            },
        )
    } else if d.len() < 53 {
        None
    } else {
        Some(
            FileExtent {
                file_offset,
                kind: d[20],
                compression: d[16],
                ram_bytes: le(d, 8, 8) as u64,
                disk_bytenr: le(d, 21, 8) as u64,
                disk_num_bytes: le(d, 29, 8) as u64,
                num_bytes: le(d, 45, 8) as u64,
            },
        )
    }
}

pub fn decode_file_extent(file_offset: u64, d: &[u8]) -> (r: Option<FileExtent>)
    ensures
        r == extent_of(file_offset, d@),
{
    if d.len() < 21 {
        return None;
    }
    proof {
        lemma_le_bound(d@, 8, 8);
        lemma_le_bound(d@, 21, 8);
        lemma_le_bound(d@, 29, 8);
        lemma_le_bound(d@, 45, 8);
    }
    let ram_bytes = rd_u64(d, 8);
    let kind = d[20];
    let mut fe = FileExtent {
        file_offset,
        kind,
        compression: d[16],
        ram_bytes,
        disk_bytenr: 0,
        disk_num_bytes: 0,
        num_bytes: ram_bytes,
    };
    if kind != 0 {
        if d.len() < 53 {
            return None;
        }
        fe.disk_bytenr = rd_u64(d, 21);
        fe.disk_num_bytes = rd_u64(d, 29);
        fe.num_bytes = rd_u64(d, 45);
    }
    Some(fe)
}

/// The range of the items for the extents of a file that start at `min_off` up
/// to `max_off`.
pub fn extent_key(root: u64, inum: u64, min_off: u64, max_off: u64) -> (r: SearchKey)
    ensures
        r == (SearchKey {
            tree_id: root,
            min_objectid: inum,
            max_objectid: inum,
            min_type: 108,
            max_type: 108,
            min_offset: min_off,
            max_offset: max_off,
        }),
{
    let mut key = SearchKey::exact(root, inum, EXTENT_DATA_KEY);
    key.min_offset = min_off;
    key.max_offset = max_off;
    key
}

/// The extents of inode `inum` that items describe.
pub open spec fn extents_of(inum: u64, items: Seq<ItemView>) -> Seq<FileExtent>
    decreases items.len(),
{
    if items.len() == 0 {
        Seq::empty()
    } else {
        let rest = extents_of(inum, items.drop_last());
        let i = items.last();
        if i.ty == 108 && i.objectid == inum && extent_of(i.offset, i.data) is Some {
            rest.push(extent_of(i.offset, i.data)->0)
        } else {
            rest
        }
    }
}

/// Adds the extents of inode `inum` that the items of a page describe.
pub fn file_extents(extents: &mut Vec<FileExtent>, inum: u64, items: &Vec<Item<'_>>)
    ensures
        final(extents)@ == old(extents)@ + extents_of(inum, item_views(items@)),
{
    let ghost was = extents@;
    let ghost all = item_views(items@);
    let mut n: usize = 0;
    assert(all.take(0) =~= Seq::<ItemView>::empty());
    while n < items.len()
        invariant
            all == item_views(items@),
            n <= items@.len(),
            extents@ == was + extents_of(inum, all.take(n as int)),
        decreases items@.len() - n,
    {
        let it = &items[n];
        assert(all.take(n + 1).drop_last() =~= all.take(n as int));
        assert(all[n as int] == it@);
        if it.ty == EXTENT_DATA_KEY && it.objectid == inum {
            if let Some(fe) = decode_file_extent(it.offset, it.data) {
                extents.push(fe);
            }
        }
        n += 1;
    }
    assert(all.take(all.len() as int) =~= all);
}

// ---- the filesystem's id ----

/// The id in the answer to `FS_INFO`.
pub fn fsid(buf: &[u8]) -> (r: [u8; 16])
    requires
        buf@.len() >= 32,
    ensures
        r@ == buf@.subrange(16, 32),
{
    let mut id: [u8; 16] = [0;16];
    let mut i: usize = 0;
    while i < 16
        invariant
            i <= 16,
            buf@.len() >= 32,
            id@.take(i as int) == buf@.subrange(16, 16 + i),
        decreases 16 - i,
    {
        let ghost was = id@;
        id[i] = buf[16 + i];
        assert(id@.take(i + 1) =~= was.take(i as int).push(buf@[16 + i]));
        assert(buf@.subrange(16, 17 + i) =~= buf@.subrange(16, 16 + i).push(buf@[16 + i]));
        i += 1;
    }
    assert(id@.take(16) =~= id@);
    id
}

/// The hexadecimal digit `d`.
pub open spec fn hex_digit(d: int) -> char {
    if d < 10 {
        (48 + d) as char
    } else {
        (87 + d) as char
    }
}

/// Bytes in hexadecimal, two digits each.
pub open spec fn hex(b: Seq<u8>) -> Seq<char>
    decreases b.len(),
{
    if b.len() == 0 {
        Seq::empty()
    } else {
        hex(b.drop_last()) + seq![
            hex_digit(b.last() as int / 16),
            hex_digit(b.last() as int % 16),
        ]
    }
}

fn push_hex(s: &mut String, b: &[u8], from: usize, to: usize)
    requires
        from <= to <= b@.len(),
    ensures
        final(s)@ == old(s)@ + hex(b@.subrange(from as int, to as int)),
{
    let mut i: usize = from;
    assert(b@.subrange(from as int, from as int) =~= Seq::<u8>::empty());
    while i < to
        invariant
            from <= i <= to <= b@.len(),
            s@ == old(s)@ + hex(b@.subrange(from as int, i as int)),
        decreases to - i,
    {
        assert(b@.subrange(from as int, i + 1).drop_last() =~= b@.subrange(from as int, i as int));
        s.push(hex_char(b[i] / 16));
        s.push(hex_char(b[i] % 16));
        assert(s@ =~= old(s)@ + hex(b@.subrange(from as int, i + 1)));
        i += 1;
    }
}

fn hex_char(d: u8) -> (r: char)
    requires
        d < 16,
    ensures
        r == hex_digit(d as int),
{
    if d < 10 {
        (48 + d) as char
    } else {
        (87 + d) as char
    }
}

/// A filesystem id as text: groups of 4, 2, 2, 2 and 6 bytes.
pub open spec fn fsid_text(id: Seq<u8>) -> Seq<char> {
    hex(id.subrange(0, 4)) + seq!['-'] + hex(id.subrange(4, 6)) + seq!['-'] + hex(
        id.subrange(6, 8),
    ) + seq!['-'] + hex(id.subrange(8, 10)) + seq!['-'] + hex(id.subrange(10, 16))
}

pub fn fsid_string(id: &[u8; 16]) -> (r: String)
    ensures
        r@ == fsid_text(id@),
{
    let b = id.as_slice();
    let mut s = String::new();
    push_hex(&mut s, b, 0, 4);
    s.push('-');
    push_hex(&mut s, b, 4, 6);
    s.push('-');
    push_hex(&mut s, b, 6, 8);
    s.push('-');
    push_hex(&mut s, b, 8, 10);
    s.push('-');
    push_hex(&mut s, b, 10, 16);
    assert(s@ =~= fsid_text(id@));
    s
}

// ---- destroying a subvolume ----

/// The argument of `SNAP_DESTROY`: the name at its place, zeros elsewhere.
pub open spec fn destroy_request(name: Seq<u8>) -> Seq<u8> {
    Seq::new(
        4096,
        |i: int|
            if 8 <= i < 8 + name.len() {
                name[i - 8]
            } else {
                0u8
            },
    )
}

/// The argument of `SNAP_DESTROY` for the subvolume `name`, which must have no
/// nested subvolumes; nothing where the name is too long.
pub fn snap_destroy(name: &[u8]) -> (r: Option<Vec<u8>>)
    ensures
        (r is None) == (name@.len() >= 4088),
        r matches Some(a) ==> a@ == destroy_request(name@) && a@.len() == 4096,
{
    if name.len() >= 4088 {
        return None;
    }
    let mut a = zeros(4096);
    let mut i: usize = 0;
    while i < name.len()
        invariant
            i <= name@.len() < 4088,
            a@ == destroy_request(name@.take(i as int)),
        decreases name@.len() - i,
    {
        a.set(8 + i, name[i]);
        assert(a@ =~= destroy_request(name@.take(i + 1)));
        i += 1;
    }
    assert(name@.take(name@.len() as int) =~= name@);
    Some(a)
}

} // verus!
