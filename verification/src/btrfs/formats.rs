//! What the kernel's structures say, field by field: what is written to a field is
//! what is read from it, whatever the other fields hold.

use vstd::prelude::*;

use crate::btrfs::{
    byte_weight, error_name, error_text, is_linux, law_written_is_read, le, with_le, Errnos,
};
use crate::btrfs::ops::{
    backref_name, backref_range, chunk_of, chunk_range, chunks_of, container_request,
    destroy_request, extent_of, extents_of, first_backref, fsid_text, grown_size, hex, hex_digit,
    is_backref, lookup_request, missing_bytes, must_grow, paths_from, power_at_least, ref_at,
    ref_count, refs_within, tells, text_bytes, text_end, BackrefView, Chunk, FileExtent, InodeRef,
};
use crate::btrfs::search::{
    after_item, asked, cleared, first_place, item_at, items_from, last_place, precedes, whole,
    ItemView, Place, SearchKey,
};
use crate::text::signed_decimal;

verus! {

// ---- fields ----

proof fn lemma_weights()
    ensures
        byte_weight(2) == 0x1_0000,
        byte_weight(4) == 0x1_0000_0000,
        byte_weight(8) == 0x1_0000_0000_0000_0000,
{
    reveal_with_fuel(byte_weight, 9);
}

/// A field depends on its own bytes alone.
proof fn lemma_field_is_its_bytes(b: Seq<u8>, c: Seq<u8>, o: int, n: nat)
    requires
        forall|i: int| o <= i < o + n ==> #[trigger] b[i] == c[i],
    ensures
        le(b, o, n) == le(c, o, n),
    decreases n,
{
    if n > 0 {
        assert(b[o] == c[o]);
        lemma_field_is_its_bytes(b, c, o + 1, (n - 1) as nat);
    }
}

/// Writing one field leaves another as it is.
proof fn lemma_other_field(b: Seq<u8>, o: int, n: nat, v: nat, p: int, m: nat)
    requires
        0 <= o,
        o + n <= b.len(),
        v < byte_weight(n),
        0 <= p,
        p + m <= b.len(),
        p + m <= o || o + n <= p,
    ensures
        le(with_le(b, o, n, v), p, m) == le(b, p, m),
{
    law_written_is_read(b, o, n, v);
    lemma_field_is_its_bytes(with_le(b, o, n, v), b, p, m);
}

// ---- items of the trees ----

/// A chunk item says where the chunk starts by its key, how long it is in its first
/// eight bytes, and of what type it is in those from the 24th on. Nothing else of it
/// matters, but that it is a chunk item with room for these.
pub proof fn law_chunk_items_are_read(
    objectid: u64,
    ty: u32,
    start: u64,
    d: Seq<u8>,
    len: u64,
    flags: u64,
)
    requires
        d.len() >= 32,
    ensures
        ({
            let data = with_le(with_le(d, 0, 8, len as nat), 24, 8, flags as nat);
            let i = ItemView { objectid, ty, offset: start, data };
            &&& ty == 228 ==> chunk_of(i) == Some(Chunk { start, len, flags })
            &&& ty != 228 ==> chunk_of(i) is None
            &&& chunk_of(ItemView { data: d.take(31), ..i }) is None
        }),
{
    lemma_weights();
    let one = with_le(d, 0, 8, len as nat);
    law_written_is_read(d, 0, 8, len as nat);
    law_written_is_read(one, 24, 8, flags as nat);
    lemma_other_field(one, 24, 8, flags as nat, 0, 8);
}

/// The items of a page are read one by one, in their order.
pub proof fn law_chunks_are_read_one_by_one(a: Seq<ItemView>, b: Seq<ItemView>, i: ItemView)
    ensures
        chunks_of(a + b) == chunks_of(a) + chunks_of(b),
        chunks_of(seq![i]) == (match chunk_of(i) {
            Some(c) => seq![c],
            None => Seq::empty(),
        }),
    decreases b.len(),
{
    reveal_with_fuel(chunks_of, 2);
    assert(seq![i].drop_last() =~= Seq::<ItemView>::empty());
    match chunk_of(i) {
        Some(c) => assert(chunks_of(seq![i]) =~= seq![c]),
        None => {},
    }
    if b.len() == 0 {
        assert(a + b =~= a);
        assert(chunks_of(a) + chunks_of(b) =~= chunks_of(a));
    } else {
        law_chunks_are_read_one_by_one(a, b.drop_last(), i);
        assert((a + b).drop_last() =~= a + b.drop_last());
        assert((a + b).last() == b.last());
        assert(chunks_of(a + b) =~= chunks_of(a) + chunks_of(b));
    }
}

/// An extent that lies on disk says, each in a place of its own, its size before
/// compression, how it is compressed, where on disk it starts and how long it is
/// there, and how much of it the file uses.
pub proof fn law_extent_items_are_read(d: Seq<u8>, e: FileExtent)
    requires
        d.len() >= 53,
        e.kind != 0,
    ensures
        ({
            let data = with_le(
                with_le(
                    with_le(
                        with_le(
                            d.update(16, e.compression).update(20, e.kind),
                            8,
                            8,
                            e.ram_bytes as nat,
                        ),
                        21,
                        8,
                        e.disk_bytenr as nat,
                    ),
                    29,
                    8,
                    e.disk_num_bytes as nat,
                ),
                45,
                8,
                e.num_bytes as nat,
            );
            &&& extent_of(e.file_offset, data) == Some(e)
            &&& extent_of(e.file_offset, data.take(52)) is None
        }),
{
    lemma_weights();
    let b = d.update(16, e.compression).update(20, e.kind);
    let (ram, at, on_disk, used) = (
        e.ram_bytes as nat,
        e.disk_bytenr as nat,
        e.disk_num_bytes as nat,
        e.num_bytes as nat,
    );
    let one = with_le(b, 8, 8, ram);
    law_written_is_read(b, 8, 8, ram);
    let two = with_le(one, 21, 8, at);
    law_written_is_read(one, 21, 8, at);
    let three = with_le(two, 29, 8, on_disk);
    law_written_is_read(two, 29, 8, on_disk);
    let four = with_le(three, 45, 8, used);
    law_written_is_read(three, 45, 8, used);
    assert(b[16] == e.compression && b[20] == e.kind);
    assert(one[16] == b[16] && one[20] == b[20]);
    assert(two[16] == one[16] && two[20] == one[20]);
    assert(three[16] == two[16] && three[20] == two[20]);
    assert(four[16] == three[16] && four[20] == three[20]);
    lemma_other_field(one, 21, 8, at, 8, 8);
    lemma_other_field(two, 29, 8, on_disk, 8, 8);
    lemma_other_field(two, 29, 8, on_disk, 21, 8);
    lemma_other_field(three, 45, 8, used, 8, 8);
    lemma_other_field(three, 45, 8, used, 21, 8);
    lemma_other_field(three, 45, 8, used, 29, 8);
    assert(four.take(52)[20] == four[20]);
}

/// An extent whose data are stored in the item itself has no place on disk, and the
/// file uses all of it.
pub proof fn law_inline_extents_are_read(d: Seq<u8>, file_offset: u64, compression: u8, ram: u64)
    requires
        d.len() >= 21,
    ensures
        ({
            let data = with_le(d.update(16, compression).update(20, 0), 8, 8, ram as nat);
            &&& extent_of(file_offset, data) is Some
            &&& extent_of(file_offset, data)->0.file_offset == file_offset
            &&& extent_of(file_offset, data)->0.kind == 0
            &&& extent_of(file_offset, data)->0.compression == compression
            &&& extent_of(file_offset, data)->0.ram_bytes == ram
            &&& extent_of(file_offset, data)->0.num_bytes == ram
            &&& extent_of(file_offset, data)->0.disk_bytenr == 0
            &&& extent_of(file_offset, data)->0.disk_num_bytes == 0
            &&& extent_of(file_offset, data.take(20)) is None
        }),
{
    lemma_weights();
    let b = d.update(16, compression).update(20, 0);
    law_written_is_read(b, 8, 8, ram as nat);
    let c = with_le(b, 8, 8, ram as nat);
    assert(c[16] == b[16] && c[20] == b[20]);
}

/// Of the items of a page those count that are extents of the file asked about, each
/// at the place in the file that its key says, in their order.
pub proof fn law_extents_are_read_one_by_one(
    inum: u64,
    a: Seq<ItemView>,
    b: Seq<ItemView>,
    i: ItemView,
)
    ensures
        extents_of(inum, a + b) == extents_of(inum, a) + extents_of(inum, b),
        i.ty != 108 || i.objectid != inum ==> extents_of(inum, seq![i]).len() == 0,
        i.ty == 108 && i.objectid == inum ==> extents_of(inum, seq![i]) == (match extent_of(
            i.offset,
            i.data,
        ) {
            Some(e) => seq![e],
            None => Seq::empty(),
        }),
    decreases b.len(),
{
    reveal_with_fuel(extents_of, 2);
    assert(seq![i].drop_last() =~= Seq::<ItemView>::empty());
    match extent_of(i.offset, i.data) {
        Some(e) => assert(Seq::<FileExtent>::empty().push(e) =~= seq![e]),
        None => {},
    }
    if b.len() == 0 {
        assert(a + b =~= a);
        assert(extents_of(inum, a) + extents_of(inum, b) =~= extents_of(inum, a));
    } else {
        law_extents_are_read_one_by_one(inum, a, b.drop_last(), i);
        assert((a + b).drop_last() =~= a + b.drop_last());
        assert((a + b).last() == b.last());
        assert(extents_of(inum, a + b) =~= extents_of(inum, a) + extents_of(inum, b));
    }
}

/// An item that says where a subvolume hangs names the subvolume above by its key, the
/// directory in there in its first eight bytes, and then, after the length of the name
/// in two bytes from the 16th on, the name itself.
pub proof fn law_backref_items_are_read(i: ItemView, dirid: u64, name: Seq<u8>, r: BackrefView)
    requires
        i.data.len() >= 18,
        name.len() < 0x1_0000,
        tells(
            ItemView {
                data: with_le(with_le(i.data.take(18), 0, 8, dirid as nat), 16, 2, name.len())
                    + name,
                ..i
            },
            r,
        ),
    ensures
        r.parent == i.offset,
        r.dirid == dirid,
        vstd::utf8::valid_utf8(name) ==> r.name == vstd::utf8::decode_utf8(name),
        is_backref(i) <==> i.ty == 144,
{
    lemma_weights();
    let head = i.data.take(18);
    let one = with_le(head, 0, 8, dirid as nat);
    law_written_is_read(head, 0, 8, dirid as nat);
    let two = with_le(one, 16, 2, name.len());
    law_written_is_read(one, 16, 2, name.len());
    lemma_other_field(one, 16, 2, name.len(), 0, 8);
    let data = two + name;
    lemma_field_is_its_bytes(data, two, 0, 8);
    lemma_field_is_its_bytes(data, two, 16, 2);
    let j = ItemView { data, ..i };
    assert(backref_name(j) =~= name);
}

/// A subvolume hangs where the first item of that kind says.
pub proof fn law_first_backref_counts(items: Seq<ItemView>, k: int)
    requires
        0 <= k < items.len(),
        items[k].ty == 144,
        items[k].data.len() >= 18,
        forall|j: int|
            0 <= j < k ==> (#[trigger] items[j]).ty != 144 || items[j].data.len() < 18,
    ensures
        first_backref(items) == Some(items[k]),
    decreases items.len(),
{
    if k > 0 {
        assert(!is_backref(items[0]));
        let rest = items.drop_first();
        assert forall|j: int| 0 <= j < k - 1 implies (#[trigger] rest[j]).ty != 144
            || rest[j].data.len() < 18 by {
            assert(rest[j] == items[j + 1]);
        }
        law_first_backref_counts(rest, k - 1);
    }
}

// ---- searches ----

/// Places in a tree go by their keys as one number: first the object, then the type,
/// then the offset.
pub proof fn law_places_go_by_their_keys(x: Place, y: Place)
    ensures
        precedes(x, y) <==> (x.objectid * 0x1_0000_0000 + x.ty) * 0x1_0000_0000_0000_0000
            + x.offset < (y.objectid * 0x1_0000_0000 + y.ty) * 0x1_0000_0000_0000_0000 + y.offset,
{
}

/// A search asks from the place that it has reached up to the end of its range: each
/// bound is where the kernel looks for it, items of any age are wanted, as many as fit
/// into 64 KiB, and the rest of the header is zero.
pub proof fn law_search_requests_say_what_is_searched(b: Seq<u8>, key: SearchKey, at: Place)
    requires
        b.len() >= 112,
    ensures
        ({
            let r = asked(b, key, at);
            &&& r.len() == b.len()
            &&& le(r, 0, 8) == key.tree_id
            &&& le(r, 8, 8) == at.objectid
            &&& le(r, 16, 8) == key.max_objectid
            &&& le(r, 24, 8) == at.offset
            &&& le(r, 32, 8) == key.max_offset
            &&& le(r, 40, 8) == 0
            &&& le(r, 48, 8) == u64::MAX
            &&& le(r, 56, 4) == at.ty
            &&& le(r, 60, 4) == key.max_type
            &&& le(r, 64, 4) == u32::MAX
            &&& le(r, 104, 8) == 65536
            &&& forall|i: int| 68 <= i < 104 ==> #[trigger] r[i] == 0
            &&& forall|i: int| 112 <= i < b.len() ==> #[trigger] r[i] == b[i]
        }),
{
    lemma_weights();
    let b0 = cleared(b, 112);
    let b1 = lemma_next_field(b0, 0, 8, key.tree_id as nat);
    let b2 = lemma_next_field(b1, 8, 8, at.objectid as nat);
    let b3 = lemma_next_field(b2, 16, 8, key.max_objectid as nat);
    let b4 = lemma_next_field(b3, 24, 8, at.offset as nat);
    let b5 = lemma_next_field(b4, 32, 8, key.max_offset as nat);
    let b6 = lemma_next_field(b5, 40, 8, 0);
    let b7 = lemma_next_field(b6, 48, 8, u64::MAX as nat);
    let b8 = lemma_next_field(b7, 56, 4, at.ty as nat);
    let b9 = lemma_next_field(b8, 60, 4, key.max_type as nat);
    let b10 = lemma_next_field(b9, 64, 4, u32::MAX as nat);
    let b11 = lemma_next_field(b10, 104, 8, 65536);
    assert(b11 == asked(b, key, at));
    assert forall|i: int| 68 <= i < 104 implies #[trigger] b11[i] == 0 by {
        assert(b0[i] == 0);
        assert(b1[i] == b0[i] && b2[i] == b1[i] && b3[i] == b2[i] && b4[i] == b3[i]);
        assert(b5[i] == b4[i] && b6[i] == b5[i] && b7[i] == b6[i] && b8[i] == b7[i]);
        assert(b9[i] == b8[i] && b10[i] == b9[i]);
    }
    assert forall|i: int| 112 <= i < b.len() implies #[trigger] b11[i] == b[i] by {
        assert(b1[i] == b0[i] && b2[i] == b1[i] && b3[i] == b2[i] && b4[i] == b3[i]);
        assert(b5[i] == b4[i] && b6[i] == b5[i] && b7[i] == b6[i] && b8[i] == b7[i]);
        assert(b9[i] == b8[i] && b10[i] == b9[i]);
    }
    lemma_earlier_field(b1, b2, 0, 8);
    lemma_earlier_field(b2, b3, 0, 16);
    lemma_earlier_field(b3, b4, 0, 24);
    lemma_earlier_field(b4, b5, 0, 32);
    lemma_earlier_field(b5, b6, 0, 40);
    lemma_earlier_field(b6, b7, 0, 48);
    lemma_earlier_field(b7, b8, 0, 56);
    lemma_earlier_field(b8, b9, 0, 60);
    lemma_earlier_field(b9, b10, 0, 64);
    lemma_earlier_field(b10, b11, 0, 68);
}

/// The bytes with one field written, and what that leaves.
proof fn lemma_next_field(b: Seq<u8>, o: int, n: nat, v: nat) -> (c: Seq<u8>)
    requires
        0 <= o,
        o + n <= b.len(),
        v < byte_weight(n),
    ensures
        c == with_le(b, o, n, v),
        c.len() == b.len(),
        le(c, o, n) == v,
        forall|i: int| 0 <= i < b.len() && !(o <= i < o + n) ==> #[trigger] c[i] == b[i],
{
    law_written_is_read(b, o, n, v);
    with_le(b, o, n, v)
}

/// Every field that lies before `end` is kept where the bytes before `end` are.
proof fn lemma_earlier_field(b: Seq<u8>, c: Seq<u8>, from: int, end: int)
    requires
        forall|i: int| from <= i < end ==> #[trigger] c[i] == b[i],
    ensures
        forall|o: int, n: nat|
            from <= o && o + n <= end ==> #[trigger] le(c, o, n) == le(b, o, n),
{
    assert forall|o: int, n: nat| from <= o && o + n <= end implies #[trigger] le(c, o, n) == le(
        b,
        o,
        n,
    ) by {
        lemma_field_is_its_bytes(c, b, o, n);
    }
}

/// An item of an answer has its key in three fields of its header, and its data, as
/// long as the header says, right behind it. The next item follows the data.
pub proof fn law_answers_are_read_item_by_item(
    b: Seq<u8>,
    p: int,
    i: ItemView,
    n: nat,
)
    requires
        0 <= p,
        i.data.len() < 0x1_0000_0000,
        p + 32 + i.data.len() <= b.len(),
        le(b, p + 8, 8) == i.objectid,
        le(b, p + 16, 8) == i.offset,
        le(b, p + 24, 4) == i.ty,
        le(b, p + 28, 4) == i.data.len(),
        b.subrange(p + 32, p + 32 + i.data.len()) == i.data,
    ensures
        items_from(b, p, n + 1).len() > 0,
        items_from(b, p, n + 1)[0] == i,
        items_from(b, p, n + 1).skip(1) == items_from(b, p + 32 + i.data.len(), n),
        items_from(b, p, 0).len() == 0,
{
    assert(item_at(b, p) == i);
    let rest = items_from(b, after_item(b, p), n);
    assert((seq![item_at(b, p)] + rest).skip(1) =~= rest);
}

// ---- requests ----

/// The request for what refers to a byte, or for the paths of a file, says what is asked
/// about, how large the answer may be and where it goes; the rest is zero.
pub proof fn law_container_requests_are_filled_in(what: u64, size: u64, address: u64)
    ensures
        ({
            let r = container_request(what as nat, size as nat, address as nat);
            &&& r.len() == 56
            &&& le(r, 0, 8) == what
            &&& le(r, 8, 8) == size
            &&& le(r, 48, 8) == address
            &&& forall|i: int| 16 <= i < 48 ==> #[trigger] r[i] == 0
        }),
{
    lemma_weights();
    let zeros = Seq::new(56, |i: int| 0u8);
    let b1 = lemma_next_field(zeros, 0, 8, what as nat);
    let b2 = lemma_next_field(b1, 8, 8, size as nat);
    let b3 = lemma_next_field(b2, 48, 8, address as nat);
    lemma_earlier_field(b1, b2, 0, 8);
    lemma_earlier_field(b2, b3, 0, 48);
    assert forall|i: int| 16 <= i < 48 implies #[trigger] b3[i] == 0 by {
        assert(b1[i] == zeros[i] && b2[i] == b1[i]);
    }
}

/// The request for the path of an inode names the tree and then the inode; the rest is
/// zero.
pub proof fn law_lookup_requests_are_filled_in(treeid: u64, objectid: u64)
    ensures
        ({
            let r = lookup_request(treeid as nat, objectid as nat);
            &&& r.len() == 4096
            &&& le(r, 0, 8) == treeid
            &&& le(r, 8, 8) == objectid
            &&& forall|i: int| 16 <= i < 4096 ==> #[trigger] r[i] == 0
        }),
{
    lemma_weights();
    let zeros = Seq::new(4096, |i: int| 0u8);
    let b1 = lemma_next_field(zeros, 0, 8, treeid as nat);
    let b2 = lemma_next_field(b1, 8, 8, objectid as nat);
    lemma_earlier_field(b1, b2, 0, 8);
    assert forall|i: int| 16 <= i < 4096 implies #[trigger] b2[i] == 0 by {
        assert(b1[i] == zeros[i]);
    }
}

/// The request to delete a subvolume holds its name behind eight zero bytes, ended by a
/// zero byte, as a text is read from there.
pub proof fn law_destroy_requests_name_the_subvolume(name: Seq<u8>)
    requires
        name.len() < 4088,
        !name.contains(0),
    ensures
        destroy_request(name).len() == 4096,
        text_bytes(destroy_request(name), 8) == name,
        forall|i: int| 0 <= i < 8 ==> #[trigger] destroy_request(name)[i] == 0,
{
    let r = destroy_request(name);
    assert forall|i: int| 8 <= i < 8 + name.len() implies #[trigger] r[i] != 0 by {
        assert(name[i - 8] != 0) by {
            if name[i - 8] == 0 {
                assert(name.contains(0));
            }
        }
    }
    lemma_text_ends(r, 8, 8 + name.len() as int);
    assert(text_bytes(r, 8) =~= name);
}

proof fn lemma_text_ends(b: Seq<u8>, from: int, end: int)
    requires
        0 <= from <= end <= b.len(),
        end < b.len() ==> b[end] == 0,
        forall|i: int| from <= i < end ==> #[trigger] b[i] != 0,
    ensures
        text_end(b, from) == end,
    decreases end - from,
{
    if from < end {
        assert(b[from] != 0);
        lemma_text_ends(b, from + 1, end);
    }
}

/// A text goes up to the first zero byte, or to the end where there is none.
pub proof fn law_texts_end_at_a_zero_byte(b: Seq<u8>, from: int, text: Seq<u8>)
    requires
        0 <= from,
        from + text.len() <= b.len(),
        b.subrange(from, from + text.len()) == text,
        !text.contains(0),
        from + text.len() < b.len() ==> b[from + text.len()] == 0,
    ensures
        text_bytes(b, from) == text,
{
    assert forall|i: int| from <= i < from + text.len() implies #[trigger] b[i] != 0 by {
        assert(text[i - from] == b[i]);
        if b[i] == 0 {
            assert(text.contains(0));
        }
    }
    lemma_text_ends(b, from, from + text.len());
}

// ---- answers ----

/// Each reference of an answer is three numbers in a row: the inode, the place in its
/// file and the subvolume.
pub proof fn law_references_are_read(b: Seq<u8>, i: int, r: InodeRef)
    requires
        0 <= i,
        16 + i * 24 + 24 <= b.len(),
    ensures
        ref_at(
            with_le(
                with_le(
                    with_le(b, 16 + i * 24, 8, r.inum as nat),
                    16 + i * 24 + 8,
                    8,
                    r.offset as nat,
                ),
                16 + i * 24 + 16,
                8,
                r.root as nat,
            ),
            i,
        ) == r,
{
    lemma_weights();
    let p = 16 + i * 24;
    let b1 = lemma_next_field(b, p, 8, r.inum as nat);
    let b2 = lemma_next_field(b1, p + 8, 8, r.offset as nat);
    let b3 = lemma_next_field(b2, p + 16, 8, r.root as nat);
    lemma_earlier_field(b1, b2, p, p + 8);
    lemma_earlier_field(b2, b3, p, p + 16);
}

proof fn lemma_power(p: nat, n: nat)
    requires
        p > 0,
    ensures
        power_at_least(p, n) >= n,
        power_at_least(p, n) >= p,
        p < n ==> power_at_least(p, n) < 2 * n,
    decreases
            (if p < n {
                n - p
            } else {
                0int
            }),
{
    if p < n {
        lemma_power(2 * p, n);
    }
}

/// More room is offered than before, and enough for what was missing, up to 16 MiB;
/// less than twice as much as is needed.
pub proof fn law_room_grows_enough(len: nat, missing: nat)
    requires
        len + missing > 1,
    ensures
        grown_size(len, missing) <= 0x100_0000,
        len + missing <= 0x100_0000 ==> grown_size(len, missing) >= len + missing,
        len + missing > 0x100_0000 ==> grown_size(len, missing) == 0x100_0000,
        grown_size(len, missing) < 2 * (len + missing),
{
    lemma_power(1, len + missing);
}

/// The chunk items, all of them, are what is searched for chunks.
pub proof fn law_all_chunks_are_searched(x: Place)
    ensures
        chunk_range().tree_id == 3,
        x.objectid == 256 && x.ty == 228 <==> !precedes(x, first_place(chunk_range()))
            && !precedes(last_place(chunk_range()), x),
{
}

/// The items of the root tree that say where a subvolume hangs, all of them and no
/// others, are what is searched for its place.
pub proof fn law_all_backrefs_are_searched(root: u64, x: Place)
    ensures
        backref_range(root).tree_id == 1,
        x.objectid == root && x.ty == 144 <==> !precedes(x, first_place(backref_range(root)))
            && !precedes(last_place(backref_range(root)), x),
{
}

// ---- identifiers ----

/// Each byte is two digits, the higher first, and each digit stands for its value.
pub proof fn law_bytes_are_two_digits(b: Seq<u8>, k: int)
    requires
        0 <= k < b.len(),
    ensures
        hex(b).len() == 2 * b.len(),
        hex(b)[2 * k] == hex_digit(b[k] as int / 16),
        hex(b)[2 * k + 1] == hex_digit(b[k] as int % 16),
    decreases b.len(),
{
    if k < b.len() - 1 {
        law_bytes_are_two_digits(b.drop_last(), k);
    } else if b.len() > 1 {
        law_bytes_are_two_digits(b.drop_last(), 0);
    } else {
        assert(b.drop_last() =~= Seq::<u8>::empty());
        assert(hex(b.drop_last()).len() == 0);
    }
}

/// The digits are those from 0 to 9 and then the letters from a to f.
pub proof fn law_digits_stand_for_their_values(d: int)
    requires
        0 <= d < 16,
    ensures
        d < 10 ==> hex_digit(d) as int - '0' as int == d,
        d >= 10 ==> hex_digit(d) as int - 'a' as int == d - 10,
{
}

/// An identifier is its sixteen bytes in groups of four, two, two, two and six, with a
/// dash between them: without the dashes it is the bytes in their order.
pub proof fn law_identifiers_are_grouped(id: Seq<u8>)
    requires
        id.len() == 16,
    ensures
        ({
            let t = fsid_text(id);
            &&& t.len() == 36
            &&& t[8] == '-' && t[13] == '-' && t[18] == '-' && t[23] == '-'
            &&& t.remove(23).remove(18).remove(13).remove(8) == hex(id)
        }),
{
    let (a, b, c, d, e) = (
        id.subrange(0, 4),
        id.subrange(4, 6),
        id.subrange(6, 8),
        id.subrange(8, 10),
        id.subrange(10, 16),
    );
    law_bytes_are_two_digits(a, 0);
    law_bytes_are_two_digits(b, 0);
    law_bytes_are_two_digits(c, 0);
    law_bytes_are_two_digits(d, 0);
    law_bytes_are_two_digits(e, 0);
    lemma_hex_add(a, b);
    lemma_hex_add(a + b, c);
    lemma_hex_add(a + b + c, d);
    lemma_hex_add(a + b + c + d, e);
    assert(a + b + c + d + e =~= id);
    let t = fsid_text(id);
    let u = hex(a) + hex(b) + hex(c) + hex(d) + hex(e);
    assert(t.remove(23).remove(18).remove(13).remove(8) =~= u);
}

proof fn lemma_hex_add(a: Seq<u8>, b: Seq<u8>)
    ensures
        hex(a + b) == hex(a) + hex(b),
    decreases b.len(),
{
    if b.len() == 0 {
        assert(a + b =~= a);
        assert(hex(a) + hex(b) =~= hex(a));
    } else {
        lemma_hex_add(a, b.drop_last());
        assert((a + b).drop_last() =~= a + b.drop_last());
        assert((a + b).last() == b.last());
        assert(hex(a + b) =~= hex(a) + hex(b));
    }
}

// ---- numbers ----

/// A number of one byte is that byte, and in one of more bytes the first ones are the
/// lower part.
pub proof fn law_lower_bytes_come_first(b: Seq<u8>, o: int, n: nat, m: nat)
    ensures
        le(b, o, 1) == b[o],
        le(b, o, n + m) == le(b, o, n) + byte_weight(n) * le(b, o + n, m),
        byte_weight(1) == 256,
        byte_weight(n + m) == byte_weight(n) * byte_weight(m),
    decreases n,
{
    reveal_with_fuel(le, 2);
    reveal_with_fuel(byte_weight, 2);
    if n > 0 {
        let k = (n - 1) as nat;
        law_lower_bytes_come_first(b, o + 1, k, m);
        let (w, x, v) = (byte_weight(k), le(b, o + n, m), byte_weight(m));
        assert(256 * (w * x) == (256 * w) * x) by (nonlinear_arith);
        assert(256 * (w * v) == (256 * w) * v) by (nonlinear_arith);
    }
}

// ---- counts in answers ----

/// An answer says in four bytes from the 4th on how much did not fit, and in those
/// from the 8th on how many numbers it holds, three for each reference. Where something
/// did not fit and more room can be offered, that is done; else as many references are
/// read as are said to be there, if there is room for them.
pub proof fn law_answers_say_how_much_they_hold(b: Seq<u8>, missing: u32, refs: nat)
    requires
        b.len() >= 16,
        refs * 3 <= u32::MAX,
    ensures
        ({
            let a = with_le(with_le(b, 4, 4, missing as nat), 8, 4, refs * 3);
            &&& missing_bytes(a) == missing
            &&& ref_count(a) == refs
            &&& must_grow(a) <==> missing > 0 && b.len() < 16 * 1024 * 1024
            &&& !must_grow(a) ==> (refs_within(a) <==> 16 + refs * 24 <= b.len())
        }),
{
    lemma_weights();
    let b1 = lemma_next_field(b, 4, 4, missing as nat);
    let b2 = lemma_next_field(b1, 8, 4, refs * 3);
    lemma_earlier_field(b1, b2, 0, 8);
    assert((refs * 3) / 3 == refs);
}

/// The paths of an answer are found by the offsets in the list at its start, one after
/// the other, each counted from behind the header.
pub proof fn law_paths_are_found_by_their_offsets(b: Seq<u8>, i: nat, n: nat, at: nat)
    requires
        i < n,
        16 + i * 8 + 8 <= b.len(),
        le(b, 16 + i as int * 8, 8) == at,
    ensures
        16 + at < b.len() ==> paths_from(b, i, n).len() > 0 && paths_from(b, i, n)[0] == text_bytes(
            b,
            16 + at as int,
        ) && paths_from(b, i, n).skip(1) == paths_from(b, i + 1, n),
        16 + at >= b.len() ==> paths_from(b, i, n).len() == 0,
        paths_from(b, n, n).len() == 0,
{
    let rest = paths_from(b, i + 1, n);
    assert((seq![text_bytes(b, 16 + at as int)] + rest).skip(1) =~= rest);
}

// ---- errors ----

/// The errors that are known by name have the kernel's names for them, on every kernel;
/// each other number is told as it is. An error without a number keeps its text.
pub proof fn law_errors_have_the_kernels_names(k: Errnos, n: i32, text: Seq<char>)
    requires
        is_linux(k),
    ensures
        error_name(k, 1) == "EPERM"@,
        error_name(k, 2) == "ENOENT"@,
        error_name(k, 5) == "EIO"@,
        error_name(k, 12) == "ENOMEM"@,
        error_name(k, 13) == "EACCES"@,
        error_name(k, 20) == "ENOTDIR"@,
        error_name(k, 22) == "EINVAL"@,
        error_name(k, k.eoverflow) == "EOVERFLOW"@,
        error_name(k, k.enametoolong) == "ENAMETOOLONG"@,
        error_name(k, k.eloop) == "ELOOP"@,
        error_name(k, k.estale) == "ESTALE"@,
        error_name(k, k.euclean) == "EUCLEAN"@,
        n <= 0 || n > 151 ==> error_name(k, n) == "errno "@ + signed_decimal(n as int),
        error_text(k, Some(n), text) == error_name(k, n),
        error_text(k, None, text) == text,
{
}

/// A page is whole if each item that it says it has, header and data, lies within it.
pub proof fn law_whole_pages_hold_their_items(b: Seq<u8>, p: int, n: nat)
    ensures
        whole(b, p, 0),
        p + 32 <= b.len() ==> (whole(b, p, n + 1) <==> p + 32 + le(b, p + 28, 4) <= b.len()
            && whole(b, p + 32 + le(b, p + 28, 4), n)),
        p + 32 > b.len() ==> !whole(b, p, n + 1),
{
}

} // verus!
