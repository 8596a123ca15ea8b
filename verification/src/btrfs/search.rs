//! Searching a btrfs tree: the request for a page of items, the items on the
//! page, and where to go on.

use vstd::prelude::*;

use crate::btrfs::{le, lemma_le_bound, lemma_with_le_len, rd_u32, rd_u64, with_le, wr_u32, wr_u64};
use vstd::slice::slice_subrange;

verus! {

/// Key range for `BTRFS_IOC_TREE_SEARCH_V2`. The kernel compares
/// (objectid, type, offset) as a tuple, so callers must filter by type.
#[derive(Clone, Copy, Debug, PartialEq, Eq, Structural)]
pub struct SearchKey {
    pub tree_id: u64,
    pub min_objectid: u64,
    pub max_objectid: u64,
    pub min_type: u32,
    pub max_type: u32,
    pub min_offset: u64,
    pub max_offset: u64,
}

impl SearchKey {
    /// All items of one type that one object has.
    pub fn exact(tree_id: u64, objectid: u64, ty: u32) -> (r: Self)
        ensures
            r == (SearchKey {
                tree_id,
                min_objectid: objectid,
                max_objectid: objectid,
                min_type: ty,
                max_type: ty,
                min_offset: 0,
                max_offset: u64::MAX,
            }),
    {
        SearchKey {
            tree_id,
            min_objectid: objectid,
            max_objectid: objectid,
            min_type: ty,
            max_type: ty,
            min_offset: 0,
            max_offset: u64::MAX,
        }
    }
}

/// One item of a tree.
#[derive(Clone, Copy, Debug)]
pub struct Item<'a> {
    pub objectid: u64,
    pub ty: u32,
    pub offset: u64,
    pub data: &'a [u8],
}

/// The place of an item in its tree.
#[derive(Clone, Copy, Debug, PartialEq, Eq, Structural)]
pub struct Place {
    pub objectid: u64,
    pub ty: u32,
    pub offset: u64,
}

/// An item as mathematics.
#[verifier::ext_equal]
pub struct ItemView {
    pub objectid: u64,
    pub ty: u32,
    pub offset: u64,
    pub data: Seq<u8>,
}

impl<'a> View for Item<'a> {
    type V = ItemView;

    open spec fn view(&self) -> ItemView {
        ItemView {
            objectid: self.objectid,
            ty: self.ty,
            offset: self.offset,
            data: self.data@,
        }
    }
}

/// What the items are.
pub open spec fn item_views(items: Seq<Item<'_>>) -> Seq<ItemView> {
    items.map_values(|i: Item<'_>| i@)
}

/// How long the request is.
pub const HDR: usize = 112;

/// How many bytes of items an answer may hold.
pub const BUF: usize = 65536;

// ---- the request ----

/// Where a search starts.
pub open spec fn first_place(key: SearchKey) -> Place {
    Place { objectid: key.min_objectid, ty: key.min_type, offset: key.min_offset }
}

/// Where a search starts.
pub fn start(key: &SearchKey) -> (r: Place)
    ensures
        r == first_place(*key),
{
    Place { objectid: key.min_objectid, ty: key.min_type, offset: key.min_offset }
}

/// The bytes with the first `n` set to zero.
pub open spec fn cleared(b: Seq<u8>, n: nat) -> Seq<u8> {
    Seq::new(
        b.len(),
        |i: int|
            if i < n {
                0u8
            } else {
                b[i]
            },
    )
}

/// The request for the items of `key` from `at` on, over what the buffer held.
pub open spec fn asked(b: Seq<u8>, key: SearchKey, at: Place) -> Seq<u8> {
    let b = cleared(b, 112);
    let b = with_le(b, 0, 8, key.tree_id as nat);
    let b = with_le(b, 8, 8, at.objectid as nat);
    let b = with_le(b, 16, 8, key.max_objectid as nat);
    let b = with_le(b, 24, 8, at.offset as nat);
    let b = with_le(b, 32, 8, key.max_offset as nat);
    let b = with_le(b, 40, 8, 0);
    let b = with_le(b, 48, 8, u64::MAX as nat);
    let b = with_le(b, 56, 4, at.ty as nat);
    let b = with_le(b, 60, 4, key.max_type as nat);
    let b = with_le(b, 64, 4, u32::MAX as nat);
    with_le(b, 104, 8, 65536)
}

/// Writes the request for the items of `key` from `at` on.
pub fn ask(buf: &mut [u8], key: &SearchKey, at: Place)
    requires
        old(buf)@.len() >= HDR,
    ensures
        final(buf)@ == asked(old(buf)@, *key, at),
        final(buf)@.len() == old(buf)@.len(),
{
    let ghost was = buf@;
    let mut i: usize = 0;
    while i < HDR
        invariant
            i <= HDR,
            was.len() >= HDR,
            buf@ == cleared(was, i as nat),
        decreases HDR - i,
    {
        buf[i] = 0;
        assert(buf@ =~= cleared(was, (i + 1) as nat));
        i += 1;
    }
    let ghost b0 = buf@;
    wr_u64(buf, 0, key.tree_id);
    proof {
        lemma_with_le_len(b0, 0, 8, key.tree_id as nat);
    }
    let ghost b1 = buf@;
    wr_u64(buf, 8, at.objectid);
    proof {
        lemma_with_le_len(b1, 8, 8, at.objectid as nat);
    }
    let ghost b2 = buf@;
    wr_u64(buf, 16, key.max_objectid);
    proof {
        lemma_with_le_len(b2, 16, 8, key.max_objectid as nat);
    }
    let ghost b3 = buf@;
    wr_u64(buf, 24, at.offset);
    proof {
        lemma_with_le_len(b3, 24, 8, at.offset as nat);
    }
    let ghost b4 = buf@;
    wr_u64(buf, 32, key.max_offset);
    proof {
        lemma_with_le_len(b4, 32, 8, key.max_offset as nat);
    }
    let ghost b5 = buf@;
    wr_u64(buf, 40, 0);
    proof {
        lemma_with_le_len(b5, 40, 8, 0);
    }
    let ghost b6 = buf@;
    wr_u64(buf, 48, u64::MAX);
    proof {
        lemma_with_le_len(b6, 48, 8, u64::MAX as nat);
    }
    let ghost b7 = buf@;
    wr_u32(buf, 56, at.ty);
    proof {
        lemma_with_le_len(b7, 56, 4, at.ty as nat);
    }
    let ghost b8 = buf@;
    wr_u32(buf, 60, key.max_type);
    proof {
        lemma_with_le_len(b8, 60, 4, key.max_type as nat);
    }
    let ghost b9 = buf@;
    wr_u32(buf, 64, u32::MAX);
    proof {
        lemma_with_le_len(b9, 64, 4, u32::MAX as nat);
    }
    let ghost b10 = buf@;
    wr_u64(buf, 104, 65536);
    proof {
        lemma_with_le_len(b10, 104, 8, 65536);
    }
}

// ---- the answer ----

/// Where the item after the one at `p` starts.
pub open spec fn after_item(b: Seq<u8>, p: int) -> int {
    p + 32 + le(b, p + 28, 4)
}

/// Whether there are `n` whole items from `p` on.
pub open spec fn whole(b: Seq<u8>, p: int, n: nat) -> bool
    decreases n,
{
    n == 0 || {
        &&& p + 32 <= b.len()
        &&& after_item(b, p) <= b.len()
        &&& whole(b, after_item(b, p), (n - 1) as nat)
    }
}

/// The item at `p`.
pub open spec fn item_at(b: Seq<u8>, p: int) -> ItemView {
    ItemView {
        objectid: le(b, p + 8, 8) as u64,
        ty: le(b, p + 24, 4) as u32,
        offset: le(b, p + 16, 8) as u64,
        data: b.subrange(p + 32, after_item(b, p)),
    }
}

/// The `n` items from `p` on.
pub open spec fn items_from(b: Seq<u8>, p: int, n: nat) -> Seq<ItemView>
    decreases n,
{
    if n == 0 {
        Seq::empty()
    } else {
        seq![item_at(b, p)] + items_from(b, after_item(b, p), (n - 1) as nat)
    }
}

/// How many items an answer says that it has.
pub open spec fn item_count(b: Seq<u8>) -> nat {
    le(b, 64, 4)
}

/// Whether all items of an answer lie within it.
pub open spec fn is_page(b: Seq<u8>) -> bool {
    b.len() >= 112 && whole(b, 112, item_count(b))
}

/// The items of an answer.
pub open spec fn page_items(b: Seq<u8>) -> Seq<ItemView> {
    items_from(b, 112, item_count(b))
}

/// Whether all items of an answer lie within it.
pub fn page_is_whole(buf: &[u8]) -> (r: bool)
    ensures
        r == is_page(buf@),
{
    if buf.len() < HDR {
        return false;
    }
    let mut left: u32 = rd_u32(buf, 64);
    let mut p: usize = HDR;
    while left > 0
        invariant
            112 <= p <= buf@.len(),
            buf@.len() >= 112,
            is_page(buf@) == whole(buf@, p as int, left as nat),
        decreases left,
    {
        if buf.len() - p < 32 {
            return false;
        }
        let len = rd_u32(buf, p + 28) as usize;
        if buf.len() - p - 32 < len {
            return false;
        }
        p = p + 32 + len;
        left = left - 1;
    }
    true
}

/// The items of an answer, in order.
pub fn page<'a>(buf: &'a [u8]) -> (r: Vec<Item<'a>>)
    requires
        is_page(buf@),
    ensures
        item_views(r@) == page_items(buf@),
{
    let total = buf.len();
    let mut left: u32 = rd_u32(buf, 64);
    let mut p: usize = HDR;
    let mut items: Vec<Item<'a>> = Vec::new();
    assert(item_views(items@) =~= Seq::<ItemView>::empty());
    assert(Seq::<ItemView>::empty() + page_items(buf@) =~= page_items(buf@));
    while left > 0
        invariant
            112 <= p <= buf@.len(),
            total == buf@.len(),
            whole(buf@, p as int, left as nat),
            item_views(items@) + items_from(buf@, p as int, left as nat) == page_items(buf@),
        decreases left,
    {
        let len = rd_u32(buf, p + 28) as usize;
        proof {
            lemma_le_bound(buf@, p + 8, 8);
            lemma_le_bound(buf@, p + 16, 8);
            lemma_le_bound(buf@, p + 24, 4);
        }
        let item = Item {
            objectid: rd_u64(buf, p + 8),
            ty: rd_u32(buf, p + 24),
            offset: rd_u64(buf, p + 16),
            data: slice_subrange(buf, p + 32, p + 32 + len),
        };
        proof {
            let done = item_views(items@);
            let rest = items_from(buf@, after_item(buf@, p as int), (left - 1) as nat);
            assert(item@ == item_at(buf@, p as int));
            assert(item_views(items@.push(item)) =~= done.push(item@));
            assert(done.push(item@) + rest =~= done + (seq![item@] + rest));
        }
        items.push(item);
        p = p + 32 + len;
        left = left - 1;
    }
    assert(item_views(items@) + Seq::<ItemView>::empty() =~= item_views(items@));
    items
}

// ---- going on ----

/// Whether `x` comes before `y` in a tree.
pub open spec fn precedes(x: Place, y: Place) -> bool {
    ||| x.objectid < y.objectid
    ||| x.objectid == y.objectid && x.ty < y.ty
    ||| x.objectid == y.objectid && x.ty == y.ty && x.offset < y.offset
}

/// The last place of a key range.
pub open spec fn last_place(key: SearchKey) -> Place {
    Place { objectid: key.max_objectid, ty: key.max_type, offset: key.max_offset }
}

/// The place that follows `p` directly; types go up to 255.
pub open spec fn successor(p: Place) -> Option<Place> {
    if p.offset < u64::MAX {
        Some(Place { offset: (p.offset + 1) as u64, ..p })
    } else if p.ty < 255 {
        Some(Place { objectid: p.objectid, ty: (p.ty + 1) as u32, offset: 0 })
    } else if p.objectid < u64::MAX {
        Some(Place { objectid: (p.objectid + 1) as u64, ty: 0, offset: 0 })
    } else {
        None
    }
}

/// Where a search goes on after a page that ends at `last`, if anything is left.
pub open spec fn next_place(key: SearchKey, last: Place) -> Option<Place> {
    match successor(last) {
        Some(p) => if precedes(last_place(key), p) {
            None
        } else {
            Some(p)
        },
        None => None,
    }
}

/// Where a search goes on after a page that ends at `last`, if anything is left.
pub fn next(key: &SearchKey, last: Place) -> (r: Option<Place>)
    ensures
        r == next_place(*key, last),
{
    let p = if last.offset < u64::MAX {
        Place { objectid: last.objectid, ty: last.ty, offset: last.offset + 1 }
    } else if last.ty < 255 {
        Place { objectid: last.objectid, ty: last.ty + 1, offset: 0 }
    } else if last.objectid < u64::MAX {
        Place { objectid: last.objectid + 1, ty: 0, offset: 0 }
    } else {
        return None;
    };
    let past = key.max_objectid < p.objectid || (key.max_objectid == p.objectid && (key.max_type
        < p.ty || (key.max_type == p.ty && key.max_offset < p.offset)));
    if past {
        None
    } else {
        Some(p)
    }
}

/// Where a search goes on after the items of a page: nowhere after an empty
/// page, else past the last item.
pub open spec fn after_page(key: SearchKey, items: Seq<ItemView>) -> Option<Place> {
    if items.len() == 0 {
        None
    } else {
        let i = items.last();
        next_place(key, Place { objectid: i.objectid, ty: i.ty, offset: i.offset })
    }
}

/// Where a search goes on after the items of a page, if anything is left.
pub fn go_on(key: &SearchKey, items: &Vec<Item<'_>>) -> (r: Option<Place>)
    ensures
        r == after_page(*key, item_views(items@)),
{
    if items.len() == 0 {
        return None;
    }
    let i = &items[items.len() - 1];
    assert(item_views(items@).last() == i@);
    next(key, Place { objectid: i.objectid, ty: i.ty, offset: i.offset })
}

/// A search skips nothing and repeats nothing: after a page that ends at `last`
/// it goes on exactly with the places of the range that come after `last`.
pub proof fn law_search_misses_nothing(key: SearchKey, last: Place, x: Place)
    requires
        x.ty <= 255,
        !precedes(last_place(key), x),
    ensures
        precedes(last, x) <==> next_place(key, last) is Some && !precedes(
            x,
            next_place(key, last)->0,
        ),
{
}

/// A search comes to an end: every page starts further on than the one before.
pub proof fn law_search_advances(key: SearchKey, last: Place)
    requires
        last.ty <= 255,
    ensures
        next_place(key, last) matches Some(p) ==> precedes(last, p) && p.ty <= 255 && !precedes(
            last_place(key),
            p,
        ),
{
}

} // verus!
