//! What a search finds in a tree that nobody changes meanwhile.

use vstd::prelude::*;

use crate::btrfs::search::{
    after_page, first_place, last_place, law_search_misses_nothing, next_place, precedes, ItemView,
    Place, SearchKey,
};

verus! {

/// Where an item stands.
pub open spec fn place_of(i: ItemView) -> Place {
    Place { objectid: i.objectid, ty: i.ty, offset: i.offset }
}

/// Whether the items make a tree: each stands after the one before, and types go
/// up to 255.
pub open spec fn is_item_tree(items: Seq<ItemView>) -> bool {
    &&& forall|i: int| 0 <= i < items.len() ==> (#[trigger] items[i]).ty <= 255
    &&& forall|i: int, j: int|
        0 <= i < j < items.len() ==> precedes(
            place_of(#[trigger] items[i]),
            place_of(#[trigger] items[j]),
        )
}

/// Whether an item of the range stands at `from` or after it.
pub open spec fn in_range(key: SearchKey, from: Place) -> spec_fn(ItemView) -> bool {
    |i: ItemView| !precedes(place_of(i), from) && !precedes(last_place(key), place_of(i))
}

/// The items of the range from `from` on.
pub open spec fn items_in(tree: Seq<ItemView>, key: SearchKey, from: Place) -> Seq<ItemView> {
    tree.filter(in_range(key, from))
}

/// Whether `page` is an answer of the kernel: the first items of the range from
/// `from` on, as many as it likes, but some if there are any.
pub open spec fn is_answer(
    tree: Seq<ItemView>,
    key: SearchKey,
    from: Place,
    page: Seq<ItemView>,
) -> bool {
    let all = items_in(tree, key, from);
    &&& page.is_prefix_of(all)
    &&& all.len() > 0 ==> page.len() > 0
}

/// Whether `pages` are the kernel's answers to a search that goes on at `from`,
/// up to its end.
pub open spec fn is_search(
    tree: Seq<ItemView>,
    key: SearchKey,
    from: Option<Place>,
    pages: Seq<Seq<ItemView>>,
) -> bool
    decreases pages.len(),
{
    match from {
        Some(p) => pages.len() > 0 && is_answer(tree, key, p, pages.first()) && is_search(
            tree,
            key,
            after_page(key, pages.first()),
            pages.drop_first(),
        ),
        None => pages.len() == 0,
    }
}

/// A search that came to its end has shown every item of the range once, in
/// order, however the kernel cut the answers.
pub proof fn law_search_finds_every_item(
    tree: Seq<ItemView>,
    key: SearchKey,
    pages: Seq<Seq<ItemView>>,
)
    requires
        is_item_tree(tree),
        is_search(tree, key, Some(first_place(key)), pages),
    ensures
        pages.flatten() == items_in(tree, key, first_place(key)),
{
    lemma_search_finds(tree, key, first_place(key), pages);
}

proof fn lemma_search_finds(
    tree: Seq<ItemView>,
    key: SearchKey,
    from: Place,
    pages: Seq<Seq<ItemView>>,
)
    requires
        is_item_tree(tree),
        is_search(tree, key, Some(from), pages),
    ensures
        pages.flatten() == items_in(tree, key, from),
    decreases pages.len(),
{
    reveal_with_fuel(is_search, 2);
    let all = items_in(tree, key, from);
    let page = pages.first();
    let rest = pages.drop_first();
    lemma_filtered(tree, in_range(key, from));
    assert(pages.flatten() == page + rest.flatten());
    if page.len() == 0 {
        assert(rest.flatten() =~= Seq::empty());
        assert(pages.flatten() =~= all);
    } else {
        let k = page.len() as int;
        let last = place_of(page.last());
        let after = |i: ItemView| precedes(last, place_of(i));
        assert(page.last() == all[k - 1]);
        assert(in_range(key, from)(all[k - 1]));
        lemma_filter_after(all, k);
        lemma_filter_twice(tree, in_range(key, from), after);
        let both = |i: ItemView| in_range(key, from)(i) && after(i);
        assert(tree.filter(both) == all.skip(k));
        assert(page + all.skip(k) =~= all);
        match next_place(key, last) {
            Some(p) => {
                assert forall|i: int| 0 <= i < tree.len() implies in_range(key, p)(
                    #[trigger] tree[i],
                ) == both(tree[i]) by {
                    let x = place_of(tree[i]);
                    if !precedes(last_place(key), x) {
                        law_search_misses_nothing(key, last, x);
                    }
                }
                lemma_filter_same(tree, in_range(key, p), both);
                lemma_search_finds(tree, key, p, rest);
            },
            None => {
                assert forall|i: int| 0 <= i < tree.len() implies !both(#[trigger] tree[i]) by {
                    let x = place_of(tree[i]);
                    if !precedes(last_place(key), x) {
                        law_search_misses_nothing(key, last, x);
                    }
                }
                lemma_filter_none(tree, both);
                assert(rest.flatten() =~= Seq::empty());
            },
        }
    }
}

/// What a filter leaves is in the order that it had, and passes.
proof fn lemma_filtered(s: Seq<ItemView>, p: spec_fn(ItemView) -> bool)
    requires
        is_item_tree(s),
    ensures
        is_item_tree(s.filter(p)),
        forall|i: int| 0 <= i < s.filter(p).len() ==> p(#[trigger] s.filter(p)[i]),
        forall|i: int|
            0 <= i < s.filter(p).len() ==> s.contains(#[trigger] s.filter(p)[i]),
    decreases s.len(),
{
    reveal(Seq::filter);
    if s.len() > 0 {
        let front = s.drop_last();
        lemma_filtered(front, p);
        assert forall|x: ItemView| front.contains(x) implies s.contains(x) by {
            let j = choose|j: int| 0 <= j < front.len() && front[j] == x;
            assert(s[j] == x);
        }
        assert(s.contains(s.last()));
        let f = s.filter(p);
        assert forall|i: int, j: int| 0 <= i < j < f.len() implies precedes(
            place_of(#[trigger] f[i]),
            place_of(#[trigger] f[j]),
        ) by {
            if j == front.filter(p).len() {
                assert(front.contains(front.filter(p)[i]));
                let k = choose|k: int| 0 <= k < front.len() && front[k] == f[i];
                assert(s[k] == f[i]);
            }
        }
    }
}

proof fn lemma_filter_twice(
    s: Seq<ItemView>,
    p: spec_fn(ItemView) -> bool,
    q: spec_fn(ItemView) -> bool,
)
    ensures
        s.filter(p).filter(q) == s.filter(|i: ItemView| p(i) && q(i)),
    decreases s.len(),
{
    reveal(Seq::filter);
    if s.len() > 0 {
        lemma_filter_twice(s.drop_last(), p, q);
        let f = s.drop_last().filter(p);
        if p(s.last()) {
            assert(f.push(s.last()).drop_last() =~= f);
        }
    }
}

proof fn lemma_filter_same(
    s: Seq<ItemView>,
    p: spec_fn(ItemView) -> bool,
    q: spec_fn(ItemView) -> bool,
)
    requires
        forall|i: int| 0 <= i < s.len() ==> p(#[trigger] s[i]) == q(s[i]),
    ensures
        s.filter(p) == s.filter(q),
    decreases s.len(),
{
    reveal(Seq::filter);
    if s.len() > 0 {
        let front = s.drop_last();
        assert forall|i: int| 0 <= i < front.len() implies p(#[trigger] front[i]) == q(
            front[i],
        ) by {
            assert(front[i] == s[i]);
        }
        lemma_filter_same(front, p, q);
        assert(p(s[s.len() - 1]) == q(s[s.len() - 1]));
    }
}

proof fn lemma_filter_none(s: Seq<ItemView>, p: spec_fn(ItemView) -> bool)
    requires
        forall|i: int| 0 <= i < s.len() ==> !p(#[trigger] s[i]),
    ensures
        s.filter(p).len() == 0,
    decreases s.len(),
{
    reveal(Seq::filter);
    if s.len() > 0 {
        let front = s.drop_last();
        assert forall|i: int| 0 <= i < front.len() implies !p(#[trigger] front[i]) by {
            assert(front[i] == s[i]);
        }
        lemma_filter_none(front, p);
        assert(!p(s[s.len() - 1]));
    }
}

/// After item `k - 1` come those from `k` on.
proof fn lemma_filter_after(s: Seq<ItemView>, k: int)
    requires
        is_item_tree(s),
        0 < k <= s.len(),
    ensures
        s.filter(|i: ItemView| precedes(place_of(s[k - 1]), place_of(i))) == s.skip(k),
    decreases s.len(),
{
    let p = |i: ItemView| precedes(place_of(s[k - 1]), place_of(i));
    if s.len() == k {
        assert forall|i: int| 0 <= i < s.len() implies !p(#[trigger] s[i]) by {
            if i < k - 1 {
                assert(precedes(place_of(s[i]), place_of(s[k - 1])));
            }
        }
        lemma_filter_none(s, p);
        assert(s.skip(k) =~= Seq::empty());
    } else {
        let front = s.drop_last();
        assert(front[k - 1] == s[k - 1]);
        lemma_filter_after(front, k);
        reveal(Seq::filter);
        assert(precedes(place_of(s[k - 1]), place_of(s[s.len() - 1])));
        assert(s.skip(k) =~= front.skip(k).push(s.last()));
    }
}

} // verus!
