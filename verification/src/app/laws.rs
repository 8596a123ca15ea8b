//! What holds of the interface as a whole.

use vstd::prelude::*;

use crate::app::{Command, KeyCode, Mode, SortBy};
use crate::app::model::{
    above, any_subvol, at_start, browsed, chosen, command_of, cursor_row, fits, is_listing, listing,
    live_marks, nested, next_mode, outermost, pressed, sorted_by, targets, unmarked, with_cursor,
    ActionView, AppView, DialogView,
};
use crate::sorting::lemma_one_order;
use crate::text::lemma_name_order;
use crate::tree::{max_nodes, NodeId};
use crate::tree::model::{child_of, is_tree, live, special, within, NodeView};
use crate::tree::proofs::{lemma_within_bound, lemma_within_transitive};

verus! {

// ---- the listing ----

/// No two entries are shown above each other.
pub proof fn lemma_above_once(v: AppView, a: Seq<NodeView>, x: NodeId, y: NodeId)
    ensures
        !(above(v, a, x, y) && above(v, a, y, x)),
        !above(v, a, x, x),
{
    lemma_name_order(a[x as int].name, a[y as int].name, a[x as int].name);
}

/// The entries of a directory can be shown in one way only.
pub proof fn lemma_one_listing(v: AppView, a: Seq<NodeView>, e: Seq<NodeId>, f: Seq<NodeId>)
    requires
        is_listing(v, a, e),
        is_listing(v, a, f),
    ensures
        e == f,
{
    let before = |x: NodeId, y: NodeId| above(v, a, x, y);
    assert forall|x: NodeId, y: NodeId| #[trigger] before(x, y) implies !before(y, x) by {
        lemma_above_once(v, a, x, y);
    }
    assert forall|x: NodeId| #[trigger] e.contains(x) <==> f.contains(x) by {
        if e.contains(x) {
            let k = choose|k: int| 0 <= k < e.len() && e[k] == x;
            assert(child_of(a, v.dir as int, e[k] as int));
        }
        if f.contains(x) {
            let k = choose|k: int| 0 <= k < f.len() && f[k] == x;
            assert(child_of(a, v.dir as int, f[k] as int));
        }
    }
    lemma_one_order(e, f, before);
}

/// Whether of the first `n` nodes `e` shows each that is listed in the open
/// directory, in order.
spec fn shows(v: AppView, a: Seq<NodeView>, e: Seq<NodeId>, n: nat) -> bool {
    &&& forall|k: int|
        0 <= k < e.len() ==> child_of(a, v.dir as int, #[trigger] e[k] as int) && e[k] < n
    &&& forall|c: NodeId|
        #[trigger] child_of(a, v.dir as int, c as int) && c < n ==> e.contains(c)
    &&& forall|j: int, k: int|
        0 <= j < k < e.len() ==> above(v, a, #[trigger] e[j], #[trigger] e[k])
}

/// Siblings are shown in some order, and the order is transitive.
proof fn lemma_above_orders(v: AppView, a: Seq<NodeView>, x: NodeId, y: NodeId, z: NodeId)
    requires
        is_tree(a),
        child_of(a, v.dir as int, x as int),
        child_of(a, v.dir as int, y as int),
    ensures
        x == y || above(v, a, x, y) || above(v, a, y, x),
        above(v, a, x, y) && above(v, a, y, z) ==> above(v, a, x, z),
        above(v, a, z, x) && above(v, a, x, y) ==> above(v, a, z, y),
{
    let (p, q, r) = (a[x as int].name, a[y as int].name, a[z as int].name);
    lemma_name_order(p, q, r);
    lemma_name_order(r, q, p);
    lemma_name_order(r, p, q);
    lemma_name_order(q, p, r);
    assert(a[x as int].parent == a[y as int].parent);
}

/// How many of `e`, up to the last that is, are shown above `x`.
spec fn slot(v: AppView, a: Seq<NodeView>, e: Seq<NodeId>, x: NodeId) -> int
    decreases e.len(),
{
    if e.len() == 0 {
        0
    } else if above(v, a, e.last(), x) {
        e.len() as int
    } else {
        slot(v, a, e.drop_last(), x)
    }
}

proof fn lemma_slot(v: AppView, a: Seq<NodeView>, e: Seq<NodeId>, x: NodeId)
    ensures
        0 <= slot(v, a, e, x) <= e.len(),
        slot(v, a, e, x) > 0 ==> above(v, a, e[slot(v, a, e, x) - 1], x),
        forall|k: int| slot(v, a, e, x) <= k < e.len() ==> !above(v, a, #[trigger] e[k], x),
    decreases e.len(),
{
    if e.len() > 0 && !above(v, a, e.last(), x) {
        lemma_slot(v, a, e.drop_last(), x);
        assert forall|k: int| slot(v, a, e, x) <= k < e.len() implies !above(
            v,
            a,
            #[trigger] e[k],
            x,
        ) by {
            if k < e.len() - 1 {
                assert(e.drop_last()[k] == e[k]);
            }
        }
    }
}

proof fn lemma_listing_grows(v: AppView, a: Seq<NodeView>, n: nat) -> (e: Seq<NodeId>)
    requires
        is_tree(a),
        n <= a.len() <= max_nodes(),
    ensures
        shows(v, a, e, n),
    decreases n,
{
    if n == 0 {
        Seq::empty()
    } else {
        let e = lemma_listing_grows(v, a, (n - 1) as nat);
        let x = (n - 1) as NodeId;
        if child_of(a, v.dir as int, x as int) {
            let at = slot(v, a, e, x);
            lemma_slot(v, a, e, x);
            let f = e.insert(at, x);
            assert forall|j: int| 0 <= j < at implies above(v, a, #[trigger] e[j], x) by {
                if j < at - 1 {
                    assert(above(v, a, e[j], e[at - 1]));
                    lemma_above_orders(v, a, e[at - 1], x, e[j]);
                }
            }
            assert forall|k: int| at <= k < e.len() implies above(v, a, x, #[trigger] e[k]) by {
                lemma_above_orders(v, a, e[k], x, x);
            }
            assert forall|c: NodeId|
                #[trigger] child_of(a, v.dir as int, c as int) && c < n implies f.contains(c) by {
                if c == x {
                    assert(f[at] == x);
                } else {
                    assert(e.contains(c));
                    let k = choose|k: int| 0 <= k < e.len() && e[k] == c;
                    assert(f[if k < at {
                        k
                    } else {
                        k + 1
                    }] == c);
                }
            }
            assert forall|j: int, k: int| 0 <= j < k < f.len() implies above(
                v,
                a,
                #[trigger] f[j],
                #[trigger] f[k],
            ) by {
                if j < at && k > at {
                    assert(above(v, a, e[j], e[k - 1]));
                } else if j > at {
                    assert(above(v, a, e[j - 1], e[k - 1]));
                }
            }
            f
        } else {
            assert forall|c: NodeId|
                #[trigger] child_of(a, v.dir as int, c as int) && c < n implies e.contains(c) by {
                assert(c != x);
            }
            e
        }
    }
}

/// Every directory has a listing.
pub proof fn lemma_listing(v: AppView, a: Seq<NodeView>)
    requires
        is_tree(a),
        a.len() <= max_nodes(),
    ensures
        is_listing(v, a, listing(v, a)),
{
    let e = lemma_listing_grows(v, a, a.len());
    assert(is_listing(v, a, e));
}

// ---- ids ----

/// A key press leaves no id in the state that names no node.
pub proof fn law_ids_stay_known(v: AppView, key: KeyCode, a: Seq<NodeView>, now: nat)
    requires
        is_tree(a),
        a.len() <= max_nodes(),
        fits(v, a.len()),
    ensures
        fits(pressed(v, key, a, now).0, a.len()),
{
    let w = AppView { dialog: DialogView::Closed, ..v };
    if v.dialog is Closed {
        lemma_browsed_known(w, command_of(key), a, now);
    } else {
        if v.dialog is Confirm {
            lemma_unmarked(v.marks, v.dialog->targets);
        }
    }
}

#[verifier::spinoff_prover]
proof fn lemma_browsed_known(v: AppView, command: Command, a: Seq<NodeView>, now: nat)
    requires
        is_tree(a),
        a.len() <= max_nodes(),
        fits(v, a.len()),
        v.dialog is Closed,
    ensures
        fits(browsed(v, command, a, now).0, a.len()),
{
    let e = listing(v, a);
    lemma_chosen(v, a);
    let sel = chosen(v, e);
    match command {
        Command::Delete => {
            lemma_targets(v, a, sel);
            let t = targets(v, a, sel);
            assert forall|i: int| 0 <= i < t.len() implies (#[trigger] t[i]) < a.len() by {
                assert(t.contains(t[i]));
            }
        },
        Command::Leave => {
            if a[v.dir as int].parent is Some {
                assert(0 <= a[v.dir as int].parent->0 < a.len());
            }
        },
        _ => {},
    }
}

/// What a deletion is about: entries that are marked and live, or else the
/// selected one; none is special unless it was marked.
proof fn lemma_targets(v: AppView, a: Seq<NodeView>, sel: Option<NodeId>)
    requires
        a.len() <= max_nodes(),
    ensures
        forall|id: NodeId| #[trigger]
            targets(v, a, sel).contains(id) ==> {
                ||| id < a.len() && v.marks.contains(id) && live(a, id as int)
                ||| sel == Some(id) && !special(a, id as int)
            },
{
    let marked = live_marks(v.marks, a, a.len());
    lemma_live_marks(v.marks, a, a.len());
    let all = if marked.len() > 0 {
        marked
    } else {
        match sel {
            Some(id) => if special(a, id as int) {
                Seq::empty()
            } else {
                seq![id]
            },
            None => Seq::empty(),
        }
    };
    lemma_outermost(a, all, all);
    assert forall|id: NodeId| #[trigger] targets(v, a, sel).contains(id) implies {
        ||| id < a.len() && v.marks.contains(id) && live(a, id as int)
        ||| sel == Some(id) && !special(a, id as int)
    } by {
        assert(all.contains(id));
    }
}

/// The entry under the cursor is listed in the open directory.
pub proof fn lemma_chosen(v: AppView, a: Seq<NodeView>)
    requires
        is_tree(a),
        a.len() <= max_nodes(),
    ensures
        chosen(v, listing(v, a)) matches Some(id) ==> child_of(a, v.dir as int, id as int),
        0 <= cursor_row(v, listing(v, a)),
{
    let e = listing(v, a);
    lemma_listing(v, a);
    if v.selected.dom().contains(v.dir) {
        e.index_of_first_ensures(v.selected[v.dir].0);
    }
}

proof fn lemma_last_or_before(s: Seq<NodeId>, x: NodeId)
    requires
        s.len() > 0,
    ensures
        s.contains(x) <==> s.drop_last().contains(x) || s.last() == x,
{
    assert(s[s.len() - 1] == s.last());
    if s.contains(x) {
        let k = choose|k: int| 0 <= k < s.len() && s[k] == x;
        if k < s.len() - 1 {
            assert(s.drop_last()[k] == x);
        }
    }
    if s.drop_last().contains(x) {
        let k = choose|k: int| 0 <= k < s.len() - 1 && s.drop_last()[k] == x;
        assert(s[k] == x);
    }
}

pub proof fn lemma_live_marks(marks: Set<NodeId>, a: Seq<NodeView>, n: nat)
    requires
        n <= a.len() <= max_nodes(),
    ensures
        forall|id: NodeId| #[trigger]
            live_marks(marks, a, n).contains(id) <==> id < n && marks.contains(id) && live(
                a,
                id as int,
            ),
    decreases n,
{
    if n > 0 {
        let s = live_marks(marks, a, (n - 1) as nat);
        let x = (n - 1) as NodeId;
        lemma_live_marks(marks, a, (n - 1) as nat);
        assert forall|id: NodeId| #[trigger]
            live_marks(marks, a, n).contains(id) <==> id < n && marks.contains(id) && live(
                a,
                id as int,
            ) by {
            lemma_last_or_before(s.push(x), id);
            assert(s.push(x).drop_last() =~= s);
            assert(s.contains(id) <==> id < n - 1 && marks.contains(id) && live(a, id as int));
        }
    }
}

pub proof fn lemma_outermost(a: Seq<NodeView>, all: Seq<NodeId>, ids: Seq<NodeId>)
    ensures
        forall|id: NodeId| #[trigger]
            outermost(a, all, ids).contains(id) <==> ids.contains(id) && !nested(a, all, id),
    decreases ids.len(),
{
    if ids.len() > 0 {
        let rest = ids.drop_last();
        let s = outermost(a, all, rest);
        let x = ids.last();
        lemma_outermost(a, all, rest);
        assert forall|id: NodeId| #[trigger]
            outermost(a, all, ids).contains(id) <==> ids.contains(id) && !nested(a, all, id) by {
            lemma_last_or_before(s.push(x), id);
            assert(s.push(x).drop_last() =~= s);
            lemma_last_or_before(ids, id);
            assert(s.contains(id) <==> rest.contains(id) && !nested(a, all, id));
        }
    }
}

pub proof fn lemma_unmarked(marks: Set<NodeId>, ids: Seq<NodeId>)
    ensures
        forall|id: NodeId| #[trigger]
            unmarked(marks, ids).contains(id) <==> marks.contains(id) && !ids.contains(id),
    decreases ids.len(),
{
    if ids.len() > 0 {
        let rest = ids.drop_last();
        lemma_unmarked(marks, rest);
        assert forall|id: NodeId| #[trigger]
            unmarked(marks, ids).contains(id) <==> marks.contains(id) && !ids.contains(id) by {
            lemma_last_or_before(ids, id);
            assert(unmarked(marks, rest).contains(id) <==> marks.contains(id) && !rest.contains(
                id,
            ));
        }
    }
}

// ---- the cursor ----

/// Where nothing that decides the order differs, the listing is the same.
pub proof fn lemma_same_listing(v: AppView, w: AppView, a: Seq<NodeView>)
    requires
        is_tree(a),
        a.len() <= max_nodes(),
        v.dir == w.dir,
        v.mode == w.mode,
        v.sort == w.sort,
        v.reverse == w.reverse,
    ensures
        listing(v, a) == listing(w, a),
{
    lemma_listing(v, a);
    lemma_listing(w, a);
    let e = listing(v, a);
    assert forall|j: int, k: int| 0 <= j < k < e.len() implies above(
        w,
        a,
        #[trigger] e[j],
        #[trigger] e[k],
    ) by {
        assert(above(v, a, e[j], e[k]));
    }
    lemma_one_listing(w, a, e, listing(w, a));
}

/// The cursor stays on the selected entry for as long as the entry is listed,
/// whatever the sizes are and however they are sorted.
pub proof fn law_cursor_follows_the_entry(v: AppView, a: Seq<NodeView>)
    requires
        is_tree(a),
        a.len() <= max_nodes(),
        v.selected.dom().contains(v.dir),
        child_of(a, v.dir as int, v.selected[v.dir].0 as int),
    ensures
        chosen(v, listing(v, a)) == Some(v.selected[v.dir].0),
{
    lemma_listing(v, a);
    let e = listing(v, a);
    let id = v.selected[v.dir].0;
    e.index_of_first_ensures(id);
    assert(e.contains(id));
}

/// Where the directory has entries, the cursor is on one of them.
pub proof fn law_cursor_is_on_an_entry(v: AppView, a: Seq<NodeView>)
    requires
        is_tree(a),
        a.len() <= max_nodes(),
    ensures
        (chosen(v, listing(v, a)) is Some) == (exists|c: int| #[trigger]
            child_of(a, v.dir as int, c)),
        chosen(v, listing(v, a)) matches Some(id) ==> child_of(a, v.dir as int, id as int),
{
    lemma_chosen(v, a);
    lemma_listing(v, a);
    let e = listing(v, a);
    if v.selected.dom().contains(v.dir) {
        e.index_of_first_ensures(v.selected[v.dir].0);
    }
    if exists|c: int| #[trigger] child_of(a, v.dir as int, c) {
        let c = choose|c: int| #[trigger] child_of(a, v.dir as int, c);
        let k = c as NodeId;
        assert(child_of(a, v.dir as int, k as int));
        assert(e.contains(k));
    }
}

/// A move puts the cursor on the row asked for, or on the last.
pub proof fn law_cursor_goes_where_it_is_put(v: AppView, a: Seq<NodeView>, row: int)
    requires
        is_tree(a),
        a.len() <= max_nodes(),
        listing(v, a).len() <= usize::MAX,
        row >= 0,
    ensures
        ({
            let e = listing(v, a);
            let w = with_cursor(v, e, row);
            &&& listing(w, a) == e
            &&& e.len() > 0 ==> cursor_row(w, e) == (if row < e.len() {
                row
            } else {
                e.len() - 1
            })
        }),
{
    let e = listing(v, a);
    let w = with_cursor(v, e, row);
    lemma_same_listing(v, w, a);
    lemma_listing(v, a);
    if e.len() > 0 {
        let r = if row < e.len() {
            row
        } else {
            e.len() - 1
        };
        e.index_of_first_ensures(e[r]);
        let i = e.index_of_first(e[r])->0;
        assert(e.contains(e[r]));
        if i < r {
            assert(above(v, a, e[i], e[r]));
            lemma_above_once(v, a, e[r], e[r]);
        }
    }
}

/// Leaving a directory that was just opened leads back to where it was opened,
/// with the cursor on it.
pub proof fn law_leaving_undoes_opening(v: AppView, a: Seq<NodeView>, now: nat)
    requires
        is_tree(a),
        a.len() <= max_nodes(),
    ensures
        ({
            let opened = browsed(v, Command::Open, a, now).0;
            opened.dir != v.dir ==> {
                let back = browsed(opened, Command::Leave, a, now).0;
                &&& back.dir == v.dir
                &&& chosen(back, listing(back, a)) == Some(opened.dir)
                &&& chosen(v, listing(v, a)) == Some(opened.dir)
            }
        }),
{
    let opened = browsed(v, Command::Open, a, now).0;
    let e = listing(v, a);
    lemma_chosen(v, a);
    if opened.dir != v.dir {
        let id = opened.dir;
        assert(chosen(v, e) == Some(id));
        assert(a[id as int].parent == Some(v.dir as int));
        let up = AppView { dir: v.dir, ..opened };
        lemma_listing(up, a);
        let f = listing(up, a);
        f.index_of_first_ensures(id);
        assert(child_of(a, up.dir as int, id as int));
        assert(f.contains(id));
        let back = browsed(opened, Command::Leave, a, now).0;
        assert(back == with_cursor(up, f, f.index_of_first(id)->0));
        law_cursor_follows_the_entry(back, a);
    }
}

// ---- settings ----

/// The modes come round in turn, and each is reached.
pub proof fn law_modes_go_round(m: Mode, n: Mode)
    ensures
        next_mode(next_mode(next_mode(next_mode(m)))) == m,
        n == m || n == next_mode(m) || n == next_mode(next_mode(m)) || n == next_mode(
            next_mode(next_mode(m)),
        ),
{
}

/// Sorting twice by the same thing turns the order around.
pub proof fn law_sorting_again_reverses(v: AppView, s: SortBy)
    ensures
        sorted_by(v, s).sort == s,
        sorted_by(sorted_by(v, s), s).reverse == !sorted_by(v, s).reverse,
        sorted_by(sorted_by(v, s), s).sort == s,
{
}

/// Keys leave alone what only the program sets.
pub proof fn law_keys_keep_their_hands_off(v: AppView, key: KeyCode, a: Seq<NodeView>, now: nat)
    ensures
        ({
            let w = pressed(v, key, a, now).0;
            &&& w.live == v.live
            &&& w.exact == v.exact
            &&& w.offset == v.offset
            &&& w.page == v.page
            &&& w.deleting == v.deleting
            &&& w.delete_errors == v.delete_errors
        }),
{
    let w = AppView { dialog: DialogView::Closed, ..v };
    if v.dialog is Closed {
        lemma_browsed_keeps(w, command_of(key), a, now);
    }
}

/// Outside of dialogs only the deletion command opens a confirmation, a first
/// one, and nothing is deleted.
#[verifier::spinoff_prover]
proof fn lemma_browsed_keeps(v: AppView, command: Command, a: Seq<NodeView>, now: nat)
    requires
        v.dialog is Closed,
    ensures
        ({
            let (w, action) = browsed(v, command, a, now);
            &&& w.live == v.live
            &&& w.exact == v.exact
            &&& w.offset == v.offset
            &&& w.page == v.page
            &&& w.deleting == v.deleting
            &&& w.delete_errors == v.delete_errors
            &&& !(action is Delete)
            &&& w.dialog matches DialogView::Confirm { stage, .. } ==> stage == 1 && command
                == Command::Delete
        }),
{
    let e = listing(v, a);
    match command {
        Command::Up => {},
        Command::Down => {},
        Command::PageUp => {},
        Command::PageDown => {},
        Command::Open => {},
        Command::Leave => {},
        Command::Mark => {},
        Command::Delete => {},
        _ => {},
    }
}

/// Marks change only where an entry is marked or unmarked, where all marks are
/// cleared, or where marked entries are deleted.
pub proof fn law_marks_persist(v: AppView, key: KeyCode, a: Seq<NodeView>, now: nat)
    ensures
        ({
            let (w, action) = pressed(v, key, a, now);
            let command = command_of(key);
            w.marks == v.marks || action is Delete || v.dialog is Closed && (command
                == Command::Mark || command == Command::Unmark)
        }),
{
}

/// While browsing, with no dialog open, the marks change for two keys only: space marks or unmarks the
/// entry under the cursor, unless that is special, and `u` clears them. Every other
/// key keeps them, those that move between directories included. So where no
/// special entry is marked, none ever is.
pub proof fn law_browsing_keeps_the_marks(v: AppView, key: KeyCode, a: Seq<NodeView>, now: nat)
    ensures
        ({
            let w = browsed(v, command_of(key), a, now).0;
            let sel = chosen(v, listing(v, a));
            &&& v.dialog is Closed ==> pressed(v, key, a, now).0 == w
            &&& w.marks == marks_after(v.marks, key, sel, a)
            &&& none_special(v.marks, a) ==> none_special(w.marks, a)
        }),
{
}

/// The marks after a key while browsing, `sel` being the entry under the cursor.
pub open spec fn marks_after(
    marks: Set<NodeId>,
    key: KeyCode,
    sel: Option<NodeId>,
    a: Seq<NodeView>,
) -> Set<NodeId> {
    match (key, sel) {
        (KeyCode::Char(' '), Some(id)) => if special(a, id as int) {
            marks
        } else if marks.contains(id) {
            marks.remove(id)
        } else {
            marks.insert(id)
        },
        (KeyCode::Char('u'), _) => Set::empty(),
        _ => marks,
    }
}

/// Whether no special entry is marked.
pub open spec fn none_special(marks: Set<NodeId>, a: Seq<NodeView>) -> bool {
    forall|id: NodeId| #[trigger] marks.contains(id) ==> !special(a, id as int)
}

// ---- deleting ----

/// Whether nothing special is marked or about to be deleted, nothing is about
/// to be deleted twice, and nothing at all in saved results.
pub open spec fn careful(v: AppView, a: Seq<NodeView>) -> bool {
    &&& forall|id: NodeId| #[trigger] v.marks.contains(id) ==> !special(a, id as int)
    &&& v.dialog matches DialogView::Confirm { targets, .. } ==> {
        &&& v.live
        &&& targets.len() > 0
        &&& forall|k: int|
            0 <= k < targets.len() ==> !special(a, #[trigger] targets[k] as int) && !nested(
                a,
                targets,
                targets[k],
            )
    }
}

proof fn lemma_outermost_not_nested(a: Seq<NodeView>, all: Seq<NodeId>, id: NodeId)
    requires
        outermost(a, all, all).contains(id),
    ensures
        !nested(a, outermost(a, all, all), id),
{
    let t = outermost(a, all, all);
    lemma_outermost(a, all, all);
    if nested(a, t, id) {
        let k = choose|k: int|
            0 <= k < t.len() && t[k] != id && within(a, #[trigger] t[k] as int, id as int);
        assert(t.contains(t[k]));
        assert(all.contains(t[k]));
        let j = choose|j: int| 0 <= j < all.len() && all[j] == t[k];
        assert(within(a, all[j] as int, id as int));
    }
}

/// Special entries can neither be marked nor deleted, no target of a deletion
/// lies inside another, and saved results offer no deletion: so it is at the
/// start, and every key press keeps it so.
pub proof fn law_deleting_is_careful(
    v: AppView,
    key: KeyCode,
    a: Seq<NodeView>,
    now: nat,
    live: bool,
)
    requires
        a.len() <= max_nodes(),
        careful(v, a),
    ensures
        careful(at_start(live), a),
        careful(pressed(v, key, a, now).0, a),
        pressed(v, key, a, now).1 matches ActionView::Delete(ids) ==> {
            &&& v.live
            &&& ids.len() > 0
            &&& forall|k: int|
                0 <= k < ids.len() ==> !special(a, #[trigger] ids[k] as int) && !nested(
                    a,
                    ids,
                    ids[k],
                )
        },
{
    let w = AppView { dialog: DialogView::Closed, ..v };
    if v.dialog is Closed {
        lemma_browsed_careful(w, command_of(key), a, now);
    } else if v.dialog is Confirm {
        lemma_unmarked(v.marks, v.dialog->targets);
    }
}

#[verifier::spinoff_prover]
proof fn lemma_browsed_careful(v: AppView, command: Command, a: Seq<NodeView>, now: nat)
    requires
        a.len() <= max_nodes(),
        careful(v, a),
        v.dialog is Closed,
    ensures
        careful(browsed(v, command, a, now).0, a),
        !(browsed(v, command, a, now).1 is Delete),
{
    let sel = chosen(v, listing(v, a));
    if command == Command::Delete {
        lemma_targets(v, a, sel);
        let t = targets(v, a, sel);
        let marked = live_marks(v.marks, a, a.len());
        let all = if marked.len() > 0 {
            marked
        } else {
            match sel {
                Some(id) => if special(a, id as int) {
                    Seq::empty()
                } else {
                    seq![id]
                },
                None => Seq::empty(),
            }
        };
        assert forall|k: int| 0 <= k < t.len() implies !special(a, #[trigger] t[k] as int)
            && !nested(a, t, t[k]) by {
            assert(t.contains(t[k]));
            lemma_outermost_not_nested(a, all, t[k]);
        }
    }
}

/// Everything marked and live is deleted with the targets, being one of them
/// or lying inside one.
pub proof fn law_targets_cover_the_marks(
    v: AppView,
    a: Seq<NodeView>,
    sel: Option<NodeId>,
    id: NodeId,
)
    requires
        is_tree(a),
        a.len() <= max_nodes(),
        id < a.len(),
        v.marks.contains(id),
        live(a, id as int),
    ensures
        exists|k: int|
            0 <= k < targets(v, a, sel).len() && within(
                a,
                #[trigger] targets(v, a, sel)[k] as int,
                id as int,
            ),
    decreases id,
{
    let all = live_marks(v.marks, a, a.len());
    lemma_live_marks(v.marks, a, a.len());
    assert(all.contains(id));
    lemma_outermost(a, all, all);
    let t = targets(v, a, sel);
    if nested(a, all, id) {
        let k = choose|k: int|
            0 <= k < all.len() && all[k] != id && within(a, #[trigger] all[k] as int, id as int);
        let x = all[k];
        assert(all.contains(x));
        lemma_within_bound(a, x as int, id as int);
        law_targets_cover_the_marks(v, a, sel, x);
        let j = choose|j: int| 0 <= j < t.len() && within(a, #[trigger] t[j] as int, x as int);
        lemma_within_transitive(a, t[j] as int, x as int, id as int);
    } else {
        assert(t.contains(id));
        let j = choose|j: int| 0 <= j < t.len() && t[j] == id;
        assert(within(a, t[j] as int, id as int));
    }
}

/// A deletion is asked for only by `y` in a confirmation of just these targets,
/// and of a second one where a target is or holds a subvolume. A first
/// confirmation is opened by the deletion command, a second by `y` in the first.
pub proof fn law_deleting_needs_confirmation(
    v: AppView,
    key: KeyCode,
    a: Seq<NodeView>,
    now: nat,
)
    ensures
        pressed(v, key, a, now).1 matches ActionView::Delete(ids) ==> says_yes(key)
            && v.dialog is Confirm && v.dialog->targets == ids && (v.dialog->stage != 1
            || !any_subvol(a, ids)),
        forall|ids: Seq<NodeId>, stage: u8| #[trigger]
            confirming(pressed(v, key, a, now).0.dialog, ids, stage) ==> {
                ||| stage == 1 && v.dialog is Closed && command_of(key) == Command::Delete
                ||| stage == 2 && says_yes(key) && confirming(v.dialog, ids, 1) && any_subvol(
                    a,
                    ids,
                )
            },
{
    let (w, action) = pressed(v, key, a, now);
    if v.dialog is Closed {
        lemma_browsed_keeps(v, command_of(key), a, now);
        assert(AppView { dialog: DialogView::Closed, ..v } == v);
    }
}

/// Whether a key confirms.
pub open spec fn says_yes(key: KeyCode) -> bool {
    key == KeyCode::Char('y') || key == KeyCode::Char('Y')
}

/// Whether the dialog asks to confirm the deletion of `ids`.
pub open spec fn confirming(d: DialogView, ids: Seq<NodeId>, stage: u8) -> bool {
    d == (DialogView::Confirm { targets: ids, stage })
}

/// Saved results can be browsed and exported, not deleted from, measured or
/// sampled.
pub proof fn law_saved_results_are_read_only(
    v: AppView,
    key: KeyCode,
    a: Seq<NodeView>,
    now: nat,
)
    requires
        careful(v, a),
        !v.live,
    ensures
        ({
            let action = pressed(v, key, a, now).1;
            action is Nothing || action is Quit || action is Export
        }),
{
}

/// Exact sizes are asked for only of entries that are not special.
pub proof fn law_exact_size_is_of_a_path(v: AppView, key: KeyCode, a: Seq<NodeView>, now: nat)
    ensures
        pressed(v, key, a, now).1 matches ActionView::Exact(id) ==> v.live && !special(
            a,
            id as int,
        ) && v.dialog == (DialogView::Info { node: id }),
{
}

/// An export is never to a file without a name.
pub proof fn law_export_has_a_name(v: AppView, key: KeyCode, a: Seq<NodeView>, now: nat)
    ensures
        pressed(v, key, a, now).1 matches ActionView::Export(name) ==> name.len() > 0,
{
}

} // verus!
