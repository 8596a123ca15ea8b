//! What is shown, by what the samples mean, and what each key does.

use vstd::prelude::*;

use crate::app::{KeyCode, Mode, SortBy};
use crate::app::background::{after_attempt, failure, told};
use crate::app::laws::{
    law_cursor_follows_the_entry, law_cursor_goes_where_it_is_put, lemma_above_once, lemma_chosen,
    lemma_listing, lemma_live_marks, lemma_outermost, lemma_same_listing, lemma_unmarked,
};
use crate::app::model::{
    any_subvol, at_start, chosen, credit, cursor_row, export_name, listing, live_marks, mode_name,
    nested, next_mode, outermost, page_rows, pressed, targets, with_cursor, ActionView, AppView,
    DialogView,
};
use crate::text::{decimal, joined, name_less};
use crate::tree::{max_nodes, NodeId};
use crate::tree::effects::{law_held_subvolumes_are_live_below, law_sample_spreads_over_its_owners};
use crate::tree::laws::{law_sample_counts_once_per_node, owner_nodes};
use crate::tree::model::{
    child_of, holds_subvol, is_tree, live, no_counts, path, sampled, special, within, CountersView,
    NodeView, RatioView, TreeView,
};

verus! {

// ---- values ----

/// What a node is worth in each mode grows with a sample by what the mode is about.
/// Exclusive: by one exactly when all owners lie in its subtree. Shared: by one
/// exactly when some but not all do. Represented: by one exactly when the canonical
/// owner does. Distributed: by the part of the owners that does. So exclusive and
/// shared together grow by one exactly when any owner lies there.
pub proof fn law_values_say_what_samples_mean(
    t: TreeView,
    owners: Seq<Seq<char>>,
    subvols: Seq<Seq<char>>,
    ratio: Option<RatioView>,
    id: int,
)
    requires
        is_tree(t.nodes),
        owners.len() > 0,
        0 <= id < sampled(t, owners, subvols, ratio).nodes.len(),
    ensures
        ({
            let was = if id < t.nodes.len() {
                t.nodes[id].c
            } else {
                no_counts()
            };
            let after = sampled(t, owners, subvols, ratio).nodes;
            let now = after[id].c;
            let leaves = owner_nodes(t, owners, subvols);
            let all = forall|i: int|
                0 <= i < leaves.len() ==> within(after, id, #[trigger] leaves[i]);
            let some = exists|i: int|
                0 <= i < leaves.len() && within(after, id, #[trigger] leaves[i]);
            let here = leaves.filter(|l: int| within(after, id, l));
            let grown = |m: Mode| credit(m, now) - credit(m, was);
            &&& all ==> grown(Mode::Exclusive) == 1 as real
            &&& !all ==> grown(Mode::Exclusive) == 0 as real
            &&& some && !all ==> grown(Mode::Shared) == 1 as real
            &&& !(some && !all) ==> grown(Mode::Shared) == 0 as real
            &&& within(after, id, leaves[0]) ==> grown(Mode::Represented) == 1 as real
            &&& !within(after, id, leaves[0]) ==> grown(Mode::Represented) == 0 as real
            &&& grown(Mode::Distributed) * (owners.len() as real) == here.len() as real
            &&& some ==> grown(Mode::Exclusive) + grown(Mode::Shared) == 1 as real
            &&& !some ==> grown(Mode::Exclusive) + grown(Mode::Shared) == 0 as real
        }),
{
    law_sample_counts_once_per_node(t, owners, subvols, ratio, id);
    law_sample_spreads_over_its_owners(t, owners, subvols, ratio, id);
    let after = sampled(t, owners, subvols, ratio).nodes;
    let leaves = owner_nodes(t, owners, subvols);
    if forall|i: int| 0 <= i < leaves.len() ==> within(after, id, #[trigger] leaves[i]) {
        assert(within(after, id, leaves[0]));
    }
}

/// A node that no sample was counted for is worth nothing in any mode, and in each
/// mode it is worth as much as another exactly when the counter of that mode is the
/// same for both.
pub proof fn law_each_mode_reads_its_own_counter(m: Mode, c: CountersView, d: CountersView)
    ensures
        credit(m, no_counts()) == 0 as real,
        credit(Mode::Represented, c) == credit(Mode::Represented, d) <==> c.represented
            == d.represented,
        credit(Mode::Distributed, c) == credit(Mode::Distributed, d) <==> c.distributed
            == d.distributed,
        credit(Mode::Exclusive, c) == credit(Mode::Exclusive, d) <==> c.exclusive == d.exclusive,
        credit(Mode::Shared, c) == credit(Mode::Shared, d) <==> c.shared == d.shared,
        c.exclusive == 0 ==> credit(Mode::Exclusive, c) == 0 as real,
        c.shared == 0 ==> credit(Mode::Shared, c) == 0 as real,
        c.represented == 0 ==> credit(Mode::Represented, c) == 0 as real,
        c.represented > d.represented <==> credit(Mode::Represented, c) > credit(
            Mode::Represented,
            d,
        ),
        c.exclusive > d.exclusive <==> credit(Mode::Exclusive, c) > credit(Mode::Exclusive, d),
        c.shared > d.shared <==> credit(Mode::Shared, c) > credit(Mode::Shared, d),
        c.distributed > d.distributed <==> credit(Mode::Distributed, c) > credit(
            Mode::Distributed,
            d,
        ),
{
}

/// Each mode has its own name, and the names are those of the counters.
pub proof fn law_modes_have_their_names(m: Mode, n: Mode)
    ensures
        mode_name(m) == mode_name(n) <==> m == n,
        mode_name(Mode::Represented) == "represented"@,
        mode_name(Mode::Distributed) == "distributed"@,
        mode_name(Mode::Exclusive) == "exclusive"@,
        mode_name(Mode::Shared) == "shared"@,
{
    reveal_strlit("represented");
    reveal_strlit("distributed");
    reveal_strlit("exclusive");
    reveal_strlit("shared");
    assert("represented"@[0] == 'r');
    assert("distributed"@[0] == 'd');
    assert("exclusive"@[0] == 'e');
    assert("shared"@[0] == 's');
}

/// The modes follow each other in the order in which they are listed.
pub proof fn law_modes_follow_their_list(i: int)
    requires
        0 <= i < 4,
    ensures
        next_mode(Mode::ALL[i]) == Mode::ALL[if i == 3 {
            0
        } else {
            i + 1
        }],
        Mode::ALL[0] == Mode::Represented,
        Mode::ALL[1] == Mode::Distributed,
        Mode::ALL[2] == Mode::Exclusive,
        Mode::ALL[3] == Mode::Shared,
{
}

// ---- the listing ----

/// The entries of the open directory are each shown once, and nothing else is. Sorted
/// by size they stand by the counter of the mode, by count by how many samples they
/// represent, the largest first and equal ones by name; sorted by name they stand by
/// name. Reversed, they stand the other way round.
pub proof fn law_entries_stand_by_what_they_are_sorted_by(
    v: AppView,
    a: Seq<NodeView>,
    j: int,
    k: int,
)
    requires
        is_tree(a),
        a.len() <= max_nodes(),
        0 <= j < k < listing(v, a).len(),
    ensures
        ({
            let e = listing(v, a);
            let (x, y) = if v.reverse {
                (a[e[k] as int], a[e[j] as int])
            } else {
                (a[e[j] as int], a[e[k] as int])
            };
            &&& e[j] != e[k]
            &&& v.sort is Size && v.mode is Represented ==> x.c.represented >= y.c.represented && (
            x.c.represented == y.c.represented ==> name_less(x.name, y.name))
            &&& v.sort is Size && v.mode is Distributed ==> x.c.distributed >= y.c.distributed && (
            x.c.distributed == y.c.distributed ==> name_less(x.name, y.name))
            &&& v.sort is Size && v.mode is Exclusive ==> x.c.exclusive >= y.c.exclusive && (
            x.c.exclusive == y.c.exclusive ==> name_less(x.name, y.name))
            &&& v.sort is Size && v.mode is Shared ==> x.c.shared >= y.c.shared && (x.c.shared
                == y.c.shared ==> name_less(x.name, y.name))
            &&& v.sort is Count ==> x.c.represented >= y.c.represented && (x.c.represented
                == y.c.represented ==> name_less(x.name, y.name))
            &&& v.sort is Name ==> name_less(x.name, y.name)
        }),
{
    lemma_listing(v, a);
    let e = listing(v, a);
    lemma_above_once(v, a, e[j], e[j]);
}

/// The listing holds the entries of the open directory that are there, and no other
/// node.
pub proof fn law_listing_is_complete(v: AppView, a: Seq<NodeView>, id: NodeId)
    requires
        is_tree(a),
        a.len() <= max_nodes(),
    ensures
        listing(v, a).contains(id) <==> id < a.len() && a[id as int].parent == Some(v.dir as int)
            && !a[id as int].removed,
{
    lemma_listing(v, a);
    let e = listing(v, a);
    if e.contains(id) {
        let k = choose|k: int| 0 <= k < e.len() && e[k] == id;
        assert(child_of(a, v.dir as int, e[k] as int));
    }
    if child_of(a, v.dir as int, id as int) {
        assert(e.contains(id));
    }
}

// ---- keys ----

/// The letters that move do what the arrows do.
pub proof fn law_letters_move_like_arrows(v: AppView, a: Seq<NodeView>, now: nat)
    requires
        v.dialog is Closed,
    ensures
        pressed(v, KeyCode::Char('k'), a, now) == pressed(v, KeyCode::Up, a, now),
        pressed(v, KeyCode::Char('j'), a, now) == pressed(v, KeyCode::Down, a, now),
        pressed(v, KeyCode::Char('g'), a, now) == pressed(v, KeyCode::Home, a, now),
        pressed(v, KeyCode::Char('G'), a, now) == pressed(v, KeyCode::End, a, now),
        pressed(v, KeyCode::Char('l'), a, now) == pressed(v, KeyCode::Right, a, now),
        pressed(v, KeyCode::Enter, a, now) == pressed(v, KeyCode::Right, a, now),
        pressed(v, KeyCode::Char('h'), a, now) == pressed(v, KeyCode::Left, a, now),
        pressed(v, KeyCode::Backspace, a, now) == pressed(v, KeyCode::Left, a, now),
{
}

/// What the keys do that change a setting, open a dialog or quit: each changes just
/// that, and other letters change nothing.
pub proof fn law_keys_change_one_thing(v: AppView, a: Seq<NodeView>, now: nat, c: char)
    requires
        v.dialog is Closed,
    ensures
        pressed(v, KeyCode::Char('q'), a, now) == (v, ActionView::Quit),
        pressed(v, KeyCode::Char('r'), a, now) == (
            AppView { reverse: !v.reverse, ..v },
            ActionView::Nothing,
        ),
        pressed(v, KeyCode::Char('c'), a, now) == (
            AppView { show_optional: !v.show_optional, ..v },
            ActionView::Nothing,
        ),
        pressed(v, KeyCode::Char('u'), a, now) == (
            AppView { marks: Set::empty(), ..v },
            ActionView::Nothing,
        ),
        pressed(v, KeyCode::Char('?'), a, now) == (
            AppView { dialog: DialogView::Help, ..v },
            ActionView::Nothing,
        ),
        pressed(v, KeyCode::Char('e'), a, now) == (
            AppView {
                dialog: DialogView::Export { input: "btdua-"@ + decimal(now) + ".json"@ },
                ..v
            },
            ActionView::Nothing,
        ),
        pressed(v, KeyCode::Char('m'), a, now).0 == (AppView { mode: next_mode(v.mode), ..v }),
        v.live ==> pressed(v, KeyCode::Char('p'), a, now) == (
            AppView { paused: !v.paused, ..v },
            ActionView::TogglePause,
        ),
        !v.live ==> pressed(v, KeyCode::Char('p'), a, now) == (v, ActionView::Nothing),
        pressed(v, KeyCode::Esc, a, now) == (v, ActionView::Nothing),
        pressed(v, KeyCode::Other, a, now) == (v, ActionView::Nothing),
        !seq![
            'q',
            'k',
            'j',
            'g',
            'G',
            'l',
            'h',
            's',
            'n',
            'C',
            'r',
            'm',
            'c',
            'p',
            ' ',
            'u',
            'i',
            'd',
            'e',
            '?',
        ].contains(c) ==> pressed(v, KeyCode::Char(c), a, now) == (v, ActionView::Nothing),
{
    let s = seq![
        'q',
        'k',
        'j',
        'g',
        'G',
        'l',
        'h',
        's',
        'n',
        'C',
        'r',
        'm',
        'c',
        'p',
        ' ',
        'u',
        'i',
        'd',
        'e',
        '?',
    ];
    assert(s[0] == 'q' && s[1] == 'k' && s[2] == 'j' && s[3] == 'g' && s[4] == 'G' && s[5] == 'l');
    assert(s[6] == 'h' && s[7] == 's' && s[8] == 'n' && s[9] == 'C' && s[10] == 'r' && s[11]
        == 'm');
    assert(s[12] == 'c' && s[13] == 'p' && s[14] == ' ' && s[15] == 'u' && s[16] == 'i' && s[17]
        == 'd');
    assert(s[18] == 'e' && s[19] == '?');
}

/// A sorting key sorts by its own thing, in the order that is usual for it; pressed
/// once more it turns the order around, and a third time back.
pub proof fn law_sorting_keys_sort(v: AppView, a: Seq<NodeView>, now: nat, key: KeyCode, s: SortBy)
    requires
        v.dialog is Closed,
        key == KeyCode::Char('s') && s is Size || key == KeyCode::Char('n') && s is Name || key
            == KeyCode::Char('C') && s is Count,
    ensures
        ({
            let once = pressed(v, key, a, now).0;
            let twice = pressed(once, key, a, now).0;
            &&& v.sort != s ==> once == (AppView { sort: s, reverse: false, ..v })
            &&& v.sort == s ==> once == (AppView { reverse: !v.reverse, ..v })
            &&& twice == (AppView { reverse: !once.reverse, ..once })
            &&& pressed(twice, key, a, now).0 == once
            &&& pressed(v, key, a, now).1 is Nothing
        }),
{
}

/// Each key that moves the cursor moves it by its distance, but not beyond the first
/// or the last entry, and does nothing else.
pub proof fn law_cursor_keys_move_the_cursor(
    v: AppView,
    a: Seq<NodeView>,
    now: nat,
    key: KeyCode,
)
    requires
        is_tree(a),
        a.len() <= max_nodes(),
        v.dialog is Closed,
        0 < listing(v, a).len() <= usize::MAX,
        key is Up || key is Down || key is PageUp || key is PageDown || key is Home || key is End,
    ensures
        ({
            let e = listing(v, a);
            let last = e.len() - 1;
            let cur = cursor_row(v, e);
            let (w, action) = pressed(v, key, a, now);
            let row = cursor_row(w, e);
            &&& 0 <= cur <= last
            &&& key is Up ==> (cur == 0 && row == 0 || cur > 0 && row == cur - 1)
            &&& key is Down ==> (cur == last && row == last || cur < last && row == cur + 1)
            &&& key is PageUp && v.page > 0 ==> (cur < v.page && row == 0 || cur >= v.page && row
                == cur - v.page)
            &&& key is PageDown && v.page > 0 ==> (cur + v.page > last && row == last || cur
                + v.page <= last && row == cur + v.page)
            &&& key is PageUp && v.page == 0 ==> w == pressed(v, KeyCode::Up, a, now).0
            &&& key is PageDown && v.page == 0 ==> w == pressed(v, KeyCode::Down, a, now).0
            &&& key is Home ==> row == 0
            &&& key is End ==> row == last
            &&& w == (AppView { selected: w.selected, ..v })
            &&& action is Nothing
            &&& forall|d: NodeId|
                d != v.dir ==> (#[trigger] w.selected.dom().contains(d)
                    <==> v.selected.dom().contains(d))
            &&& forall|d: NodeId| d != v.dir ==> #[trigger] w.selected[d] == v.selected[d]
        }),
{
    lemma_chosen(v, a);
    let e = listing(v, a);
    let cur = cursor_row(v, e);
    if v.selected.dom().contains(v.dir) {
        e.index_of_first_ensures(v.selected[v.dir].0);
    }
    let page = page_rows(v);
    assert(AppView { dialog: DialogView::Closed, ..v } == v);
    let row = match key {
        KeyCode::Up => if cur > 0 {
            cur - 1
        } else {
            0
        },
        KeyCode::Down => cur + 1,
        KeyCode::PageUp => if cur > page {
            cur - page
        } else {
            0
        },
        KeyCode::PageDown => cur + page,
        KeyCode::Home => 0,
        _ => e.len() as int,
    };
    assert(pressed(v, key, a, now) == (with_cursor(v, e, row), ActionView::Nothing));
    law_cursor_goes_where_it_is_put(v, a, row);
}

/// The mark key turns the mark of the selected entry around, unless the entry is
/// special, leaves every other mark, and moves on to the next entry.
pub proof fn law_mark_key_marks_the_selected_entry(
    v: AppView,
    a: Seq<NodeView>,
    now: nat,
    id: NodeId,
)
    requires
        is_tree(a),
        a.len() <= max_nodes(),
        v.dialog is Closed,
        0 < listing(v, a).len() <= usize::MAX,
    ensures
        ({
            let e = listing(v, a);
            let w = pressed(v, KeyCode::Char(' '), a, now).0;
            let sel = chosen(v, e);
            &&& sel is Some
            &&& id != sel->0 || special(a, sel->0 as int) ==> (w.marks.contains(id)
                <==> v.marks.contains(id))
            &&& id == sel->0 && !special(a, sel->0 as int) ==> (w.marks.contains(id)
                <==> !v.marks.contains(id))
            &&& cursor_row(w, e) == (if cursor_row(v, e) == e.len() - 1 {
                e.len() - 1
            } else {
                cursor_row(v, e) + 1
            })
            &&& w == (AppView { marks: w.marks, selected: w.selected, ..v })
        }),
{
    lemma_chosen(v, a);
    lemma_listing(v, a);
    let e = listing(v, a);
    let cur = cursor_row(v, e);
    if v.selected.dom().contains(v.dir) {
        e.index_of_first_ensures(v.selected[v.dir].0);
    }
    assert(AppView { dialog: DialogView::Closed, ..v } == v);
    let w = pressed(v, KeyCode::Char(' '), a, now).0;
    let u = AppView { marks: w.marks, ..v };
    lemma_same_listing(v, u, a);
    law_cursor_goes_where_it_is_put(u, a, cur + 1);
}

/// Opening goes into the selected entry if that has entries of its own, and does
/// nothing otherwise; leaving goes to the directory above, and from the root nowhere.
pub proof fn law_opening_and_leaving_change_the_directory(v: AppView, a: Seq<NodeView>, now: nat)
    requires
        is_tree(a),
        a.len() <= max_nodes(),
        v.dialog is Closed,
        v.dir < a.len(),
    ensures
        ({
            let sel = chosen(v, listing(v, a));
            let opened = pressed(v, KeyCode::Right, a, now).0;
            let back = pressed(v, KeyCode::Left, a, now).0;
            &&& (exists|c: int| sel is Some && #[trigger] child_of(a, sel->0 as int, c))
                ==> opened.dir == sel->0
            &&& !(exists|c: int| sel is Some && #[trigger] child_of(a, sel->0 as int, c))
                ==> opened == v
            &&& opened == (AppView { dir: opened.dir, selected: opened.selected, ..v })
            &&& v.dir == 0 ==> back == v
            &&& v.dir > 0 ==> a[v.dir as int].parent == Some(back.dir as int)
            &&& back == (AppView { dir: back.dir, selected: back.selected, ..v })
        }),
{
    assert(AppView { dialog: DialogView::Closed, ..v } == v);
    if v.dir > 0 {
        assert(a[v.dir as int].parent is Some);
    }
}

/// The information key shows the selected entry; the deletion key asks about the
/// targets if there are any, and tells why not where nothing can be deleted.
pub proof fn law_keys_that_ask_open_their_dialogs(v: AppView, a: Seq<NodeView>, now: nat)
    requires
        v.dialog is Closed,
    ensures
        ({
            let sel = chosen(v, listing(v, a));
            let info = pressed(v, KeyCode::Char('i'), a, now);
            let (w, action) = pressed(v, KeyCode::Char('d'), a, now);
            &&& sel is Some ==> info == (
                AppView { dialog: DialogView::Info { node: sel->0 }, ..v },
                ActionView::Nothing,
            )
            &&& sel is None ==> info == (v, ActionView::Nothing)
            &&& action is Nothing
            &&& w == (AppView { dialog: w.dialog, ..v })
            &&& !v.live ==> w.dialog is Message
            &&& v.live && targets(v, a, sel).len() > 0 ==> w.dialog == (DialogView::Confirm {
                targets: targets(v, a, sel),
                stage: 1,
            })
            &&& v.live && targets(v, a, sel).len() == 0 ==> w == v
        }),
{
    assert(AppView { dialog: DialogView::Closed, ..v } == v);
}

/// In the help and in messages any key closes, and does nothing else. The
/// information closes by four keys, measures by one, and stays for all others.
pub proof fn law_shown_dialogs_are_closed(v: AppView, a: Seq<NodeView>, now: nat, key: KeyCode)
    ensures
        ({
            let closed = AppView { dialog: DialogView::Closed, ..v };
            let (w, action) = pressed(v, key, a, now);
            let closes = key is Esc || key is Enter || key == KeyCode::Char('q') || key
                == KeyCode::Char('i');
            &&& v.dialog is Help || v.dialog is Message ==> w == closed && action is Nothing
            &&& v.dialog is Info && closes ==> w == closed && action is Nothing
            &&& v.dialog is Info && !closes && key != KeyCode::Char('x') ==> w == v && action
                is Nothing
            &&& v.dialog is Info && key == KeyCode::Char('x') && v.live && !special(
                a,
                v.dialog->node as int,
            ) ==> w == v && action == ActionView::Exact(v.dialog->node)
            &&& v.dialog is Info && key == KeyCode::Char('x') && (!v.live || special(
                a,
                v.dialog->node as int,
            )) ==> w.dialog is Message && action is Nothing && w == (AppView {
                dialog: w.dialog,
                ..v
            })
        }),
{
}

/// In a confirmation `y` goes on: to a second one where a subvolume is among the
/// targets and this is the first, else to the deletion, whose targets lose their
/// marks and no other entry does. Any other key closes it and does nothing.
pub proof fn law_confirmation_is_by_y(
    v: AppView,
    a: Seq<NodeView>,
    now: nat,
    key: KeyCode,
    id: NodeId,
)
    requires
        v.dialog is Confirm,
    ensures
        ({
            let yes = key == KeyCode::Char('y') || key == KeyCode::Char('Y');
            let ids = v.dialog->targets;
            let (w, action) = pressed(v, key, a, now);
            &&& !yes ==> w == (AppView { dialog: DialogView::Closed, ..v }) && action is Nothing
            &&& yes && v.dialog->stage == 1 && any_subvol(a, ids) ==> action is Nothing && w == (
            AppView { dialog: DialogView::Confirm { targets: ids, stage: 2 }, ..v })
            &&& yes && !(v.dialog->stage == 1 && any_subvol(a, ids)) ==> {
                &&& action == ActionView::Delete(ids)
                &&& w == (AppView { dialog: DialogView::Closed, marks: w.marks, ..v })
                &&& w.marks.contains(id) <==> v.marks.contains(id) && !ids.contains(id)
            }
        }),
{
    lemma_unmarked(v.marks, v.dialog->targets);
}

/// The name of an export is typed: a character goes to its end, the backspace takes
/// the last one away again and does nothing to an empty name, enter exports to just
/// this name, and escape gives up.
pub proof fn law_export_name_is_typed(v: AppView, a: Seq<NodeView>, now: nat, c: char)
    requires
        v.dialog is Export,
    ensures
        ({
            let input = v.dialog->input;
            let typed = pressed(v, KeyCode::Char(c), a, now).0;
            let closed = AppView { dialog: DialogView::Closed, ..v };
            &&& typed.dialog is Export && typed.dialog->input == input + seq![c]
            &&& pressed(typed, KeyCode::Backspace, a, now) == (v, ActionView::Nothing)
            &&& pressed(v, KeyCode::Char(c), a, now).1 is Nothing
            &&& input.len() == 0 ==> pressed(v, KeyCode::Backspace, a, now) == (
                v,
                ActionView::Nothing,
            )
            &&& input.len() == 0 ==> pressed(v, KeyCode::Enter, a, now) == (v, ActionView::Nothing)
            &&& input.len() > 0 ==> pressed(v, KeyCode::Enter, a, now) == (
                closed,
                ActionView::Export(input),
            )
            &&& pressed(v, KeyCode::Esc, a, now) == (closed, ActionView::Nothing)
            &&& pressed(v, KeyCode::Up, a, now) == (v, ActionView::Nothing)
            &&& pressed(v, KeyCode::Other, a, now) == (v, ActionView::Nothing)
        }),
{
    let input = v.dialog->input;
    assert(input.push(c) =~= input + seq![c]);
    assert(input.push(c).drop_last() =~= input);
    assert(v == AppView { dialog: DialogView::Export { input }, ..v });
}

/// Exports at different times go to different files unless named otherwise.
pub proof fn law_export_names_tell_the_time(now: nat, later: nat)
    ensures
        export_name(now) == export_name(later) <==> decimal(now) == decimal(later),
        export_name(now).len() == decimal(now).len() + 11,
{
    reveal_strlit("btdua-");
    reveal_strlit(".json");
    let (x, y) = (export_name(now), export_name(later));
    assert(x.subrange(6, x.len() - 5) =~= decimal(now));
    assert(y.subrange(6, y.len() - 5) =~= decimal(later));
}

/// The program starts at the root, by represented size, with the largest first, with
/// nothing marked, open or paused.
pub proof fn law_program_starts_at_the_root(live: bool, a: Seq<NodeView>)
    requires
        is_tree(a),
        a.len() <= max_nodes(),
    ensures
        ({
            let v = at_start(live);
            let e = listing(v, a);
            &&& v.dir == 0 && v.live == live
            &&& v.marks =~= Set::empty() && v.dialog is Closed && !v.paused && v.deleting == 0
                && v.delete_errors.len() == 0
            &&& v.show_optional && v.offset == 0 && v.page == 10
            &&& e.len() > 0 ==> cursor_row(v, e) == 0
            &&& forall|j: int, k: int|
                0 <= j < k < e.len() ==> a[#[trigger] e[j] as int].c.represented
                    >= a[#[trigger] e[k] as int].c.represented
        }),
{
    let v = at_start(live);
    let e = listing(v, a);
    assert forall|j: int, k: int| 0 <= j < k < e.len() implies a[#[trigger] e[j]
        as int].c.represented >= a[#[trigger] e[k] as int].c.represented by {
        law_entries_stand_by_what_they_are_sorted_by(v, a, j, k);
    }
}

// ---- deletions in the background ----

/// An attempt to delete leaves one fewer to come, and a failure leaves one more line
/// to tell, which names the entry's path and then the error; a success leaves none.
/// The lines are told when no attempt is to come and no dialog is open, and only
/// then.
pub proof fn law_attempts_are_accounted_for(
    v: AppView,
    a: Seq<NodeView>,
    id: int,
    error: Seq<char>,
)
    requires
        v.deleting > 0,
    ensures
        ({
            let failed = after_attempt(v, a, id, Some(error));
            let done = after_attempt(v, a, id, None);
            &&& failed.deleting == v.deleting - 1 && done.deleting == v.deleting - 1
            &&& done.delete_errors == v.delete_errors
            &&& failed.delete_errors.len() == v.delete_errors.len() + 1
            &&& failed.delete_errors.drop_last() == v.delete_errors
            &&& failed.delete_errors.last() == "/"@ + joined(path(a, id), seq!['/']) + ": "@
                + error
            &&& failed == (AppView {
                deleting: failed.deleting,
                delete_errors: failed.delete_errors,
                ..v
            })
            &&& done == (AppView { deleting: done.deleting, ..v })
            &&& told(v) == v
        }),
        told(told(v)) == told(v),
        v.dialog !is Closed || v.delete_errors.len() == 0 ==> told(v) == v,
{
    let failed = after_attempt(v, a, id, Some(error));
    assert(failed.delete_errors.drop_last() =~= v.delete_errors);
    assert(failed.delete_errors.last() == failure(a, id, error));
}

// ---- targets ----

proof fn lemma_marks_ascend(marks: Set<NodeId>, a: Seq<NodeView>, n: nat)
    requires
        n <= a.len() <= max_nodes(),
    ensures
        forall|j: int| 0 <= j < live_marks(marks, a, n).len() ==> (#[trigger] live_marks(
            marks,
            a,
            n,
        )[j]) < n,
        forall|j: int, k: int|
            0 <= j < k < live_marks(marks, a, n).len() ==> (#[trigger] live_marks(marks, a, n)[j])
                < (#[trigger] live_marks(marks, a, n)[k]),
    decreases n,
{
    if n > 0 {
        lemma_marks_ascend(marks, a, (n - 1) as nat);
        let below = live_marks(marks, a, (n - 1) as nat);
        let r = live_marks(marks, a, n);
        assert forall|j: int| 0 <= j < r.len() implies (#[trigger] r[j]) < n by {
            if j < below.len() {
                assert(r[j] == below[j]);
            }
        }
        assert forall|j: int, k: int| 0 <= j < k < r.len() implies (#[trigger] r[j]) < (
        #[trigger] r[k]) by {
            assert(r[j] == below[j]);
            if k < below.len() {
                assert(r[k] == below[k]);
            }
        }
    }
}

proof fn lemma_outermost_ascend(a: Seq<NodeView>, all: Seq<NodeId>, ids: Seq<NodeId>)
    requires
        forall|j: int, k: int| 0 <= j < k < ids.len() ==> (#[trigger] ids[j]) < (#[trigger] ids[k]),
    ensures
        forall|j: int, k: int|
            0 <= j < k < outermost(a, all, ids).len() ==> (#[trigger] outermost(a, all, ids)[j]) < (
            #[trigger] outermost(a, all, ids)[k]),
    decreases ids.len(),
{
    if ids.len() > 0 {
        let front = ids.drop_last();
        assert forall|j: int, k: int| 0 <= j < k < front.len() implies (#[trigger] front[j]) < (
        #[trigger] front[k]) by {
            assert(ids[j] < ids[k]);
        }
        lemma_outermost_ascend(a, all, front);
        lemma_outermost(a, all, front);
        let (s, r) = (outermost(a, all, front), outermost(a, all, ids));
        assert forall|j: int, k: int| 0 <= j < k < r.len() implies (#[trigger] r[j]) < (
        #[trigger] r[k]) by {
            if k < s.len() {
                assert(s[j] < s[k]);
            } else {
                assert(s.contains(s[j]));
                assert(front.contains(s[j]));
                let n = choose|n: int| 0 <= n < front.len() && front[n] == s[j];
                assert(ids[n] < ids[ids.len() - 1]);
            }
        }
    }
}

/// A deletion is about the marked entries that are still there, but for those that lie
/// inside another of them; where no such entry is left, about the selected one, unless
/// that is special. So no target lies inside another, and none is named twice.
pub proof fn law_targets_are_the_outermost_marks(
    v: AppView,
    a: Seq<NodeView>,
    sel: Option<NodeId>,
    id: NodeId,
)
    requires
        is_tree(a),
        a.len() <= max_nodes(),
    ensures
        ({
            let t = targets(v, a, sel);
            let marked = |x: NodeId| x < a.len() && v.marks.contains(x) && live(a, x as int);
            &&& (exists|x: NodeId| #[trigger] marked(x)) ==> (t.contains(id) <==> marked(id) && !(
            exists|x: NodeId| #[trigger] marked(x) && x != id && within(a, x as int, id as int)))
            &&& !(exists|x: NodeId| #[trigger] marked(x)) ==> (t.contains(id) <==> sel == Some(id)
                && !special(a, id as int))
            &&& forall|j: int, k: int|
                0 <= j < k < t.len() ==> (#[trigger] t[j]) < (#[trigger] t[k])
            &&& forall|j: int, k: int|
                0 <= j < t.len() && 0 <= k < t.len() && j != k ==> !within(
                    a,
                    #[trigger] t[j] as int,
                    #[trigger] t[k] as int,
                )
        }),
{
    let t = targets(v, a, sel);
    let all = live_marks(v.marks, a, a.len());
    let marked = |x: NodeId| x < a.len() && v.marks.contains(x) && live(a, x as int);
    lemma_live_marks(v.marks, a, a.len());
    lemma_marks_ascend(v.marks, a, a.len());
    if all.len() > 0 {
        assert(all.contains(all[0]));
        assert(marked(all[0]));
        lemma_outermost(a, all, all);
        lemma_outermost_ascend(a, all, all);
        if nested(a, all, id) {
            let k = choose|k: int|
                0 <= k < all.len() && all[k] != id && within(a, #[trigger] all[k] as int, id as int);
            assert(all.contains(all[k]));
            assert(marked(all[k]));
        }
        if exists|x: NodeId| #[trigger] marked(x) && x != id && within(a, x as int, id as int) {
            let x = choose|x: NodeId| #[trigger]
                marked(x) && x != id && within(a, x as int, id as int);
            assert(all.contains(x));
            let k = choose|k: int| 0 <= k < all.len() && all[k] == x;
            assert(within(a, all[k] as int, id as int));
        }
        assert forall|j: int, k: int|
            0 <= j < t.len() && 0 <= k < t.len() && j != k implies !within(
            a,
            #[trigger] t[j] as int,
            #[trigger] t[k] as int,
        ) by {
            assert(t.contains(t[j]) && t.contains(t[k]));
            assert(all.contains(t[j]));
            let n = choose|n: int| 0 <= n < all.len() && all[n] == t[j];
            assert(t[j] != t[k]);
            if within(a, t[j] as int, t[k] as int) {
                assert(within(a, all[n] as int, t[k] as int));
                assert(nested(a, all, t[k]));
            }
        }
    } else {
        assert forall|x: NodeId| !#[trigger] marked(x) by {
            assert(!all.contains(x));
        }
        let lone = match sel {
            Some(x) => if special(a, x as int) {
                Seq::empty()
            } else {
                seq![x]
            },
            None => Seq::empty(),
        };
        lemma_outermost(a, lone, lone);
        lemma_outermost_ascend(a, lone, lone);
        assert(t == outermost(a, lone, lone));
        if lone.len() > 0 {
            assert(lone[0] == sel->0);
            assert(!nested(a, lone, sel->0));
            assert(lone.contains(lone[0]));
        }
        if lone.contains(id) {
            let k = choose|k: int| 0 <= k < lone.len() && lone[k] == id;
        }
        assert(t.len() <= 1) by {
            if t.len() > 1 {
                assert(t.contains(t[0]) && t.contains(t[1]));
                assert(lone.contains(t[0]) && lone.contains(t[1]));
                assert(t[0] < t[1]);
            }
        }
    }
}

/// A second confirmation is asked for exactly when something that is live in the
/// subtree of a target, the target itself included, is a subvolume.
pub proof fn law_subvolumes_below_targets_count(a: Seq<NodeView>, ids: Seq<NodeId>)
    requires
        is_tree(a),
        forall|k: int|
            0 <= k < ids.len() ==> (#[trigger] ids[k]) < a.len() && live(a, ids[k] as int),
    ensures
        any_subvol(a, ids) <==> exists|k: int, d: int|
            0 <= k < ids.len() && 0 <= d < a.len() && #[trigger] within(a, ids[k] as int, d) && live(
                a,
                d,
            ) && a[d].subvol,
{
    if any_subvol(a, ids) {
        let k = choose|k: int| 0 <= k < ids.len() && holds_subvol(a, #[trigger] ids[k] as int);
        law_held_subvolumes_are_live_below(a, ids[k] as int);
        let d = choose|d: int|
            0 <= d < a.len() && #[trigger] within(a, ids[k] as int, d) && live(a, d) && a[d].subvol;
        assert(within(a, ids[k] as int, d));
    }
    if exists|k: int, d: int|
        0 <= k < ids.len() && 0 <= d < a.len() && #[trigger] within(a, ids[k] as int, d) && live(
            a,
            d,
        ) && a[d].subvol {
        let (k, d) = choose|k: int, d: int|
            0 <= k < ids.len() && 0 <= d < a.len() && #[trigger] within(a, ids[k] as int, d)
                && live(a, d) && a[d].subvol;
        law_held_subvolumes_are_live_below(a, ids[k] as int);
        assert(holds_subvol(a, ids[k] as int));
    }
}

/// Where nothing was selected in a directory the cursor is on its first row; where the
/// selected entry is gone, on the row where it was, or on the last.
pub proof fn law_cursor_stays_where_the_entry_was(v: AppView, a: Seq<NodeView>)
    ensures
        ({
            let e = listing(v, a);
            let row = cursor_row(v, e);
            &&& !v.selected.contains_key(v.dir) ==> row == 0
            &&& v.selected.contains_key(v.dir) && !e.contains(v.selected[v.dir].0) && e.len() > 0
                ==> {
                let was = v.selected[v.dir].1;
                (was < e.len() ==> row == was) && (was >= e.len() ==> row == e.len() - 1)
            }
        }),
{
    let e = listing(v, a);
    if v.selected.contains_key(v.dir) {
        e.index_of_first_ensures(v.selected[v.dir].0);
    }
}

/// Leaving a directory that is still listed puts the cursor on it.
pub proof fn law_leaving_selects_what_was_left(v: AppView, a: Seq<NodeView>, now: nat)
    requires
        is_tree(a),
        a.len() <= max_nodes(),
        v.dialog is Closed,
        0 < v.dir < a.len(),
        !a[v.dir as int].removed,
    ensures
        ({
            let back = pressed(v, KeyCode::Left, a, now).0;
            chosen(back, listing(back, a)) == Some(v.dir)
        }),
{
    assert(AppView { dialog: DialogView::Closed, ..v } == v);
    let p = a[v.dir as int].parent->0;
    assert(a[v.dir as int].parent is Some);
    let up = AppView { dir: p as NodeId, ..v };
    lemma_listing(up, a);
    let e = listing(up, a);
    assert(child_of(a, up.dir as int, v.dir as int));
    assert(e.contains(v.dir));
    e.index_of_first_ensures(v.dir);
    let back = pressed(v, KeyCode::Left, a, now).0;
    assert(back == with_cursor(up, e, e.index_of_first(v.dir)->0));
    law_cursor_follows_the_entry(back, a);
}

} // verus!
