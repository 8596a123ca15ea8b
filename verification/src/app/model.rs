//! What a key press does, as mathematics.

use vstd::prelude::*;

use crate::actions::Exact;
use crate::app::{Command, ExactState, KeyCode, Mode, SortBy};
use crate::text::{decimal, name_less};
use crate::tree::{NodeId, ROOT};
use crate::tree::model::{child_of, holds_subvol, live, special, within, CountersView, NodeView};

verus! {

/// A dialog.
#[verifier::ext_equal]
pub enum DialogView {
    Closed,
    Help,
    Info { node: NodeId },
    Confirm { targets: Seq<NodeId>, stage: u8 },
    Export { input: Seq<char> },
    Message { title: Seq<char>, text: Seq<char> },
}

/// What the program is asked to do.
#[verifier::ext_equal]
pub enum ActionView {
    Nothing,
    Quit,
    TogglePause,
    Delete(Seq<NodeId>),
    Export(Seq<char>),
    Exact(NodeId),
}

/// The state of the interface.
#[verifier::ext_equal]
pub struct AppView {
    pub dir: NodeId,
    pub selected: Map<NodeId, (NodeId, usize)>,
    pub mode: Mode,
    pub sort: SortBy,
    pub reverse: bool,
    pub marks: Set<NodeId>,
    pub dialog: DialogView,
    pub show_optional: bool,
    pub live: bool,
    pub paused: bool,
    pub exact: Map<NodeId, ExactState>,
    pub offset: usize,
    pub page: usize,
    pub deleting: usize,
    pub delete_errors: Seq<Seq<char>>,
}

/// Whether every id that the state holds names one of `n` nodes.
pub open spec fn fits(v: AppView, n: nat) -> bool {
    &&& v.dir < n
    &&& forall|id: NodeId| #[trigger] v.marks.contains(id) ==> id < n
    &&& v.dialog matches DialogView::Info { node } ==> node < n
    &&& v.dialog matches DialogView::Confirm { targets, .. } ==> forall|i: int|
        0 <= i < targets.len() ==> (#[trigger] targets[i]) < n
}

/// The state when the program starts.
pub open spec fn at_start(live: bool) -> AppView {
    AppView {
        dir: ROOT,
        selected: Map::empty(),
        mode: Mode::Represented,
        sort: SortBy::Size,
        reverse: false,
        marks: Set::empty(),
        dialog: DialogView::Closed,
        show_optional: true,
        live,
        paused: false,
        exact: Map::empty(),
        offset: 0,
        page: 10,
        deleting: 0,
        delete_errors: Seq::empty(),
    }
}

/// The mode that follows.
pub open spec fn next_mode(m: Mode) -> Mode {
    match m {
        Mode::Represented => Mode::Distributed,
        Mode::Distributed => Mode::Exclusive,
        Mode::Exclusive => Mode::Shared,
        Mode::Shared => Mode::Represented,
    }
}

/// What a mode is called.
pub open spec fn mode_name(m: Mode) -> Seq<char> {
    match m {
        Mode::Represented => "represented"@,
        Mode::Distributed => "distributed"@,
        Mode::Exclusive => "exclusive"@,
        Mode::Shared => "shared"@,
    }
}

/// How many samples a mode credits.
pub open spec fn credit(m: Mode, c: CountersView) -> real {
    match m {
        Mode::Represented => c.represented as real,
        Mode::Distributed => c.distributed,
        Mode::Exclusive => c.exclusive as real,
        Mode::Shared => c.shared as real,
    }
}

/// Whether `x` goes above `y` where the order is not reversed: by what the
/// sorting is by, the largest first, then by name.
pub open spec fn ahead(v: AppView, a: Seq<NodeView>, x: NodeId, y: NodeId) -> bool {
    let (p, q) = (a[x as int], a[y as int]);
    match v.sort {
        SortBy::Size => {
            ||| credit(v.mode, p.c) > credit(v.mode, q.c)
            ||| credit(v.mode, p.c) == credit(v.mode, q.c) && name_less(p.name, q.name)
        },
        SortBy::Name => name_less(p.name, q.name),
        SortBy::Count => {
            ||| p.c.represented > q.c.represented
            ||| p.c.represented == q.c.represented && name_less(p.name, q.name)
        },
    }
}

/// Whether `x` is shown above `y`.
pub open spec fn above(v: AppView, a: Seq<NodeView>, x: NodeId, y: NodeId) -> bool {
    if v.reverse {
        ahead(v, a, y, x)
    } else {
        ahead(v, a, x, y)
    }
}

/// Whether `e` shows each entry of the open directory once, in order.
pub open spec fn is_listing(v: AppView, a: Seq<NodeView>, e: Seq<NodeId>) -> bool {
    &&& forall|k: int| 0 <= k < e.len() ==> child_of(a, v.dir as int, #[trigger] e[k] as int)
    &&& forall|c: NodeId| #[trigger] child_of(a, v.dir as int, c as int) ==> e.contains(c)
    &&& forall|j: int, k: int|
        0 <= j < k < e.len() ==> above(v, a, #[trigger] e[j], #[trigger] e[k])
}

/// The entries of the open directory as shown. There is one such list
/// ([`lemma_one_listing`](crate::app::laws::lemma_one_listing)).
pub open spec fn listing(v: AppView, a: Seq<NodeView>) -> Seq<NodeId> {
    choose|e: Seq<NodeId>| is_listing(v, a, e)
}

/// The row that the cursor is on: that of the selected entry, or where the
/// entry was if it is gone.
pub open spec fn cursor_row(v: AppView, e: Seq<NodeId>) -> int {
    if v.selected.dom().contains(v.dir) {
        let (id, hint) = v.selected[v.dir];
        match e.index_of_first(id) {
            Some(i) => i,
            None => if e.len() == 0 {
                0
            } else if hint < e.len() {
                hint as int
            } else {
                e.len() - 1
            },
        }
    } else {
        0
    }
}

/// The entry that the cursor is on.
pub open spec fn chosen(v: AppView, e: Seq<NodeId>) -> Option<NodeId> {
    if cursor_row(v, e) < e.len() {
        Some(e[cursor_row(v, e)])
    } else {
        None
    }
}

/// The state with the cursor on `row`, or on the last row if there are fewer.
pub open spec fn with_cursor(v: AppView, e: Seq<NodeId>, row: int) -> AppView {
    if e.len() == 0 {
        v
    } else {
        let r = if row < e.len() {
            row
        } else {
            e.len() - 1
        };
        AppView { selected: v.selected.insert(v.dir, (e[r], r as usize)), ..v }
    }
}

/// The state sorted by `s`; once more, and the order turns around.
pub open spec fn sorted_by(v: AppView, s: SortBy) -> AppView {
    if v.sort == s {
        AppView { reverse: !v.reverse, ..v }
    } else {
        AppView { sort: s, reverse: false, ..v }
    }
}

/// What a key stands for while browsing.
pub open spec fn command_of(key: KeyCode) -> Command {
    match key {
        KeyCode::Up => Command::Up,
        KeyCode::Down => Command::Down,
        KeyCode::PageUp => Command::PageUp,
        KeyCode::PageDown => Command::PageDown,
        KeyCode::Home => Command::Top,
        KeyCode::End => Command::Bottom,
        KeyCode::Right => Command::Open,
        KeyCode::Enter => Command::Open,
        KeyCode::Left => Command::Leave,
        KeyCode::Backspace => Command::Leave,
        KeyCode::Char(c) => letter(c),
        KeyCode::Esc => Command::Nothing,
        KeyCode::Other => Command::Nothing,
    }
}

/// What a letter stands for while browsing.
pub open spec fn letter(c: char) -> Command {
    if c == 'q' {
        Command::Quit
    } else if c == 'k' {
        Command::Up
    } else if c == 'j' {
        Command::Down
    } else if c == 'g' {
        Command::Top
    } else if c == 'G' {
        Command::Bottom
    } else if c == 'l' {
        Command::Open
    } else if c == 'h' {
        Command::Leave
    } else if c == 's' {
        Command::Sort(SortBy::Size)
    } else if c == 'n' {
        Command::Sort(SortBy::Name)
    } else if c == 'C' {
        Command::Sort(SortBy::Count)
    } else if c == 'r' {
        Command::Reverse
    } else if c == 'm' {
        Command::NextMode
    } else if c == 'c' {
        Command::Columns
    } else if c == 'p' {
        Command::Pause
    } else if c == ' ' {
        Command::Mark
    } else if c == 'u' {
        Command::Unmark
    } else if c == 'i' {
        Command::Info
    } else if c == 'd' {
        Command::Delete
    } else if c == 'e' {
        Command::Export
    } else if c == '?' {
        Command::Help
    } else {
        Command::Nothing
    }
}

/// How far a page goes.
pub open spec fn page_rows(v: AppView) -> int {
    if v.page > 0 {
        v.page as int
    } else {
        1
    }
}

/// The file name that an export starts with.
pub open spec fn export_name(now: nat) -> Seq<char> {
    "btdua-"@ + decimal(now) + ".json"@
}

/// The state in the parent of the open directory, on the entry just left.
pub open spec fn left(v: AppView, a: Seq<NodeView>) -> AppView {
    match a[v.dir as int].parent {
        Some(p) => {
            let up = AppView { dir: p as NodeId, ..v };
            let e = listing(up, a);
            match e.index_of_first(v.dir) {
                Some(i) => with_cursor(up, e, i),
                None => up,
            }
        },
        None => v,
    }
}

/// The marks with `id` the other way round; special entries take none.
pub open spec fn toggled(marks: Set<NodeId>, a: Seq<NodeView>, id: NodeId) -> Set<NodeId> {
    if special(a, id as int) {
        marks
    } else if marks.contains(id) {
        marks.remove(id)
    } else {
        marks.insert(id)
    }
}

/// The marked nodes below number `n` that are still in the tree, in the order
/// of their numbers.
pub open spec fn live_marks(marks: Set<NodeId>, a: Seq<NodeView>, n: nat) -> Seq<NodeId>
    decreases n,
{
    if n == 0 {
        Seq::empty()
    } else {
        let below = live_marks(marks, a, (n - 1) as nat);
        let id = (n - 1) as NodeId;
        if marks.contains(id) && live(a, id as int) {
            below.push(id)
        } else {
            below
        }
    }
}

/// Those of `ids` that lie inside none of `all`.
pub open spec fn outermost(
    a: Seq<NodeView>,
    all: Seq<NodeId>,
    ids: Seq<NodeId>,
) -> Seq<NodeId>
    decreases ids.len(),
{
    if ids.len() == 0 {
        Seq::empty()
    } else {
        let rest = outermost(a, all, ids.drop_last());
        if nested(a, all, ids.last()) {
            rest
        } else {
            rest.push(ids.last())
        }
    }
}

/// Whether `id` lies inside another one of `all`.
pub open spec fn nested(a: Seq<NodeView>, all: Seq<NodeId>, id: NodeId) -> bool {
    exists|k: int|
        0 <= k < all.len() && all[k] != id && within(a, #[trigger] all[k] as int, id as int)
}

/// What a deletion is about: the marked entries, or the selected one if none
/// is marked, without those that lie inside another.
pub open spec fn targets(v: AppView, a: Seq<NodeView>, sel: Option<NodeId>) -> Seq<NodeId> {
    let marked = live_marks(v.marks, a, a.len());
    let all = if marked.len() > 0 {
        marked
    } else {
        match sel {
            Some(id) => if special(a, id as int) {
                Seq::empty()
            } else {
                seq![id]
            },
            None => Seq::empty(),
        }
    };
    outermost(a, all, all)
}

/// The dialog that a deletion opens.
pub open spec fn deletion(v: AppView, a: Seq<NodeView>, sel: Option<NodeId>) -> DialogView {
    if !v.live {
        DialogView::Message {
            title: "Unavailable"@,
            text: "Deleting needs a live filesystem (not --import)."@,
        }
    } else if targets(v, a, sel).len() > 0 {
        DialogView::Confirm { targets: targets(v, a, sel), stage: 1 }
    } else {
        v.dialog
    }
}

/// What a command does while browsing.
pub open spec fn browsed(
    v: AppView,
    command: Command,
    a: Seq<NodeView>,
    now: nat,
) -> (AppView, ActionView) {
    let e = listing(v, a);
    let cur = cursor_row(v, e);
    let sel = chosen(v, e);
    match command {
        Command::Quit => (v, ActionView::Quit),
        Command::Up => (
            with_cursor(
                v,
                e,
                if cur > 0 {
                    cur - 1
                } else {
                    0
                },
            ),
            ActionView::Nothing,
        ),
        Command::Down => (with_cursor(v, e, cur + 1), ActionView::Nothing),
        Command::PageUp => (
            with_cursor(
                v,
                e,
                if cur > page_rows(v) {
                    cur - page_rows(v)
                } else {
                    0
                },
            ),
            ActionView::Nothing,
        ),
        Command::PageDown => (with_cursor(v, e, cur + page_rows(v)), ActionView::Nothing),
        Command::Top => (with_cursor(v, e, 0), ActionView::Nothing),
        Command::Bottom => (with_cursor(v, e, e.len() as int), ActionView::Nothing),
        Command::Open => (
            match sel {
                Some(id) => if exists|c: int| #[trigger] child_of(a, id as int, c) {
                    AppView { dir: id, ..with_cursor(v, e, cur) }
                } else {
                    v
                },
                None => v,
            },
            ActionView::Nothing,
        ),
        Command::Leave => (left(v, a), ActionView::Nothing),
        Command::Sort(s) => (sorted_by(v, s), ActionView::Nothing),
        Command::Reverse => (AppView { reverse: !v.reverse, ..v }, ActionView::Nothing),
        Command::NextMode => (AppView { mode: next_mode(v.mode), ..v }, ActionView::Nothing),
        Command::Columns => (AppView { show_optional: !v.show_optional, ..v }, ActionView::Nothing),
        Command::Pause => if v.live {
            (AppView { paused: !v.paused, ..v }, ActionView::TogglePause)
        } else {
            (v, ActionView::Nothing)
        },
        Command::Mark => (
            match sel {
                Some(id) => with_cursor(
                    AppView { marks: toggled(v.marks, a, id), ..v },
                    e,
                    cur + 1,
                ),
                None => v,
            },
            ActionView::Nothing,
        ),
        Command::Unmark => (AppView { marks: Set::empty(), ..v }, ActionView::Nothing),
        Command::Info => (
            match sel {
                Some(id) => AppView { dialog: DialogView::Info { node: id }, ..v },
                None => v,
            },
            ActionView::Nothing,
        ),
        Command::Delete => (AppView { dialog: deletion(v, a, sel), ..v }, ActionView::Nothing),
        Command::Export => (
            AppView { dialog: DialogView::Export { input: export_name(now) }, ..v },
            ActionView::Nothing,
        ),
        Command::Help => (AppView { dialog: DialogView::Help, ..v }, ActionView::Nothing),
        Command::Nothing => (v, ActionView::Nothing),
    }
}

/// The marks without those of `ids`.
pub open spec fn unmarked(marks: Set<NodeId>, ids: Seq<NodeId>) -> Set<NodeId>
    decreases ids.len(),
{
    if ids.len() == 0 {
        marks
    } else {
        unmarked(marks, ids.drop_last()).remove(ids.last())
    }
}

/// Whether any of `ids` is or holds a subvolume.
pub open spec fn any_subvol(a: Seq<NodeView>, ids: Seq<NodeId>) -> bool {
    exists|k: int| 0 <= k < ids.len() && holds_subvol(a, #[trigger] ids[k] as int)
}

/// What a key does while the dialog `d` is open. `v` has none open.
pub open spec fn answered(
    v: AppView,
    d: DialogView,
    key: KeyCode,
    a: Seq<NodeView>,
) -> (AppView, ActionView) {
    match d {
        DialogView::Closed => (v, ActionView::Nothing),
        DialogView::Help => (v, ActionView::Nothing),
        DialogView::Message { .. } => (v, ActionView::Nothing),
        DialogView::Info { node } => if key == KeyCode::Char('x') {
            if special(a, node as int) {
                (
                    AppView {
                        dialog: DialogView::Message {
                            title: "Unavailable"@,
                            text: "Special <BUCKET> entries are not filesystem paths."@,
                        },
                        ..v
                    },
                    ActionView::Nothing,
                )
            } else if v.live {
                (AppView { dialog: d, ..v }, ActionView::Exact(node))
            } else {
                (
                    AppView {
                        dialog: DialogView::Message {
                            title: "Unavailable"@,
                            text: "Exact size needs a live filesystem (not --import)."@,
                        },
                        ..v
                    },
                    ActionView::Nothing,
                )
            }
        } else if key == KeyCode::Esc || key == KeyCode::Enter || key == KeyCode::Char('q') || key
            == KeyCode::Char('i') {
            (v, ActionView::Nothing)
        } else {
            (AppView { dialog: d, ..v }, ActionView::Nothing)
        },
        DialogView::Confirm { targets, stage } => if key == KeyCode::Char('y') || key
            == KeyCode::Char('Y') {
            if stage == 1 && any_subvol(a, targets) {
                (
                    AppView { dialog: DialogView::Confirm { targets, stage: 2 }, ..v },
                    ActionView::Nothing,
                )
            } else {
                (
                    AppView { marks: unmarked(v.marks, targets), ..v },
                    ActionView::Delete(targets),
                )
            }
        } else {
            (v, ActionView::Nothing)
        },
        DialogView::Export { input } => match key {
            KeyCode::Enter => if input.len() > 0 {
                (v, ActionView::Export(input))
            } else {
                (AppView { dialog: d, ..v }, ActionView::Nothing)
            },
            KeyCode::Esc => (v, ActionView::Nothing),
            KeyCode::Backspace => (
                AppView {
                    dialog: DialogView::Export {
                        input: if input.len() > 0 {
                            input.drop_last()
                        } else {
                            input
                        },
                    },
                    ..v
                },
                ActionView::Nothing,
            ),
            KeyCode::Char(c) => (
                AppView { dialog: DialogView::Export { input: input.push(c) }, ..v },
                ActionView::Nothing,
            ),
            _ => (AppView { dialog: d, ..v }, ActionView::Nothing),
        },
    }
}

/// What a key does.
pub open spec fn pressed(
    v: AppView,
    key: KeyCode,
    a: Seq<NodeView>,
    now: nat,
) -> (AppView, ActionView) {
    let w = AppView { dialog: DialogView::Closed, ..v };
    if v.dialog is Closed {
        browsed(w, command_of(key), a, now)
    } else {
        answered(w, v.dialog, key, a)
    }
}

} // verus!
