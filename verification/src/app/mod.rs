//! Terminal-free UI state and key handling.

pub mod background;
pub mod effects;
pub mod laws;
pub mod model;

use std::collections::{BTreeSet, HashMap};

use vstd::prelude::*;
use vstd::std_specs::btree::spec_btree_keys_iter;
use vstd::std_specs::cmp::OrdSpec;
use vstd::std_specs::iter::IteratorSpec;

use crate::actions::Exact;
use crate::app::laws::{
    law_browsing_keeps_the_marks, law_ids_stay_known, lemma_one_listing, marks_after, none_special,
};
use crate::app::model::{
    above, ahead, answered, any_subvol, at_start, browsed, chosen, command_of, credit, cursor_row,
    deletion, export_name, fits, is_listing, left, listing, live_marks, mode_name, nested,
    next_mode, outermost, page_rows, pressed, sorted_by, toggled, unmarked, with_cursor, ActionView,
    AppView, DialogView,
};
use crate::rational::Rational;
use crate::sorting::{is_ranking, ranks, sort_positions};
use crate::text::{concat, decimal_text, name_less, owned, texts};
use crate::tree::{lists, max_nodes, Counters, NodeId, ROOT, Tree};
use crate::tree::model::{child_of, holds_subvol, within, NodeView};

verus! {

/// What size an entry is shown with.
#[derive(Clone, Copy, PartialEq, Eq, Debug, Structural)]
pub enum Mode {
    Represented,
    Distributed,
    Exclusive,
    Shared,
}

impl Mode {
    pub const ALL: [Mode; 4] = [
        Mode::Represented,
        Mode::Distributed,
        Mode::Exclusive,
        Mode::Shared,
    ];

    /// The mode that follows; the last is followed by the first.
    pub fn next(self) -> (r: Mode)
        ensures
            r == next_mode(self),
    {
        match self {
            Mode::Represented => Mode::Distributed,
            Mode::Distributed => Mode::Exclusive,
            Mode::Exclusive => Mode::Shared,
            Mode::Shared => Mode::Represented,
        }
    }

    pub fn label(self) -> (r: &'static str)
        ensures
            r@ == mode_name(self),
    {
        match self {
            Mode::Represented => "represented",
            Mode::Distributed => "distributed",
            Mode::Exclusive => "exclusive",
            Mode::Shared => "shared",
        }
    }

    /// How many samples the mode credits.
    pub fn value(self, c: &Counters) -> (r: Rational)
        ensures
            r@ == credit(self, c@),
    {
        match self {
            Mode::Represented => Rational::whole(c.represented),
            Mode::Distributed => c.distributed.clone(),
            Mode::Exclusive => Rational::whole(c.exclusive),
            Mode::Shared => Rational::whole(c.shared),
        }
    }
}

#[derive(Clone, Copy, PartialEq, Eq, Debug, Structural)]
pub enum SortBy {
    Size,
    Name,
    Count,
}

#[derive(Debug)]
pub enum Dialog {
    Closed,
    Help,
    Info { node: NodeId },
    Confirm { targets: Vec<NodeId>, stage: u8 },
    Export { input: String },
    Message { title: String, text: String },
}

impl View for Dialog {
    type V = DialogView;

    open spec fn view(&self) -> DialogView {
        match *self {
            Dialog::Closed => DialogView::Closed,
            Dialog::Help => DialogView::Help,
            Dialog::Info { node } => DialogView::Info { node },
            Dialog::Confirm { targets, stage } => DialogView::Confirm { targets: targets@, stage },
            Dialog::Export { input } => DialogView::Export { input: input@ },
            Dialog::Message { title, text } => DialogView::Message { title: title@, text: text@ },
        }
    }
}

impl Dialog {
    pub fn message(title: &str, text: &str) -> (r: Dialog)
        ensures
            r@ == (DialogView::Message { title: title@, text: text@ }),
    {
        Dialog::Message { title: owned(title), text: owned(text) }
    }
}

/// What the program is asked to do.
#[derive(Debug, PartialEq)]
pub enum Action {
    Nothing,
    Quit,
    TogglePause,
    Delete(Vec<NodeId>),
    Export(String),
    Exact(NodeId),
}

impl View for Action {
    type V = ActionView;

    open spec fn view(&self) -> ActionView {
        match *self {
            Action::Nothing => ActionView::Nothing,
            Action::Quit => ActionView::Quit,
            Action::TogglePause => ActionView::TogglePause,
            Action::Delete(ids) => ActionView::Delete(ids@),
            Action::Export(name) => ActionView::Export(name@),
            Action::Exact(id) => ActionView::Exact(id),
        }
    }
}

pub enum ExactState {
    Running,
    Done(Exact),
    Failed(String),
}

/// The keys that mean something.
#[derive(Clone, Copy, PartialEq, Eq, Debug, Structural)]
pub enum KeyCode {
    Up,
    Down,
    PageUp,
    PageDown,
    Home,
    End,
    Right,
    Left,
    Enter,
    Backspace,
    Esc,
    Char(char),
    Other,
}

/// What a key stands for while browsing.
#[derive(Clone, Copy, PartialEq, Eq, Debug, Structural)]
pub enum Command {
    Quit,
    Up,
    Down,
    PageUp,
    PageDown,
    Top,
    Bottom,
    Open,
    Leave,
    Sort(SortBy),
    Reverse,
    NextMode,
    Columns,
    Pause,
    Mark,
    Unmark,
    Info,
    Delete,
    Export,
    Help,
    Nothing,
}

impl KeyCode {
    /// What the key stands for while browsing.
    pub fn command(self) -> (r: Command)
        ensures
            r == command_of(self),
    {
        match self {
            KeyCode::Up | KeyCode::Char('k') => Command::Up,
            KeyCode::Down | KeyCode::Char('j') => Command::Down,
            KeyCode::PageUp => Command::PageUp,
            KeyCode::PageDown => Command::PageDown,
            KeyCode::Home | KeyCode::Char('g') => Command::Top,
            KeyCode::End | KeyCode::Char('G') => Command::Bottom,
            KeyCode::Right | KeyCode::Char('l') | KeyCode::Enter => Command::Open,
            KeyCode::Left | KeyCode::Char('h') | KeyCode::Backspace => Command::Leave,
            KeyCode::Char('q') => Command::Quit,
            KeyCode::Char('s') => Command::Sort(SortBy::Size),
            KeyCode::Char('n') => Command::Sort(SortBy::Name),
            KeyCode::Char('C') => Command::Sort(SortBy::Count),
            KeyCode::Char('r') => Command::Reverse,
            KeyCode::Char('m') => Command::NextMode,
            KeyCode::Char('c') => Command::Columns,
            KeyCode::Char('p') => Command::Pause,
            KeyCode::Char(' ') => Command::Mark,
            KeyCode::Char('u') => Command::Unmark,
            KeyCode::Char('i') => Command::Info,
            KeyCode::Char('d') => Command::Delete,
            KeyCode::Char('e') => Command::Export,
            KeyCode::Char('?') => Command::Help,
            KeyCode::Char(_) | KeyCode::Esc | KeyCode::Other => Command::Nothing,
        }
    }
}

pub struct App {
    pub dir: NodeId,
    /// Per directory: selected child and its last index (fallback when it vanishes).
    pub selected: HashMap<NodeId, (NodeId, usize)>,
    pub mode: Mode,
    pub sort: SortBy,
    pub reverse: bool,
    pub marks: BTreeSet<NodeId>,
    pub dialog: Dialog,
    pub show_optional: bool,
    pub live: bool,
    pub paused: bool,
    pub exact: HashMap<NodeId, ExactState>,
    pub offset: usize,
    pub page: usize,
    pub deleting: usize,
    pub delete_errors: Vec<String>,
}

impl View for App {
    type V = AppView;

    open spec fn view(&self) -> AppView {
        AppView {
            dir: self.dir,
            selected: self.selected@,
            mode: self.mode,
            sort: self.sort,
            reverse: self.reverse,
            marks: self.marks@,
            dialog: self.dialog@,
            show_optional: self.show_optional,
            live: self.live,
            paused: self.paused,
            exact: self.exact@,
            offset: self.offset,
            page: self.page,
            deleting: self.deleting,
            delete_errors: texts(self.delete_errors@),
        }
    }
}

/// The file name that an export starts with, `now` seconds after the epoch.
pub fn default_export_name(now: u64) -> (r: String)
    ensures
        r@ == export_name(now as nat),
{
    let name = concat("btdua-", decimal_text(now).as_str());
    concat(name.as_str(), ".json")
}

/// Where `id` first stands in `ids`.
fn position(ids: &[NodeId], id: NodeId) -> (r: Option<usize>)
    ensures
        match r {
            Some(i) => ids@.index_of_first(id) == Some(i as int) && i < ids@.len() && ids@[i as int]
                == id,
            None => ids@.index_of_first(id) is None && !ids@.contains(id),
        },
{
    proof {
        ids@.index_of_first_ensures(id);
    }
    let mut i: usize = 0;
    while i < ids.len()
        invariant
            i <= ids@.len(),
            forall|j: int| 0 <= j < i ==> ids@[j] != id,
            match ids@.index_of_first(id) {
                Some(k) => 0 <= k < ids@.len() && ids@[k] == id && forall|j: int|
                    0 <= j < k < ids@.len() ==> ids@[j] != id,
                None => !ids@.contains(id),
            },
        decreases ids@.len() - i,
    {
        if ids[i] == id {
            return Some(i);
        }
        i += 1;
    }
    None
}

impl App {
    pub fn new(live: bool) -> (r: Self)
        ensures
            r@ == at_start(live),
    {
        App {
            dir: ROOT,
            selected: HashMap::new(),
            mode: Mode::Represented,
            sort: SortBy::Size,
            reverse: false,
            marks: BTreeSet::new(),
            dialog: Dialog::Closed,
            show_optional: true,
            live,
            paused: false,
            exact: HashMap::new(),
            offset: 0,
            page: 10,
            deleting: 0,
            delete_errors: Vec::new(),
        }
    }

    /// The entries of the open directory, in the order in which they are shown.
    pub fn entries(&self, t: &Tree) -> (r: Vec<NodeId>)
        requires
            t.wf(),
            self@.dir < t@.nodes.len(),
        ensures
            is_listing(self@, t@.nodes, r@),
            r@ == listing(self@, t@.nodes),
    {
        let kids = t.children(self.dir);
        let mut sizes: Vec<Rational> = Vec::new();
        let mut counts: Vec<u64> = Vec::new();
        let mut i: usize = 0;
        proof {
            t.lemma_wf();
        }
        while i < kids.len()
            invariant
                t.wf(),
                i <= kids@.len(),
                lists(t@.nodes, self.dir as int, kids@),
                sizes@.len() == i,
                counts@.len() == i,
                forall|k: int|
                    0 <= k < i ==> (#[trigger] sizes@[k])@ == credit(
                        self.mode,
                        t@.nodes[kids@[k] as int].c,
                    ),
                forall|k: int|
                    0 <= k < i ==> #[trigger] counts@[k] == t@.nodes[kids@[k] as int].c.represented,
            decreases kids@.len() - i,
        {
            assert(child_of(t@.nodes, self.dir as int, kids@[i as int] as int));
            let node = t.node(kids[i]);
            sizes.push(self.mode.value(&node.c));
            counts.push(node.c.represented);
            i += 1;
        }
        let sort = self.sort;
        let ghost lt = |x: int, y: int|
            match sort {
                SortBy::Size => sizes@[x]@ > sizes@[y]@,
                SortBy::Name => false,
                SortBy::Count => counts@[x] > counts@[y],
            };
        let less = |x: usize, y: usize| -> (r: bool)
            requires
                x < sizes@.len(),
                y < sizes@.len(),
                sizes@.len() == counts@.len(),
            ensures
                r == lt(x as int, y as int),
            {
                match sort {
                    SortBy::Size => sizes[y].less_than(&sizes[x]),
                    SortBy::Name => false,
                    SortBy::Count => counts[x] > counts[y],
                }
            };
        let order = sort_positions(kids.len(), &less, Ghost(lt));
        let r = arranged(kids, &order, self.reverse);
        proof {
            lemma_arranged(self@, t@.nodes, kids@, order@, lt, r@);
            lemma_one_listing(self@, t@.nodes, r@, listing(self@, t@.nodes));
        }
        r
    }

    /// The row that the cursor is on.
    pub fn cursor(&self, entries: &[NodeId]) -> (r: usize)
        ensures
            r == cursor_row(self@, entries@),
            entries@.len() > 0 ==> r < entries@.len(),
            entries@.len() == 0 ==> r == 0,
    {
        proof {
            if self@.selected.dom().contains(self@.dir) {
                entries@.index_of_first_ensures(self@.selected[self@.dir].0);
            }
        }
        match self.selected.get(&self.dir) {
            Some(place) => {
                let (id, hint) = *place;
                match position(entries, id) {
                    Some(i) => i,
                    None => if entries.len() == 0 {
                        0
                    } else if hint < entries.len() {
                        hint
                    } else {
                        entries.len() - 1
                    },
                }
            },
            None => 0,
        }
    }

    /// The entry that the cursor is on.
    pub fn current(&self, t: &Tree) -> (r: Option<NodeId>)
        requires
            t.wf(),
            self@.dir < t@.nodes.len(),
        ensures
            r == chosen(self@, listing(self@, t@.nodes)),
    {
        let e = self.entries(t);
        let i = self.cursor(e.as_slice());
        if i < e.len() {
            Some(e[i])
        } else {
            None
        }
    }

    fn select(&mut self, entries: &[NodeId], idx: usize)
        ensures
            final(self)@ == with_cursor(old(self)@, entries@, idx as int),
    {
        if entries.len() == 0 {
            return ;
        }
        let idx = if idx < entries.len() {
            idx
        } else {
            entries.len() - 1
        };
        self.selected.insert(self.dir, (entries[idx], idx));
    }

    fn set_sort(&mut self, s: SortBy)
        ensures
            final(self)@ == sorted_by(old(self)@, s),
    {
        if self.sort == s {
            self.reverse = !self.reverse;
        } else {
            self.sort = s;
            self.reverse = false;
        }
    }

    /// Takes a key press, `now` seconds after the epoch.
    pub fn on_key(&mut self, key: KeyCode, t: &Tree, now: u64) -> (r: Action)
        requires
            t.wf(),
            fits(old(self)@, t@.nodes.len()),
        ensures
            (final(self)@, r@) == pressed(old(self)@, key, t@.nodes, now as nat),
            fits(final(self)@, t@.nodes.len()),
            old(self)@.dialog is Closed ==> {
                let sel = chosen(old(self)@, listing(old(self)@, t@.nodes));
                &&& final(self)@.marks == marks_after(old(self)@.marks, key, sel, t@.nodes)
                &&& none_special(old(self)@.marks, t@.nodes) ==> none_special(
                    final(self)@.marks,
                    t@.nodes,
                )
            },
    {
        proof {
            t.lemma_wf();
            law_browsing_keeps_the_marks(self@, key, t@.nodes, now as nat);
            law_ids_stay_known(self@, key, t@.nodes, now as nat);
        }
        let mut d = Dialog::Closed;
        std::mem::swap(&mut d, &mut self.dialog);
        match d {
            Dialog::Closed => self.key_browse(key, t, now),
            d => self.key_dialog(d, key, t),
        }
    }

    #[verifier::rlimit(60)]
    #[verifier::spinoff_prover]
    fn key_browse(&mut self, key: KeyCode, t: &Tree, now: u64) -> (r: Action)
        requires
            t.wf(),
            fits(old(self)@, t@.nodes.len()),
            old(self)@.dialog is Closed,
        ensures
            (final(self)@, r@) == browsed(old(self)@, command_of(key), t@.nodes, now as nat),
            final(self)@.marks == marks_after(
                old(self)@.marks,
                key,
                chosen(old(self)@, listing(old(self)@, t@.nodes)),
                t@.nodes,
            ),
            none_special(old(self)@.marks, t@.nodes) ==> none_special(
                final(self)@.marks,
                t@.nodes,
            ),
    {
        proof {
            law_browsing_keeps_the_marks(self@, key, t@.nodes, now as nat);
        }
        let (entries, cur, sel) = self.place(t);
        match key.command() {
            Command::Quit => return Action::Quit,
            Command::Up => self.select(entries.as_slice(), cur.saturating_sub(1)),
            Command::Down => self.select(entries.as_slice(), cur.saturating_add(1)),
            Command::PageUp => {
                let page = self.page_rows();
                self.select(entries.as_slice(), cur.saturating_sub(page))
            },
            Command::PageDown => {
                let page = self.page_rows();
                self.select(entries.as_slice(), cur.saturating_add(page))
            },
            Command::Top => self.select(entries.as_slice(), 0),
            Command::Bottom => self.select(entries.as_slice(), entries.len()),
            Command::Open => {
                if let Some(id) = sel {
                    if has_entries(t, id) {
                        self.select(entries.as_slice(), cur);
                        self.dir = id;
                    }
                }
            },
            Command::Leave => self.leave(t),
            Command::Sort(s) => self.set_sort(s),
            Command::Reverse => self.reverse = !self.reverse,
            Command::NextMode => self.mode = self.mode.next(),
            Command::Columns => self.show_optional = !self.show_optional,
            Command::Pause => {
                if self.live {
                    self.paused = !self.paused;
                    return Action::TogglePause;
                }
            },
            Command::Mark => {
                if let Some(id) = sel {
                    toggle(&mut self.marks, id, t);
                    self.select(entries.as_slice(), cur.saturating_add(1));
                }
            },
            Command::Unmark => self.marks.clear(),
            Command::Info => {
                if let Some(id) = sel {
                    self.dialog = Dialog::Info { node: id };
                }
            },
            Command::Delete => self.begin_delete(t, sel),
            Command::Export => self.dialog = Dialog::Export { input: default_export_name(now) },
            Command::Help => self.dialog = Dialog::Help,
            Command::Nothing => {},
        }
        Action::Nothing
    }

    /// The listing, the row that the cursor is on, and the entry there.
    fn place(&self, t: &Tree) -> (r: (Vec<NodeId>, usize, Option<NodeId>))
        requires
            t.wf(),
            self@.dir < t@.nodes.len(),
        ensures
            r.0@ == listing(self@, t@.nodes),
            r.1 == cursor_row(self@, r.0@),
            r.1 <= r.0@.len() <= usize::MAX,
            r.2 == chosen(self@, r.0@),
            r.2 matches Some(id) ==> id < t@.nodes.len(),
    {
        let entries = self.entries(t);
        let cur = self.cursor(entries.as_slice());
        let sel = if cur < entries.len() {
            assert(child_of(t@.nodes, self@.dir as int, entries@[cur as int] as int));
            Some(entries[cur])
        } else {
            None
        };
        (entries, cur, sel)
    }

    fn page_rows(&self) -> (r: usize)
        ensures
            r == page_rows(self@),
    {
        if self.page > 0 {
            self.page
        } else {
            1
        }
    }

    fn leave(&mut self, t: &Tree)
        requires
            t.wf(),
            old(self)@.dir < t@.nodes.len(),
        ensures
            final(self)@ == left(old(self)@, t@.nodes),
    {
        proof {
            t.lemma_wf();
        }
        if let Some(p) = t.node(self.dir).parent {
            let child = self.dir;
            self.dir = p;
            let e = self.entries(t);
            if let Some(i) = position(e.as_slice(), child) {
                self.select(e.as_slice(), i);
            }
        }
    }

    fn begin_delete(&mut self, t: &Tree, sel: Option<NodeId>)
        requires
            t.wf(),
            forall|id: NodeId| #[trigger] old(self)@.marks.contains(id) ==> id < t@.nodes.len(),
            sel matches Some(id) ==> id < t@.nodes.len(),
        ensures
            final(self)@ == (AppView {
                dialog: deletion(old(self)@, t@.nodes, sel),
                ..old(self)@
            }),
    {
        if !self.live {
            self.dialog = Dialog::message(
                "Unavailable",
                "Deleting needs a live filesystem (not --import).",
            );
            return ;
        }
        let mut all = marked_nodes(&self.marks, t);
        if all.len() == 0 {
            if let Some(id) = sel {
                if !t.is_special(id) {
                    all.push(id);
                    assert(all@ =~= seq![id]);
                }
            }
        }
        let targets = outer(&all, t);
        if targets.len() > 0 {
            self.dialog = Dialog::Confirm { targets, stage: 1 };
        }
    }

    fn key_dialog(&mut self, d: Dialog, key: KeyCode, t: &Tree) -> (r: Action)
        requires
            t.wf(),
            old(self)@.dialog is Closed,
            d@ matches DialogView::Info { node } ==> node < t@.nodes.len(),
            d@ matches DialogView::Confirm { targets, .. } ==> forall|i: int|
                0 <= i < targets.len() ==> (#[trigger] targets[i]) < t@.nodes.len(),
        ensures
            (final(self)@, r@) == answered(old(self)@, d@, key, t@.nodes),
    {
        match d {
            Dialog::Closed | Dialog::Help | Dialog::Message { .. } => Action::Nothing,
            Dialog::Info { node } => match key {
                KeyCode::Char('x') => {
                    if t.is_special(node) {
                        self.dialog = Dialog::message(
                            "Unavailable",
                            "Special <BUCKET> entries are not filesystem paths.",
                        );
                        Action::Nothing
                    } else if self.live {
                        self.dialog = Dialog::Info { node };
                        Action::Exact(node)
                    } else {
                        self.dialog = Dialog::message(
                            "Unavailable",
                            "Exact size needs a live filesystem (not --import).",
                        );
                        Action::Nothing
                    }
                },
                KeyCode::Esc | KeyCode::Enter | KeyCode::Char('q') | KeyCode::Char('i') => {
                    Action::Nothing
                },
                _ => {
                    self.dialog = Dialog::Info { node };
                    Action::Nothing
                },
            },
            Dialog::Confirm { targets, stage } => match key {
                KeyCode::Char('y') | KeyCode::Char('Y') => {
                    if stage == 1 && holds_any_subvol(&targets, t) {
                        self.dialog = Dialog::Confirm { targets, stage: 2 };
                        Action::Nothing
                    } else {
                        unmark(&mut self.marks, &targets);
                        Action::Delete(targets)
                    }
                },
                _ => Action::Nothing,
            },
            Dialog::Export { input } => {
                let mut input = input;
                match key {
                    KeyCode::Enter => {
                        if input.as_str().is_empty() {
                            self.dialog = Dialog::Export { input };
                            Action::Nothing
                        } else {
                            Action::Export(input)
                        }
                    },
                    KeyCode::Esc => Action::Nothing,
                    KeyCode::Backspace => {
                        input.pop();
                        self.dialog = Dialog::Export { input };
                        Action::Nothing
                    },
                    KeyCode::Char(c) => {
                        input.push(c);
                        self.dialog = Dialog::Export { input };
                        Action::Nothing
                    },
                    _ => {
                        self.dialog = Dialog::Export { input };
                        Action::Nothing
                    },
                }
            },
        }
    }
}

/// Whether anything is listed below `id`.
pub fn has_entries(t: &Tree, id: NodeId) -> (r: bool)
    requires
        t.wf(),
        id < t@.nodes.len(),
    ensures
        r == exists|c: int| #[trigger] child_of(t@.nodes, id as int, c),
{
    let kids = t.children(id);
    proof {
        t.lemma_wf();
        if kids@.len() > 0 {
            assert(child_of(t@.nodes, id as int, kids@[0] as int));
        }
        if exists|c: int| #[trigger] child_of(t@.nodes, id as int, c) {
            let c = choose|c: int| #[trigger] child_of(t@.nodes, id as int, c);
            let k = c as NodeId;
            assert(child_of(t@.nodes, id as int, k as int));
            assert(kids@.contains(k));
        }
    }
    kids.len() > 0
}

/// The keys of a set in increasing order.
fn ascending(marks: &BTreeSet<NodeId>) -> (r: Vec<NodeId>)
    ensures
        forall|x: NodeId| #[trigger] r@.contains(x) <==> marks@.contains(x),
        forall|i: int, j: int| 0 <= i < j < r@.len() ==> r@[i] < r@[j],
{
    proof {
        lemma_ids_are_ordered();
    }
    let mut r: Vec<NodeId> = Vec::new();
    let ghost all = spec_btree_keys_iter(marks).remaining();
    assert(all.unref().to_set() == marks@);
    for x in it: marks.iter()
        invariant
            it.seq() == all,
            r@ == all.unref().take(it.index() as int),
    {
        r.push(*x);
    }
    assert(all.unref().take(all.len() as int) =~= all.unref());
    assert(forall|x: NodeId| r@.contains(x) <==> #[trigger] r@.to_set().contains(x));
    proof {
        lemma_keys_increase(all);
    }
    r
}

proof fn lemma_ids_are_ordered()
    ensures
        vstd::laws_cmp::obeys_cmp::<NodeId>(),
        vstd::std_specs::btree::key_obeys_cmp_spec::<NodeId>(),
{
    broadcast use vstd::laws_cmp::group_laws_cmp;

}

proof fn lemma_keys_increase(s: Seq<&NodeId>)
    requires
        vstd::std_specs::btree::increasing_seq(s),
    ensures
        forall|i: int, j: int| 0 <= i < j < s.len() ==> *s[i] < *s[j],
{
    broadcast use vstd::laws_cmp::group_laws_cmp;

    assert(vstd::laws_cmp::obeys_cmp::<NodeId>());
    assert(vstd::laws_cmp::obeys_cmp::<&NodeId>());
    vstd::std_specs::btree::axiom_increasing_seq_meaning::<&NodeId>(s);
    assert forall|i: int, j: int| 0 <= i < j < s.len() implies *s[i] < *s[j] by {
        assert(OrdSpec::cmp_spec(&s[i], &s[j]) is Less);
        assert((*s[i]).cmp_spec(&*s[j]) is Less);
    }
}

/// Whether `id` is marked.
pub fn is_marked(marks: &BTreeSet<NodeId>, id: NodeId) -> (r: bool)
    ensures
        r == marks@.contains(id),
{
    proof {
        lemma_ids_are_ordered();
    }
    marks.contains(&id)
}

/// How many nodes are marked.
pub fn count_marks(marks: &BTreeSet<NodeId>) -> (r: usize)
    ensures
        r == marks@.len(),
{
    proof {
        lemma_ids_are_ordered();
    }
    marks.len()
}

/// The marked nodes that are still in the tree, in the order of their numbers.
pub fn marked_nodes(marks: &BTreeSet<NodeId>, t: &Tree) -> (r: Vec<NodeId>)
    requires
        t.wf(),
        forall|id: NodeId| #[trigger] marks@.contains(id) ==> id < t@.nodes.len(),
    ensures
        r@ == live_marks(marks@, t@.nodes, t@.nodes.len()),
        forall|k: int| 0 <= k < r@.len() ==> (#[trigger] r@[k]) < t@.nodes.len(),
{
    let all = ascending(marks);
    let mut r: Vec<NodeId> = Vec::new();
    let mut i: usize = 0;
    let ghost mut upto: nat = 0;
    proof {
        t.lemma_wf();
    }
    while i < all.len()
        invariant
            t.wf(),
            t@.nodes.len() <= max_nodes(),
            forall|id: NodeId| #[trigger] marks@.contains(id) ==> id < t@.nodes.len(),
            forall|x: NodeId| #[trigger] all@.contains(x) <==> marks@.contains(x),
            forall|j: int, k: int| 0 <= j < k < all@.len() ==> all@[j] < all@[k],
            i <= all@.len(),
            upto == (if i == 0 {
                0
            } else {
                all@[i - 1] + 1
            }),
            upto <= t@.nodes.len(),
            r@ == live_marks(marks@, t@.nodes, upto),
            forall|k: int| 0 <= k < r@.len() ==> (#[trigger] r@[k]) < t@.nodes.len(),
        decreases all@.len() - i,
    {
        let id = all[i];
        assert(all@.contains(id));
        proof {
            assert forall|x: NodeId| upto <= x < id implies !marks@.contains(x) by {
                if marks@.contains(x) {
                    assert(all@.contains(x));
                    let k = choose|k: int| 0 <= k < all@.len() && all@[k] == x;
                    assert(k < i || k >= i);
                }
            }
            lemma_no_marks_between(marks@, t@.nodes, upto, id as nat);
            upto = (id + 1) as nat;
        }
        if t.is_live(id) {
            r.push(id);
        }
        i += 1;
    }
    proof {
        assert forall|x: NodeId| upto <= x < t@.nodes.len() implies !marks@.contains(x) by {
            if marks@.contains(x) {
                assert(all@.contains(x));
                let k = choose|k: int| 0 <= k < all@.len() && all@[k] == x;
            }
        }
        lemma_no_marks_between(marks@, t@.nodes, upto, t@.nodes.len());
    }
    r
}

proof fn lemma_no_marks_between(marks: Set<NodeId>, a: Seq<NodeView>, from: nat, to: nat)
    requires
        from <= to <= max_nodes(),
        forall|x: NodeId| from <= x < to ==> !marks.contains(x),
    ensures
        live_marks(marks, a, to) == live_marks(marks, a, from),
    decreases to,
{
    if from < to {
        lemma_no_marks_between(marks, a, from, (to - 1) as nat);
        let x = (to - 1) as NodeId;
        assert(!marks.contains(x));
    }
}

/// Those of `all` that lie inside none of the others.
fn outer(all: &Vec<NodeId>, t: &Tree) -> (r: Vec<NodeId>)
    requires
        t.wf(),
        forall|k: int| 0 <= k < all@.len() ==> (#[trigger] all@[k]) < t@.nodes.len(),
    ensures
        r@ == outermost(t@.nodes, all@, all@),
{
    let mut r: Vec<NodeId> = Vec::new();
    let mut i: usize = 0;
    while i < all.len()
        invariant
            t.wf(),
            forall|k: int| 0 <= k < all@.len() ==> (#[trigger] all@[k]) < t@.nodes.len(),
            i <= all@.len(),
            r@ == outermost(t@.nodes, all@, all@.take(i as int)),
        decreases all@.len() - i,
    {
        let inside = lies_inside(all, all[i], t);
        assert(all@.take(i + 1).drop_last() =~= all@.take(i as int));
        if !inside {
            r.push(all[i]);
        }
        i += 1;
    }
    assert(all@.take(all@.len() as int) =~= all@);
    r
}

fn lies_inside(all: &Vec<NodeId>, id: NodeId, t: &Tree) -> (r: bool)
    requires
        t.wf(),
        id < t@.nodes.len(),
    ensures
        r == nested(t@.nodes, all@, id),
{
    let mut i: usize = 0;
    while i < all.len()
        invariant
            t.wf(),
            id < t@.nodes.len(),
            i <= all@.len(),
            forall|k: int|
                0 <= k < i && all@[k] != id ==> !within(
                    t@.nodes,
                    #[trigger] all@[k] as int,
                    id as int,
                ),
        decreases all@.len() - i,
    {
        if t.is_ancestor(all[i], id) {
            assert(within(t@.nodes, all@[i as int] as int, id as int));
            return true;
        }
        i += 1;
    }
    false
}

/// Whether any of `ids` is or holds a subvolume.
pub fn holds_any_subvol(ids: &Vec<NodeId>, t: &Tree) -> (r: bool)
    requires
        t.wf(),
        forall|k: int| 0 <= k < ids@.len() ==> (#[trigger] ids@[k]) < t@.nodes.len(),
    ensures
        r == any_subvol(t@.nodes, ids@),
{
    let mut i: usize = 0;
    while i < ids.len()
        invariant
            t.wf(),
            forall|k: int| 0 <= k < ids@.len() ==> (#[trigger] ids@[k]) < t@.nodes.len(),
            i <= ids@.len(),
            forall|k: int| 0 <= k < i ==> !holds_subvol(t@.nodes, #[trigger] ids@[k] as int),
        decreases ids@.len() - i,
    {
        if t.has_subvol(ids[i]) {
            return true;
        }
        i += 1;
    }
    false
}

/// Turns the mark of `id` around; special entries take none.
fn toggle(marks: &mut BTreeSet<NodeId>, id: NodeId, t: &Tree)
    requires
        t.wf(),
        id < t@.nodes.len(),
    ensures
        final(marks)@ == toggled(old(marks)@, t@.nodes, id),
{
    proof {
        lemma_ids_are_ordered();
    }
    if !t.is_special(id) && !marks.remove(&id) {
        marks.insert(id);
    }
}

fn unmark(marks: &mut BTreeSet<NodeId>, ids: &Vec<NodeId>)
    ensures
        final(marks)@ == unmarked(old(marks)@, ids@),
{
    let mut i: usize = 0;
    let ghost was = marks@;
    while i < ids.len()
        invariant
            i <= ids@.len(),
            marks@ == unmarked(was, ids@.take(i as int)),
        decreases ids@.len() - i,
    {
        proof {
            lemma_ids_are_ordered();
        }
        marks.remove(&ids[i]);
        assert(ids@.take(i + 1).drop_last() =~= ids@.take(i as int));
        i += 1;
    }
    assert(ids@.take(ids@.len() as int) =~= ids@);
}

/// The `kids` in the given order, or the other way round.
fn arranged(kids: &Vec<NodeId>, order: &Vec<usize>, reverse: bool) -> (r: Vec<NodeId>)
    requires
        order@.len() == kids@.len(),
        forall|k: int| 0 <= k < order@.len() ==> (#[trigger] order@[k]) < kids@.len(),
    ensures
        r@ == placed_by(kids@, order@, reverse),
{
    let n = kids.len();
    let mut r: Vec<NodeId> = Vec::new();
    let mut i: usize = 0;
    while i < n
        invariant
            n == kids@.len(),
            order@.len() == n,
            forall|k: int| 0 <= k < order@.len() ==> (#[trigger] order@[k]) < kids@.len(),
            i <= n,
            r@ == placed_by(kids@, order@, reverse).take(i as int),
        decreases n - i,
    {
        let at = if reverse {
            order[n - 1 - i]
        } else {
            order[i]
        };
        r.push(kids[at]);
        i += 1;
    }
    r
}

/// `kids` in the given order, or the other way round.
spec fn placed_by(kids: Seq<NodeId>, order: Seq<usize>, reverse: bool) -> Seq<NodeId> {
    Seq::new(
        order.len(),
        |k: int|
            kids[order[if reverse {
                order.len() - 1 - k
            } else {
                k
            }] as int],
    )
}

/// Entries in the order of their names, ranked by what the sorting is by, make
/// the listing.
proof fn lemma_arranged(
    v: AppView,
    a: Seq<NodeView>,
    kids: Seq<NodeId>,
    order: Seq<usize>,
    lt: spec_fn(int, int) -> bool,
    e: Seq<NodeId>,
)
    requires
        kids.len() <= usize::MAX,
        lists(a, v.dir as int, kids),
        is_ranking(order, kids.len() as int, lt),
        forall|x: int, y: int|
            0 <= x < kids.len() && 0 <= y < kids.len() ==> #[trigger] lt(x, y) == (match v.sort {
                SortBy::Size => credit(v.mode, a[kids[x] as int].c) > credit(
                    v.mode,
                    a[kids[y] as int].c,
                ),
                SortBy::Name => false,
                SortBy::Count => a[kids[x] as int].c.represented
                    > a[kids[y] as int].c.represented,
            }),
        e == placed_by(kids, order, v.reverse),
    ensures
        is_listing(v, a, e),
{
    let n = kids.len() as int;
    assert forall|j: int, k: int| 0 <= j < k < n implies ahead(
        v,
        a,
        kids[#[trigger] order[j] as int],
        kids[#[trigger] order[k] as int],
    ) by {
        let (x, y) = (order[j] as int, order[k] as int);
        assert(ranks(lt, x, y));
        assert(lt(x, y) == lt(x, y));
        assert(lt(y, x) == lt(y, x));
        if !lt(x, y) {
            assert(name_less(a[kids[x] as int].name, a[kids[y] as int].name));
        }
    }
    assert forall|k: int| 0 <= k < e.len() implies child_of(
        a,
        v.dir as int,
        #[trigger] e[k] as int,
    ) by {
        let at = order[if v.reverse {
            n - 1 - k
        } else {
            k
        }] as int;
        assert(child_of(a, v.dir as int, kids[at] as int));
    }
    assert forall|c: NodeId| #[trigger] child_of(a, v.dir as int, c as int) implies e.contains(
        c,
    ) by {
        assert(kids.contains(c));
        let x = choose|x: int| 0 <= x < kids.len() && kids[x] == c;
        assert(order.contains(x as usize));
        let k = choose|k: int| 0 <= k < order.len() && order[k] == x as usize;
        let at = if v.reverse {
            n - 1 - k
        } else {
            k
        };
        assert(e[at] == c);
    }
    assert forall|j: int, k: int| 0 <= j < k < e.len() implies above(
        v,
        a,
        #[trigger] e[j],
        #[trigger] e[k],
    ) by {
        if v.reverse {
            assert(ahead(
                v,
                a,
                kids[order[n - 1 - k] as int],
                kids[order[n - 1 - j] as int],
            ));
        } else {
            assert(ahead(v, a, kids[order[j] as int], kids[order[k] as int]));
        }
    }
}

} // verus!
