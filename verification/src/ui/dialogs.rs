//! The dialogs: what stands in them and where they go.

use vstd::prelude::*;

use crate::app::{App, Dialog, ExactState, Mode};
use crate::app::model::{fits, mode_name, AppView, DialogView};
use crate::stats::{count_text, fmt_count, fmt_size, size_text};
use crate::text::{
    concat, decimal, decimal_text, joined, lines, lines_of, owned, pad_left, padded_left, texts,
};
use crate::tree::{NodeId, Tree};
use crate::tree::model::{holds_subvol, path, NodeView};
use crate::ui::{
    colored, line_views, plain, push_line, push_raw, raw, raw_line, strong, styled, styled_line,
    Color, Line, SpanView, Style,
};

verus! {

/// A box over the screen.
pub struct Popup {
    pub title: String,
    pub lines: Vec<Line>,
    pub width: u16,
    pub border: Color,
}

/// A box over the screen.
#[verifier::ext_equal]
pub struct PopupView {
    pub title: Seq<char>,
    pub lines: Seq<Seq<SpanView>>,
    pub width: u16,
    pub border: Color,
}

impl View for Popup {
    type V = PopupView;

    open spec fn view(&self) -> PopupView {
        PopupView {
            title: self.title@,
            lines: line_views(self.lines@),
            width: self.width,
            border: self.border,
        }
    }
}

// ---- help ----

/// A line of help: the keys, and what they do.
pub open spec fn help_line(key: Seq<char>, text: Seq<char>, style: Style) -> Seq<SpanView> {
    seq![styled(padded_left(key, 22) + "  "@, style), raw(text)]
}

/// A line of help on a key.
pub open spec fn key_help(key: Seq<char>, text: Seq<char>) -> Seq<SpanView> {
    help_line(key, text, Style { bold: true, ..plain() })
}

/// A line of help on a mode.
pub open spec fn mode_help(m: Mode, text: Seq<char>) -> Seq<SpanView> {
    help_line(mode_name(m), text, colored(Color::Cyan))
}

/// The help.
pub open spec fn help_text() -> Seq<Seq<SpanView>> {
    seq![
        key_help("↑↓ j k PgUp PgDn g G"@, "move"@),
        key_help("→ l Enter"@, "open directory"@),
        key_help("← h Backspace"@, "parent directory"@),
        key_help("s / n / C"@, "sort by size / name / samples (again: reverse)"@),
        key_help("r"@, "reverse sort"@),
        key_help("m"@, "cycle size mode"@),
        key_help("c"@, "toggle Excl/Shared/Ratio columns"@),
        key_help("Space / u"@, "mark entry / clear marks"@),
        key_help("d"@, "delete marked entries (or the selected one)"@),
        key_help("i"@, "info pane (x there: exact size)"@),
        key_help("e"@, "export JSON"@),
        key_help("p"@, "pause/resume sampling"@),
        key_help("q"@, "quit"@),
        raw_line(""@),
        mode_help(Mode::Represented, "each sample counted once, at its canonical owner"@),
        mode_help(Mode::Distributed, "shared samples split evenly across owners"@),
        mode_help(Mode::Exclusive, "space freed if this entry were deleted"@),
        mode_help(Mode::Shared, "space this entry shares with paths outside it"@),
    ]
}

fn push_help(lines: &mut Vec<Line>, key: &str, text: &str, style: Style)
    ensures
        line_views(final(lines)@) == line_views(old(lines)@).push(help_line(key@, text@, style)),
{
    let mut l = Line::new();
    let k = concat(pad_left(key, 22).as_str(), "  ");
    l.push(k, style);
    l.push(owned(text), Style::new());
    assert(l@ =~= help_line(key@, text@, style));
    push_line(lines, l);
}

/// The help.
pub fn help_lines() -> (r: Vec<Line>)
    ensures
        line_views(r@) == help_text(),
{
    let key = Style::new().bold();
    let mode = Style::new().fg(Color::Cyan);
    let mut v: Vec<Line> = Vec::new();
    push_help(&mut v, "↑↓ j k PgUp PgDn g G", "move", key);
    push_help(&mut v, "→ l Enter", "open directory", key);
    push_help(&mut v, "← h Backspace", "parent directory", key);
    push_help(&mut v, "s / n / C", "sort by size / name / samples (again: reverse)", key);
    push_help(&mut v, "r", "reverse sort", key);
    push_help(&mut v, "m", "cycle size mode", key);
    push_help(&mut v, "c", "toggle Excl/Shared/Ratio columns", key);
    push_help(&mut v, "Space / u", "mark entry / clear marks", key);
    push_help(&mut v, "d", "delete marked entries (or the selected one)", key);
    push_help(&mut v, "i", "info pane (x there: exact size)", key);
    push_help(&mut v, "e", "export JSON", key);
    push_help(&mut v, "p", "pause/resume sampling", key);
    push_help(&mut v, "q", "quit", key);
    push_raw(&mut v, owned(""));
    push_help(
        &mut v,
        Mode::Represented.label(),
        "each sample counted once, at its canonical owner",
        mode,
    );
    push_help(
        &mut v,
        Mode::Distributed.label(),
        "shared samples split evenly across owners",
        mode,
    );
    push_help(&mut v, Mode::Exclusive.label(), "space freed if this entry were deleted", mode);
    push_help(
        &mut v,
        Mode::Shared.label(),
        "space this entry shares with paths outside it",
        mode,
    );
    assert(line_views(v@) =~= help_text());
    v
}

// ---- info ----

/// What is estimated for the entry that the info pane is about, by mode in the
/// order of [`Mode::ALL`].
pub struct InfoFigures {
    /// Compressed over uncompressed, with two digits after the point.
    pub ratio: Option<String>,
    pub sizes: [u64; 4],
    pub errors: [u64; 4],
}

/// The line on one mode.
pub open spec fn mode_figures(m: Mode, size: nat, error: nat) -> Seq<SpanView> {
    raw_line(
        padded_left(mode_name(m), 12) + "  "@ + padded_left(size_text(size), 10) + "  ± "@
            + size_text(error),
    )
}

/// The first lines on an entry.
pub open spec fn info_head(a: Seq<NodeView>, id: int, f: InfoFigures) -> Seq<Seq<SpanView>> {
    let n = a[id];
    seq![
        raw_line("Path:        /"@ + joined(path(a, id), seq!['/'])),
        raw_line(
            "Subvolume:   "@ + (if n.subvol {
                "yes (root)"@
            } else {
                "no"@
            }),
        ),
        raw_line("Samples:     "@ + count_text(n.c.represented)),
        raw_line(
            "Compression: "@ + (match f.ratio {
                Some(r) => r@ + " (disk / uncompressed)"@,
                None => "-"@,
            }),
        ),
        raw_line(""@),
        mode_figures(Mode::Represented, f.sizes[0] as nat, f.errors[0] as nat),
        mode_figures(Mode::Distributed, f.sizes[1] as nat, f.errors[1] as nat),
        mode_figures(Mode::Exclusive, f.sizes[2] as nat, f.errors[2] as nat),
        mode_figures(Mode::Shared, f.sizes[3] as nat, f.errors[3] as nat),
    ]
}

/// A path as a line of a list.
pub open spec fn path_line(p: Seq<char>) -> Seq<SpanView> {
    raw_line("  /"@ + p)
}

/// The lines on whom an entry shares extents with.
pub open spec fn info_sharers(sharers: Seq<Seq<char>>) -> Seq<Seq<SpanView>> {
    if sharers.len() == 0 {
        Seq::empty()
    } else {
        seq![raw_line(""@), raw_line("Shares extents with:"@)] + sharers.map_values(
            |p: Seq<char>| path_line(p),
        )
    }
}

/// The line on the exact size.
pub open spec fn exact_line(v: AppView, id: NodeId) -> Seq<SpanView> {
    if v.exact.dom().contains(id) {
        match v.exact[id] {
            ExactState::Running => styled_line(
                "Exact size: computing…"@,
                colored(Color::Yellow),
            ),
            ExactState::Failed(e) => styled_line(
                "Exact size failed: "@ + e@,
                colored(Color::Red),
            ),
            ExactState::Done(e) => raw_line(
                "Exact: disk "@ + size_text(e.disk as nat) + " · uncompressed "@ + size_text(
                    e.uncompressed as nat,
                ) + " · referenced "@ + size_text(e.referenced as nat) + " · "@ + count_text(
                    e.files as nat,
                ) + " files"@,
            ),
        }
    } else if v.live {
        styled_line("Exact size: press x to compute"@, colored(Color::DarkGray))
    } else {
        styled_line("Exact size: unavailable in --import mode"@, colored(Color::DarkGray))
    }
}

/// The lines on an entry.
pub open spec fn info_text(
    v: AppView,
    a: Seq<NodeView>,
    id: NodeId,
    f: InfoFigures,
) -> Seq<Seq<SpanView>> {
    info_head(a, id as int, f) + info_sharers(a[id as int].sharers) + seq![
        raw_line(""@),
        exact_line(v, id),
    ]
}

fn push_mode_figures(lines: &mut Vec<Line>, m: Mode, size: u64, error: u64)
    ensures
        line_views(final(lines)@) == line_views(old(lines)@).push(
            mode_figures(m, size as nat, error as nat),
        ),
{
    let mut s = pad_left(m.label(), 12);
    s.append("  ");
    s.append(pad_left(fmt_size(size).as_str(), 10).as_str());
    s.append("  ± ");
    s.append(fmt_size(error).as_str());
    push_raw(lines, s);
}

fn exact_text(app: &App, id: NodeId) -> (r: Line)
    ensures
        r@ == exact_line(app@, id),
{
    match app.exact.get(&id) {
        None => {
            if app.live {
                Line::styled(
                    owned("Exact size: press x to compute"),
                    Style::new().fg(Color::DarkGray),
                )
            } else {
                Line::styled(
                    owned("Exact size: unavailable in --import mode"),
                    Style::new().fg(Color::DarkGray),
                )
            }
        },
        Some(state) => match state {
            ExactState::Running => Line::styled(
                owned("Exact size: computing…"),
                Style::new().fg(Color::Yellow),
            ),
            ExactState::Failed(e) => Line::styled(
                concat("Exact size failed: ", e.as_str()),
                Style::new().fg(Color::Red),
            ),
            ExactState::Done(e) => {
                let mut s = concat("Exact: disk ", fmt_size(e.disk).as_str());
                s.append(" · uncompressed ");
                s.append(fmt_size(e.uncompressed).as_str());
                s.append(" · referenced ");
                s.append(fmt_size(e.referenced).as_str());
                s.append(" · ");
                s.append(fmt_count(e.files).as_str());
                s.append(" files");
                Line::raw(s)
            },
        },
    }
}

/// Adds the lines on whom an entry shares extents with.
fn push_sharers(lines: &mut Vec<Line>, sharers: &Vec<String>)
    ensures
        line_views(final(lines)@) == line_views(old(lines)@) + info_sharers(texts(sharers@)),
{
    let ghost was = line_views(lines@);
    let ghost ps = texts(sharers@);
    let ghost goal = info_sharers(ps);
    assert(ps.len() == sharers@.len());
    if sharers.len() == 0 {
        assert(was + goal =~= was);
        return ;
    }
    push_raw(lines, owned(""));
    push_raw(lines, owned("Shares extents with:"));
    assert(line_views(lines@) =~= was + goal.take(2));
    let mut i: usize = 0;
    while i < sharers.len()
        invariant
            i <= sharers@.len(),
            ps == texts(sharers@),
            goal == seq![raw_line(""@), raw_line("Shares extents with:"@)] + ps.map_values(
                |p: Seq<char>| path_line(p),
            ),
            line_views(lines@) == was + goal.take(i + 2),
        decreases sharers@.len() - i,
    {
        assert(ps[i as int] == sharers@[i as int]@);
        assert(goal[i + 2] == path_line(ps[i as int]));
        assert(goal.take(i + 3) =~= goal.take(i + 2).push(goal[i + 2]));
        push_raw(lines, concat("  /", sharers[i].as_str()));
        assert(line_views(lines@) =~= was + goal.take(i + 3));
        i += 1;
    }
    assert(goal.take(goal.len() as int) =~= goal);
}

/// The lines on an entry.
pub fn info_lines(app: &App, t: &Tree, id: NodeId, f: &InfoFigures) -> (r: Vec<Line>)
    requires
        t.wf(),
        id < t@.nodes.len(),
    ensures
        line_views(r@) == info_text(app@, t@.nodes, id, *f),
{
    let n = t.node(id);
    let mut v: Vec<Line> = Vec::new();
    assert(line_views(v@) =~= Seq::<Seq<SpanView>>::empty());
    push_raw(&mut v, concat("Path:        /", t.path_of(id).as_str()));
    push_raw(
        &mut v,
        concat(
            "Subvolume:   ",
            if n.subvol {
                "yes (root)"
            } else {
                "no"
            },
        ),
    );
    push_raw(&mut v, concat("Samples:     ", fmt_count(n.c.represented).as_str()));
    let compression = match &f.ratio {
        Some(x) => concat(x.as_str(), " (disk / uncompressed)"),
        None => owned("-"),
    };
    push_raw(&mut v, concat("Compression: ", compression.as_str()));
    push_raw(&mut v, owned(""));
    push_mode_figures(&mut v, Mode::Represented, f.sizes[0], f.errors[0]);
    push_mode_figures(&mut v, Mode::Distributed, f.sizes[1], f.errors[1]);
    push_mode_figures(&mut v, Mode::Exclusive, f.sizes[2], f.errors[2]);
    push_mode_figures(&mut v, Mode::Shared, f.sizes[3], f.errors[3]);
    assert(line_views(v@) =~= info_head(t@.nodes, id as int, *f));
    push_sharers(&mut v, &n.sharers);
    push_raw(&mut v, owned(""));
    push_line(&mut v, exact_text(app, id));
    assert(line_views(v@) =~= info_text(app@, t@.nodes, id, *f));
    v
}

// ---- confirmation ----

/// How many targets are listed.
pub const LISTED: usize = 10;

/// How many of `ids` are or hold a subvolume.
pub open spec fn subvol_count(a: Seq<NodeView>, ids: Seq<NodeId>) -> nat
    decreases ids.len(),
{
    if ids.len() == 0 {
        0
    } else {
        subvol_count(a, ids.drop_last()) + (if holds_subvol(a, ids.last() as int) {
            1nat
        } else {
            0nat
        })
    }
}

/// The targets that are listed.
pub open spec fn target_lines(a: Seq<NodeView>, ids: Seq<NodeId>) -> Seq<Seq<SpanView>> {
    let few = if ids.len() <= 10 {
        ids
    } else {
        ids.take(10)
    };
    let more = if ids.len() <= 10 {
        Seq::empty()
    } else {
        seq![raw_line("  … and "@ + decimal((ids.len() - 10) as nat) + " more"@)]
    };
    few.map_values(|id: NodeId| path_line(joined(path(a, id as int), seq!['/']))) + more
}

/// What is to be pressed, and what is at stake.
pub open spec fn confirm_tail(a: Seq<NodeView>, ids: Seq<NodeId>, stage: u8) -> Seq<
    Seq<SpanView>,
> {
    if stage == 2 {
        seq![
            styled_line(
                "⚠ "@ + decimal(subvol_count(a, ids))
                    + " target(s) are or contain btrfs subvolumes; they will be destroyed."@,
                strong(Color::Red),
            ),
            raw_line("Press y again to confirm, any other key to cancel."@),
        ]
    } else {
        seq![raw_line("[y] delete   [any other key] cancel"@)]
    }
}

/// The confirmation of a deletion that frees about so many bytes.
pub open spec fn confirm_text(
    a: Seq<NodeView>,
    ids: Seq<NodeId>,
    stage: u8,
    freed: nat,
) -> Seq<Seq<SpanView>> {
    seq![
        raw_line(
            "Delete "@ + decimal(ids.len()) + " item(s)? About "@ + size_text(freed)
                + " would be freed (exclusive estimate)."@,
        ),
        raw_line(""@),
    ] + target_lines(a, ids) + seq![raw_line(""@)] + confirm_tail(a, ids, stage)
}

fn count_subvols(t: &Tree, ids: &Vec<NodeId>) -> (r: usize)
    requires
        t.wf(),
        forall|k: int| 0 <= k < ids@.len() ==> (#[trigger] ids@[k]) < t@.nodes.len(),
    ensures
        r == subvol_count(t@.nodes, ids@),
{
    let total = ids.len();
    let mut n: usize = 0;
    let mut i: usize = 0;
    assert(ids@.take(0) =~= Seq::<NodeId>::empty());
    while i < total
        invariant
            t.wf(),
            total == ids@.len(),
            forall|k: int| 0 <= k < ids@.len() ==> (#[trigger] ids@[k]) < t@.nodes.len(),
            i <= total,
            n <= i,
            n == subvol_count(t@.nodes, ids@.take(i as int)),
        decreases total - i,
    {
        assert(ids@.take(i + 1).drop_last() =~= ids@.take(i as int));
        if t.has_subvol(ids[i]) {
            n += 1;
        }
        i += 1;
    }
    assert(ids@.take(ids@.len() as int) =~= ids@);
    n
}

fn push_targets(lines: &mut Vec<Line>, t: &Tree, ids: &Vec<NodeId>)
    requires
        t.wf(),
        forall|k: int| 0 <= k < ids@.len() ==> (#[trigger] ids@[k]) < t@.nodes.len(),
    ensures
        line_views(final(lines)@) == line_views(old(lines)@) + target_lines(t@.nodes, ids@),
{
    let ghost was = line_views(lines@);
    let n = if ids.len() <= LISTED {
        ids.len()
    } else {
        LISTED
    };
    let ghost few = ids@.take(n as int);
    let ghost goal = few.map_values(
        |id: NodeId| path_line(joined(path(t@.nodes, id as int), seq!['/'])),
    );
    assert(ids@.len() <= 10 ==> few =~= ids@);
    let mut i: usize = 0;
    assert(was + goal.take(0) =~= was);
    while i < n
        invariant
            t.wf(),
            forall|k: int| 0 <= k < ids@.len() ==> (#[trigger] ids@[k]) < t@.nodes.len(),
            i <= n <= ids@.len(),
            few == ids@.take(n as int),
            goal == few.map_values(
                |id: NodeId| path_line(joined(path(t@.nodes, id as int), seq!['/'])),
            ),
            line_views(lines@) == was + goal.take(i as int),
        decreases n - i,
    {
        assert(few[i as int] == ids@[i as int]);
        assert(goal.take(i + 1) =~= goal.take(i as int).push(goal[i as int]));
        push_raw(lines, concat("  /", t.path_of(ids[i]).as_str()));
        assert(line_views(lines@) =~= was + goal.take(i + 1));
        i += 1;
    }
    assert(goal.take(goal.len() as int) =~= goal);
    if ids.len() > LISTED {
        let mut s = concat("  … and ", decimal_text((ids.len() - LISTED) as u64).as_str());
        s.append(" more");
        push_raw(lines, s);
    }
    assert(line_views(lines@) =~= was + target_lines(t@.nodes, ids@));
}

/// The confirmation of a deletion that frees about so many bytes.
pub fn confirm_lines(t: &Tree, ids: &Vec<NodeId>, stage: u8, freed: u64) -> (r: Vec<Line>)
    requires
        t.wf(),
        forall|k: int| 0 <= k < ids@.len() ==> (#[trigger] ids@[k]) < t@.nodes.len(),
    ensures
        line_views(r@) == confirm_text(t@.nodes, ids@, stage, freed as nat),
{
    let mut v: Vec<Line> = Vec::new();
    assert(line_views(v@) =~= Seq::<Seq<SpanView>>::empty());
    let mut s = concat("Delete ", decimal_text(ids.len() as u64).as_str());
    s.append(" item(s)? About ");
    s.append(fmt_size(freed).as_str());
    s.append(" would be freed (exclusive estimate).");
    push_raw(&mut v, s);
    push_raw(&mut v, owned(""));
    push_targets(&mut v, t, ids);
    push_raw(&mut v, owned(""));
    if stage == 2 {
        let mut w = concat("⚠ ", decimal_text(count_subvols(t, ids) as u64).as_str());
        w.append(" target(s) are or contain btrfs subvolumes; they will be destroyed.");
        push_line(&mut v, Line::styled(w, Style::new().fg(Color::Red).bold()));
        push_raw(&mut v, owned("Press y again to confirm, any other key to cancel."));
    } else {
        push_raw(&mut v, owned("[y] delete   [any other key] cancel"));
    }
    assert(line_views(v@) =~= confirm_text(t@.nodes, ids@, stage, freed as nat));
    v
}

// ---- export and messages ----

/// The question for a file name.
pub open spec fn export_text(input: Seq<char>) -> Seq<Seq<SpanView>> {
    seq![
        raw_line("File: "@ + input + "█"@),
        raw_line(""@),
        raw_line("Enter: save   Esc: cancel"@),
    ]
}

/// The question for a file name.
pub fn export_lines(input: &str) -> (r: Vec<Line>)
    ensures
        line_views(r@) == export_text(input@),
{
    let mut v: Vec<Line> = Vec::new();
    assert(line_views(v@) =~= Seq::<Seq<SpanView>>::empty());
    let s = concat("File: ", input);
    push_raw(&mut v, concat(s.as_str(), "█"));
    push_raw(&mut v, owned(""));
    push_raw(&mut v, owned("Enter: save   Esc: cancel"));
    assert(line_views(v@) =~= export_text(input@));
    v
}

/// A message, line by line.
pub open spec fn message_text(text: Seq<char>) -> Seq<Seq<SpanView>> {
    lines(text).map_values(|l: Seq<char>| raw_line(l))
}

/// A message, line by line.
pub fn message_lines(text: &str) -> (r: Vec<Line>)
    ensures
        line_views(r@) == message_text(text@),
{
    let all = lines_of(text);
    let ghost goal = message_text(text@);
    let mut v: Vec<Line> = Vec::new();
    let mut i: usize = 0;
    assert(line_views(v@) =~= goal.take(0));
    while i < all.len()
        invariant
            i <= all@.len(),
            texts(all@) == lines(text@),
            goal == lines(text@).map_values(|l: Seq<char>| raw_line(l)),
            line_views(v@) == goal.take(i as int),
        decreases all@.len() - i,
    {
        assert(texts(all@)[i as int] == all@[i as int]@);
        assert(goal.take(i + 1) =~= goal.take(i as int).push(goal[i as int]));
        push_raw(&mut v, owned(all[i].as_str()));
        i += 1;
    }
    assert(texts(all@).len() == all@.len());
    assert(goal.take(goal.len() as int) =~= goal);
    v
}

// ---- the dialog that is open ----

/// What the open dialog needs to have estimated.
pub struct DialogFigures {
    /// For the info pane.
    pub info: InfoFigures,
    /// For the confirmation of a deletion: how many bytes it frees.
    pub freed: u64,
}

/// The dialog that is open.
pub open spec fn dialog_view(
    v: AppView,
    a: Seq<NodeView>,
    f: DialogFigures,
) -> Option<PopupView> {
    match v.dialog {
        DialogView::Closed => None,
        DialogView::Help => Some(
            PopupView { title: "Help"@, lines: help_text(), width: 76, border: Color::Cyan },
        ),
        DialogView::Info { node } => Some(
            PopupView {
                title: "Info"@,
                lines: info_text(v, a, node, f.info),
                width: 80,
                border: Color::Cyan,
            },
        ),
        DialogView::Confirm { targets, stage } => Some(
            PopupView {
                title: "Confirm delete"@,
                lines: confirm_text(a, targets, stage, f.freed as nat),
                width: 80,
                border: Color::Red,
            },
        ),
        DialogView::Export { input } => Some(
            PopupView {
                title: "Export"@,
                lines: export_text(input),
                width: 70,
                border: Color::Cyan,
            },
        ),
        DialogView::Message { title, text } => Some(
            PopupView { title, lines: message_text(text), width: 80, border: Color::Yellow },
        ),
    }
}

/// The dialog that is open, if any.
pub fn dialog(app: &App, t: &Tree, f: &DialogFigures) -> (r: Option<Popup>)
    requires
        t.wf(),
        fits(app@, t@.nodes.len()),
    ensures
        match r {
            Some(p) => dialog_view(app@, t@.nodes, *f) == Some(p@),
            None => dialog_view(app@, t@.nodes, *f) is None,
        },
{
    match &app.dialog {
        Dialog::Closed => None,
        Dialog::Help => Some(
            Popup { title: owned("Help"), lines: help_lines(), width: 76, border: Color::Cyan },
        ),
        Dialog::Info { node } => Some(
            Popup {
                title: owned("Info"),
                lines: info_lines(app, t, *node, &f.info),
                width: 80,
                border: Color::Cyan,
            },
        ),
        Dialog::Confirm { targets, stage } => Some(
            Popup {
                title: owned("Confirm delete"),
                lines: confirm_lines(t, targets, *stage, f.freed),
                width: 80,
                border: Color::Red,
            },
        ),
        Dialog::Export { input } => Some(
            Popup {
                title: owned("Export"),
                lines: export_lines(input.as_str()),
                width: 70,
                border: Color::Cyan,
            },
        ),
        Dialog::Message { title, text } => Some(
            Popup {
                title: owned(title.as_str()),
                lines: message_lines(text.as_str()),
                width: 80,
                border: Color::Yellow,
            },
        ),
    }
}

// ---- where a box goes ----

/// A part of the screen.
#[derive(Clone, Copy, PartialEq, Eq, Debug, Structural)]
pub struct Area {
    pub x: u16,
    pub y: u16,
    pub width: u16,
    pub height: u16,
}

/// How many columns a text takes on a terminal.
pub uninterp spec fn text_width(s: Seq<char>) -> nat;

/// The width of a [`ratatui::text::Span`]: how many columns its text takes on a
/// terminal. How that follows from the characters has a name, and is not said.
#[verifier::external_body]
fn span_width(s: &str) -> (r: usize)
    ensures
        r == text_width(s@),
{
    ratatui::text::Span::raw(s).width()
}

/// How many columns a line takes.
pub open spec fn line_width(l: Seq<SpanView>) -> nat
    decreases l.len(),
{
    if l.len() == 0 {
        0
    } else {
        line_width(l.drop_last()) + text_width(l.last().text)
    }
}

/// How many rows a line of so many columns takes between borders.
pub open spec fn rows_of(width: nat, inner: nat) -> nat {
    let w = if width > 0 {
        width
    } else {
        1
    };
    ((w + inner - 1) / inner as int) as nat
}

/// How many rows lines of so many columns take together.
pub open spec fn total_rows(widths: Seq<nat>, inner: nat) -> nat
    decreases widths.len(),
{
    if widths.len() == 0 {
        0
    } else {
        total_rows(widths.drop_last(), inner) + rows_of(widths.last(), inner)
    }
}

/// The smaller of two numbers.
pub open spec fn least(x: int, y: int) -> int {
    if x < y {
        x
    } else {
        y
    }
}

/// Where a box for lines of so many columns goes: in the middle, as high as the
/// lines take, the count of rows being kept in 16 bits.
pub open spec fn centered(area: Area, widths: Seq<nat>, width: u16) -> Area {
    let w = least(width as int, area.width as int);
    let inner = if w > 3 {
        (w - 2) as nat
    } else {
        1
    };
    let rows = (total_rows(widths, inner) % 0x1_0000) as int;
    let h = least(least(rows + 2, 0xffff), area.height as int);
    Area {
        x: (area.x + (area.width - w) / 2) as u16,
        y: (area.y + (area.height - h) / 2) as u16,
        width: w as u16,
        height: h as u16,
    }
}

/// The columns that lines take.
pub open spec fn line_widths(l: Seq<Seq<SpanView>>) -> Seq<nat> {
    l.map_values(|l: Seq<SpanView>| line_width(l))
}

/// The numbers.
pub open spec fn as_nats(v: Seq<u128>) -> Seq<nat> {
    v.map_values(|x: u128| x as nat)
}

/// Where a box for lines of so many columns goes.
#[verifier::spinoff_prover]
pub fn popup_area(area: Area, widths: &Vec<u128>, width: u16) -> (r: Area)
    requires
        area.x + area.width <= u16::MAX,
        area.y + area.height <= u16::MAX,
    ensures
        r == centered(area, as_nats(widths@), width),
        area.x <= r.x && r.x + r.width <= area.x + area.width,
        area.y <= r.y && r.y + r.height <= area.y + area.height,
{
    let w = if width < area.width {
        width
    } else {
        area.width
    };
    let inner: u128 = if w > 3 {
        (w - 2) as u128
    } else {
        1
    };
    let ghost all = as_nats(widths@);
    let mut rows: u128 = 0;
    let mut i: usize = 0;
    assert(all.take(0) =~= Seq::<nat>::empty());
    while i < widths.len()
        invariant
            i <= widths@.len(),
            inner > 0,
            all == as_nats(widths@),
            rows < 0x1_0000,
            rows == total_rows(all.take(i as int), inner as nat) % 0x1_0000,
        decreases widths@.len() - i,
    {
        let need = rows_needed(widths[i], inner);
        proof {
            assert(all.take(i + 1).drop_last() =~= all.take(i as int));
            assert(all.take(i + 1).last() == widths@[i as int]);
            lemma_sum_kept(total_rows(all.take(i as int), inner as nat), need as nat);
        }
        rows = (rows + need % 0x1_0000) % 0x1_0000;
        i += 1;
    }
    assert(all.take(all.len() as int) =~= all);
    let tall: u32 = rows as u32 + 2;
    let h = if tall < area.height as u32 {
        tall as u16
    } else {
        area.height
    };
    Area {
        x: area.x + (area.width - w) / 2,
        y: area.y + (area.height - h) / 2,
        width: w,
        height: h,
    }
}

/// How many rows a line of so many columns takes between borders.
fn rows_needed(width: u128, inner: u128) -> (r: u128)
    requires
        inner > 0,
    ensures
        r == rows_of(width as nat, inner as nat),
{
    let n = if width > 0 {
        width
    } else {
        1
    };
    proof {
        lemma_rows_of(n as int, inner as int);
    }
    if n % inner > 0 {
        proof {
            lemma_quotient_small(n as int, inner as int);
        }
        n / inner + 1
    } else {
        n / inner
    }
}

/// A sum can be kept in 16 bits step by step.
proof fn lemma_sum_kept(x: nat, y: nat)
    ensures
        (x % 0x1_0000 + y % 0x1_0000) % 0x1_0000 == (x + y) % 0x1_0000,
{
}

proof fn lemma_rows_of(n: int, inner: int)
    requires
        n > 0,
        inner > 0,
    ensures
        (n + inner - 1) / inner == n / inner + (if n % inner > 0 {
            1int
        } else {
            0int
        }),
{
    let (q, r) = (n / inner, n % inner);
    assert(n == q * inner + r && 0 <= r < inner) by (nonlinear_arith)
        requires
            q == n / inner,
            r == n % inner,
            inner > 0,
    ;
    if r > 0 {
        assert((n + inner - 1) / inner == q + 1) by (nonlinear_arith)
            requires
                n == q * inner + r,
                0 < r < inner,
    ;
    } else {
        assert((n + inner - 1) / inner == q) by (nonlinear_arith)
            requires
                n == q * inner,
                inner > 0,
        ;
    }
}

proof fn lemma_quotient_small(n: int, inner: int)
    requires
        0 <= n <= u128::MAX,
        inner > 0,
        n % inner > 0,
    ensures
        n / inner < u128::MAX,
{
    assert(n / inner < u128::MAX) by (nonlinear_arith)
        requires
            0 <= n <= u128::MAX,
            inner > 0,
            n % inner > 0,
    ;
}

fn width_of(l: &Line) -> (r: u128)
    ensures
        r == line_width(l@),
{
    let n = l.spans.len();
    let mut sum: u128 = 0;
    let mut i: usize = 0;
    assert(l@.take(0) =~= Seq::<SpanView>::empty());
    while i < n
        invariant
            n == l.spans@.len(),
            i <= n,
            sum == line_width(l@.take(i as int)),
            sum <= i * 0xffff_ffff_ffff_ffff,
        decreases n - i,
    {
        assert(l@.take(i + 1).drop_last() =~= l@.take(i as int));
        let w = span_width(l.spans[i].text.as_str());
        assert(i * 0xffff_ffff_ffff_ffff + 0xffff_ffff_ffff_ffff <= u128::MAX);
        sum = sum + w as u128;
        i += 1;
    }
    assert(l@.take(l@.len() as int) =~= l@);
    sum
}

/// Where a box goes on a screen.
pub fn popup(area: Area, p: &Popup) -> (r: Area)
    requires
        area.x + area.width <= u16::MAX,
        area.y + area.height <= u16::MAX,
    ensures
        r == centered(area, line_widths(p@.lines), p@.width),
        area.x <= r.x && r.x + r.width <= area.x + area.width,
        area.y <= r.y && r.y + r.height <= area.y + area.height,
{
    let ghost goal = line_widths(p@.lines);
    let mut widths: Vec<u128> = Vec::new();
    let mut i: usize = 0;
    while i < p.lines.len()
        invariant
            i <= p.lines@.len(),
            goal == line_widths(line_views(p.lines@)),
            widths@.len() == i,
            forall|k: int| 0 <= k < i ==> #[trigger] widths@[k] == goal[k],
        decreases p.lines@.len() - i,
    {
        assert(line_views(p.lines@)[i as int] == p.lines@[i as int]@);
        widths.push(width_of(&p.lines[i]));
        i += 1;
    }
    assert(as_nats(widths@) =~= goal);
    popup_area(area, &widths, p.width)
}

} // verus!
