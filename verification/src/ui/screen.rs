//! The lines around the table, and the table.

use vstd::prelude::*;

use crate::app::{count_marks, has_entries, is_marked, marked_nodes, App, Mode, SortBy};
use crate::app::model::{cursor_row, fits, is_listing, listing, live_marks, mode_name, AppView};
use crate::export::Meta;
use crate::stats::{count_text, fmt_count, fmt_size, size_text};
use crate::text::{
    concat, decimal, decimal_text, join_text, joined, owned, pad_left, padded_left, push_repeated,
    repeated, split, split_text, starts_with_char, texts,
};
use crate::tree::{NodeId, Tree};
use crate::tree::model::{child_of, path, NodeView};
use crate::ui::{
    colored, line_views, plain, push_line, raw, strong, styled, Color, Line, SpanView, Style,
};

verus! {

/// How many columns the inside of a bar takes.
pub const BAR: usize = 20;

// ---- the first line ----

/// Where the interface is, as a trail of names.
pub open spec fn crumbs(path: Seq<char>) -> Seq<char> {
    if path.len() == 0 {
        Seq::empty()
    } else {
        " ▸ "@ + joined(split(path, '/'), " ▸ "@)
    }
}

/// The left of the first line.
pub open spec fn title_spans(device: Seq<char>, path: Seq<char>) -> Seq<SpanView> {
    seq![
        styled(" btdua "@, Style { bold: true, reversed: true, ..plain() }),
        raw("  "@ + device + crumbs(path)),
    ]
}

/// What the program is doing.
pub open spec fn activity(v: AppView) -> SpanView {
    if !v.live {
        styled("◆ imported"@, colored(Color::Cyan))
    } else if v.deleting > 0 {
        styled("✖ deleting "@ + decimal(v.deleting as nat), colored(Color::Red))
    } else if v.paused {
        styled("‖ paused"@, colored(Color::Yellow))
    } else {
        styled("● sampling"@, colored(Color::Green))
    }
}

/// The right of the first line, with the relative error in percent.
pub open spec fn status_spans(v: AppView, samples: nat, rel: Seq<char>) -> Seq<SpanView> {
    seq![
        raw("samples "@ + count_text(samples) + "  ±"@ + rel + "%  "@),
        activity(v),
        raw(" "@),
    ]
}

/// The two ends of a line.
pub struct Ends {
    pub left: Line,
    pub right: Line,
}

/// The first line, with the relative error in percent.
pub fn header(app: &App, t: &Tree, meta: &Meta, rel: &str) -> (r: Ends)
    requires
        t.wf(),
        app@.dir < t@.nodes.len(),
    ensures
        r.left@ == title_spans(
            meta.device@,
            joined(path(t@.nodes, app@.dir as int), seq!['/']),
        ),
        r.right@ == status_spans(app@, t@.total_samples, rel@),
{
    let trail = t.path_of(app.dir);
    let mut place = concat("  ", meta.device.as_str());
    if !trail.as_str().is_empty() {
        let parts = split_text(trail.as_str(), '/');
        place.append(" ▸ ");
        place.append(join_text(&parts, " ▸ ").as_str());
    }
    assert(place@ =~= "  "@ + meta.device@ + crumbs(trail@));
    let mut left = Line::new();
    left.push(owned(" btdua "), Style::new().bold().reversed());
    left.push(place, Style::new());
    assert(left@ =~= title_spans(meta.device@, trail@));
    let mut count = concat("samples ", fmt_count(t.samples()).as_str());
    count.append("  ±");
    count.append(rel);
    count.append("%  ");
    assert(count@ =~= "samples "@ + count_text(t@.total_samples) + "  ±"@ + rel@ + "%  "@);
    let mut right = Line::new();
    right.push(count, Style::new());
    if !app.live {
        right.push(owned("◆ imported"), Style::new().fg(Color::Cyan));
    } else if app.deleting > 0 {
        right.push(
            concat("✖ deleting ", decimal_text(app.deleting as u64).as_str()),
            Style::new().fg(Color::Red),
        );
    } else if app.paused {
        right.push(owned("‖ paused"), Style::new().fg(Color::Yellow));
    } else {
        right.push(owned("● sampling"), Style::new().fg(Color::Green));
    }
    right.push(owned(" "), Style::new());
    assert(right@ =~= status_spans(app@, t@.total_samples, rel@));
    Ends { left, right }
}

// ---- the second line ----

/// What the sorting is by.
pub open spec fn sort_name(s: SortBy) -> Seq<char> {
    match s {
        SortBy::Size => "size"@,
        SortBy::Name => "name"@,
        SortBy::Count => "samples"@,
    }
}

/// A mode in the list of modes; the current one stands out.
pub open spec fn mode_span(current: Mode, m: Mode) -> SpanView {
    if m == current {
        styled("["@ + mode_name(m) + "]"@, strong(Color::Cyan))
    } else {
        styled(mode_name(m), colored(Color::DarkGray))
    }
}

/// The second line.
pub open spec fn mode_spans(v: AppView) -> Seq<SpanView> {
    let arrow = if v.reverse {
        "↑"@
    } else {
        "↓"@
    };
    seq![
        raw(" Sort: "@ + sort_name(v.sort) + " "@ + arrow + "   Mode:"@),
        raw(" "@),
        mode_span(v.mode, Mode::Represented),
        raw(" "@),
        mode_span(v.mode, Mode::Distributed),
        raw(" "@),
        mode_span(v.mode, Mode::Exclusive),
        raw(" "@),
        mode_span(v.mode, Mode::Shared),
    ]
}

fn push_mode(line: &mut Line, current: Mode, m: Mode)
    ensures
        final(line)@ == old(line)@.push(raw(" "@)).push(mode_span(current, m)),
{
    line.push(owned(" "), Style::new());
    if m == current {
        let name = concat("[", m.label());
        line.push(concat(name.as_str(), "]"), Style::new().bold().fg(Color::Cyan));
    } else {
        line.push(owned(m.label()), Style::new().fg(Color::DarkGray));
    }
}

/// The second line: how the table is sorted, and which mode it shows.
pub fn mode_line(app: &App) -> (r: Line)
    ensures
        r@ == mode_spans(app@),
{
    let sort = match app.sort {
        SortBy::Size => "size",
        SortBy::Name => "name",
        SortBy::Count => "samples",
    };
    let arrow = if app.reverse {
        "↑"
    } else {
        "↓"
    };
    let mut text = concat(" Sort: ", sort);
    text.append(" ");
    text.append(arrow);
    text.append("   Mode:");
    assert(text@ =~= mode_spans(app@)[0].text);
    let mut line = Line::new();
    line.push(text, Style::new());
    push_mode(&mut line, app.mode, Mode::Represented);
    push_mode(&mut line, app.mode, Mode::Distributed);
    push_mode(&mut line, app.mode, Mode::Exclusive);
    push_mode(&mut line, app.mode, Mode::Shared);
    assert(line@ =~= mode_spans(app@));
    line
}

/// How many samples are exclusive to `ids`, together.
pub open spec fn exclusive_sum(a: Seq<NodeView>, ids: Seq<NodeId>) -> nat
    decreases ids.len(),
{
    if ids.len() == 0 {
        0
    } else {
        exclusive_sum(a, ids.drop_last()) + a[ids.last() as int].c.exclusive
    }
}

/// How many samples are exclusive to `ids`, together.
pub fn exclusive_of(t: &Tree, ids: &Vec<NodeId>) -> (r: u128)
    requires
        t.wf(),
        forall|k: int| 0 <= k < ids@.len() ==> (#[trigger] ids@[k]) < t@.nodes.len(),
    ensures
        r == exclusive_sum(t@.nodes, ids@),
{
    let n = ids.len();
    let mut sum: u128 = 0;
    let mut i: usize = 0;
    assert(ids@.take(0) =~= Seq::<NodeId>::empty());
    while i < n
        invariant
            t.wf(),
            n == ids@.len(),
            forall|k: int| 0 <= k < ids@.len() ==> (#[trigger] ids@[k]) < t@.nodes.len(),
            i <= n,
            sum == exclusive_sum(t@.nodes, ids@.take(i as int)),
            sum <= i * 0xffff_ffff_ffff_ffff,
        decreases n - i,
    {
        assert(ids@.take(i + 1).drop_last() =~= ids@.take(i as int));
        let c = t.node(ids[i]).c.exclusive;
        assert(i * 0xffff_ffff_ffff_ffff + 0xffff_ffff_ffff_ffff <= u128::MAX);
        sum = sum + c as u128;
        i += 1;
    }
    assert(ids@.take(ids@.len() as int) =~= ids@);
    sum
}

/// How many samples are exclusive to the marked entries, together.
pub fn marked_exclusive(app: &App, t: &Tree) -> (r: u128)
    requires
        t.wf(),
        fits(app@, t@.nodes.len()),
    ensures
        r == exclusive_sum(t@.nodes, live_marks(app@.marks, t@.nodes, t@.nodes.len())),
{
    proof {
        assert forall|id: NodeId| #[trigger] app.marks@.contains(id) implies id
            < t@.nodes.len() by {
            assert(app@.marks.contains(id));
        }
    }
    let ids = marked_nodes(&app.marks, t);
    exclusive_of(t, &ids)
}

/// The right of the second line: how many entries are marked, and how much is
/// exclusive to them. Nothing where none is marked.
pub fn marks_line(app: &App, excl: u64) -> (r: Option<Line>)
    ensures
        (r is Some) == (app@.marks.len() > 0),
        r matches Some(l) ==> l@ == seq![
            styled(
                decimal(app@.marks.len()) + " marked · "@ + size_text(excl as nat) + " excl "@,
                strong(Color::Yellow),
            ),
        ],
{
    let n = count_marks(&app.marks);
    if n == 0 {
        return None;
    }
    let mut text = decimal_text(n as u64);
    text.append(" marked · ");
    text.append(fmt_size(excl).as_str());
    text.append(" excl ");
    assert(text@ =~= decimal(app@.marks.len()) + " marked · "@ + size_text(excl as nat)
        + " excl "@);
    Some(Line::single(text, Style::new().fg(Color::Yellow).bold()))
}

// ---- the bar ----

/// An eighth of a block and so on, up to seven eighths.
pub open spec fn part(eighths: nat) -> char {
    if eighths == 1 {
        '▏'
    } else if eighths == 2 {
        '▎'
    } else if eighths == 3 {
        '▍'
    } else if eighths == 4 {
        '▌'
    } else if eighths == 5 {
        '▋'
    } else if eighths == 6 {
        '▊'
    } else if eighths == 7 {
        '▉'
    } else {
        ' '
    }
}

/// A bar filled to so many eighths of a column.
pub open spec fn bar_text(eighths: nat) -> Seq<char> {
    let full = eighths / 8;
    let rest = if full < 20 {
        seq![part(eighths % 8)] + repeated(' ', (20 - full - 1) as nat)
    } else {
        Seq::empty()
    };
    seq!['['] + repeated('█', full) + rest + seq![']']
}

/// A bar filled to so many eighths of a column.
pub fn bar(eighths: usize) -> (r: String)
    requires
        eighths <= 160,
    ensures
        r@ == bar_text(eighths as nat),
{
    let full = eighths / 8;
    let mut s = String::new();
    s.push('[');
    push_repeated(&mut s, '█', full);
    if full < BAR {
        s.push(
            match eighths % 8 {
                1 => '▏',
                2 => '▎',
                3 => '▍',
                4 => '▌',
                5 => '▋',
                6 => '▊',
                7 => '▉',
                _ => ' ',
            },
        );
        push_repeated(&mut s, ' ', BAR - full - 1);
    }
    s.push(']');
    assert(s@ =~= bar_text(eighths as nat));
    s
}

/// Every bar is as wide as every other.
pub proof fn law_bars_are_of_one_width(eighths: nat)
    requires
        eighths <= 160,
    ensures
        bar_text(eighths).len() == 22,
{
}

// ---- the table ----

/// What is estimated for one entry.
pub struct Figures {
    /// Bytes in the current mode.
    pub size: u64,
    pub exclusive: u64,
    pub shared: u64,
    /// Compressed over uncompressed, with two digits after the point.
    pub ratio: Option<String>,
    /// How far the bar is filled.
    pub eighths: usize,
}

/// One row of the table.
pub struct Row {
    pub cells: Vec<Line>,
    pub style: Style,
}

/// A cell of text as it looks by itself.
pub open spec fn cell(text: Seq<char>) -> Seq<SpanView> {
    seq![raw(text)]
}

fn push_cell(cells: &mut Vec<Line>, text: String)
    ensures
        line_views(final(cells)@) == line_views(old(cells)@).push(cell(text@)),
{
    push_line(cells, Line::single(text, Style::new()));
}

/// What stands in one row.
pub open spec fn row_cells(
    v: AppView,
    a: Seq<NodeView>,
    id: NodeId,
    f: Figures,
) -> Seq<Seq<SpanView>> {
    let n = a[id as int];
    let optional = if v.show_optional {
        seq![
            cell(padded_left(size_text(f.exclusive as nat), 10)),
            cell(padded_left(size_text(f.shared as nat), 10)),
            cell(
                match f.ratio {
                    Some(r) => padded_left(r@, 5),
                    None => "    -"@,
                },
            ),
        ]
    } else {
        Seq::empty()
    };
    seq![cell(padded_left(size_text(f.size as nat), 10))] + optional + seq![
        cell(bar_text(f.eighths as nat)),
        cell(padded_left(count_text(n.c.represented), 11)),
        name_cell(v, a, id),
    ]
}

/// The name of an entry, with a mark, a slash if it has entries, and a tag if
/// it is a subvolume.
pub open spec fn name_cell(v: AppView, a: Seq<NodeView>, id: NodeId) -> Seq<SpanView> {
    let n = a[id as int];
    let mark = if v.marks.contains(id) {
        "* "@
    } else {
        "  "@
    };
    let slash = if exists|c: int| #[trigger] child_of(a, id as int, c) {
        seq!['/']
    } else {
        Seq::empty()
    };
    let tag = if n.subvol {
        seq![styled("  ⊞subvol"@, colored(Color::Cyan))]
    } else {
        Seq::empty()
    };
    seq![raw(mark + n.name + slash)] + tag
}

/// How a row looks: special entries and marked ones stand out.
pub open spec fn row_style(v: AppView, a: Seq<NodeView>, id: NodeId) -> Style {
    let n = a[id as int];
    if v.marks.contains(id) {
        strong(Color::Yellow)
    } else if n.name.len() > 0 && n.name[0] == '<' {
        colored(Color::Magenta)
    } else {
        plain()
    }
}

fn padded_size(b: u64) -> (r: String)
    ensures
        r@ == padded_left(size_text(b as nat), 10),
{
    pad_left(fmt_size(b).as_str(), 10)
}

/// One row of the table.
pub fn row(app: &App, t: &Tree, id: NodeId, f: &Figures) -> (r: Row)
    requires
        t.wf(),
        id < t@.nodes.len(),
        f.eighths <= 160,
    ensures
        line_views(r.cells@) == row_cells(app@, t@.nodes, id, *f),
        r.style == row_style(app@, t@.nodes, id),
{
    let node = t.node(id);
    let mut cells: Vec<Line> = Vec::new();
    assert(line_views(cells@) =~= Seq::<Seq<SpanView>>::empty());
    push_cell(&mut cells, padded_size(f.size));
    if app.show_optional {
        push_cell(&mut cells, padded_size(f.exclusive));
        push_cell(&mut cells, padded_size(f.shared));
        match &f.ratio {
            Some(x) => push_cell(&mut cells, pad_left(x.as_str(), 5)),
            None => push_cell(&mut cells, owned("    -")),
        }
    }
    push_cell(&mut cells, bar(f.eighths));
    push_cell(&mut cells, pad_left(fmt_count(node.c.represented).as_str(), 11));
    let marked = is_marked(&app.marks, id);
    let mark = if marked {
        "* "
    } else {
        "  "
    };
    let mut name = concat(mark, node.name.as_str());
    if has_entries(t, id) {
        name.push('/');
    }
    let mut cell = Line::new();
    assert(name@ =~= name_cell(app@, t@.nodes, id)[0].text);
    cell.push(name, Style::new());
    if node.subvol {
        cell.push(owned("  ⊞subvol"), Style::new().fg(Color::Cyan));
    }
    assert(cell@ =~= name_cell(app@, t@.nodes, id));
    push_line(&mut cells, cell);
    assert(line_views(cells@) =~= row_cells(app@, t@.nodes, id, *f));
    let style = if marked {
        Style::new().fg(Color::Yellow).bold()
    } else if starts_with_char(node.name.as_str(), '<') {
        Style::new().fg(Color::Magenta)
    } else {
        Style::new()
    };
    Row { cells, style }
}

/// How wide a column is.
#[derive(Clone, Copy, PartialEq, Eq, Debug, Structural)]
pub enum Width {
    /// So many columns.
    Length(u16),
    /// So many columns at least.
    Min(u16),
}

/// The widths of the columns.
pub open spec fn column_widths(optional: bool) -> Seq<Width> {
    if optional {
        seq![
            Width::Length(10),
            Width::Length(10),
            Width::Length(10),
            Width::Length(5),
            Width::Length(22),
            Width::Length(11),
            Width::Min(10),
        ]
    } else {
        seq![Width::Length(10), Width::Length(22), Width::Length(11), Width::Min(10)]
    }
}

/// What stands above the columns.
pub open spec fn column_titles(optional: bool) -> Seq<Seq<char>> {
    if optional {
        seq![
            "      Size"@,
            "      Excl"@,
            "    Shared"@,
            "Ratio"@,
            " Graph"@,
            "    Samples"@,
            "  Name"@,
        ]
    } else {
        seq!["      Size"@, " Graph"@, "    Samples"@, "  Name"@]
    }
}

/// The widths of the columns.
pub fn widths(app: &App) -> (r: Vec<Width>)
    ensures
        r@ == column_widths(app@.show_optional),
{
    let mut w: Vec<Width> = Vec::new();
    w.push(Width::Length(10));
    if app.show_optional {
        w.push(Width::Length(10));
        w.push(Width::Length(10));
        w.push(Width::Length(5));
    }
    w.push(Width::Length(BAR as u16 + 2));
    w.push(Width::Length(11));
    w.push(Width::Min(10));
    assert(w@ =~= column_widths(app@.show_optional));
    w
}

/// What stands above the columns.
pub fn titles(app: &App) -> (r: Vec<String>)
    ensures
        texts(r@) == column_titles(app@.show_optional),
{
    let mut v: Vec<String> = Vec::new();
    v.push(owned("      Size"));
    if app.show_optional {
        v.push(owned("      Excl"));
        v.push(owned("    Shared"));
        v.push(owned("Ratio"));
    }
    v.push(owned(" Graph"));
    v.push(owned("    Samples"));
    v.push(owned("  Name"));
    assert(texts(v@) =~= column_titles(app@.show_optional));
    v
}

/// There is a title, a width and a cell for every column.
pub proof fn law_columns_match(v: AppView, a: Seq<NodeView>, id: NodeId, f: Figures)
    ensures
        column_titles(v.show_optional).len() == column_widths(v.show_optional).len(),
        row_cells(v, a, id, f).len() == column_widths(v.show_optional).len(),
{
}

/// The table: a row for every entry in the order in which they are shown, and
/// which one the cursor is on.
pub struct Table {
    pub titles: Vec<String>,
    pub widths: Vec<Width>,
    pub rows: Vec<Row>,
    pub selected: Option<usize>,
}

/// The table, with the figures for every entry.
pub fn table(app: &App, t: &Tree, entries: &Vec<NodeId>, figures: &Vec<Figures>) -> (r: Table)
    requires
        t.wf(),
        entries@ == listing(app@, t@.nodes),
        is_listing(app@, t@.nodes, entries@),
        figures@.len() == entries@.len(),
        forall|k: int| 0 <= k < figures@.len() ==> (#[trigger] figures@[k]).eighths <= 160,
    ensures
        texts(r.titles@) == column_titles(app@.show_optional),
        r.widths@ == column_widths(app@.show_optional),
        r.rows@.len() == entries@.len(),
        forall|k: int|
            0 <= k < r.rows@.len() ==> line_views((#[trigger] r.rows@[k]).cells@) == row_cells(
                app@,
                t@.nodes,
                entries@[k],
                figures@[k],
            ) && r.rows@[k].style == row_style(app@, t@.nodes, entries@[k]),
        r.selected == (if entries@.len() > 0 {
            Some(cursor_row(app@, entries@) as usize)
        } else {
            None
        }),
{
    let mut rows: Vec<Row> = Vec::new();
    let mut i: usize = 0;
    while i < entries.len()
        invariant
            t.wf(),
            is_listing(app@, t@.nodes, entries@),
            figures@.len() == entries@.len(),
            forall|k: int| 0 <= k < figures@.len() ==> (#[trigger] figures@[k]).eighths <= 160,
            i <= entries@.len(),
            rows@.len() == i,
            forall|k: int|
                0 <= k < i ==> line_views((#[trigger] rows@[k]).cells@) == row_cells(
                    app@,
                    t@.nodes,
                    entries@[k],
                    figures@[k],
                ) && rows@[k].style == row_style(app@, t@.nodes, entries@[k]),
        decreases entries@.len() - i,
    {
        assert(child_of(t@.nodes, app@.dir as int, entries@[i as int] as int));
        rows.push(row(app, t, entries[i], &figures[i]));
        i += 1;
    }
    let selected = if entries.len() > 0 {
        Some(app.cursor(entries.as_slice()))
    } else {
        None
    };
    Table { titles: titles(app), widths: widths(app), rows, selected }
}

/// What is shown in place of rows where there are none and there is room.
pub fn empty_note(entries: usize, height: u16) -> (r: Option<Line>)
    ensures
        (r is Some) == (entries == 0 && height > 1),
        r matches Some(l) ==> l@ == seq![styled("  (empty)"@, colored(Color::DarkGray))],
{
    if entries == 0 && height > 1 {
        Some(Line::single(owned("  (empty)"), Style::new().fg(Color::DarkGray)))
    } else {
        None
    }
}

/// How many rows a page has where the table is `height` lines high.
pub fn rows_in(height: u16) -> (r: usize)
    ensures
        r == (if height > 0 {
            height - 1
        } else {
            0
        }),
{
    if height > 0 {
        height as usize - 1
    } else {
        0
    }
}

// ---- the last line ----

/// The left of the last line.
pub open spec fn totals(size: nat, excl: nat, shared: nat, disk: nat) -> Seq<char> {
    " Total "@ + size_text(size) + " · Excl "@ + size_text(excl) + " · Shared "@ + size_text(shared)
        + " · Disk "@ + size_text(disk)
}

/// The last line, with the estimates for the open directory.
pub fn footer(size: u64, excl: u64, shared: u64, disk: u64) -> (r: Ends)
    ensures
        r.left@ == seq![
            styled(
                totals(size as nat, excl as nat, shared as nat, disk as nat),
                Style { reversed: true, ..plain() },
            ),
        ],
        r.right@ == seq![
            styled(
                "?:help  space:mark  d:delete  e:export  q:quit "@,
                Style { reversed: true, ..plain() },
            ),
        ],
{
    let mut text = concat(" Total ", fmt_size(size).as_str());
    text.append(" · Excl ");
    text.append(fmt_size(excl).as_str());
    text.append(" · Shared ");
    text.append(fmt_size(shared).as_str());
    text.append(" · Disk ");
    text.append(fmt_size(disk).as_str());
    assert(text@ =~= totals(size as nat, excl as nat, shared as nat, disk as nat));
    Ends {
        left: Line::single(text, Style::new().reversed()),
        right: Line::single(
            owned("?:help  space:mark  d:delete  e:export  q:quit "),
            Style::new().reversed(),
        ),
    }
}

} // verus!
