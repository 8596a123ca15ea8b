//! What holds of what is shown.

use vstd::prelude::*;

use crate::app::Mode;
use crate::app::model::{mode_name, AppView};
use crate::stats::{count_text, size_text};
use crate::text::{decimal, is_component, joined, law_joined_pieces_are_split, padded_left, split};
use crate::tree::NodeId;
use crate::tree::model::{child_of, holds_subvol, path, NodeView};
use crate::ui::{colored, plain, raw_line, strong, styled_line, Color, SpanView, Style};
use crate::ui::dialogs::{
    centered, confirm_text, exact_line, info_text, line_width, mode_figures, path_line, rows_of,
    subvol_count, target_lines, text_width, total_rows, Area, InfoFigures,
};
use crate::ui::screen::{
    activity, bar_text, cell, column_titles, crumbs, exclusive_sum, mode_spans, name_cell, part,
    row_cells, row_style, sort_name, Figures,
};

verus! {

// ---- the first two lines ----

/// What the program is doing is told by one of four texts: results that were loaded
/// before all else, then deletions with how many are to come, then the pause.
pub proof fn law_activity_is_told(v: AppView)
    ensures
        !v.live ==> activity(v).text == "◆ imported"@,
        v.live && v.deleting > 0 ==> activity(v).text == "✖ deleting "@ + decimal(
            v.deleting as nat,
        ),
        v.live && v.deleting == 0 && v.paused ==> activity(v).text == "‖ paused"@,
        v.live && v.deleting == 0 && !v.paused ==> activity(v).text == "● sampling"@,
{
}

/// The trail names the directories from the top down to the open one, each behind an
/// arrow; at the top there is none.
pub proof fn law_trail_names_the_directories(names: Seq<Seq<char>>)
    requires
        forall|i: int| 0 <= i < names.len() ==> is_component(#[trigger] names[i]),
    ensures
        names.len() == 0 ==> crumbs(joined(names, seq!['/'])).len() == 0,
        names.len() > 0 ==> crumbs(joined(names, seq!['/'])) == " ▸ "@ + joined(names, " ▸ "@),
{
    if names.len() > 0 {
        assert(is_component(names[0]));
        assert forall|i: int| 0 <= i < names.len() implies !(#[trigger] names[i]).contains('/') by {
            assert(is_component(names[i]));
        }
        law_joined_pieces_are_split(names, '/');
        let whole = joined(names, seq!['/']);
        if whole.len() == 0 {
            assert(split(whole, '/') =~= seq![Seq::<char>::empty()]);
            assert(names[0].len() == 0);
        }
    }
}

/// Each mode is named in its turn, and the one that is shown, it alone, in brackets.
/// The arrow points down unless the order is reversed.
pub proof fn law_one_mode_stands_out(v: AppView, i: int)
    requires
        0 <= i < 4,
    ensures
        mode_spans(v).len() == 9,
        Mode::ALL[i] == v.mode ==> mode_spans(v)[2 * i + 2].text == "["@ + mode_name(v.mode)
            + "]"@ && mode_spans(v)[2 * i + 2].style == strong(Color::Cyan),
        Mode::ALL[i] != v.mode ==> mode_spans(v)[2 * i + 2].text == mode_name(Mode::ALL[i])
            && mode_spans(v)[2 * i + 2].style == colored(Color::DarkGray),
        v.reverse ==> mode_spans(v)[0].text == " Sort: "@ + sort_name(v.sort)
            + " "@ + "↑"@ + "   Mode:"@,
        !v.reverse ==> mode_spans(v)[0].text == " Sort: "@ + sort_name(v.sort)
            + " "@ + "↓"@ + "   Mode:"@,
{
}

/// What is exclusive to entries together is what is exclusive to each, summed up.
pub proof fn law_exclusive_parts_add_up(
    a: Seq<NodeView>,
    ids: Seq<NodeId>,
    more: Seq<NodeId>,
    id: NodeId,
)
    ensures
        exclusive_sum(a, ids + more) == exclusive_sum(a, ids) + exclusive_sum(a, more),
        exclusive_sum(a, seq![id]) == a[id as int].c.exclusive,
        exclusive_sum(a, Seq::empty()) == 0,
    decreases more.len(),
{
    reveal_with_fuel(exclusive_sum, 2);
    assert(seq![id].drop_last() =~= Seq::<NodeId>::empty());
    if more.len() == 0 {
        assert(ids + more =~= ids);
    } else {
        law_exclusive_parts_add_up(a, ids, more.drop_last(), id);
        assert((ids + more).drop_last() =~= ids + more.drop_last());
        assert((ids + more).last() == more.last());
    }
}

// ---- the table ----

/// A bar stands between brackets. Of its twenty columns those are full that the filling
/// reaches the end of, those empty that it does not reach, and the one in between, if
/// any, is filled by as many eighths as are left.
pub proof fn law_bars_fill_column_by_column(eighths: nat, i: int)
    requires
        eighths <= 160,
        0 <= i < 20,
    ensures
        bar_text(eighths)[0] == '[',
        bar_text(eighths)[21] == ']',
        8 * (i + 1) <= eighths ==> bar_text(eighths)[i + 1] == '█',
        eighths <= 8 * i ==> bar_text(eighths)[i + 1] == ' ',
        8 * i < eighths < 8 * (i + 1) ==> bar_text(eighths)[i + 1] as int == 0x2590 - (eighths - 8
            * i),
{
    let full = eighths / 8;
    let b = bar_text(eighths);
    assert(b.len() == 22);
    if 8 * i < eighths < 8 * (i + 1) {
        assert(full == i && eighths % 8 == eighths - 8 * i);
        assert(b[i + 1] == part(eighths % 8));
    }
}

/// A text that is padded ends with itself, stands at the right, and has only spaces
/// before it; one that fills the width is left as it is.
pub proof fn law_padding_is_on_the_left(s: Seq<char>, width: nat, i: int)
    ensures
        s.len() <= width ==> padded_left(s, width).len() == width,
        s.len() > width ==> padded_left(s, width) == s,
        padded_left(s, width).skip(padded_left(s, width).len() - s.len()) == s,
        0 <= i < padded_left(s, width).len() - s.len() ==> padded_left(s, width)[i] == ' ',
{
    let p = padded_left(s, width);
    assert(p.skip(p.len() - s.len()) =~= s);
}

/// Every figure stands in the column of its title.
pub proof fn law_figures_stand_under_their_titles(
    v: AppView,
    a: Seq<NodeView>,
    id: NodeId,
    f: Figures,
    k: int,
)
    requires
        0 <= k < column_titles(v.show_optional).len(),
    ensures
        ({
            let title = column_titles(v.show_optional)[k];
            let shown = row_cells(v, a, id, f)[k];
            &&& title == "      Size"@ ==> shown == cell(padded_left(size_text(f.size as nat), 10))
            &&& title == "      Excl"@ ==> shown == cell(
                padded_left(size_text(f.exclusive as nat), 10),
            )
            &&& title == "    Shared"@ ==> shown == cell(
                padded_left(size_text(f.shared as nat), 10),
            )
            &&& title == "Ratio"@ && f.ratio is Some ==> shown == cell(
                padded_left(f.ratio->0@, 5),
            )
            &&& title == "Ratio"@ && f.ratio is None ==> shown == cell("    -"@)
            &&& title == " Graph"@ ==> shown == cell(bar_text(f.eighths as nat))
            &&& title == "    Samples"@ ==> shown == cell(
                padded_left(count_text(a[id as int].c.represented), 11),
            )
            &&& title == "  Name"@ ==> shown == name_cell(v, a, id)
            &&& v.show_optional <==> column_titles(v.show_optional).contains("      Excl"@)
        }),
{
    lemma_titles_differ();
    let t = column_titles(v.show_optional);
    if v.show_optional {
        assert(t[1] == "      Excl"@);
    }
}

proof fn lemma_titles_differ()
    ensures
        "      Size"@ != "      Excl"@,
        "      Size"@ != "    Shared"@,
        "      Size"@ != "Ratio"@,
        "      Size"@ != " Graph"@,
        "      Size"@ != "    Samples"@,
        "      Size"@ != "  Name"@,
        "      Excl"@ != "    Shared"@,
        "      Excl"@ != "Ratio"@,
        "      Excl"@ != " Graph"@,
        "      Excl"@ != "    Samples"@,
        "      Excl"@ != "  Name"@,
        "    Shared"@ != "Ratio"@,
        "    Shared"@ != " Graph"@,
        "    Shared"@ != "    Samples"@,
        "    Shared"@ != "  Name"@,
        "Ratio"@ != " Graph"@,
        "Ratio"@ != "    Samples"@,
        "Ratio"@ != "  Name"@,
        " Graph"@ != "    Samples"@,
        " Graph"@ != "  Name"@,
        "    Samples"@ != "  Name"@,
{
    reveal_strlit("      Size");
    reveal_strlit("      Excl");
    reveal_strlit("    Shared");
    reveal_strlit("Ratio");
    reveal_strlit(" Graph");
    reveal_strlit("    Samples");
    reveal_strlit("  Name");
    assert("      Size"@[6] == 'S' && "      Excl"@[6] == 'E' && "    Shared"@[6] == 'a');
    assert("Ratio"@[1] == 'a' && " Graph"@[1] == 'G' && "  Name"@[1] == ' ');
    assert("      Size"@.len() == 10 && "      Excl"@.len() == 10 && "    Shared"@.len() == 10);
    assert("Ratio"@.len() == 5 && " Graph"@.len() == 6 && "    Samples"@.len() == 11);
    assert("  Name"@.len() == 6);
}

/// The name of an entry is shown behind a star if it is marked and behind spaces if not,
/// with a slash exactly if it has entries, and with a tag exactly if it is a subvolume.
pub proof fn law_names_show_what_entries_are(v: AppView, a: Seq<NodeView>, id: NodeId)
    ensures
        ({
            let spans = name_cell(v, a, id);
            let name = a[id as int].name;
            let mark = if v.marks.contains(id) {
                "* "@
            } else {
                "  "@
            };
            &&& spans.len() == 2 <==> a[id as int].subvol
            &&& spans.len() == 1 <==> !a[id as int].subvol
            &&& (exists|c: int| #[trigger] child_of(a, id as int, c)) ==> spans[0].text == mark
                + name + seq!['/']
            &&& !(exists|c: int| #[trigger] child_of(a, id as int, c)) ==> spans[0].text == mark
                + name
            &&& a[id as int].subvol ==> spans[1].text == "  ⊞subvol"@
        }),
{
    let mark = if v.marks.contains(id) {
        "* "@
    } else {
        "  "@
    };
    let name = a[id as int].name;
    assert(mark + name + Seq::<char>::empty() =~= mark + name);
}

/// Marked entries stand out before special ones do, and those before all others.
pub proof fn law_marked_and_special_rows_stand_out(v: AppView, a: Seq<NodeView>, id: NodeId)
    ensures
        ({
            let style = row_style(v, a, id);
            let name = a[id as int].name;
            &&& v.marks.contains(id) ==> style == Style {
                fg: Some(Color::Yellow),
                bold: true,
                ..plain()
            }
            &&& !v.marks.contains(id) && name.len() > 0 && name[0] == '<' ==> style == Style {
                fg: Some(Color::Magenta),
                ..plain()
            }
            &&& !v.marks.contains(id) && !(name.len() > 0 && name[0] == '<') ==> style == plain()
        }),
{
}

// ---- dialogs ----

/// The information shows for each mode the size and the error of that mode, and then
/// names each sharer. What is known of the exact size comes last.
pub proof fn law_information_shows_every_mode(
    v: AppView,
    a: Seq<NodeView>,
    id: NodeId,
    f: InfoFigures,
    i: int,
    k: int,
)
    requires
        0 <= i < 4,
        0 <= k < a[id as int].sharers.len(),
    ensures
        ({
            let t = info_text(v, a, id, f);
            let n = a[id as int];
            &&& t[0] == raw_line("Path:        /"@ + joined(path(a, id as int), seq!['/']))
            &&& n.subvol ==> t[1] == raw_line("Subvolume:   "@ + "yes (root)"@)
            &&& !n.subvol ==> t[1] == raw_line("Subvolume:   "@ + "no"@)
            &&& t[2] == raw_line("Samples:     "@ + count_text(n.c.represented))
            &&& t[5 + i] == mode_figures(Mode::ALL[i], f.sizes[i] as nat, f.errors[i] as nat)
            &&& t[11 + k] == path_line(n.sharers[k])
            &&& t.len() == 9 + 2 + n.sharers.len() + 2
            &&& t.last() == exact_line(v, id)
        }),
{
}

/// An exact size is told once it is known, and its figures are those of the measurement;
/// before that, that it is being computed or can be, if it can.
pub proof fn law_exact_size_is_told(v: AppView, id: NodeId, w: AppView)
    ensures
        v.exact.contains_key(id) && v.exact[id] is Done ==> exact_line(v, id) == raw_line(
            "Exact: disk "@ + size_text(v.exact[id]->Done_0.disk as nat) + " · uncompressed "@
                + size_text(v.exact[id]->Done_0.uncompressed as nat) + " · referenced "@
                + size_text(v.exact[id]->Done_0.referenced as nat) + " · "@ + count_text(
                v.exact[id]->Done_0.files as nat,
            ) + " files"@,
        ),
        v.exact.contains_key(id) && w.exact == v.exact ==> exact_line(w, id) == exact_line(v, id),
        !v.exact.contains_key(id) && !w.exact.contains_key(id) && v.live == w.live ==> exact_line(
            v,
            id,
        ) == exact_line(w, id),
{
}

/// As many targets are counted as are or hold subvolumes.
pub proof fn law_subvolumes_among_targets_are_counted(
    a: Seq<NodeView>,
    ids: Seq<NodeId>,
    more: Seq<NodeId>,
    id: NodeId,
)
    ensures
        subvol_count(a, ids + more) == subvol_count(a, ids) + subvol_count(a, more),
        holds_subvol(a, id as int) ==> subvol_count(a, seq![id]) == 1,
        !holds_subvol(a, id as int) ==> subvol_count(a, seq![id]) == 0,
        subvol_count(a, Seq::empty()) == 0,
    decreases more.len(),
{
    reveal_with_fuel(subvol_count, 2);
    assert(seq![id].drop_last() =~= Seq::<NodeId>::empty());
    if more.len() == 0 {
        assert(ids + more =~= ids);
    } else {
        law_subvolumes_among_targets_are_counted(a, ids, more.drop_last(), id);
        assert((ids + more).drop_last() =~= ids + more.drop_last());
        assert((ids + more).last() == more.last());
    }
}

/// Up to ten targets are listed, in their order and with their paths; of more than ten
/// the first ten, and how many more there are.
pub proof fn law_targets_are_listed(a: Seq<NodeView>, ids: Seq<NodeId>, k: int)
    ensures
        ids.len() <= 10 ==> target_lines(a, ids).len() == ids.len(),
        ids.len() > 10 ==> target_lines(a, ids).len() == 11 && target_lines(a, ids)[10] == raw_line(
            "  … and "@ + decimal((ids.len() - 10) as nat) + " more"@,
        ),
        0 <= k < ids.len() && k < 10 ==> target_lines(a, ids)[k] == path_line(
            joined(path(a, ids[k] as int), seq!['/']),
        ),
{
}

/// A confirmation says how many entries it is about and how much that would free, and
/// lists them; the second one also how many subvolumes would be destroyed.
pub proof fn law_confirmation_says_what_it_is_about(
    a: Seq<NodeView>,
    ids: Seq<NodeId>,
    freed: nat,
    k: int,
)
    requires
        0 <= k < target_lines(a, ids).len(),
    ensures
        ({
            let n = target_lines(a, ids).len() as int;
            let first = confirm_text(a, ids, 1, freed);
            let second = confirm_text(a, ids, 2, freed);
            &&& first[0] == raw_line(
                "Delete "@ + decimal(ids.len()) + " item(s)? About "@ + size_text(freed)
                    + " would be freed (exclusive estimate)."@,
            )
            &&& first[0] == second[0]
            &&& first[2 + k] == target_lines(a, ids)[k] && second[2 + k] == target_lines(a, ids)[k]
            &&& first.len() == n + 4 && second.len() == n + 5
            &&& second[n + 3] == styled_line(
                "⚠ "@ + decimal(subvol_count(a, ids))
                    + " target(s) are or contain btrfs subvolumes; they will be destroyed."@,
                Style { fg: Some(Color::Red), bold: true, ..plain() },
            )
        }),
{
}

/// A text takes as many rows as hold its width, at least one, and no more.
pub proof fn law_texts_take_the_rows_they_need(width: nat, inner: nat)
    requires
        inner > 0,
    ensures
        rows_of(width, inner) >= 1,
        rows_of(width, inner) * inner >= width,
        width > 0 ==> (rows_of(width, inner) - 1) * inner < width,
        width == 0 ==> rows_of(width, inner) == 1,
{
    let w: int = if width > 0 {
        width as int
    } else {
        1
    };
    let r = (w + inner - 1) / (inner as int);
    assert(r * inner >= w && (r - 1) * inner < w && r >= 1) by (nonlinear_arith)
        requires
            r == (w + inner - 1) / (inner as int),
            inner > 0,
            w >= 1,
    ;
    if width == 0 {
        assert(r == 1) by (nonlinear_arith)
            requires
                (r - 1) * inner < 1,
                r >= 1,
                inner > 0,
        ;
    }
}

/// The rows of texts add up.
pub proof fn law_rows_add_up(widths: Seq<nat>, more: Seq<nat>, width: nat, inner: nat)
    ensures
        total_rows(widths + more, inner) == total_rows(widths, inner) + total_rows(more, inner),
        total_rows(seq![width], inner) == rows_of(width, inner),
        total_rows(Seq::empty(), inner) == 0,
    decreases more.len(),
{
    reveal_with_fuel(total_rows, 2);
    assert(seq![width].drop_last() =~= Seq::<nat>::empty());
    if more.len() == 0 {
        assert(widths + more =~= widths);
    } else {
        law_rows_add_up(widths, more.drop_last(), width, inner);
        assert((widths + more).drop_last() =~= widths + more.drop_last());
        assert((widths + more).last() == more.last());
    }
}

/// A line is as wide as its spans together.
pub proof fn law_spans_add_up(l: Seq<SpanView>, more: Seq<SpanView>, s: SpanView)
    ensures
        line_width(l + more) == line_width(l) + line_width(more),
        line_width(seq![s]) == text_width(s.text),
        line_width(Seq::empty()) == 0,
    decreases more.len(),
{
    reveal_with_fuel(line_width, 2);
    assert(seq![s].drop_last() =~= Seq::<SpanView>::empty());
    if more.len() == 0 {
        assert(l + more =~= l);
    } else {
        law_spans_add_up(l, more.drop_last(), s);
        assert((l + more).drop_last() =~= l + more.drop_last());
        assert((l + more).last() == more.last());
    }
}

/// A box is as wide as it is asked to be and as high as its text needs with a border, but
/// no larger than the screen, and stands in the middle of it: what is left over is on
/// both sides the same, but for one column or row at the far side.
pub proof fn law_boxes_stand_in_the_middle(area: Area, widths: Seq<nat>, width: u16)
    requires
        area.x + area.width <= u16::MAX,
        area.y + area.height <= u16::MAX,
        total_rows(
            widths,
            if width <= area.width && width > 3 {
                (width - 2) as nat
            } else if width > area.width && area.width > 3 {
                (area.width - 2) as nat
            } else {
                1
            },
        ) < 0x1_0000,
    ensures
        ({
            let b = centered(area, widths, width);
            let rows = total_rows(
                widths,
                if b.width > 3 {
                    (b.width - 2) as nat
                } else {
                    1
                },
            );
            let (left, right) = (b.x - area.x, area.x + area.width - (b.x + b.width));
            let (top, bottom) = (b.y - area.y, area.y + area.height - (b.y + b.height));
            &&& b.width <= area.width && b.width <= width
            &&& b.width == area.width || b.width == width
            &&& b.height <= area.height && b.height <= rows + 2
            &&& b.height == area.height || b.height == rows + 2 || b.height == u16::MAX
            &&& 0 <= left <= right <= left + 1
            &&& 0 <= top <= bottom <= top + 1
        }),
{
}

} // verus!
