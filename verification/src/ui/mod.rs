//! What is on the screen. All state lives in `App`; this module only turns it
//! into styled text.

pub mod dialogs;
pub mod laws;
pub mod screen;

use vstd::prelude::*;

use crate::text::{lines, lines_of, owned, texts};

verus! {

#[derive(Clone, Copy, PartialEq, Eq, Debug, Structural)]
pub enum Color {
    Cyan,
    DarkGray,
    Green,
    Magenta,
    Red,
    Yellow,
}

/// How text looks.
#[derive(Clone, Copy, PartialEq, Eq, Debug, Structural)]
pub struct Style {
    pub fg: Option<Color>,
    pub bold: bool,
    pub reversed: bool,
    pub underlined: bool,
}

/// As text looks by itself.
pub open spec fn plain() -> Style {
    Style { fg: None, bold: false, reversed: false, underlined: false }
}

/// In a color.
pub open spec fn colored(c: Color) -> Style {
    Style { fg: Some(c), ..plain() }
}

/// Bold, in a color.
pub open spec fn strong(c: Color) -> Style {
    Style { fg: Some(c), bold: true, ..plain() }
}

impl Style {
    pub fn new() -> (r: Self)
        ensures
            r == plain(),
    {
        Style { fg: None, bold: false, reversed: false, underlined: false }
    }

    pub fn fg(self, c: Color) -> (r: Self)
        ensures
            r == (Style { fg: Some(c), ..self }),
    {
        Style { fg: Some(c), bold: self.bold, reversed: self.reversed, underlined: self.underlined }
    }

    pub fn bold(self) -> (r: Self)
        ensures
            r == (Style { bold: true, ..self }),
    {
        Style { fg: self.fg, bold: true, reversed: self.reversed, underlined: self.underlined }
    }

    pub fn reversed(self) -> (r: Self)
        ensures
            r == (Style { reversed: true, ..self }),
    {
        Style { fg: self.fg, bold: self.bold, reversed: true, underlined: self.underlined }
    }

    pub fn underlined(self) -> (r: Self)
        ensures
            r == (Style { underlined: true, ..self }),
    {
        Style { fg: self.fg, bold: self.bold, reversed: self.reversed, underlined: true }
    }
}

/// Text in one style.
#[derive(Clone, Debug)]
pub struct Span {
    pub text: String,
    pub style: Style,
}

/// Text in one style.
#[verifier::ext_equal]
pub struct SpanView {
    pub text: Seq<char>,
    pub style: Style,
}

impl View for Span {
    type V = SpanView;

    open spec fn view(&self) -> SpanView {
        SpanView { text: self.text@, style: self.style }
    }
}

/// One line.
#[derive(Clone, Debug)]
pub struct Line {
    pub spans: Vec<Span>,
}

impl View for Line {
    type V = Seq<SpanView>;

    open spec fn view(&self) -> Seq<SpanView> {
        self.spans@.map_values(|s: Span| s@)
    }
}

/// What lines are.
pub open spec fn line_views(v: Seq<Line>) -> Seq<Seq<SpanView>> {
    v.map_values(|l: Line| l@)
}

/// Text in one style.
pub open spec fn styled(text: Seq<char>, style: Style) -> SpanView {
    SpanView { text, style }
}

/// Text as it looks by itself.
pub open spec fn raw(text: Seq<char>) -> SpanView {
    SpanView { text, style: plain() }
}

/// A line of text as it looks by itself: line ends in the text are left out, and
/// part it.
pub open spec fn raw_line(text: Seq<char>) -> Seq<SpanView> {
    lines(text).map_values(|l: Seq<char>| raw(l))
}

/// A line of text in one style, parted in the same way.
pub open spec fn styled_line(text: Seq<char>, style: Style) -> Seq<SpanView> {
    lines(text).map_values(|l: Seq<char>| styled(l, style))
}

pub proof fn lemma_line_views_push(v: Seq<Line>, l: Line)
    ensures
        line_views(v.push(l)) == line_views(v).push(l@),
{
    assert(line_views(v.push(l)) =~= line_views(v).push(l@));
}

impl Line {
    /// A line with nothing on it yet.
    pub fn new() -> (r: Self)
        ensures
            r@ == Seq::<SpanView>::empty(),
    {
        let r = Line { spans: Vec::new() };
        assert(r@ =~= Seq::<SpanView>::empty());
        r
    }

    /// Adds text in a style.
    pub fn push(&mut self, text: String, style: Style)
        ensures
            final(self)@ == old(self)@.push(styled(text@, style)),
    {
        let s = Span { text, style };
        let ghost was = self.spans@;
        self.spans.push(s);
        assert(self@ =~= old(self)@.push(s@));
    }

    /// A line of one span, the text as it is.
    pub fn single(text: String, style: Style) -> (r: Self)
        ensures
            r@ == seq![styled(text@, style)],
    {
        let mut r = Line::new();
        r.push(text, style);
        assert(r@ =~= seq![styled(text@, style)]);
        r
    }

    /// A line of text as it looks by itself. Line ends in the text are left out.
    pub fn raw(text: String) -> (r: Self)
        ensures
            r@ == raw_line(text@),
    {
        let r = Line::styled(text, Style::new());
        assert(r@ =~= raw_line(text@));
        r
    }

    /// A line of text in one style. Line ends in the text are left out.
    pub fn styled(text: String, style: Style) -> (r: Self)
        ensures
            r@ == styled_line(text@, style),
    {
        let all = lines_of(text.as_str());
        let ghost goal = styled_line(text@, style);
        let mut r = Line::new();
        let mut i: usize = 0;
        assert(goal.take(0) =~= Seq::<SpanView>::empty());
        while i < all.len()
            invariant
                i <= all@.len(),
                texts(all@) == lines(text@),
                goal == styled_line(text@, style),
                r@ == goal.take(i as int),
            decreases all@.len() - i,
        {
            proof {
                assert(texts(all@)[i as int] == all@[i as int]@);
                assert(goal.take(i + 1) =~= goal.take(i as int).push(goal[i as int]));
            }
            r.push(owned(all[i].as_str()), style);
            i += 1;
        }
        assert(goal.take(goal.len() as int) =~= goal);
        r
    }
}

/// Adds a line.
pub fn push_line(lines: &mut Vec<Line>, l: Line)
    ensures
        line_views(final(lines)@) == line_views(old(lines)@).push(l@),
{
    proof {
        lemma_line_views_push(lines@, l);
    }
    lines.push(l);
}

/// Adds a line of text as it looks by itself. Line ends in the text are left out.
pub fn push_raw(lines: &mut Vec<Line>, text: String)
    ensures
        line_views(final(lines)@) == line_views(old(lines)@).push(raw_line(text@)),
{
    push_line(lines, Line::raw(text));
}

} // verus!
