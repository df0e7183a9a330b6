//! Styled output: lines made of spans of text, each with a colour and
//! weight, and their rendering as terminal text.
use vstd::prelude::*;

use colored::Colorize;

verus! {

/// A foreground colour.
#[derive(Debug, Clone, Copy, PartialEq, Eq, Structural)]
pub enum Color {
    Red,
    Green,
    Yellow,
    Blue,
    Magenta,
    Cyan,
    BrightBlack,
    BrightBlue,
}

/// How a span is shown: as it is, bold, coloured, or bold and coloured.
#[derive(Debug, Clone, Copy, PartialEq, Eq, Structural)]
pub enum Style {
    Plain,
    Bold,
    Fg(Color),
    BoldFg(Color),
}

/// A piece of text with its style.
#[derive(Debug)]
pub struct Span {
    pub text: String,
    pub style: Style,
}

/// A span as a mathematical value.
pub type SpanV = (Seq<char>, Style);

/// A line of output.
pub type Line = Vec<Span>;

impl View for Span {
    type V = SpanV;

    open spec fn view(&self) -> SpanV {
        (self.text@, self.style)
    }
}

/// The models of a list of spans.
pub open spec fn spans_view(ss: Seq<Span>) -> Seq<SpanV> {
    Seq::new(ss.len(), |i: int| ss[i]@)
}

/// The models of a list of lines.
pub open spec fn lines_view(ls: Seq<Line>) -> Seq<Seq<SpanV>> {
    Seq::new(ls.len(), |i: int| spans_view(ls[i]@))
}

/// The text of a line, without styles.
pub open spec fn line_text(ss: Seq<SpanV>) -> Seq<char>
    decreases ss.len(),
{
    if ss.len() == 0 {
        Seq::empty()
    } else {
        line_text(ss.drop_last()) + ss.last().0
    }
}

/// A single span with the given style.
pub open spec fn styled(text: Seq<char>, st: Style) -> Seq<SpanV> {
    seq![(text, st)]
}

/// A single unstyled span.
pub open spec fn plain(text: Seq<char>) -> Seq<SpanV> {
    seq![(text, Style::Plain)]
}

/// Give the unstyled spans of a line the style `st`; styled spans keep
/// their own.  (An outer colour applied to text that already holds coloured
/// parts shows on the parts between them.)
pub open spec fn restyle(ss: Seq<SpanV>, st: Style) -> Seq<SpanV> {
    ss.map_values(|s: SpanV| if s.1 == Style::Plain { (s.0, st) } else { s })
}

impl Span {
    /// A span of `text` in style `style`.
    pub fn new(text: &str, style: Style) -> (s: Span)
        ensures
            s@ == (text@, style),
    {
        Span { text: String::from_str(text), style }
    }

    /// A span holding `text`.
    pub fn of(text: String, style: Style) -> (s: Span)
        ensures
            s@ == (text@, style),
    {
        Span { text, style }
    }

    /// A copy of this span.
    pub fn duplicate(&self) -> (s: Span)
        ensures
            s@ == self@,
    {
        Span { text: self.text.clone(), style: self.style }
    }
}

/// A line of one span.
pub fn single(text: &str, style: Style) -> (l: Line)
    ensures
        spans_view(l@) == styled(text@, style),
{
    let mut l: Line = Vec::new();
    l.push(Span::new(text, style));
    assert(spans_view(l@) =~= styled(text@, style));
    l
}

/// Append `text` in style `style`.
pub fn push_span(line: &mut Line, text: &str, style: Style)
    ensures
        spans_view(final(line)@) == spans_view(old(line)@) + styled(text@, style),
{
    line.push(Span::new(text, style));
    assert(spans_view(line@) =~= spans_view(old(line)@) + styled(text@, style));
}

/// Append the owned `text` in style `style`.
pub fn push_string(line: &mut Line, text: String, style: Style)
    ensures
        spans_view(final(line)@) == spans_view(old(line)@) + styled(text@, style),
{
    let ghost t = text@;
    line.push(Span::of(text, style));
    assert(spans_view(line@) =~= spans_view(old(line)@) + styled(t, style));
}

/// Append all the spans of `more`.
pub fn append_spans(line: &mut Line, more: Line)
    ensures
        spans_view(final(line)@) == spans_view(old(line)@) + spans_view(more@),
{
    let mut more = more;
    let ghost m = spans_view(more@);
    line.append(&mut more);
    assert(spans_view(line@) =~= spans_view(old(line)@) + m);
}

/// A copy of a line.
pub fn copy_line(line: &Line) -> (r: Line)
    ensures
        spans_view(r@) == spans_view(line@),
{
    let mut r: Line = Vec::new();
    let mut i: usize = 0;
    while i < line.len()
        invariant
            i <= line@.len(),
            spans_view(r@) == spans_view(line@).take(i as int),
        decreases line@.len() - i,
    {
        let ghost before = spans_view(r@);
        r.push(line[i].duplicate());
        proof {
            assert(spans_view(r@) =~= before.push(line@[i as int]@));
            assert(spans_view(line@).take(i + 1) =~= spans_view(line@).take(i as int).push(line@[i as int]@));
        }
        i = i + 1;
    }
    proof {
        assert(spans_view(line@).take(line@.len() as int) =~= spans_view(line@));
    }
    r
}

/// The same spans with the unstyled ones given the style `st`.
pub fn restyle_line(line: Line, st: Style) -> (r: Line)
    ensures
        spans_view(r@) == restyle(spans_view(line@), st),
{
    let mut r: Line = Vec::new();
    let mut i: usize = 0;
    while i < line.len()
        invariant
            i <= line@.len(),
            spans_view(r@) == restyle(spans_view(line@), st).take(i as int),
        decreases line@.len() - i,
    {
        let ghost before = spans_view(r@);
        let s = &line[i];
        let ns = if s.style == Style::Plain {
            Span { text: s.text.clone(), style: st }
        } else {
            s.duplicate()
        };
        let ghost nv = ns@;
        r.push(ns);
        proof {
            assert(spans_view(r@) =~= before.push(nv));
            assert(restyle(spans_view(line@), st).take(i + 1) =~= restyle(spans_view(line@), st).take(
                i as int,
            ).push(nv));
        }
        i = i + 1;
    }
    proof {
        assert(restyle(spans_view(line@), st).take(line@.len() as int) =~= restyle(spans_view(line@), st));
    }
    r
}

/// The text of a line without its styles.
pub fn text_of(line: &Line) -> (s: String)
    ensures
        s@ == line_text(spans_view(line@)),
{
    let mut s = String::new();
    let mut i: usize = 0;
    while i < line.len()
        invariant
            i <= line@.len(),
            s@ == line_text(spans_view(line@).take(i as int)),
        decreases line@.len() - i,
    {
        s.append(line[i].text.as_str());
        proof {
            assert(spans_view(line@).take(i + 1).drop_last() =~= spans_view(line@).take(i as int));
        }
        i = i + 1;
    }
    proof {
        assert(spans_view(line@).take(line@.len() as int) =~= spans_view(line@));
    }
    s
}

// ---------------------------------------------------------------------------
// Rendering with terminal colours
// ---------------------------------------------------------------------------

/// The escape character.
pub open spec fn esc() -> char {
    '\u{1b}'
}

/// The escape sequence that ends all styles.
pub open spec fn ansi_reset() -> Seq<char> {
    seq![esc(), '[', '0', 'm']
}

/// The SGR code of a colour.
pub open spec fn color_code(c: Color) -> Seq<char> {
    match c {
        Color::Red => seq!['3', '1'],
        Color::Green => seq!['3', '2'],
        Color::Yellow => seq!['3', '3'],
        Color::Blue => seq!['3', '4'],
        Color::Magenta => seq!['3', '5'],
        Color::Cyan => seq!['3', '6'],
        Color::BrightBlack => seq!['9', '0'],
        Color::BrightBlue => seq!['9', '4'],
    }
}

/// The escape sequence that starts a style.
pub open spec fn ansi_open(st: Style) -> Seq<char> {
    match st {
        Style::Plain => Seq::empty(),
        Style::Bold => seq![esc(), '[', '1', 'm'],
        Style::Fg(c) => seq![esc(), '['] + color_code(c) + seq!['m'],
        Style::BoldFg(c) => seq![esc(), '[', '1', ';'] + color_code(c) + seq!['m'],
    }
}

/// `text` with `prefix` inserted after each reset sequence, scanning from
/// the left.
pub open spec fn reapply_after_resets(text: Seq<char>, prefix: Seq<char>) -> Seq<char>
    decreases text.len(),
{
    if text.len() == 0 {
        Seq::empty()
    } else if text.len() >= 4 && text.take(4) == ansi_reset() {
        ansi_reset() + prefix + reapply_after_resets(text.skip(4), prefix)
    } else {
        seq![text[0]] + reapply_after_resets(text.skip(1), prefix)
    }
}

/// What showing `text` in style `st` may give: the text unchanged (colours
/// off, or a plain style), or the text between the style's escape sequence
/// and the reset, with the style started again after each reset inside it.
pub open spec fn painted(out: Seq<char>, text: Seq<char>, st: Style) -> bool {
    ||| out == text
    ||| st != Style::Plain && out == ansi_open(st) + reapply_after_resets(text, ansi_open(st)) + ansi_reset()
}

/// `colored::Colorize::color` then `to_string`: colored writes the text
/// unchanged when colours are off (the environment decides: CLICOLOR,
/// CLICOLOR_FORCE, NO_COLOR, whether the output is a terminal, or an
/// override), and otherwise the escape sequence of the colour, the text with
/// that sequence repeated after each reset inside it, and the reset.  Which
/// of the two comes is not stated.
#[verifier::external_body]
fn paint_fg(text: &str, color: Color) -> (r: String)
    ensures
        painted(r@, text@, Style::Fg(color)),
{
    let c = match color {
        Color::Red => colored::Color::Red,
        Color::Green => colored::Color::Green,
        Color::Yellow => colored::Color::Yellow,
        Color::Blue => colored::Color::Blue,
        Color::Magenta => colored::Color::Magenta,
        Color::Cyan => colored::Color::Cyan,
        Color::BrightBlack => colored::Color::BrightBlack,
        Color::BrightBlue => colored::Color::BrightBlue,
    };
    text.color(c).to_string()
}

/// `colored::Colorize::color`, then `bold`, then `to_string`: as for the
/// colour alone, with the bold code `1` before the colour's code in the
/// escape sequence.  Which of the two outcomes comes is not stated.
#[verifier::external_body]
fn paint_bold_fg(text: &str, color: Color) -> (r: String)
    ensures
        painted(r@, text@, Style::BoldFg(color)),
{
    let c = match color {
        Color::Red => colored::Color::Red,
        Color::Green => colored::Color::Green,
        Color::Yellow => colored::Color::Yellow,
        Color::Blue => colored::Color::Blue,
        Color::Magenta => colored::Color::Magenta,
        Color::Cyan => colored::Color::Cyan,
        Color::BrightBlack => colored::Color::BrightBlack,
        Color::BrightBlue => colored::Color::BrightBlue,
    };
    text.color(c).bold().to_string()
}

/// `colored::Colorize::bold` then `to_string`: the text unchanged, or
/// between the bold escape sequence and the reset.  Which of the two comes
/// is not stated.
#[verifier::external_body]
fn paint_bold(text: &str) -> (r: String)
    ensures
        painted(r@, text@, Style::Bold),
{
    text.bold().to_string()
}

/// One span as terminal text.
pub fn render_span(s: &Span) -> (r: String)
    ensures
        painted(r@, s.text@, s.style),
{
    match s.style {
        Style::Plain => s.text.clone(),
        Style::Bold => paint_bold(s.text.as_str()),
        Style::Fg(c) => paint_fg(s.text.as_str(), c),
        Style::BoldFg(c) => paint_bold_fg(s.text.as_str(), c),
    }
}

/// The concatenation of a list of texts.
pub open spec fn concat(parts: Seq<Seq<char>>) -> Seq<char>
    decreases parts.len(),
{
    if parts.len() == 0 {
        Seq::empty()
    } else {
        concat(parts.drop_last()) + parts.last()
    }
}

/// A line as terminal text: each span painted in its style, in order.
pub fn render_line(line: &Line) -> (r: String)
    ensures
        exists|parts: Seq<Seq<char>>|
            parts.len() == line@.len() && r@ == concat(parts) && forall|i: int|
                0 <= i < parts.len() ==> painted(#[trigger] parts[i], line@[i].text@, line@[i].style),
{
    let mut r = String::new();
    let ghost mut parts: Seq<Seq<char>> = Seq::empty();
    let mut i: usize = 0;
    while i < line.len()
        invariant
            i <= line@.len(),
            parts.len() == i,
            r@ == concat(parts),
            forall|k: int| 0 <= k < i ==> painted(#[trigger] parts[k], line@[k].text@, line@[k].style),
        decreases line@.len() - i,
    {
        let p = render_span(&line[i]);
        r.append(p.as_str());
        proof {
            let old_parts = parts;
            parts = parts.push(p@);
            assert(parts.drop_last() =~= old_parts);
        }
        i = i + 1;
    }
    r
}

} // verus!
