//! Styled text, as the code pane and the status bar show it.

use crate::text;
use vstd::prelude::*;
use vstd::string::*;

verus! {

/// A colour of the terminal.
#[derive(Debug, Clone, Copy, PartialEq, Eq, Structural)]
pub enum Color {
    DarkGray,
    Yellow,
    Rgb(u8, u8, u8),
}

/// The bit of `Style::modifier` that stands for bold text.
pub const BOLD: u16 = 1;

/// Colours and text attributes. `None` leaves the terminal's own colour.
#[derive(Debug, Clone, Copy, PartialEq, Eq, Structural)]
pub struct Style {
    pub fg: Option<Color>,
    pub bg: Option<Color>,
    pub modifier: u16,
}

/// A piece of text in one style.
#[derive(Debug)]
pub struct Span {
    pub content: String,
    pub style: Style,
}

/// A line of styled text.
#[derive(Debug)]
pub struct Line {
    pub spans: Vec<Span>,
}

/// A run of source text in one colour, as the highlighter reports it.
#[derive(Debug)]
pub struct Region {
    pub color: Color,
    pub content: String,
}

/// What a `Span` shows.
pub struct SpanView {
    pub content: Seq<char>,
    pub style: Style,
}

/// What a `Region` holds.
pub struct RegionView {
    pub color: Color,
    pub content: Seq<char>,
}

impl View for Span {
    type V = SpanView;

    open spec fn view(&self) -> SpanView {
        SpanView { content: self.content@, style: self.style }
    }
}

impl View for Line {
    type V = Seq<SpanView>;

    open spec fn view(&self) -> Seq<SpanView> {
        span_views(self.spans@)
    }
}

impl View for Region {
    type V = RegionView;

    open spec fn view(&self) -> RegionView {
        RegionView { color: self.color, content: self.content@ }
    }
}

/// The views of a list of spans.
pub open spec fn span_views(v: Seq<Span>) -> Seq<SpanView> {
    v.map_values(|s: Span| s@)
}

proof fn lemma_span_views_push(v: Seq<Span>, s: Span)
    ensures
        span_views(v.push(s)) == span_views(v).push(s@),
{
    assert(span_views(v.push(s)) =~= span_views(v).push(s@));
}

/// The views of a list of lines.
pub open spec fn line_views(v: Seq<Line>) -> Seq<Seq<SpanView>> {
    v.map_values(|l: Line| l@)
}

/// The views of a list of regions.
pub open spec fn region_views(v: Seq<Region>) -> Seq<RegionView> {
    v.map_values(|r: Region| r@)
}

/// The style that leaves everything as the terminal has it.
pub open spec fn plain_style() -> Style {
    Style { fg: None, bg: None, modifier: 0 }
}

/// The style with a text colour and nothing else.
pub open spec fn colored(c: Color) -> Style {
    Style { fg: Some(c), bg: None, modifier: 0 }
}

/// The line number in front of a code line: right-aligned to four columns, then a rule.
pub open spec fn gutter(line_no: nat) -> SpanView {
    SpanView {
        content: text::padded_left(text::decimal_text(line_no), 4) + " │ "@,
        style: colored(Color::DarkGray),
    }
}

/// A code line without colours: line number and text.
pub open spec fn plain_code_line(line_no: nat, content: Seq<char>) -> Seq<SpanView> {
    seq![gutter(line_no), SpanView { content, style: plain_style() }]
}

/// The regions as spans: each without its line ending, the empty ones left out.
pub open spec fn region_spans(regions: Seq<RegionView>) -> Seq<SpanView>
    decreases regions.len(),
{
    if regions.len() == 0 {
        Seq::empty()
    } else {
        let before = region_spans(regions.drop_last());
        let shown = text::without_line_end(regions.last().content);
        if shown.len() == 0 {
            before
        } else {
            before.push(SpanView { content: shown, style: colored(regions.last().color) })
        }
    }
}

/// A code line with its colours: line number, then the regions; the bare text
/// where the highlighter reports nothing to show for it.
pub open spec fn highlighted_code_line(
    line_no: nat,
    content: Seq<char>,
    regions: Seq<RegionView>,
) -> Seq<SpanView> {
    let spans = region_spans(regions);
    if spans.len() == 0 && content.len() > 0 {
        seq![gutter(line_no), SpanView { content, style: plain_style() }]
    } else {
        seq![gutter(line_no)] + spans
    }
}

/// The text of a line, without its styles.
pub open spec fn shown_text(line: Seq<SpanView>) -> Seq<char>
    decreases line.len(),
{
    if line.len() == 0 {
        Seq::empty()
    } else {
        shown_text(line.drop_last()) + line.last().content
    }
}

/// The text of some regions, put together.
pub open spec fn region_text(regions: Seq<RegionView>) -> Seq<char>
    decreases regions.len(),
{
    if regions.len() == 0 {
        Seq::empty()
    } else {
        region_text(regions.drop_last()) + regions.last().content
    }
}

/// A style on top of the bar that marks the lines of a stop.
pub open spec fn marked_style(s: Style) -> Style {
    Style { fg: s.fg, bg: Some(Color::DarkGray), modifier: s.modifier | BOLD }
}

/// A code line that belongs to the stop.
pub open spec fn marked_line(line: Seq<SpanView>) -> Seq<SpanView> {
    line.map_values(|s: SpanView| SpanView { content: s.content, style: marked_style(s.style) })
}

proof fn lemma_shown_text_push(line: Seq<SpanView>, span: SpanView)
    ensures
        shown_text(line.push(span)) == shown_text(line) + span.content,
{
    assert(line.push(span).drop_last() =~= line);
}

proof fn lemma_shown_text_of_one(span: SpanView)
    ensures
        shown_text(seq![span]) == span.content,
{
    reveal_with_fuel(shown_text, 2);
    assert(seq![span].drop_last() =~= Seq::empty());
    assert(shown_text(seq![span]) =~= span.content);
}

/// The text of a line with a number in front.
proof fn lemma_shown_text_after(first: SpanView, spans: Seq<SpanView>)
    ensures
        shown_text(seq![first] + spans) == first.content + shown_text(spans),
    decreases spans.len(),
{
    let line = seq![first] + spans;
    if spans.len() == 0 {
        assert(line =~= seq![first]);
        lemma_shown_text_of_one(first);
        assert(shown_text(line) =~= first.content + shown_text(spans));
    } else {
        lemma_shown_text_after(first, spans.drop_last());
        assert(line.drop_last() =~= seq![first] + spans.drop_last());
        assert(shown_text(line) =~= first.content + shown_text(spans));
    }
}

/// The regions of a line as they are shown are the part of the line in front of
/// its line ending.
proof fn lemma_regions_show(regions: Seq<RegionView>, content: Seq<char>, ending: Seq<char>)
    requires
        forall|i: int| 0 <= i < content.len() ==> !text::is_line_end(#[trigger] content[i]),
        forall|i: int| 0 <= i < ending.len() ==> text::is_line_end(#[trigger] ending[i]),
        region_text(regions).len() <= content.len() + ending.len(),
        region_text(regions) == (content + ending).take(region_text(regions).len() as int),
    ensures
        shown_text(region_spans(regions)) == content.take(
            if region_text(regions).len() < content.len() {
                region_text(regions).len() as int
            } else {
                content.len() as int
            },
        ),
    decreases regions.len(),
{
    if regions.len() == 0 {
        assert(content.take(0) =~= Seq::empty());
    } else {
        let whole = content + ending;
        let front = regions.drop_last();
        let last = regions.last().content;
        let c = region_text(front).len() as int;
        let d = region_text(regions).len() as int;
        let n = content.len() as int;
        assert(d == c + last.len());
        assert forall|i: int| 0 <= i < c implies region_text(front)[i] == #[trigger] whole.take(
            c,
        )[i] by {
            assert(region_text(regions)[i] == region_text(front)[i]);
        }
        assert(region_text(front) =~= whole.take(c));
        lemma_regions_show(front, content, ending);
        assert(last =~= whole.subrange(c, d)) by {
            assert forall|i: int| 0 <= i < last.len() implies last[i] == #[trigger] whole.subrange(
                c,
                d,
            )[i] by {
                assert(region_text(regions)[c + i] == last[i]);
            }
        }
        let m = if c >= n {
            c
        } else if d < n {
            d
        } else {
            n
        };
        let a = whole.subrange(c, m);
        let b = whole.subrange(m, d);
        assert(last =~= a + b);
        assert forall|i: int| 0 <= i < b.len() implies text::is_line_end(#[trigger] b[i]) by {
            assert(b[i] == ending[m + i - n]);
        }
        if a.len() > 0 {
            assert(a.last() == content[m - 1]);
        }
        text::lemma_without_line_end(a, b);
        let before = region_spans(front);
        if a.len() == 0 {
            assert(region_spans(regions) == before);
        } else {
            let span = SpanView { content: a, style: colored(regions.last().color) };
            assert(region_spans(regions) == before.push(span));
            lemma_shown_text_push(before, span);
            assert(content.take(m) =~= content.take(c) + a);
        }
    }
}

/// A coloured code line shows its number and its text, where the regions make up
/// the line or there are none.
pub proof fn lemma_highlighted_line_shows(
    line_no: nat,
    content: Seq<char>,
    ending: Seq<char>,
    regions: Seq<RegionView>,
)
    requires
        forall|i: int| 0 <= i < content.len() ==> !text::is_line_end(#[trigger] content[i]),
        forall|i: int| 0 <= i < ending.len() ==> text::is_line_end(#[trigger] ending[i]),
        regions.len() == 0 || region_text(regions) == content + ending,
    ensures
        shown_text(highlighted_code_line(line_no, content, regions)) == gutter(line_no).content
            + content,
{
    let spans = region_spans(regions);
    let plain = SpanView { content, style: plain_style() };
    lemma_shown_text_after(gutter(line_no), spans);
    lemma_shown_text_after(gutter(line_no), seq![plain]);
    assert(seq![gutter(line_no)] + seq![plain] =~= seq![gutter(line_no), plain]);
    lemma_shown_text_of_one(plain);
    if regions.len() > 0 {
        assert((content + ending).take((content + ending).len() as int) =~= content + ending);
        lemma_regions_show(regions, content, ending);
        assert(content.take(content.len() as int) =~= content);
    }
    if spans.len() == 0 && content.len() == 0 {
        assert(shown_text(spans) =~= content);
    }
}

/// A code line without colours shows its number and its text.
pub proof fn lemma_plain_line_shows(line_no: nat, content: Seq<char>)
    ensures
        shown_text(plain_code_line(line_no, content)) == gutter(line_no).content + content,
{
    let plain = SpanView { content, style: plain_style() };
    lemma_shown_text_after(gutter(line_no), seq![plain]);
    assert(seq![gutter(line_no)] + seq![plain] =~= seq![gutter(line_no), plain]);
    lemma_shown_text_of_one(plain);
}

impl Style {
    /// The style that leaves everything as the terminal has it.
    pub fn plain() -> (r: Style)
        ensures
            r == plain_style(),
    {
        Style { fg: None, bg: None, modifier: 0 }
    }

    /// The style with a text colour and nothing else.
    pub fn of_color(c: Color) -> (r: Style)
        ensures
            r == colored(c),
    {
        Style { fg: Some(c), bg: None, modifier: 0 }
    }
}

/// A line of plain text.
pub fn raw_line(content: &str) -> (r: Line)
    ensures
        r@ == seq![SpanView { content: content@, style: plain_style() }],
{
    let mut spans: Vec<Span> = Vec::new();
    spans.push(Span { content: text::owned(content), style: Style::plain() });
    let r = Line { spans };
    assert(r@ =~= seq![SpanView { content: content@, style: plain_style() }]);
    r
}

/// A copy of a line.
pub fn clone_line(line: &Line) -> (r: Line)
    ensures
        r@ == line@,
{
    let mut spans: Vec<Span> = Vec::new();
    for i in 0..line.spans.len()
        invariant
            spans@.len() == i,
            forall|j: int| 0 <= j < i ==> #[trigger] spans@[j]@ == line.spans@[j]@,
    {
        spans.push(Span { content: line.spans[i].content.clone(), style: line.spans[i].style });
    }
    let r = Line { spans };
    assert(r@ =~= line@);
    r
}

/// The line number in front of a code line.
fn gutter_span(line_no: usize) -> (r: Span)
    ensures
        r@ == gutter(line_no as nat),
{
    let number = text::decimal(line_no);
    let mut content = text::pad_left(number.as_str(), 4);
    content.append(" │ ");
    Span { content, style: Style::of_color(Color::DarkGray) }
}

/// A code line without colours.
pub fn build_plain_code_line(line_no: usize, content: &str) -> (r: Line)
    ensures
        r@ == plain_code_line(line_no as nat, content@),
{
    let mut spans: Vec<Span> = Vec::new();
    spans.push(gutter_span(line_no));
    spans.push(Span { content: text::owned(content), style: Style::plain() });
    let r = Line { spans };
    assert(r@ =~= plain_code_line(line_no as nat, content@));
    r
}

/// A code line with the colours that the highlighter reports.
pub fn build_highlighted_code_line(line_no: usize, content: &str, regions: &Vec<Region>) -> (r:
    Line)
    ensures
        r@ == highlighted_code_line(line_no as nat, content@, region_views(regions@)),
{
    let ghost all = region_views(regions@);
    let mut spans: Vec<Span> = Vec::new();
    spans.push(gutter_span(line_no));
    assert(span_views(spans@) =~= seq![gutter(line_no as nat)] + region_spans(all.take(0)));
    for i in 0..regions.len()
        invariant
            all == region_views(regions@),
            all.len() == regions@.len(),
            span_views(spans@) == seq![gutter(line_no as nat)] + region_spans(all.take(i as int)),
    {
        let ghost before = spans@;
        let shown = text::trim_line_end(regions[i].content.as_str());
        proof {
            assert(all.take(i + 1).drop_last() =~= all.take(i as int));
            assert(all.take(i + 1).last() == regions@[i as int]@);
        }
        if !shown.as_str().is_empty() {
            spans.push(Span { content: shown, style: Style::of_color(regions[i].color) });
        }
        proof {
            if spans@.len() > before.len() {
                lemma_span_views_push(before, spans@.last());
                assert(before.push(spans@.last()) =~= spans@);
            }
            assert(span_views(spans@) =~= seq![gutter(line_no as nat)] + region_spans(
                all.take(i + 1),
            ));
        }
    }
    assert(all.take(all.len() as int) =~= all);
    assert(spans@.len() == span_views(spans@).len());
    let ghost before = spans@;
    if spans.len() == 1 && !content.is_empty() {
        spans.push(Span { content: text::owned(content), style: Style::plain() });
        proof {
            lemma_span_views_push(before, spans@.last());
            assert(before.push(spans@.last()) =~= spans@);
        }
    }
    let r = Line { spans };
    assert(r@ =~= highlighted_code_line(line_no as nat, content@, all));
    r
}

/// Marks a code line as belonging to the stop.
pub fn highlight_code_line(line: Line) -> (r: Line)
    ensures
        r@ == marked_line(line@),
{
    let mut spans: Vec<Span> = Vec::new();
    for i in 0..line.spans.len()
        invariant
            spans@.len() == i,
            forall|j: int|
                0 <= j < i ==> #[trigger] spans@[j]@ == (SpanView {
                    content: line.spans@[j].content@,
                    style: marked_style(line.spans@[j].style),
                }),
    {
        let style = line.spans[i].style;
        spans.push(
            Span {
                content: line.spans[i].content.clone(),
                style: Style {
                    fg: style.fg,
                    bg: Some(Color::DarkGray),
                    modifier: style.modifier | BOLD,
                },
            },
        );
    }
    let r = Line { spans };
    assert(r@ =~= marked_line(line@));
    r
}

/// The number in front of a code line stands at the right of four columns, or more
/// where it is longer, in front of a rule and behind spaces; it is grey.
pub proof fn law_gutter_shows_the_number(line_no: nat)
    ensures
        ({
            let g = gutter(line_no);
            let d = text::decimal_text(line_no);
            let n = g.content.len();
            &&& n == (if d.len() < 4 {
                4
            } else {
                d.len()
            }) + 3
            &&& g.content.subrange(n - 3 - d.len(), n - 3) == d
            &&& forall|i: int| 0 <= i < n - 3 - d.len() ==> #[trigger] g.content[i] == ' '
            &&& g.content.skip(n - 3) == seq![' ', '│', ' ']
            &&& g.style.fg == Some(Color::DarkGray)
            &&& g.style.bg is None
            &&& g.style.modifier == 0
        }),
{
    reveal_strlit(" │ ");
    let g = gutter(line_no);
    let d = text::decimal_text(line_no);
    let n = g.content.len();
    text::law_padding_adds_spaces_only(d, 4);
    let p = text::padded_left(d, 4);
    assert(g.content.subrange(n - 3 - d.len(), n - 3) =~= p.skip(p.len() - d.len()));
    assert forall|i: int| 0 <= i < n - 3 - d.len() implies #[trigger] g.content[i] == ' ' by {
        assert(g.content[i] == p[i]);
    }
    assert(g.content.skip(n - 3) =~= seq![' ', '│', ' ']);
}

/// Each coloured region becomes a span of its colour that shows its text without the
/// line ending, behind those of the regions in front of it; one without such text
/// becomes nothing.
pub proof fn law_regions_become_spans(regions: Seq<RegionView>, r: RegionView)
    ensures
        region_spans(Seq::empty()).len() == 0,
        ({
            let shown = text::without_line_end(r.content);
            let before = region_spans(regions);
            let after = region_spans(regions.push(r));
            if shown.len() == 0 {
                after == before
            } else {
                &&& after.len() == before.len() + 1
                &&& after.drop_last() == before
                &&& after.last().content == shown
                &&& after.last().style.fg == Some(r.color)
                &&& after.last().style.bg is None
                &&& after.last().style.modifier == 0
            }
        }),
{
    assert(regions.push(r).drop_last() =~= regions);
    let before = region_spans(regions);
    let after = region_spans(regions.push(r));
    if text::without_line_end(r.content).len() > 0 {
        assert(after.drop_last() =~= before);
    }
}

/// A code line is its number and then its regions, or its text without colours where
/// there is nothing of them to show.
pub proof fn law_code_line_has_its_number_first(
    line_no: nat,
    content: Seq<char>,
    regions: Seq<RegionView>,
)
    ensures
        ({
            let plain = SpanView {
                content,
                style: Style { fg: None, bg: None, modifier: 0 },
            };
            let line = highlighted_code_line(line_no, content, regions);
            &&& plain_code_line(line_no, content) == seq![gutter(line_no), plain]
            &&& line.len() > 0 && line[0] == gutter(line_no)
            &&& region_spans(regions).len() > 0 ==> line.skip(1) == region_spans(regions)
            &&& region_spans(regions).len() == 0 && content.len() > 0 ==> line.skip(1) == seq![plain]
            &&& region_spans(regions).len() == 0 && content.len() == 0 ==> line.len() == 1
        }),
{
    let plain = SpanView { content, style: plain_style() };
    let line = highlighted_code_line(line_no, content, regions);
    if region_spans(regions).len() > 0 {
        assert(line.skip(1) =~= region_spans(regions));
    } else if content.len() > 0 {
        assert(line.skip(1) =~= seq![plain]);
    }
}

/// A marked line shows the same text in the same colours, bold and on grey.
pub proof fn law_marking_keeps_the_text(line: Seq<SpanView>)
    ensures
        marked_line(line).len() == line.len(),
        shown_text(marked_line(line)) == shown_text(line),
        forall|i: int|
            0 <= i < line.len() ==> {
                let m = #[trigger] marked_line(line)[i];
                &&& m.content == line[i].content
                &&& m.style.fg == line[i].style.fg
                &&& m.style.bg == Some(Color::DarkGray)
                &&& m.style.modifier == line[i].style.modifier | 1
            },
    decreases line.len(),
{
    if line.len() > 0 {
        law_marking_keeps_the_text(line.drop_last());
        assert(marked_line(line).drop_last() =~= marked_line(line.drop_last()));
    } else {
        assert(marked_line(line) =~= line);
    }
}

} // verus!
