//! Drawing the player. What is drawn where is decided here; ratatui puts it into
//! the cells of the terminal.

use crate::highlight::Assets;
use crate::layout;
use crate::layout::{Pane, Rect};
use crate::play;
use crate::play::{LoadedStop, Player};
use crate::source;
use crate::source::LoadedSource;
use crate::style;
use crate::style::{Color, Line, Span, Style};
use crate::text;
use ratatui::buffer::CellWidth;
use ratatui::layout as tui;
use ratatui::style as paint;
use ratatui::text as page;
use ratatui::widgets::{Block, Borders, Paragraph, Wrap};
use ratatui::Frame;
use vstd::prelude::*;
use vstd::string::*;

verus! {

/// `ratatui::Frame`: the screen while it is drawn. Opaque.
#[verifier::external_type_specification]
#[verifier::external_body]
pub struct ExFrame<'a>(ratatui::Frame<'a>);

/// `ratatui::text::Text`: lines of styled text. Opaque.
#[verifier::external_type_specification]
#[verifier::external_body]
pub struct ExText<'a>(ratatui::prelude::Text<'a>);

/// What stands in a cell of the terminal.
pub struct CellView {
    pub symbol: Seq<char>,
    /// Its colours and attributes, as a number.
    pub look: int,
}

/// All four borders of a pane.
pub const BORDERED: u8 = 15;

/// No border.
pub const BORDERLESS: u8 = 0;

/// The width up to which something is drawn.
pub const WIDEST: u16 = 32767;

/// An area in which the widths of two texts that fit into it can be added up, and
/// whose last column is not the last one there is.
pub open spec fn is_modest(area: Rect) -> bool {
    area.width <= WIDEST && area.x + area.width < u16::MAX
}

/// The area of a frame.
pub uninterp spec fn frame_area(frame: &Frame) -> Rect;

/// The cells of a frame.
pub uninterp spec fn frame_cells(frame: &Frame) -> Map<(u16, u16), CellView>;

/// The text is made of those lines, aligned to the left, and has no style of its own.
pub uninterp spec fn is_text_of(t: &page::Text, lines: Seq<Seq<style::SpanView>>) -> bool;

/// The cells after a paragraph was drawn over them: its lines cut off at the right,
/// inside those borders and below those titles.
pub uninterp spec fn paragraph_drawn(
    cells: Map<(u16, u16), CellView>,
    borders: u8,
    titles: Seq<Seq<char>>,
    lines: Seq<Seq<style::SpanView>>,
    area: Rect,
) -> Map<(u16, u16), CellView>;

/// The cells after a paragraph was drawn over them, inside those borders and below
/// a title: its lines broken at the right, with or without the spaces at their
/// start, the first `scroll` of them left out.
pub uninterp spec fn wrapped_drawn(
    cells: Map<(u16, u16), CellView>,
    borders: u8,
    trim: bool,
    title: Seq<char>,
    content: Seq<char>,
    scroll: u16,
    area: Rect,
) -> Map<(u16, u16), CellView>;

/// The clusters of each line of a text, as they are drawn: how many cells a cluster
/// takes, and whether it is a blank, at which a line may be broken.
pub uninterp spec fn clusters(content: Seq<char>) -> Seq<Seq<(u16, bool)>>;

/// The lines of clusters.
pub open spec fn cluster_lines(v: Seq<Vec<(u16, bool)>>) -> Seq<Seq<(u16, bool)>> {
    v.map_values(|l: Vec<(u16, bool)>| l@)
}

/// The cells that some clusters take together, in a pane that is `width` cells wide
/// inside its borders. A cluster that is wider is not drawn.
pub open spec fn cells_of(line: Seq<(u16, bool)>, width: int) -> nat
    decreases line.len(),
{
    if line.len() == 0 {
        0
    } else {
        cells_of(line.drop_last(), width) + (if line.last().0 <= width {
            line.last().0 as nat
        } else {
            0
        })
    }
}

/// Some cluster takes no cell; it is a blank, or it is not.
pub open spec fn has_empty(line: Seq<(u16, bool)>, blank: bool) -> bool {
    exists|i: int| 0 <= i < line.len() && #[trigger] line[i] == (0u16, blank)
}

/// How many cells a cluster of a line may take that is broken.
pub open spec fn room(line: Seq<(u16, bool)>) -> int {
    3 - (if has_empty(line, true) {
        1int
    } else {
        0
    }) - (if has_empty(line, false) {
        1int
    } else {
        0
    })
}

/// The line can be drawn broken, in a pane that is `width` cells wide inside its
/// borders: it is not broken at all, or none of the clusters that are drawn is too wide.
pub open spec fn line_can_wrap(line: Seq<(u16, bool)>, width: int) -> bool {
    ||| cells_of(line, width) <= width
    ||| forall|i: int|
        0 <= i < line.len() ==> (#[trigger] line[i]).0 <= room(line) || line[i].0 > width
}

/// The width of a pane inside its borders.
pub open spec fn inner_width(area: Rect) -> int {
    if area.width >= 2 {
        area.width - 2
    } else {
        0
    }
}

/// The lines can be drawn broken, in a pane that is `width` cells wide inside its
/// borders.
pub open spec fn can_wrap(lines: Seq<Seq<(u16, bool)>>, width: int) -> bool {
    forall|i: int| 0 <= i < lines.len() ==> line_can_wrap(#[trigger] lines[i], width)
}

/// Cells outside an area are the same in both.
pub open spec fn same_outside(
    a: Map<(u16, u16), CellView>,
    b: Map<(u16, u16), CellView>,
    area: Rect,
) -> bool {
    &&& a.dom() == b.dom()
    &&& forall|x: u16, y: u16|
        a.contains_key((x, y)) && !layout::inside(area, x, y) ==> a[(x, y)] == #[trigger] b[(x, y)]
}

/// `Frame::area`: the area of the frame.
#[verifier::external_body]
fn area_of(frame: &Frame<'_>) -> (r: Rect)
    ensures
        r == frame_area(frame),
{
    let r = frame.area();
    Rect { x: r.x, y: r.y, width: r.width, height: r.height }
}

/// `ratatui::text::Text`, collected from lines of `Span::styled`: text with those
/// lines.
#[verifier::external_body]
fn to_text(lines: &Vec<Line>) -> (r: page::Text<'static>)
    ensures
        is_text_of(&r, style::line_views(lines@)),
{
    let color = |c: Color|
        match c {
            Color::DarkGray => paint::Color::DarkGray,
            Color::Yellow => paint::Color::Yellow,
            Color::Rgb(r, g, b) => paint::Color::Rgb(r, g, b),
        };
    let look = |s: Style| paint::Style {
        fg: s.fg.map(color),
        bg: s.bg.map(color),
        add_modifier: paint::Modifier::from_bits_truncate(s.modifier),
        ..Default::default()
    };
    let span = |s: &Span| page::Span::styled(s.content.clone(), look(s.style));
    lines.iter().map(|l| l.spans.iter().map(span).collect::<page::Line>()).collect()
}

/// `Text::raw`, and of its lines `styled_graphemes` with `CellWidth::cell_width` and
/// `StyledGrapheme::is_whitespace`: the clusters of a text.
#[verifier::external_body]
fn clusters_of(content: &str) -> (r: Vec<Vec<(u16, bool)>>)
    ensures
        cluster_lines(r@) == clusters(content@),
{
    let text = page::Text::raw(content);
    let line = |l: &page::Line| l.styled_graphemes(paint::Style::default()).map(
        |g| (g.symbol.cell_width(), g.is_whitespace()),
    ).collect();
    text.iter().map(line).collect()
}

/// `Frame::render_widget` on a `Paragraph` in a `Block`: draws the text over the
/// cells of the area, and leaves the others as they are. To the width that a line has
/// reached it adds that of the next cluster, both up to the width of the area, as
/// numbers of 16 bits; and it draws a title up to the last column there is. So the area
/// is a modest one.
#[verifier::external_body]
fn draw_paragraph(
    frame: &mut Frame<'_>,
    borders: u8,
    titles: &Vec<String>,
    content: page::Text<'static>,
    area: Rect,
)
    requires
        is_modest(area),
    ensures
        frame_area(final(frame)) == frame_area(old(frame)),
        forall|lines: Seq<Seq<style::SpanView>>| #[trigger]
            is_text_of(&content, lines) ==> frame_cells(final(frame)) == paragraph_drawn(
                frame_cells(old(frame)),
                borders,
                text::texts(titles@),
                lines,
                area,
            ),
        same_outside(frame_cells(old(frame)), frame_cells(final(frame)), area),
{
    let empty = Block::new().borders(Borders::from_bits_truncate(borders));
    let block = titles.iter().fold(empty, |b, t| b.title(t.clone()));
    let place = tui::Rect { x: area.x, y: area.y, width: area.width, height: area.height };
    frame.render_widget(Paragraph::new(content).block(block), place);
}

/// `Frame::render_widget` on a `Paragraph` that wraps its lines, in a `Block` with
/// those borders: draws the text over the cells of the area, and leaves the others as
/// they are.
///
/// That holds of lines that can wrap. A line is broken when what it holds fills the
/// pane, whatever the next cluster takes; and the cluster behind a break joins the word
/// that was not finished without being measured. In front of that word stood a word and
/// a blank, each a cell wide or more unless a cluster of its kind takes no cell. So the
/// cluster that joins begins at the right border at the latest where none is wider than
/// three cells, less one for either kind. A wider one can begin outside the pane,
/// where the call draws over other cells, or panics behind the last column.
#[verifier::external_body]
fn draw_wrapped(
    frame: &mut Frame<'_>,
    borders: u8,
    trim: bool,
    title: &str,
    content: &str,
    scroll: u16,
    area: Rect,
)
    requires
        borders == BORDERED,
        !trim,
        is_modest(area),
        layout::within(area, frame_area(old(frame))),
        content@.len() > 0 ==> can_wrap(clusters(content@), inner_width(area)),
    ensures
        frame_area(final(frame)) == frame_area(old(frame)),
        frame_cells(final(frame)) == wrapped_drawn(
            frame_cells(old(frame)),
            borders,
            trim,
            title@,
            content@,
            scroll,
            area,
        ),
        same_outside(frame_cells(old(frame)), frame_cells(final(frame)), area),
{
    let block = Block::new().borders(Borders::from_bits_truncate(borders)).title(title);
    let paragraph = Paragraph::new(content).block(block).wrap(Wrap { trim });
    let place = tui::Rect { x: area.x, y: area.y, width: area.width, height: area.height };
    frame.render_widget(paragraph.scroll((scroll, 0)), place);
}

/// The lines of a stop: from its anchor on, as many as it asks for, one at least.
pub open spec fn marked_range(anchor: Option<usize>, count: Option<usize>) -> Option<(int, int)> {
    match anchor {
        Some(start) => Some(
            (
                start as int,
                start + match count {
                    Some(n) => if n > 0 {
                        n as int
                    } else {
                        1int
                    },
                    None => 1int,
                },
            ),
        ),
        None => None,
    }
}

/// The line belongs to the stop.
pub open spec fn is_marked(range: Option<(int, int)>, line_no: int) -> bool {
    range matches Some((a, b)) && a <= line_no < b
}

/// The end of the stop's lines is a number that the machine can hold.
pub open spec fn range_fits(anchor: Option<usize>, count: Option<usize>) -> bool {
    marked_range(anchor, count) matches Some((_, b)) ==> b <= usize::MAX
}

/// Inclusive-exclusive line range to highlight, or `None` when the anchor
/// is unresolved.
pub fn highlight_range(stop: &LoadedStop) -> (r: Option<(usize, usize)>)
    requires
        range_fits(stop.anchor_line, stop.highlight_lines),
    ensures
        match r {
            Some((a, b)) => marked_range(stop.anchor_line, stop.highlight_lines) == Some(
                (a as int, b as int),
            ),
            None => marked_range(stop.anchor_line, stop.highlight_lines) is None,
        },
{
    match stop.anchor_line {
        Some(start) => {
            let n: usize = match stop.highlight_lines {
                Some(n) => if n > 0 {
                    n
                } else {
                    1
                },
                None => 1,
            };
            Some((start, start + n))
        },
        None => None,
    }
}

/// The number of code lines that fit between the borders of a pane.
pub open spec fn rows_of(pane_height: u16) -> int {
    if pane_height >= 2 {
        pane_height - 2
    } else {
        0
    }
}

/// The number of lines of a file from `scroll` on, `rows` at most.
pub open spec fn shown_count(line_count: nat, scroll: int, rows: int) -> nat {
    if scroll >= line_count {
        0
    } else if line_count - scroll <= rows {
        (line_count - scroll) as nat
    } else {
        rows as nat
    }
}

/// `n` drawn lines of a file from `scroll` on.
pub open spec fn drawn_lines(drawn: Map<usize, Line>, scroll: int, n: nat) -> Seq<
    Seq<style::SpanView>,
> {
    Seq::new(n, |j: int| drawn[(scroll + j) as usize]@)
}

/// Lines of which the first has the index `scroll`, those of the stop marked.
pub open spec fn with_marks(
    lines: Seq<Seq<style::SpanView>>,
    range: Option<(int, int)>,
    scroll: int,
) -> Seq<Seq<style::SpanView>> {
    Seq::new(
        lines.len(),
        |j: int|
            if is_marked(range, scroll + j + 1) {
                style::marked_line(lines[j])
            } else {
                lines[j]
            },
    )
}

/// The lines of a file from `scroll` on, as they were drawn, those of the stop marked.
pub open spec fn shown_lines(
    source: LoadedSource,
    range: Option<(int, int)>,
    scroll: int,
    rows: int,
) -> Seq<Seq<style::SpanView>> {
    with_marks(
        drawn_lines(
            source.rendered_lines@,
            scroll,
            shown_count(source.line_count(), scroll, rows),
        ),
        range,
        scroll,
    )
}

/// Marks the lines that belong to the stop. The first of them has the index `scroll`.
fn mark_lines(lines: &Vec<Line>, range: Option<(usize, usize)>, scroll: usize) -> (r: Vec<Line>)
    requires
        lines@.len() > 0 ==> scroll + lines@.len() <= usize::MAX,
    ensures
        style::line_views(r@) == with_marks(
            style::line_views(lines@),
            match range {
                Some((a, b)) => Some((a as int, b as int)),
                None => None,
            },
            scroll as int,
        ),
{
    let ghost marks: Option<(int, int)> = match range {
        Some((a, b)) => Some((a as int, b as int)),
        None => None,
    };
    let n: usize = lines.len();
    let mut shown: Vec<Line> = Vec::new();
    for j in 0..n
        invariant
            n == lines@.len(),
            shown@.len() == j,
            n > 0 ==> scroll + n <= usize::MAX,
            marks == (match range {
                Some((a, b)) => Some((a as int, b as int)),
                None => None,
            }),
            forall|k: int|
                0 <= k < j ==> #[trigger] shown@[k]@ == (if is_marked(marks, scroll + k + 1) {
                    style::marked_line(lines@[k]@)
                } else {
                    lines@[k]@
                }),
    {
        let line_no: usize = scroll + j + 1;
        let marked = match range {
            Some((a, b)) => a <= line_no && line_no < b,
            None => false,
        };
        let line = style::clone_line(&lines[j]);
        if marked {
            shown.push(style::highlight_code_line(line));
        } else {
            shown.push(line);
        }
    }
    assert(style::line_views(shown@) =~= with_marks(
        style::line_views(lines@),
        marks,
        scroll as int,
    ));
    shown
}

/// The code lines to show in a pane of that height, those of the stop marked.
pub fn visible_code_lines(
    stop: &LoadedStop,
    source: &mut LoadedSource,
    assets: &Assets,
    scroll: usize,
    pane_height: u16,
) -> (r: Vec<Line>)
    requires
        old(source).wf(),
        old(source).can_draw(scroll as int, rows_of(pane_height)),
        range_fits(stop.anchor_line, stop.highlight_lines),
    ensures
        final(source).drawn_from(*old(source), scroll as int, rows_of(pane_height)),
        style::line_views(r@) == shown_lines(
            *final(source),
            marked_range(stop.anchor_line, stop.highlight_lines),
            scroll as int,
            rows_of(pane_height),
        ),
{
    let rows: usize = pane_height.saturating_sub(2) as usize;
    let range = highlight_range(stop);
    let ghost total = source.line_count();
    let cached = source.cached_code_lines(assets, scroll, rows);
    assert(source.line_count() == total);
    assert(total <= usize::MAX) by {
        assert(total == source.line_ranges.len());
    }
    assert(cached@.len() == shown_count(total, scroll as int, rows as int));
    assert(style::line_views(cached@) =~= drawn_lines(
        source.rendered_lines@,
        scroll as int,
        shown_count(total, scroll as int, rows as int),
    ));
    mark_lines(&cached, range, scroll)
}

/// The stop that is shown.
pub open spec fn shown_stop(state: Player) -> Option<LoadedStop> {
    state.known(state.index as int)
}

/// The title of a pane, with a mark in front where the pane is the active one.
pub open spec fn pane_title(name: Seq<char>, active: bool) -> Seq<char> {
    if active {
        "> "@ + name
    } else {
        name
    }
}

/// The title of the code pane: the name of the file.
pub open spec fn code_title(state: Player) -> Seq<char> {
    pane_title(
        match shown_stop(state) {
            Some(s) => s.file@,
            None => Seq::empty(),
        },
        state.active_pane is Code,
    )
}

/// The title of the commentary pane: that of the stop.
pub open spec fn body_title(state: Player) -> Seq<char> {
    pane_title(
        match shown_stop(state) {
            Some(s) => s.title@,
            None => "(no stops)"@,
        },
        state.active_pane is Commentary,
    )
}

/// The commentary.
pub open spec fn body_text(state: Player) -> Seq<char> {
    match shown_stop(state) {
        Some(s) => s.body@,
        None => Seq::empty(),
    }
}

/// The lines of the code pane.
pub open spec fn code_lines(state: Player, pane_height: u16) -> Seq<Seq<style::SpanView>> {
    match shown_stop(state) {
        Some(s) => shown_lines(
            state.sources@[s.source as int],
            marked_range(s.anchor_line, s.highlight_lines),
            state.scroll as int,
            rows_of(pane_height),
        ),
        None => Seq::empty(),
    }
}

/// What keys there are.
pub open spec fn key_hints(state: Player) -> Seq<char> {
    if state.stops@.len() == 0 {
        "no stops — q quit"@
    } else {
        "n/] next  p/[ prev  tab pane  j/k scroll  wheel scrolls pane  q quit"@
    }
}

/// Which stop of how many is shown.
pub open spec fn progress(state: Player) -> Seq<char> {
    if state.stops@.len() == 0 {
        Seq::empty()
    } else {
        text::decimal_text((state.index + 1) as nat) + " / "@ + text::decimal_text(
            state.stops@.len(),
        )
    }
}

/// The left of the status bar: the keys, then the first warning of the stop.
pub open spec fn status_spans(state: Player) -> Seq<style::SpanView> {
    let hints = seq![
        style::SpanView { content: key_hints(state), style: style::plain_style() },
    ];
    match shown_stop(state) {
        Some(s) => if s.warnings@.len() > 0 {
            hints + seq![
                style::SpanView { content: "  "@, style: style::plain_style() },
                style::SpanView {
                    content: "! "@ + s.warnings@[0]@,
                    style: style::colored(Color::Yellow),
                },
            ]
        } else {
            hints
        },
        None => hints,
    }
}

/// The left and the right of the status bar. The progress stands at the right.
pub open spec fn status_parts(status: Rect, progress_width: u16) -> Seq<Rect> {
    let width = layout::along(status, false);
    layout::two_parts(
        status,
        false,
        width - layout::rest_length(width, 1, progress_width as int),
    )
}

/// The cells after the code pane was drawn.
pub open spec fn code_drawn(
    cells: Map<(u16, u16), CellView>,
    area: Rect,
    state: Player,
) -> Map<(u16, u16), CellView> {
    let code = layout::player_parts(area).code;
    paragraph_drawn(cells, BORDERED, seq![code_title(state)], code_lines(state, code.height), code)
}

/// The cells after the commentary was drawn.
pub open spec fn body_drawn(
    cells: Map<(u16, u16), CellView>,
    area: Rect,
    state: Player,
) -> Map<(u16, u16), CellView> {
    wrapped_drawn(
        cells,
        BORDERED,
        false,
        body_title(state),
        body_text(state),
        state.body_scroll as u16,
        layout::player_parts(area).body,
    )
}

/// The cells after the status bar was drawn.
pub open spec fn status_drawn(
    cells: Map<(u16, u16), CellView>,
    area: Rect,
    state: Player,
) -> Map<(u16, u16), CellView> {
    let width = progress(state).len() as u16;
    let parts = status_parts(layout::player_parts(area).status, width);
    let left = paragraph_drawn(
        cells,
        BORDERLESS,
        Seq::empty(),
        seq![status_spans(state)],
        parts[0],
    );
    if width > 0 {
        paragraph_drawn(
            left,
            BORDERLESS,
            Seq::empty(),
            seq![seq![style::SpanView { content: progress(state), style: style::plain_style() }]],
            parts[1],
        )
    } else {
        left
    }
}

/// `after` is `before` once the code lines to show have been drawn.
pub open spec fn code_is_drawn(before: Player, after: Player, pane_height: u16) -> bool {
    &&& after.wf()
    &&& after.same_place(before)
    &&& after.stops@ == before.stops@
    &&& after.preload == before.preload
    &&& match shown_stop(before) {
        Some(s) => {
            &&& after.sources@ == before.sources@.update(
                s.source as int,
                after.sources@[s.source as int],
            )
            &&& after.sources@[s.source as int].drawn_from(
                before.sources@[s.source as int],
                before.scroll as int,
                rows_of(pane_height),
            )
        },
        None => after.sources@ == before.sources@,
    }
}

/// The player can be drawn in an area: the area is a modest one, the end of the
/// lines of the stop that is shown is a number that the machine can hold, its code
/// lines can be drawn, and its commentary can wrap.
pub open spec fn is_drawable(state: Player, area: Rect) -> bool {
    let parts = layout::player_parts(area);
    &&& is_modest(area)
    &&& shown_stop(state) matches Some(s) ==> {
        &&& range_fits(s.anchor_line, s.highlight_lines)
        &&& state.sources@[s.source as int].can_draw(
            state.scroll as int,
            rows_of(parts.code.height),
        )
        &&& can_wrap(clusters(s.body@), inner_width(parts.body))
    }
}

/// Whether the end of a stop's lines is a number that the machine can hold.
fn has_end(stop: &LoadedStop) -> (r: bool)
    ensures
        r == range_fits(stop.anchor_line, stop.highlight_lines),
{
    match stop.anchor_line {
        Some(start) => match stop.highlight_lines {
            Some(n) => if n > 0 {
                n <= usize::MAX - start
            } else {
                start < usize::MAX
            },
            None => start < usize::MAX,
        },
        None => true,
    }
}

/// Whether a line has a cluster that takes no cell; a blank, or none.
fn finds_empty(line: &Vec<(u16, bool)>, blank: bool) -> (r: bool)
    ensures
        r == has_empty(line@, blank),
{
    for i in 0..line.len()
        invariant
            forall|k: int| 0 <= k < i ==> #[trigger] line@[k] != (0u16, blank),
    {
        if line[i].0 == 0 && line[i].1 == blank {
            assert(line@[i as int] == (0u16, blank));
            return true;
        }
    }
    false
}

/// Whether the clusters of a line take `width` cells at most.
fn fits_unbroken(line: &Vec<(u16, bool)>, width: u16) -> (r: bool)
    ensures
        r == (cells_of(line@, width as int) <= width),
{
    let mut total: u16 = 0;
    for i in 0..line.len()
        invariant
            total == cells_of(line@.take(i as int), width as int),
            total <= width,
    {
        proof {
            let longer = line@.take(i + 1);
            assert(longer.drop_last() =~= line@.take(i as int));
            lemma_cells_grow(line@, i + 1, width as int);
        }
        if line[i].0 <= width {
            if line[i].0 > width - total {
                return false;
            }
            total = total + line[i].0;
        }
    }
    assert(line@.take(line@.len() as int) =~= line@);
    true
}

/// The first clusters of a line take no more cells than the line.
proof fn lemma_cells_grow(line: Seq<(u16, bool)>, n: int, width: int)
    requires
        0 <= n <= line.len(),
    ensures
        cells_of(line.take(n), width) <= cells_of(line, width),
    decreases line.len(),
{
    if n < line.len() {
        let front = line.drop_last();
        lemma_cells_grow(front, n, width);
        assert(front.take(n) =~= line.take(n));
    } else {
        assert(line.take(n) =~= line);
    }
}

/// Whether a line can be drawn broken.
fn wraps(line: &Vec<(u16, bool)>, width: u16) -> (r: bool)
    ensures
        r == line_can_wrap(line@, width as int),
{
    if fits_unbroken(line, width) {
        return true;
    }
    let mut widest: u16 = 3;
    if finds_empty(line, true) {
        widest = widest - 1;
    }
    if finds_empty(line, false) {
        widest = widest - 1;
    }
    for i in 0..line.len()
        invariant
            widest == room(line@),
            cells_of(line@, width as int) > width,
            forall|k: int|
                0 <= k < i ==> (#[trigger] line@[k]).0 <= widest || line@[k].0 > width,
    {
        if line[i].0 > widest && line[i].0 <= width {
            return false;
        }
    }
    true
}

/// Whether a text can be drawn broken, in a pane that is `width` cells wide inside its
/// borders. A cluster that takes many cells can stop it.
pub fn wrappable(content: &str, width: u16) -> (r: bool)
    ensures
        r == can_wrap(clusters(content@), width as int),
{
    let lines = clusters_of(content);
    let ghost all = clusters(content@);
    assert(cluster_lines(lines@).len() == lines@.len());
    for i in 0..lines.len()
        invariant
            all == clusters(content@),
            all == cluster_lines(lines@),
            all.len() == lines@.len(),
            forall|k: int| 0 <= k < i ==> line_can_wrap(#[trigger] all[k], width as int),
    {
        assert(all[i as int] == lines@[i as int]@);
        if !wraps(&lines[i], width) {
            return false;
        }
    }
    true
}

/// Whether the player can be drawn in an area.
pub fn drawable(state: &Player, area: Rect) -> (r: bool)
    requires
        state.wf(),
    ensures
        r == is_drawable(*state, area),
{
    if area.width > WIDEST || area.x >= u16::MAX - area.width {
        return false;
    }
    let parts = layout::player_layout(area);
    proof {
        state.lemma_known_has_source(state.index as int);
    }
    match state.cached_stop(state.index) {
        Some(s) => {
            let rows: usize = parts.code.height.saturating_sub(2) as usize;
            let width: u16 = parts.body.width.saturating_sub(2);
            has_end(s) && state.sources[s.source].drawable_lines(state.scroll, rows) && wrappable(
                s.body.as_str(),
                width,
            )
        },
        None => true,
    }
}

/// Draws the code lines to show, as far as they are not drawn yet.
fn draw_code_lines(
    state: &mut Player,
    stop: &LoadedStop,
    assets: &Assets,
    pane_height: u16,
) -> (r: Vec<Line>)
    requires
        old(state).wf(),
        shown_stop(*old(state)) matches Some(s) && s@ == stop@ && old(
            state,
        ).sources@[s.source as int].can_draw(old(state).scroll as int, rows_of(pane_height)),
        range_fits(stop.anchor_line, stop.highlight_lines),
    ensures
        code_is_drawn(*old(state), *final(state), pane_height),
        style::line_views(r@) == code_lines(*final(state), pane_height),
{
    let ghost before = *state;
    let i: usize = stop.source;
    proof {
        let s = shown_stop(before).unwrap();
        assert(s@.source == stop@.source);
        before.lemma_known_has_source(before.index as int);
    }
    let scroll: usize = state.scroll;
    let lines = visible_code_lines(stop, &mut state.sources[i], assets, scroll, pane_height);
    proof {
        let s = shown_stop(before).unwrap();
        assert(s@.anchor_line == stop@.anchor_line);
        assert(s@.highlight_lines == stop@.highlight_lines);
        assert forall|k: int| 0 <= k < state.stops@.len() implies play::has_source(
            #[trigger] state.stops@[k],
            state.sources@,
        ) by {
            assert(play::has_source(before.stops@[k], before.sources@));
        }
        if let Some(p) = before.preload {
            assert forall|k: int| 0 <= k < p.prepared_stops@.len() implies play::has_source(
                #[trigger] p.prepared_stops@[k],
                state.sources@,
            ) by {
                assert(play::has_source(p.prepared_stops@[k], before.sources@));
            }
        }
        assert(state.sources@ =~= before.sources@.update(i as int, state.sources@[i as int]));
    }
    lines
}

/// The title of a pane, with a mark in front where the pane is the active one.
fn title_of(name: &str, active: bool) -> (r: String)
    ensures
        r@ == pane_title(name@, active),
{
    if active {
        text::concat2("> ", name)
    } else {
        text::owned(name)
    }
}

/// Which stop of how many is shown.
fn progress_text(state: &Player) -> (r: String)
    requires
        state.wf(),
    ensures
        r@ == progress(*state),
{
    if state.stops.len() == 0 {
        return String::new();
    }
    let at = text::decimal(state.index + 1);
    let of = text::decimal(state.stops.len());
    text::concat3(at.as_str(), " / ", of.as_str())
}

/// The left of the status bar.
fn status_line(state: &Player) -> (r: Line)
    ensures
        r@ == status_spans(*state),
{
    let hints: &str = if state.stops.len() == 0 {
        "no stops — q quit"
    } else {
        "n/] next  p/[ prev  tab pane  j/k scroll  wheel scrolls pane  q quit"
    };
    let mut spans: Vec<Span> = Vec::new();
    spans.push(Span { content: text::owned(hints), style: Style::plain() });
    if let Some(stop) = state.cached_stop(state.index) {
        if stop.warnings.len() > 0 {
            spans.push(Span { content: text::owned("  "), style: Style::plain() });
            spans.push(
                Span {
                    content: text::concat2("! ", stop.warnings[0].as_str()),
                    style: Style::of_color(Color::Yellow),
                },
            );
        }
    }
    let r = Line { spans };
    assert(r@ =~= status_spans(*state));
    r
}

/// Draws one line without borders.
fn draw_line(frame: &mut Frame<'_>, line: Line, area: Rect)
    requires
        is_modest(area),
    ensures
        frame_area(final(frame)) == frame_area(old(frame)),
        frame_cells(final(frame)) == paragraph_drawn(
            frame_cells(old(frame)),
            BORDERLESS,
            Seq::empty(),
            seq![line@],
            area,
        ),
        same_outside(frame_cells(old(frame)), frame_cells(final(frame)), area),
{
    let titles: Vec<String> = Vec::new();
    let lines: Vec<Line> = vec![line];
    assert(text::texts(titles@) =~= Seq::empty());
    assert(style::line_views(lines@) =~= seq![line@]);
    draw_paragraph(frame, BORDERLESS, &titles, to_text(&lines), area);
}

/// Draws the status bar.
fn draw_status(state: &Player, frame: &mut Frame<'_>, area: Rect)
    requires
        state.wf(),
        is_modest(area),
    ensures
        frame_area(final(frame)) == frame_area(old(frame)),
        frame_cells(final(frame)) == status_drawn(frame_cells(old(frame)), area, *state),
        same_outside(
            frame_cells(old(frame)),
            frame_cells(final(frame)),
            layout::player_parts(area).status,
        ),
{
    let status = layout::player_layout(area).status;
    let text = progress_text(state);
    let width: u16 = #[verifier::truncate]
    (text.as_str().unicode_len() as u16);
    let (left, right) = layout::split_last(false, width, status);
    proof {
        let parts = status_parts(status, width);
        assert(parts[0] == seq![left, right][0]);
        assert(parts[1] == seq![left, right][1]);
        assert forall|x: u16, y: u16| !layout::inside(status, x, y) implies !#[trigger]
            layout::inside(left, x, y) && !layout::inside(right, x, y) by {}
    }
    draw_line(frame, status_line(state), left);
    if width > 0 {
        let line = style::raw_line(text.as_str());
        draw_line(frame, line, right);
    }
}

/// `after` and `new` are the player and the cells of the frame once the player
/// `before` was drawn over the cells `old_cells` of an area: the code lines that were
/// missing are drawn, and each part of the screen shows what belongs there.
pub open spec fn is_rendered(
    before: Player,
    after: Player,
    area: Rect,
    old_cells: Map<(u16, u16), CellView>,
    new_cells: Map<(u16, u16), CellView>,
) -> bool {
    let parts = layout::player_parts(area);
    let code = code_drawn(old_cells, area, after);
    let body = body_drawn(code, area, after);
    &&& code_is_drawn(before, after, parts.code.height)
    &&& new_cells == status_drawn(body, area, after)
    &&& forall|x: u16, y: u16|
        old_cells.contains_key((x, y)) && layout::inside(parts.code, x, y)
            ==> #[trigger] new_cells[(x, y)] == code[(x, y)]
    &&& forall|x: u16, y: u16|
        old_cells.contains_key((x, y)) && layout::inside(parts.body, x, y)
            ==> #[trigger] new_cells[(x, y)] == body[(x, y)]
    &&& forall|x: u16, y: u16|
        old_cells.contains_key((x, y)) && !layout::inside(area, x, y) ==> #[trigger] new_cells[(
            x,
            y,
        )] == old_cells[(x, y)]
}

/// Draws the player where it can be drawn, and says whether it could; else nothing
/// changes.
pub fn draw(state: &mut Player, frame: &mut Frame<'_>, assets: &Assets) -> (r: bool)
    requires
        old(state).wf(),
    ensures
        r == is_drawable(*old(state), frame_area(old(frame))),
        frame_area(final(frame)) == frame_area(old(frame)),
        r ==> is_rendered(
            *old(state),
            *final(state),
            frame_area(old(frame)),
            frame_cells(old(frame)),
            frame_cells(final(frame)),
        ),
        !r ==> *final(state) == *old(state) && frame_cells(final(frame)) == frame_cells(old(frame)),
{
    let area = area_of(frame);
    if drawable(state, area) {
        render(state, frame, assets);
        true
    } else {
        false
    }
}

/// Draw the player UI into the given frame: code and commentary next to each
/// other, the status bar below. `drawable` says whether it can be drawn there.
pub fn render(state: &mut Player, frame: &mut Frame<'_>, assets: &Assets)
    requires
        old(state).wf(),
        is_drawable(*old(state), frame_area(old(frame))),
    ensures
        frame_area(final(frame)) == frame_area(old(frame)),
        is_rendered(
            *old(state),
            *final(state),
            frame_area(old(frame)),
            frame_cells(old(frame)),
            frame_cells(final(frame)),
        ),
{
    let area = area_of(frame);
    let parts = layout::player_layout(area);
    proof {
        layout::law_parts_lie_on_the_screen(area);
    }
    let stop: Option<LoadedStop> = match state.cached_stop(state.index) {
        Some(s) => Some(s.copy()),
        None => None,
    };

    let lines: Vec<Line> = match &stop {
        Some(s) => draw_code_lines(state, s, assets, parts.code.height),
        None => Vec::new(),
    };
    proof {
        if stop is None {
            assert(style::line_views(lines@) =~= Seq::empty());
        }
    }
    let name: &str = match &stop {
        Some(s) => s.file.as_str(),
        None => "",
    };
    proof {
        reveal_strlit("");
        assert(""@ =~= Seq::<char>::empty());
    }
    let title = title_of(name, state.active_pane == Pane::Code);
    let titles: Vec<String> = vec![title];
    assert(text::texts(titles@) =~= seq![code_title(*state)]);
    draw_paragraph(frame, BORDERED, &titles, to_text(&lines), parts.code);

    let name: &str = match &stop {
        Some(s) => s.title.as_str(),
        None => "(no stops)",
    };
    let title = title_of(name, state.active_pane == Pane::Commentary);
    let body: &str = match &stop {
        Some(s) => s.body.as_str(),
        None => "",
    };
    let scroll: u16 = #[verifier::truncate]
    (state.body_scroll as u16);
    draw_wrapped(frame, BORDERED, false, title.as_str(), body, scroll, parts.body);

    draw_status(state, frame, area);
    proof {
        assert forall|x: u16, y: u16| true implies {
            &&& layout::inside(parts.code, x, y) ==> !layout::inside(parts.body, x, y)
                && !#[trigger] layout::inside(parts.status, x, y) && layout::inside(area, x, y)
            &&& layout::inside(parts.body, x, y) ==> !layout::inside(parts.status, x, y)
                && layout::inside(area, x, y)
            &&& layout::inside(parts.status, x, y) ==> layout::inside(area, x, y)
        } by {
            layout::law_parts_tile_the_screen(area, x, y);
        }
    }
}

/// Drawing the same screen a second time finds every line drawn, and changes nothing.
pub proof fn law_rendering_again_changes_nothing(
    p0: Player,
    p1: Player,
    p2: Player,
    pane_height: u16,
    i: int,
)
    requires
        p0.wf(),
        code_is_drawn(p0, p1, pane_height),
        code_is_drawn(p1, p2, pane_height),
        0 <= i < p0.sources@.len(),
    ensures
        p2.sources@.len() == p1.sources@.len(),
        p2.sources@[i].rendered_lines@ == p1.sources@[i].rendered_lines@,
        p2.sources@[i].checkpoints@ == p1.sources@[i].checkpoints@,
{
    if let Some(s) = shown_stop(p0) {
        assert(shown_stop(p1) == shown_stop(p0));
        let k = s.source as int;
        p0.lemma_known_has_source(p0.index as int);
        source::law_drawing_again_changes_nothing(
            p0.sources@[k],
            p1.sources@[k],
            p2.sources@[k],
            p0.scroll as int,
            rows_of(pane_height),
        );
    }
}

/// A stop is opened with its line in view and marked: where the anchor is a line of
/// the file and the code pane has room for a line below the context, the line is
/// among those shown, as it was drawn, and marked.
pub proof fn law_opened_stop_shows_its_line(
    before: Player,
    moved: Player,
    drawn: Player,
    pane_height: u16,
    idx: int,
    line: usize,
)
    requires
        moved.wf(),
        moved.moved_to(before, idx),
        code_is_drawn(moved, drawn, pane_height),
        moved.known(idx) matches Some(s) && s.anchor_line == Some(line) && 1 <= line
            <= moved.sources@[s.source as int].line_count(),
        rows_of(pane_height) > play::CONTEXT_ABOVE,
    ensures
        ({
            let row = line - 1 - drawn.scroll;
            let source = drawn.sources@[shown_stop(drawn).unwrap().source as int];
            &&& 0 <= row <= play::CONTEXT_ABOVE
            &&& row < code_lines(drawn, pane_height).len()
            &&& code_lines(drawn, pane_height)[row] == style::marked_line(
                source.rendered_lines@[(line - 1) as usize]@,
            )
        }),
{
    let s = moved.known(idx).unwrap();
    assert(shown_stop(moved) == Some(s));
    assert(shown_stop(drawn) == Some(s));
    moved.lemma_known_has_source(moved.index as int);
    let source = drawn.sources@[s.source as int];
    assert(source.line_count() == moved.sources@[s.source as int].line_count());
    let row = line - 1 - drawn.scroll;
    let range = marked_range(s.anchor_line, s.highlight_lines);
    assert(is_marked(range, drawn.scroll + row + 1));
}

/// The title of a pane as it is drawn.
proof fn lemma_pane_title(name: Seq<char>, active: bool)
    ensures
        pane_title(name, active) == (if active {
            seq!['>', ' '] + name
        } else {
            name
        }),
{
    reveal_strlit("> ");
    assert("> "@ =~= seq!['>', ' ']);
}

/// The commentary of the stop that is shown is drawn in its pane, inside borders, under
/// the title of the stop, with as many of its lines left out at the top as it was
/// scrolled down. The count is one of 16 bits, so that it starts again beyond them. The
/// title has a mark in front where the pane is the active one.
pub proof fn law_commentary_is_drawn_from_its_offset(
    before: Player,
    after: Player,
    area: Rect,
    old_cells: Map<(u16, u16), CellView>,
    new_cells: Map<(u16, u16), CellView>,
    x: u16,
    y: u16,
    offset: u16,
)
    requires
        is_rendered(before, after, area, old_cells, new_cells),
        old_cells.contains_key((x, y)),
        layout::inside(layout::player_parts(area).body, x, y),
        offset == before.body_scroll % 0x1_0000,
    ensures
        ({
            let (name, content) = match before.known(before.index as int) {
                Some(s) => (s.title@, s.body@),
                None => ("(no stops)"@, Seq::empty()),
            };
            let title = match before.active_pane {
                Pane::Commentary => seq!['>', ' '] + name,
                Pane::Code => name,
            };
            new_cells[(x, y)] == wrapped_drawn(
                code_drawn(old_cells, area, after),
                15,
                false,
                title,
                content,
                offset,
                layout::player_parts(area).body,
            )[(x, y)]
        }),
{
    let scroll = before.body_scroll;
    assert(scroll as u16 == scroll % 0x1_0000) by (bit_vector);
    assert(shown_stop(after) == before.known(before.index as int));
    let name = match before.known(before.index as int) {
        Some(s) => s.title@,
        None => "(no stops)"@,
    };
    lemma_pane_title(name, before.active_pane is Commentary);
}

/// Of two players that differ in nothing but how far the commentary is scrolled, by `a`
/// and by `b` lines, the one shows it without its first `a` lines and the other without
/// its first `b`.
pub proof fn law_commentary_follows_its_offset(
    p: Player,
    q: Player,
    p_drawn: Player,
    q_drawn: Player,
    area: Rect,
    old_cells: Map<(u16, u16), CellView>,
    p_cells: Map<(u16, u16), CellView>,
    q_cells: Map<(u16, u16), CellView>,
    x: u16,
    y: u16,
    a: u16,
    b: u16,
)
    requires
        p.same_stops(q),
        p.index == q.index,
        p.active_pane == q.active_pane,
        p.body_scroll == a,
        q.body_scroll == b,
        is_rendered(p, p_drawn, area, old_cells, p_cells),
        is_rendered(q, q_drawn, area, old_cells, q_cells),
        old_cells.contains_key((x, y)),
        layout::inside(layout::player_parts(area).body, x, y),
    ensures
        ({
            let body = layout::player_parts(area).body;
            let title = body_title(p);
            let content = body_text(p);
            &&& p_cells[(x, y)] == wrapped_drawn(
                code_drawn(old_cells, area, p_drawn),
                15,
                false,
                title,
                content,
                a,
                body,
            )[(x, y)]
            &&& q_cells[(x, y)] == wrapped_drawn(
                code_drawn(old_cells, area, q_drawn),
                15,
                false,
                title,
                content,
                b,
                body,
            )[(x, y)]
        }),
{
    law_commentary_is_drawn_from_its_offset(p, p_drawn, area, old_cells, p_cells, x, y, a);
    law_commentary_is_drawn_from_its_offset(q, q_drawn, area, old_cells, q_cells, x, y, b);
    let name = match p.known(p.index as int) {
        Some(s) => s.title@,
        None => "(no stops)"@,
    };
    lemma_pane_title(name, p.active_pane is Commentary);
}

/// Scrolling the commentary down shows it with one line more left out at its top than
/// before, and scrolling it up with one less.
pub proof fn law_scrolling_moves_the_commentary_one_line(
    before: Player,
    after: Player,
    ev: play::Event,
    before_drawn: Player,
    after_drawn: Player,
    area: Rect,
    old_cells: Map<(u16, u16), CellView>,
    before_cells: Map<(u16, u16), CellView>,
    after_cells: Map<(u16, u16), CellView>,
    x: u16,
    y: u16,
    offset: u16,
)
    requires
        before.wf(),
        before.active_pane is Commentary,
        ev is ScrollDown && offset < u16::MAX || ev is ScrollUp && offset > 0,
        match before.target(ev) {
            Some(k) => after.moved_to(before, k),
            None => after.stayed(before, ev),
        },
        before.body_scroll == offset,
        is_rendered(before, before_drawn, area, old_cells, before_cells),
        is_rendered(after, after_drawn, area, old_cells, after_cells),
        old_cells.contains_key((x, y)),
        layout::inside(layout::player_parts(area).body, x, y),
    ensures
        ({
            let body = layout::player_parts(area).body;
            let title = body_title(before);
            let content = body_text(before);
            let next = if ev is ScrollDown {
                offset + 1
            } else {
                offset - 1
            };
            &&& before_cells[(x, y)] == wrapped_drawn(
                code_drawn(old_cells, area, before_drawn),
                15,
                false,
                title,
                content,
                offset,
                body,
            )[(x, y)]
            &&& after_cells[(x, y)] == wrapped_drawn(
                code_drawn(old_cells, area, after_drawn),
                15,
                false,
                title,
                content,
                next as u16,
                body,
            )[(x, y)]
        }),
{
    let next = if ev is ScrollDown {
        offset + 1
    } else {
        offset - 1
    };
    play::law_scrolling_moves_one_line(before, after, ev, Pane::Commentary);
    law_commentary_follows_its_offset(
        before,
        after,
        before_drawn,
        after_drawn,
        area,
        old_cells,
        before_cells,
        after_cells,
        x,
        y,
        offset,
        next as u16,
    );
}

/// The code is drawn in its pane, inside borders, under the name of its file. The name
/// has a mark in front where the pane is the active one.
pub proof fn law_code_is_drawn_under_its_file(
    before: Player,
    after: Player,
    area: Rect,
    old_cells: Map<(u16, u16), CellView>,
    new_cells: Map<(u16, u16), CellView>,
    x: u16,
    y: u16,
)
    requires
        is_rendered(before, after, area, old_cells, new_cells),
        old_cells.contains_key((x, y)),
        layout::inside(layout::player_parts(area).code, x, y),
    ensures
        ({
            let code = layout::player_parts(area).code;
            let name = match before.known(before.index as int) {
                Some(s) => s.file@,
                None => Seq::empty(),
            };
            let title = match before.active_pane {
                Pane::Code => seq!['>', ' '] + name,
                Pane::Commentary => name,
            };
            &&& new_cells[(x, y)] == paragraph_drawn(
                old_cells,
                15,
                seq![title],
                code_lines(after, code.height),
                code,
            )[(x, y)]
            &&& before.known(before.index as int) is None ==> code_lines(after, code.height).len()
                == 0
        }),
{
    assert(shown_stop(after) == before.known(before.index as int));
    let name = match before.known(before.index as int) {
        Some(s) => s.file@,
        None => Seq::empty(),
    };
    lemma_pane_title(name, before.active_pane is Code);
}

/// The rows of the code pane between its borders show the lines of the file from where
/// it is scrolled to, one after the other, as far as there are any. A line that was
/// drawn for it shows its number and its text. Those from the anchor on, as many as the
/// stop asks for and one at least, are marked, and no other.
pub proof fn law_code_rows_show_the_file(
    before: Player,
    after: Player,
    pane_height: u16,
    row: int,
    s: LoadedStop,
)
    requires
        before.wf(),
        code_is_drawn(before, after, pane_height),
        before.known(before.index as int) == Some(s),
        0 <= row,
    ensures
        ({
            let lines = code_lines(after, pane_height);
            let old_source = before.sources@[s.source as int];
            let new_source = after.sources@[s.source as int];
            let i = before.scroll + row;
            &&& row < lines.len() <==> row + 2 < pane_height && i < old_source.line_count()
            &&& row < lines.len() ==> {
                let drawn = new_source.rendered_lines@[i as usize]@;
                let marked = s.anchor_line matches Some(a) && (i + 1 == a || (
                s.highlight_lines matches Some(n) && a <= i + 1 < a + n));
                &&& new_source.rendered_lines@.contains_key(i as usize)
                &&& lines[row] == (if marked {
                    style::marked_line(drawn)
                } else {
                    drawn
                })
                &&& !old_source.rendered_lines@.contains_key(i as usize)
                    && !old_source.content(i).contains('\r') ==> style::shown_text(lines[row])
                    == style::gutter((i + 1) as nat).content + old_source.content(i)
            }
        }),
{
    assert(shown_stop(after) == Some(s));
    before.lemma_known_has_source(before.index as int);
    let old_source = before.sources@[s.source as int];
    let new_source = after.sources@[s.source as int];
    let lines = code_lines(after, pane_height);
    let i = before.scroll + row;
    let rows = rows_of(pane_height);
    if row < lines.len() {
        assert(old_source.line_count() == old_source.line_ranges.len());
        source::lemma_shown_lines_are_drawn(
            old_source,
            new_source,
            before.scroll as int,
            rows,
            i as usize,
        );
        let drawn = new_source.rendered_lines@[i as usize]@;
        style::law_marking_keeps_the_text(drawn);
        if !old_source.rendered_lines@.contains_key(i as usize) && !old_source.content(i).contains(
            '\r',
        ) {
            source::law_drawn_lines_show_the_file(
                old_source,
                new_source,
                before.scroll as int,
                rows,
                i as usize,
            );
        }
    }
}

/// The status bar has the keys at its left, and behind them the first warning of the
/// stop in yellow. Where there are stops, its right end shows the number of the stop,
/// counted from one, and how many there are, in just as many cells, as far as one cell
/// is left for the keys.
pub proof fn law_status_bar_shows_the_progress(
    before: Player,
    after: Player,
    area: Rect,
    old_cells: Map<(u16, u16), CellView>,
    new_cells: Map<(u16, u16), CellView>,
)
    requires
        before.wf(),
        area.x + area.width <= u16::MAX,
        is_rendered(before, after, area, old_cells, new_cells),
    ensures
        ({
            let status = layout::player_parts(area).status;
            let plain = style::Style { fg: None, bg: None, modifier: 0 };
            let n = before.stops@.len();
            let shown = text::decimal_text((before.index + 1) as nat) + seq![' ', '/', ' ']
                + text::decimal_text(n);
            let k = if n == 0 || status.width == 0 {
                0
            } else if shown.len() < status.width {
                shown.len() as int
            } else {
                status.width - 1
            };
            let left = Rect {
                x: status.x,
                y: status.y,
                width: (status.width - k) as u16,
                height: status.height,
            };
            let right = Rect {
                x: (status.x + status.width - k) as u16,
                y: status.y,
                width: k as u16,
                height: status.height,
            };
            let body = body_drawn(code_drawn(old_cells, area, after), area, after);
            let keys = paragraph_drawn(body, 0, Seq::empty(), seq![status_spans(before)], left);
            &&& n == 0 ==> new_cells == keys
            &&& n > 0 ==> new_cells == paragraph_drawn(
                keys,
                0,
                Seq::empty(),
                seq![seq![style::SpanView { content: shown, style: plain }]],
                right,
            )
        }),
{
    reveal_strlit(" / ");
    assert(" / "@ =~= seq![' ', '/', ' ']);
    assert(shown_stop(after) == shown_stop(before));
    assert(status_spans(after) == status_spans(before));
    if before.stops@.len() > 0 {
        text::lemma_digits_of_a_count((before.index + 1) as usize);
        assert(before.stops@.len() == before.stops.len());
        text::lemma_digits_of_a_count(before.stops.len());
    }
}

/// What stands at the left of the status bar: the keys, and the first warning of the
/// stop, if it has any.
pub proof fn law_status_bar_shows_the_first_warning(state: Player)
    ensures
        ({
            let spans = status_spans(state);
            let keys = if state.stops@.len() == 0 {
                "no stops — q quit"@
            } else {
                "n/] next  p/[ prev  tab pane  j/k scroll  wheel scrolls pane  q quit"@
            };
            &&& spans[0].content == keys
            &&& spans[0].style.fg is None
            &&& match state.known(state.index as int) {
                Some(s) => {
                    &&& s.warnings@.len() == 0 ==> spans.len() == 1
                    &&& s.warnings@.len() > 0 ==> {
                        &&& spans.len() == 3
                        &&& spans[1].content == seq![' ', ' ']
                        &&& spans[2].content == seq!['!', ' '] + s.warnings@[0]@
                        &&& spans[2].style.fg == Some(Color::Yellow)
                        &&& spans[2].style.bg is None
                    }
                },
                None => spans.len() == 1,
            }
        }),
{
    reveal_strlit("  ");
    reveal_strlit("! ");
    assert("  "@ =~= seq![' ', ' ']);
    assert("! "@ =~= seq!['!', ' ']);
}

/// Text whose clusters take one cell at most can be drawn broken in any pane; and so
/// can any line that fits into the pane as it is.
pub proof fn law_narrow_text_can_wrap(lines: Seq<Seq<(u16, bool)>>, width: int)
    requires
        forall|i: int, j: int|
            0 <= i < lines.len() && 0 <= j < lines[i].len() ==> (#[trigger] lines[i][j]).0 <= 1,
    ensures
        can_wrap(lines, width),
{
    assert forall|i: int| 0 <= i < lines.len() implies line_can_wrap(#[trigger] lines[i], width) by {
        assert forall|j: int| 0 <= j < lines[i].len() implies (#[trigger] lines[i][j]).0 <= room(
            lines[i],
        ) by {
            assert(lines[i][j].0 <= 1);
        }
    }
}

/// The cells of a line add up, but for clusters that are wider than the pane.
pub proof fn law_cells_add_up(line: Seq<(u16, bool)>, cluster: (u16, bool), width: int)
    ensures
        cells_of(Seq::empty(), width) == 0,
        cells_of(line.push(cluster), width) == cells_of(line, width) + (if cluster.0 <= width {
            cluster.0 as int
        } else {
            0
        }),
        cells_of(line, width) <= width ==> line_can_wrap(line, width),
{
    assert(line.push(cluster).drop_last() =~= line);
}

/// A player that has no stop to show can be drawn in every modest area, and none can in
/// any other.
pub proof fn law_empty_player_can_be_drawn(state: Player, area: Rect)
    ensures
        state.known(state.index as int) is None ==> (is_drawable(state, area) <==> area.width
            <= 32767 && area.x + area.width < 65535),
        is_drawable(state, area) ==> area.width <= 32767 && area.x + area.width < 65535,
{
}

/// A line that has to be broken can be, where none of its clusters that fit into the
/// pane is wider than three cells: than two, where it has a blank that takes no cell, or
/// another cluster that takes none; than one, where it has both. With a wider one it
/// cannot.
pub proof fn law_how_wide_clusters_may_be(line: Seq<(u16, bool)>, width: int, widest: int)
    requires
        cells_of(line, width) > width,
        ({
            let blank = exists|i: int|
                0 <= i < line.len() && (#[trigger] line[i]).0 == 0 && line[i].1;
            let other = exists|i: int|
                0 <= i < line.len() && (#[trigger] line[i]).0 == 0 && !line[i].1;
            widest == (if blank && other {
                1int
            } else if blank || other {
                2
            } else {
                3
            })
        }),
    ensures
        line_can_wrap(line, width) <==> forall|i: int|
            0 <= i < line.len() && (#[trigger] line[i]).0 <= width ==> line[i].0 <= widest,
{
    let blank = exists|i: int| 0 <= i < line.len() && (#[trigger] line[i]).0 == 0 && line[i].1;
    let other = exists|i: int| 0 <= i < line.len() && (#[trigger] line[i]).0 == 0 && !line[i].1;
    assert(has_empty(line, true) == blank) by {
        if blank {
            let i = choose|i: int| 0 <= i < line.len() && (#[trigger] line[i]).0 == 0 && line[i].1;
            assert(line[i] == (0u16, true));
        }
    }
    assert(has_empty(line, false) == other) by {
        if other {
            let i = choose|i: int| 0 <= i < line.len() && (#[trigger] line[i]).0 == 0 && !line[i].1;
            assert(line[i] == (0u16, false));
        }
    }
    assert(room(line) == widest);
}

} // verus!
