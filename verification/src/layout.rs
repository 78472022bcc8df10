//! Where things stand on the screen.

use ratatui::layout as tui;
use vstd::prelude::*;

verus! {

/// A rectangle of terminal cells.
#[derive(Debug, Clone, Copy, PartialEq, Eq, Structural)]
pub struct Rect {
    pub x: u16,
    pub y: u16,
    pub width: u16,
    pub height: u16,
}

/// How long a part of a split area is to be.
#[derive(Debug, Clone, Copy, PartialEq, Eq, Structural)]
pub enum Constraint {
    /// At least that many cells.
    Min(u16),
    /// That many cells.
    Length(u16),
    /// That share of the area, in percent.
    Percentage(u16),
}

/// One of the two halves of the player.
#[derive(Debug, Clone, Copy, PartialEq, Eq, Structural)]
pub enum Pane {
    Code,
    Commentary,
}

/// The number of cells from `start` on that fit on a screen whose last
/// coordinate is the highest there is.
pub open spec fn extent(start: u16, size: u16) -> int {
    if start + size <= u16::MAX {
        size as int
    } else {
        u16::MAX - start
    }
}

/// The smaller of two numbers.
pub open spec fn smaller(a: int, b: int) -> int {
    if a < b {
        a
    } else {
        b
    }
}

/// The area along the axis that is split.
pub open spec fn along(area: Rect, vertical: bool) -> int {
    if vertical {
        extent(area.y, area.height)
    } else {
        extent(area.x, area.width)
    }
}

/// The part of an area that starts at cell `from` of the split axis and is
/// `size` cells long.
pub open spec fn part(area: Rect, vertical: bool, from: int, size: int) -> Rect {
    if vertical {
        Rect { x: area.x, y: (area.y + from) as u16, width: area.width, height: size as u16 }
    } else {
        Rect { x: (area.x + from) as u16, y: area.y, width: size as u16, height: area.height }
    }
}

/// An area cut in two, `first` cells for the one and the rest for the other.
pub open spec fn two_parts(area: Rect, vertical: bool, first: int) -> Seq<Rect> {
    seq![
        part(area, vertical, 0, first),
        part(area, vertical, first, along(area, vertical) - first),
    ]
}

/// The length of a last part of `n` cells, behind one of at least `min`.
pub open spec fn rest_length(total: int, min: int, n: int) -> int {
    if total >= min {
        smaller(n, total - min)
    } else {
        0
    }
}

/// A part of at least `min` cells, then one of `n` cells.
pub open spec fn min_then_length(min: u16, n: u16) -> Seq<Constraint> {
    seq![Constraint::Min(min), Constraint::Length(n)]
}

/// Two shares in percent.
pub open spec fn percentages(p: u16, q: u16) -> Seq<Constraint> {
    seq![Constraint::Percentage(p), Constraint::Percentage(q)]
}

/// `ratatui::layout::Layout::split`, for a layout without margin and spacing.
/// There is a part for each constraint. Of two parts, the second with a length and
/// the first with a minimum, the second gets its length as far as the first keeps
/// its minimum, and the first gets the rest. Two percentages that add up to a
/// hundred cut the area at the cell that is nearest to the first of them; which of
/// two cells that are equally near is not stated, nor what comes of other constraints.
#[verifier::external_body]
fn split(vertical: bool, constraints: &Vec<Constraint>, area: Rect) -> (r: Vec<Rect>)
    ensures
        r@.len() == constraints@.len(),
        forall|min: u16, n: u16|
            constraints@ == #[trigger] min_then_length(min, n) && min <= i16::MAX ==> r@
                == two_parts(
                area,
                vertical,
                along(area, vertical) - rest_length(along(area, vertical), min as int, n as int),
            ),
        forall|p: u16, q: u16|
            constraints@ == #[trigger] percentages(p, q) && p + q == 100 && (p * along(
                area,
                vertical,
            )) % 100 != 50 ==> r@ == two_parts(
                area,
                vertical,
                (p * along(area, vertical) + 50) / 100,
            ),
{
    let direction = if vertical { tui::Direction::Vertical } else { tui::Direction::Horizontal };
    let list = constraints.iter().map(
        |c|
            match *c {
                Constraint::Min(n) => tui::Constraint::Min(n),
                Constraint::Length(n) => tui::Constraint::Length(n),
                Constraint::Percentage(n) => tui::Constraint::Percentage(n),
            },
    );
    let whole = tui::Rect { x: area.x, y: area.y, width: area.width, height: area.height };
    let parts = tui::Layout::new(direction, list).split(whole);
    parts.iter().map(|r| Rect { x: r.x, y: r.y, width: r.width, height: r.height }).collect()
}

/// The parts of the player's screen.
#[derive(Debug, Clone, Copy, PartialEq, Eq, Structural)]
pub struct PlayerLayout {
    pub code: Rect,
    pub body: Rect,
    pub status: Rect,
}

/// Everything above the status bar, and the status bar: one row at the bottom,
/// where there is more than one.
pub open spec fn rows(area: Rect) -> Seq<Rect> {
    let height = extent(area.y, area.height);
    two_parts(area, true, height - rest_length(height, 1, 1))
}

/// The two panes next to each other: three fifths for the code, the rest for the
/// commentary.
pub open spec fn columns(area: Rect) -> Seq<Rect> {
    two_parts(area, false, (6 * extent(area.x, area.width) + 5) / 10)
}

/// The parts of the player's screen.
pub open spec fn player_parts(area: Rect) -> PlayerLayout {
    PlayerLayout {
        code: columns(rows(area)[0])[0],
        body: columns(rows(area)[0])[1],
        status: rows(area)[1],
    }
}

/// An area cut into a first part that is at least one cell long and a last part of
/// `n` cells, one above the other or next to each other.
pub fn split_last(vertical: bool, n: u16, area: Rect) -> (r: (Rect, Rect))
    ensures
        seq![r.0, r.1] == two_parts(
            area,
            vertical,
            along(area, vertical) - rest_length(along(area, vertical), 1, n as int),
        ),
{
    let constraints = vec![Constraint::Min(1), Constraint::Length(n)];
    assert(constraints@ =~= min_then_length(1, n));
    let parts = split(vertical, &constraints, area);
    assert(seq![parts@[0], parts@[1]] =~= parts@);
    (parts[0], parts[1])
}

/// The parts of the player's screen: code and commentary, above the status bar.
pub fn player_layout(area: Rect) -> (r: PlayerLayout)
    ensures
        r == player_parts(area),
{
    let (main, status) = split_last(true, 1, area);
    proof {
        assert(rows(area)[0] == seq![main, status][0]);
        assert(rows(area)[1] == seq![main, status][1]);
    }
    let constraints = vec![Constraint::Percentage(60), Constraint::Percentage(40)];
    assert(constraints@ =~= percentages(60, 40));
    let panes = split(false, &constraints, main);
    proof {
        let w = along(main, false);
        assert((60u16 * w) % 100 != 50) by {
            assert(60u16 * w == 60 * w);
        }
        assert((60u16 * w + 50) / 100 == (6 * w + 5) / 10);
    }
    PlayerLayout { code: panes[0], body: panes[1], status }
}

/// The cell belongs to the rectangle.
pub open spec fn inside(rect: Rect, x: u16, y: u16) -> bool {
    &&& rect.x <= x < rect.x + extent(rect.x, rect.width)
    &&& rect.y <= y < rect.y + extent(rect.y, rect.height)
}

/// The rectangle lies in another.
pub open spec fn within(rect: Rect, whole: Rect) -> bool {
    &&& whole.x <= rect.x
    &&& rect.x + rect.width <= whole.x + extent(whole.x, whole.width)
    &&& whole.y <= rect.y
    &&& rect.y + rect.height <= whole.y + extent(whole.y, whole.height)
}

/// Whether a cell belongs to a rectangle.
pub fn contains(rect: Rect, x: u16, y: u16) -> (r: bool)
    ensures
        r == inside(rect, x, y),
{
    x >= rect.x && x < rect.x.saturating_add(rect.width) && y >= rect.y && y
        < rect.y.saturating_add(rect.height)
}

/// The pane that a cell belongs to.
pub open spec fn pane_of_cell(area: Rect, x: u16, y: u16) -> Option<Pane> {
    if inside(player_parts(area).code, x, y) {
        Some(Pane::Code)
    } else if inside(player_parts(area).body, x, y) {
        Some(Pane::Commentary)
    } else {
        None
    }
}

/// The pane that a cell belongs to.
pub fn pane_at(area: Rect, x: u16, y: u16) -> (r: Option<Pane>)
    ensures
        r == pane_of_cell(area, x, y),
{
    let layout = player_layout(area);
    if contains(layout.code, x, y) {
        Some(Pane::Code)
    } else if contains(layout.body, x, y) {
        Some(Pane::Commentary)
    } else {
        None
    }
}

/// Code, commentary and status bar tile the screen: a cell of it belongs to one of
/// them, and to one only.
pub proof fn law_parts_tile_the_screen(area: Rect, x: u16, y: u16)
    ensures
        inside(area, x, y) <==> inside(player_parts(area).code, x, y) || inside(
            player_parts(area).body,
            x,
            y,
        ) || inside(player_parts(area).status, x, y),
        !(inside(player_parts(area).code, x, y) && inside(player_parts(area).body, x, y)),
        !(inside(player_parts(area).code, x, y) && inside(player_parts(area).status, x, y)),
        !(inside(player_parts(area).body, x, y) && inside(player_parts(area).status, x, y)),
{
}

/// Code, commentary and status bar lie on the screen.
pub proof fn law_parts_lie_on_the_screen(area: Rect)
    requires
        area.x + area.width <= u16::MAX,
    ensures
        within(player_parts(area).code, area),
        within(player_parts(area).body, area),
        within(player_parts(area).status, area),
{
}

/// The status bar belongs to neither pane.
pub proof fn law_status_bar_is_no_pane(area: Rect, x: u16, y: u16)
    requires
        inside(player_parts(area).status, x, y),
    ensures
        pane_of_cell(area, x, y) is None,
{
    law_parts_tile_the_screen(area, x, y);
}

/// The status bar is one row, at the bottom of the screen, where the screen has
/// more than one.
pub proof fn law_status_bar_is_the_last_row(area: Rect)
    requires
        area.y + area.height <= u16::MAX,
        area.height > 1,
    ensures
        player_parts(area).status == (Rect {
            x: area.x,
            y: (area.y + area.height - 1) as u16,
            width: area.width,
            height: 1,
        }),
{
}

/// The two panes stand next to each other at the top, the code at the left: together
/// they are as wide as the screen, and the code has three fifths of it, to the nearest
/// cell. Both are as high as the screen without the status bar.
pub proof fn law_panes_share_the_screen(area: Rect)
    requires
        area.x + area.width <= u16::MAX,
        area.y + area.height <= u16::MAX,
    ensures
        ({
            let p = player_parts(area);
            &&& p.code.x == area.x && p.code.y == area.y && p.body.y == area.y
            &&& p.body.x == area.x + p.code.width
            &&& p.code.width + p.body.width == area.width
            &&& -5 <= 10 * p.code.width - 6 * area.width <= 5
            &&& p.code.height == p.body.height
            &&& p.code.height + p.status.height == area.height
            &&& p.status.height == (if area.height >= 2 {
                1int
            } else {
                0
            })
            &&& p.status.x == area.x && p.status.width == area.width
        }),
{
}

/// Above the status bar a cell belongs to the code left of where the commentary
/// begins, and to the commentary from there on; outside the screen it belongs to
/// neither.
pub proof fn law_pane_under_a_cell(area: Rect, x: u16, y: u16)
    requires
        area.x + area.width <= u16::MAX,
        area.y + area.height <= u16::MAX,
        area.height >= 2,
    ensures
        area.x <= x < area.x + area.width && area.y <= y < area.y + area.height - 1
            ==> pane_of_cell(area, x, y) == Some(
            if x < player_parts(area).body.x {
                Pane::Code
            } else {
                Pane::Commentary
            },
        ),
        !(area.x <= x < area.x + area.width && area.y <= y < area.y + area.height - 1)
            ==> pane_of_cell(area, x, y) is None,
{
}

/// A cell belongs to a rectangle where it is neither left of it nor above it, nor as
/// many columns or rows further as the rectangle is wide or high; the last column and
/// the last row there are belong to none.
pub proof fn law_cells_of_a_rectangle(rect: Rect, x: u16, y: u16)
    ensures
        inside(rect, x, y) <==> {
            &&& 0 <= x - rect.x < rect.width && x < 65535
            &&& 0 <= y - rect.y < rect.height && y < 65535
        },
{
}

} // verus!
