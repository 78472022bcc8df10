//! What keys and the mouse mean to the player.

use crate::layout;
use crate::layout::{Pane, Rect};
use crate::play::Event;
use vstd::prelude::*;

verus! {

/// A key, as far as the player tells keys apart.
#[derive(Debug, Clone, Copy, PartialEq, Eq, Structural)]
pub enum KeyCode {
    Char(char),
    Esc,
    Tab,
    Down,
    Up,
    Left,
    Right,
    /// Any other key.
    Other,
}

/// No modifier is held.
pub const NONE: u8 = 0;

/// The control key is held, and no other modifier.
pub const CONTROL: u8 = 2;

/// A key with the modifiers that are held, one bit for each.
#[derive(Debug, Clone, Copy, PartialEq, Eq, Structural)]
pub struct KeyEvent {
    pub code: KeyCode,
    pub modifiers: u8,
}

/// What the mouse does, as far as the player cares.
#[derive(Debug, Clone, Copy, PartialEq, Eq, Structural)]
pub enum MouseEventKind {
    ScrollDown,
    ScrollUp,
    /// A button or a movement.
    Other,
}

/// What the mouse does, and over which cell.
#[derive(Debug, Clone, Copy, PartialEq, Eq, Structural)]
pub struct MouseEvent {
    pub kind: MouseEventKind,
    pub column: u16,
    pub row: u16,
}

/// What the terminal reports.
#[derive(Debug, Clone, Copy, PartialEq, Eq, Structural)]
pub enum Input {
    /// A key, and whether it was pressed just now.
    Key(KeyEvent, bool),
    Mouse(MouseEvent),
    /// A resize, a change of focus, a paste.
    Other,
}

/// What a key means to the player.
pub open spec fn key_meaning(code: KeyCode, modifiers: u8) -> Option<Event> {
    match code {
        KeyCode::Esc => Some(Event::Quit),
        KeyCode::Tab => Some(Event::TogglePane),
        KeyCode::Down => Some(Event::ScrollDown),
        KeyCode::Up => Some(Event::ScrollUp),
        KeyCode::Left => Some(Event::Focus(Pane::Code)),
        KeyCode::Right => Some(Event::Focus(Pane::Commentary)),
        KeyCode::Char(c) => if c == 'q' || c == 'c' && modifiers == CONTROL {
            Some(Event::Quit)
        } else if c == 'n' || c == ']' {
            Some(Event::Next)
        } else if c == 'p' || c == '[' {
            Some(Event::Prev)
        } else if c == 'j' {
            Some(Event::ScrollDown)
        } else if c == 'k' {
            Some(Event::ScrollUp)
        } else if '1' <= c <= '9' {
            Some(Event::Goto((c as int - '1' as int) as usize))
        } else {
            None
        },
        KeyCode::Other => None,
    }
}

/// What the mouse means to the player: the wheel scrolls the pane under it.
pub open spec fn mouse_meaning(mouse: MouseEvent, area: Rect) -> Option<Event> {
    match layout::pane_of_cell(area, mouse.column, mouse.row) {
        Some(pane) => match mouse.kind {
            MouseEventKind::ScrollDown => Some(Event::ScrollPaneDown(pane)),
            MouseEventKind::ScrollUp => Some(Event::ScrollPaneUp(pane)),
            MouseEventKind::Other => None,
        },
        None => None,
    }
}

/// What the terminal reports, as the player takes it. The release of a key, or its
/// repetition, means nothing.
pub open spec fn meaning(input: Input, area: Rect) -> Option<Event> {
    match input {
        Input::Key(key, pressed) => if pressed {
            key_meaning(key.code, key.modifiers)
        } else {
            None
        },
        Input::Mouse(mouse) => mouse_meaning(mouse, area),
        Input::Other => None,
    }
}

/// Translate a key event into a player `Event`. Returns `None`
/// for keys we don't recognize, so the event loop can ignore them.
pub fn key_to_event(key: KeyEvent) -> (r: Option<Event>)
    ensures
        r == key_meaning(key.code, key.modifiers),
{
    match key.code {
        KeyCode::Esc => Some(Event::Quit),
        KeyCode::Tab => Some(Event::TogglePane),
        KeyCode::Down => Some(Event::ScrollDown),
        KeyCode::Up => Some(Event::ScrollUp),
        KeyCode::Left => Some(Event::Focus(Pane::Code)),
        KeyCode::Right => Some(Event::Focus(Pane::Commentary)),
        KeyCode::Char(c) => {
            if c == 'q' || c == 'c' && key.modifiers == CONTROL {
                Some(Event::Quit)
            } else if c == 'n' || c == ']' {
                Some(Event::Next)
            } else if c == 'p' || c == '[' {
                Some(Event::Prev)
            } else if c == 'j' {
                Some(Event::ScrollDown)
            } else if c == 'k' {
                Some(Event::ScrollUp)
            } else if '1' <= c && c <= '9' {
                let digit: u8 = c as u8;
                Some(Event::Goto((digit - 49) as usize))
            } else {
                None
            }
        },
        KeyCode::Other => None,
    }
}

/// Translate a mouse event over the player's screen into a player `Event`.
pub fn mouse_to_event(mouse: MouseEvent, area: Rect) -> (r: Option<Event>)
    ensures
        r == mouse_meaning(mouse, area),
{
    match layout::pane_at(area, mouse.column, mouse.row) {
        Some(pane) => match mouse.kind {
            MouseEventKind::ScrollDown => Some(Event::ScrollPaneDown(pane)),
            MouseEventKind::ScrollUp => Some(Event::ScrollPaneUp(pane)),
            MouseEventKind::Other => None,
        },
        None => None,
    }
}

/// Translate what the terminal reports into a player `Event`.
pub fn input_to_event(input: Input, area: Rect) -> (r: Option<Event>)
    ensures
        r == meaning(input, area),
{
    match input {
        Input::Key(key, pressed) => if pressed {
            key_to_event(key)
        } else {
            None
        },
        Input::Mouse(mouse) => mouse_to_event(mouse, area),
        Input::Other => None,
    }
}

/// Only `q`, the escape key and control with `c` leave the player. The bit of the control
/// key is the second one.
pub proof fn law_how_to_quit(input: Input, area: Rect)
    ensures
        meaning(input, area) == Some(Event::Quit) <==> (input matches Input::Key(key, pressed)
            && pressed && (key.code == KeyCode::Esc || key.code == KeyCode::Char('q') || key.code
            == KeyCode::Char('c') && key.modifiers == 2)),
{
}

/// The mouse means nothing over the status bar.
pub proof fn law_mouse_over_status_bar(mouse: MouseEvent, area: Rect)
    requires
        layout::inside(layout::player_parts(area).status, mouse.column, mouse.row),
    ensures
        mouse_meaning(mouse, area) is None,
{
    layout::law_status_bar_is_no_pane(area, mouse.column, mouse.row);
}

/// A key that was pressed just now.
pub open spec fn is_pressed(input: Input, code: KeyCode) -> bool {
    input matches Input::Key(key, pressed) && pressed && key.code == code
}

/// `n` and `]` lead on, `p` and `[` lead back, and nothing else does; a digit, and
/// nothing else, leads to the stop of that number, counted from one.
pub proof fn law_what_leads_to_a_stop(input: Input, area: Rect, i: usize)
    ensures
        meaning(input, area) == Some(Event::Next) <==> is_pressed(input, KeyCode::Char('n'))
            || is_pressed(input, KeyCode::Char(']')),
        meaning(input, area) == Some(Event::Prev) <==> is_pressed(input, KeyCode::Char('p'))
            || is_pressed(input, KeyCode::Char('[')),
        meaning(input, area) == Some(Event::Goto(i)) <==> exists|c: char|
            #[trigger] is_pressed(input, KeyCode::Char(c)) && '1' <= c <= '9' && c as int - 48
                == i + 1,
{
    if let Input::Key(key, pressed) = input {
        if let KeyCode::Char(c) = key.code {
            if pressed {
                assert(is_pressed(input, KeyCode::Char(c)));
            }
        }
    }
}

/// `j` and the down key scroll the active pane down, `k` and the up key scroll it up,
/// the wheel scrolls the pane that it is over, and nothing else scrolls.
pub proof fn law_what_scrolls(input: Input, area: Rect, pane: Pane)
    ensures
        meaning(input, area) == Some(Event::ScrollDown) <==> is_pressed(input, KeyCode::Char('j'))
            || is_pressed(input, KeyCode::Down),
        meaning(input, area) == Some(Event::ScrollUp) <==> is_pressed(input, KeyCode::Char('k'))
            || is_pressed(input, KeyCode::Up),
        meaning(input, area) == Some(Event::ScrollPaneDown(pane)) <==> (input matches Input::Mouse(
            m,
        ) && m.kind is ScrollDown && layout::pane_of_cell(area, m.column, m.row) == Some(pane)),
        meaning(input, area) == Some(Event::ScrollPaneUp(pane)) <==> (input matches Input::Mouse(m)
            && m.kind is ScrollUp && layout::pane_of_cell(area, m.column, m.row) == Some(pane)),
{
}

/// The tab key changes the pane, the left key goes to the code, the right key to the
/// commentary, and nothing else does.
pub proof fn law_what_changes_the_pane(input: Input, area: Rect)
    ensures
        meaning(input, area) == Some(Event::TogglePane) <==> is_pressed(input, KeyCode::Tab),
        meaning(input, area) == Some(Event::Focus(Pane::Code)) <==> is_pressed(
            input,
            KeyCode::Left,
        ),
        meaning(input, area) == Some(Event::Focus(Pane::Commentary)) <==> is_pressed(
            input,
            KeyCode::Right,
        ),
{
}

} // verus!
