use turin::input::{
    input_to_event, key_to_event, mouse_to_event, Input, KeyCode, KeyEvent, MouseEvent,
    MouseEventKind, CONTROL, NONE,
};
use turin::layout::{Pane, Rect};
use turin::play::Event;

fn key(code: KeyCode) -> KeyEvent {
    KeyEvent { code, modifiers: NONE }
}

fn ctrl_key(code: KeyCode) -> KeyEvent {
    KeyEvent { code, modifiers: CONTROL }
}

fn screen(width: u16, height: u16) -> Rect {
    Rect { x: 0, y: 0, width, height }
}

#[test]
fn key_q_is_quit() {
    assert_eq!(key_to_event(key(KeyCode::Char('q'))), Some(Event::Quit));
}

#[test]
fn key_esc_is_quit() {
    assert_eq!(key_to_event(key(KeyCode::Esc)), Some(Event::Quit));
}

#[test]
fn key_ctrl_c_is_quit() {
    assert_eq!(key_to_event(ctrl_key(KeyCode::Char('c'))), Some(Event::Quit));
}

#[test]
fn key_c_quits_with_control_alone() {
    assert_eq!(key_to_event(key(KeyCode::Char('c'))), None);
    let with_shift = KeyEvent { code: KeyCode::Char('c'), modifiers: CONTROL | 1 };
    assert_eq!(key_to_event(with_shift), None);
}

#[test]
fn key_n_and_bracket_are_next() {
    assert_eq!(key_to_event(key(KeyCode::Char('n'))), Some(Event::Next));
    assert_eq!(key_to_event(key(KeyCode::Char(']'))), Some(Event::Next));
}

#[test]
fn key_p_and_bracket_are_prev() {
    assert_eq!(key_to_event(key(KeyCode::Char('p'))), Some(Event::Prev));
    assert_eq!(key_to_event(key(KeyCode::Char('['))), Some(Event::Prev));
}

#[test]
fn key_j_and_down_scroll_down() {
    assert_eq!(key_to_event(key(KeyCode::Char('j'))), Some(Event::ScrollDown));
    assert_eq!(key_to_event(key(KeyCode::Down)), Some(Event::ScrollDown));
}

#[test]
fn key_k_and_up_scroll_up() {
    assert_eq!(key_to_event(key(KeyCode::Char('k'))), Some(Event::ScrollUp));
    assert_eq!(key_to_event(key(KeyCode::Up)), Some(Event::ScrollUp));
}

#[test]
fn key_tab_toggles_active_pane() {
    assert_eq!(key_to_event(key(KeyCode::Tab)), Some(Event::TogglePane));
}

#[test]
fn arrow_left_and_right_focus_panes() {
    assert_eq!(key_to_event(key(KeyCode::Left)), Some(Event::Focus(Pane::Code)));
    assert_eq!(key_to_event(key(KeyCode::Right)), Some(Event::Focus(Pane::Commentary)));
}

#[test]
fn digits_jump_to_zero_indexed_stop() {
    assert_eq!(key_to_event(key(KeyCode::Char('1'))), Some(Event::Goto(0)));
    assert_eq!(key_to_event(key(KeyCode::Char('5'))), Some(Event::Goto(4)));
    assert_eq!(key_to_event(key(KeyCode::Char('9'))), Some(Event::Goto(8)));
}

#[test]
fn unrecognized_keys_return_none() {
    assert_eq!(key_to_event(key(KeyCode::Char('z'))), None);
    assert_eq!(key_to_event(key(KeyCode::Other)), None);
    assert_eq!(key_to_event(key(KeyCode::Char('0'))), None);
}

#[test]
fn mouse_wheel_targets_pane_under_cursor() {
    let area = screen(100, 40);
    let code_mouse = MouseEvent { kind: MouseEventKind::ScrollDown, column: 10, row: 5 };
    let body_mouse = MouseEvent { kind: MouseEventKind::ScrollUp, column: 80, row: 5 };

    assert_eq!(mouse_to_event(code_mouse, area), Some(Event::ScrollPaneDown(Pane::Code)));
    assert_eq!(mouse_to_event(body_mouse, area), Some(Event::ScrollPaneUp(Pane::Commentary)));
}

#[test]
fn mouse_wheel_ignores_status_bar() {
    let event = MouseEvent { kind: MouseEventKind::ScrollDown, column: 10, row: 39 };
    assert_eq!(mouse_to_event(event, screen(100, 40)), None);
}

#[test]
fn mouse_buttons_and_movements_mean_nothing() {
    let event = MouseEvent { kind: MouseEventKind::Other, column: 10, row: 5 };
    assert_eq!(mouse_to_event(event, screen(100, 40)), None);
}

#[test]
fn only_presses_of_keys_count() {
    let area = screen(100, 40);
    let q = key(KeyCode::Char('q'));
    assert_eq!(input_to_event(Input::Key(q, true), area), Some(Event::Quit));
    assert_eq!(input_to_event(Input::Key(q, false), area), None);
    assert_eq!(input_to_event(Input::Other, area), None);
    let wheel = MouseEvent { kind: MouseEventKind::ScrollUp, column: 99, row: 0 };
    assert_eq!(
        input_to_event(Input::Mouse(wheel), area),
        Some(Event::ScrollPaneUp(Pane::Commentary))
    );
}
