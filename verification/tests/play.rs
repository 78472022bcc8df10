use turin::layout::Pane;
use turin::play::{
    load, prepare_stop, Event, LoadedStop, Outcome, ParsedStop, Player, PreloadState,
    CONTEXT_ABOVE,
};
use turin::source::LoadedSource;
use turin::stop::{Anchor, StopFrontmatter, Value};

fn fake_stop(title: &str) -> LoadedStop {
    LoadedStop {
        title: title.into(),
        body: String::new(),
        file: "foo.rs".into(),
        source: 0,
        anchor_line: Some(1),
        highlight_lines: None,
        warnings: Vec::new(),
    }
}

fn player_from_stops(stops: Vec<LoadedStop>) -> Player {
    player_from_stops_at(stops, 0, 0)
}

fn player_from_stops_at(stops: Vec<LoadedStop>, index: usize, scroll: usize) -> Player {
    Player {
        stops: stops.into_iter().map(Some).collect(),
        sources: vec![LoadedSource::new("foo.rs", String::new(), true)],
        index,
        scroll,
        body_scroll: 0,
        active_pane: Pane::Code,
        preload: None,
    }
}

fn stop_at(player: &Player, idx: usize) -> &LoadedStop {
    player.stops[idx].as_ref().unwrap()
}

fn player_with(n: usize) -> Player {
    player_from_stops((0..n).map(|i| fake_stop(&format!("stop {}", i))).collect())
}

fn empty_player() -> Player {
    Player {
        stops: vec![],
        sources: vec![],
        index: 0,
        scroll: 0,
        body_scroll: 0,
        active_pane: Pane::Code,
        preload: None,
    }
}

#[test]
fn next_advances_index() {
    let mut p = player_with(3);
    assert_eq!(p.handle(Event::Next), Outcome::Continue);
    assert_eq!(p.index, 1);
}

#[test]
fn next_clamps_at_last_stop() {
    let mut p = player_with(3);
    p.index = 2;
    p.handle(Event::Next);
    assert_eq!(p.index, 2);
}

#[test]
fn next_on_empty_player_is_noop() {
    let mut p = empty_player();
    p.handle(Event::Next);
    assert_eq!(p.index, 0);
}

#[test]
fn prev_retreats_index() {
    let mut p = player_with(3);
    p.index = 2;
    p.handle(Event::Prev);
    assert_eq!(p.index, 1);
}

#[test]
fn prev_clamps_at_zero() {
    let mut p = player_with(3);
    p.handle(Event::Prev);
    assert_eq!(p.index, 0);
}

#[test]
fn navigation_resets_scroll() {
    let mut p = player_with(3);
    p.scroll = 50;
    p.handle(Event::Next);
    assert_eq!(p.scroll, 0);

    p.scroll = 50;
    p.handle(Event::Prev);
    assert_eq!(p.scroll, 0);
}

#[test]
fn goto_jumps_to_index() {
    let mut p = player_with(5);
    p.handle(Event::Goto(3));
    assert_eq!(p.index, 3);
}

#[test]
fn goto_out_of_bounds_is_noop() {
    let mut p = player_with(3);
    p.handle(Event::Goto(99));
    assert_eq!(p.index, 0);
}

#[test]
fn goto_resets_scroll() {
    let mut p = player_with(3);
    p.scroll = 50;
    p.handle(Event::Goto(2));
    assert_eq!(p.scroll, 0);
}

#[test]
fn scroll_down_increments_scroll() {
    let mut p = player_with(1);
    p.handle(Event::ScrollDown);
    assert_eq!(p.scroll, 1);
}

#[test]
fn scroll_up_decrements_scroll() {
    let mut p = player_with(1);
    p.scroll = 5;
    p.handle(Event::ScrollUp);
    assert_eq!(p.scroll, 4);
}

#[test]
fn scroll_up_clamps_at_zero() {
    let mut p = player_with(1);
    p.handle(Event::ScrollUp);
    assert_eq!(p.scroll, 0);
}

#[test]
fn keyboard_scrolls_active_commentary_pane() {
    let mut p = player_with(1);
    p.handle(Event::Focus(Pane::Commentary));
    p.handle(Event::ScrollDown);
    assert_eq!(p.scroll, 0);
    assert_eq!(p.body_scroll, 1);

    p.handle(Event::ScrollUp);
    assert_eq!(p.body_scroll, 0);
}

#[test]
fn toggle_pane_switches_keyboard_scroll_target() {
    let mut p = player_with(1);
    assert_eq!(p.active_pane, Pane::Code);
    p.handle(Event::TogglePane);
    assert_eq!(p.active_pane, Pane::Commentary);
    p.handle(Event::ScrollDown);
    assert_eq!(p.body_scroll, 1);
    assert_eq!(p.scroll, 0);
}

#[test]
fn mouse_scrolls_specific_pane_and_focuses_it() {
    let mut p = player_with(1);
    p.handle(Event::ScrollPaneDown(Pane::Commentary));
    assert_eq!(p.body_scroll, 1);
    assert_eq!(p.scroll, 0);
    assert_eq!(p.active_pane, Pane::Commentary);

    p.handle(Event::ScrollPaneDown(Pane::Code));
    assert_eq!(p.scroll, 1);
    assert_eq!(p.body_scroll, 1);
    assert_eq!(p.active_pane, Pane::Code);
}

#[test]
fn quit_returns_exit_outcome() {
    let mut p = player_with(1);
    assert_eq!(p.handle(Event::Quit), Outcome::Exit);
}

#[test]
fn auto_scroll_zero_when_anchor_at_top() {
    let p = player_from_stops(vec![fake_stop("a")]); // anchor_line: Some(1)
    assert_eq!(p.auto_scroll(0), 0);
}

#[test]
fn auto_scroll_leaves_context_above_anchor() {
    let mut s = fake_stop("a");
    s.anchor_line = Some(50);
    let p = player_from_stops(vec![s]);
    // anchor at line 50 with CONTEXT_ABOVE=5 means the pane skips the
    // first (50 - 5 - 1) = 44 lines, putting line 50 at row 5 of the viewport.
    assert_eq!(p.auto_scroll(0), 50 - CONTEXT_ABOVE - 1);
    assert_eq!(p.auto_scroll(0), 44);
}

#[test]
fn auto_scroll_zero_when_anchor_unresolved() {
    let mut s = fake_stop("a");
    s.anchor_line = None;
    let p = player_from_stops(vec![s]);
    assert_eq!(p.auto_scroll(0), 0);
    assert_eq!(p.auto_scroll(7), 0);
}

#[test]
fn next_auto_positions_scroll_for_new_stop() {
    let mut a = fake_stop("a");
    a.anchor_line = Some(10);
    let mut b = fake_stop("b");
    b.anchor_line = Some(80);
    let mut p = player_from_stops(vec![a, b]);
    p.handle(Event::Next);
    assert_eq!(p.scroll, 80 - CONTEXT_ABOVE - 1);
}

#[test]
fn prev_auto_positions_scroll_for_new_stop() {
    let mut a = fake_stop("a");
    a.anchor_line = Some(10);
    let mut b = fake_stop("b");
    b.anchor_line = Some(80);
    let mut p = player_from_stops_at(vec![a, b], 1, 80);
    p.handle(Event::Prev);
    assert_eq!(p.scroll, 10 - CONTEXT_ABOVE - 1);
}

#[test]
fn goto_auto_positions_scroll_for_target_stop() {
    let mut stops: Vec<LoadedStop> = (0..5).map(|i| fake_stop(&format!("{}", i))).collect();
    stops[3].anchor_line = Some(100);
    let mut p = player_from_stops(stops);
    p.handle(Event::Goto(3));
    assert_eq!(p.scroll, 100 - CONTEXT_ABOVE - 1);
}

#[test]
fn non_quit_events_return_continue() {
    let mut p = player_with(2);
    assert_eq!(p.handle(Event::Next), Outcome::Continue);
    assert_eq!(p.handle(Event::Prev), Outcome::Continue);
    assert_eq!(p.handle(Event::Goto(1)), Outcome::Continue);
    assert_eq!(p.handle(Event::ScrollDown), Outcome::Continue);
    assert_eq!(p.handle(Event::ScrollUp), Outcome::Continue);
    assert_eq!(p.handle(Event::ScrollPaneDown(Pane::Commentary)), Outcome::Continue);
    assert_eq!(p.handle(Event::ScrollPaneUp(Pane::Commentary)), Outcome::Continue);
    assert_eq!(p.handle(Event::Focus(Pane::Code)), Outcome::Continue);
    assert_eq!(p.handle(Event::TogglePane), Outcome::Continue);
}

#[test]
fn toggling_twice_and_scrolling_back_change_nothing() {
    let mut p = player_with(2);
    p.scroll = 3;
    p.handle(Event::TogglePane);
    p.handle(Event::TogglePane);
    assert_eq!(p.active_pane, Pane::Code);
    p.handle(Event::ScrollDown);
    p.handle(Event::ScrollUp);
    assert_eq!((p.index, p.scroll, p.body_scroll), (0, 3, 0));
}

#[test]
fn next_and_back_opens_the_stop_at_its_anchor() {
    let mut a = fake_stop("a");
    a.anchor_line = Some(20);
    let mut p = player_from_stops(vec![a, fake_stop("b")]);
    p.scroll = 7;
    p.body_scroll = 9;
    p.handle(Event::Next);
    p.handle(Event::Prev);
    assert_eq!((p.index, p.scroll, p.body_scroll), (0, 14, 0));
}

fn parsed(filename: &str, file: &str, kind: &str, value: Option<Value>) -> ParsedStop {
    ParsedStop {
        filename: filename.into(),
        frontmatter: StopFrontmatter {
            file: file.into(),
            anchor: Anchor { kind: kind.into(), value, query: None },
            title: None,
            highlight: None,
        },
        body: String::new(),
    }
}

#[test]
fn load_empty_tour_yields_no_stops() {
    let p = load(vec![], vec![], true);
    assert_eq!(p.stops.len(), 0);
    assert_eq!(p.index, 0);
    assert_eq!(p.scroll, 0);
    assert_eq!(p.sources.len(), 0);
}

#[test]
fn load_populates_title_and_body_from_frontmatter() {
    let mut s = parsed("entry.md", "src/lib.rs", "line", Some(Value::Integer(1)));
    s.frontmatter.title = Some("Entry".into());
    s.body = "The body of the stop.\nMultiple lines.\n".into();
    let p = load(vec![s], vec!["fn main() {}\n".into()], true);
    assert_eq!(p.stops.len(), 1);
    assert_eq!(stop_at(&p, 0).title, "Entry");
    assert!(
        stop_at(&p, 0).body.contains("body of the stop"),
        "body was: {:?}",
        stop_at(&p, 0).body
    );
}

#[test]
fn load_resolves_line_anchor_directly() {
    let s = parsed("s.md", "src/lib.rs", "line", Some(Value::Integer(3)));
    let p = load(vec![s], vec!["a\nb\nc\nd\n".into()], true);
    assert_eq!(stop_at(&p, 0).anchor_line, Some(3));
}

#[test]
fn load_resolves_pattern_anchor_to_first_matching_line() {
    let s = parsed("s.md", "src/lib.rs", "pattern", Some(Value::Text("fn main".into())));
    let text = "use std::io;\n\nfn main() {\n    println!(\"hi\");\n}\n";
    let p = load(vec![s], vec![text.into()], true);
    assert_eq!(stop_at(&p, 0).anchor_line, Some(3));
}

#[test]
fn load_marks_unresolved_pattern_as_none() {
    let pattern = Some(Value::Text("nonexistent_marker_xyz".into()));
    let s = parsed("s.md", "src/lib.rs", "pattern", pattern);
    let p = load(vec![s], vec!["irrelevant content\n".into()], true);
    assert_eq!(stop_at(&p, 0).anchor_line, None);
}

#[test]
fn load_reads_referenced_source_file_into_file_text() {
    let s = parsed("s.md", "src/lib.rs", "line", Some(Value::Integer(1)));
    let p = load(vec![s], vec!["specific marker text 12345\n".into()], true);
    assert!(p.sources[stop_at(&p, 0).source].file_text.contains("specific marker text 12345"));
}

#[test]
fn load_passes_through_highlight_lines() {
    let mut s = parsed("s.md", "src/lib.rs", "line", Some(Value::Integer(1)));
    s.frontmatter.highlight = Some(Value::Table(vec![("lines".into(), Value::Integer(8))]));
    let p = load(vec![s], vec!["x\n".into()], true);
    assert_eq!(stop_at(&p, 0).highlight_lines, Some(8));
}

#[test]
fn load_falls_back_to_filename_slug_when_title_missing() {
    let s = parsed("untitled-stop.md", "src/lib.rs", "line", Some(Value::Integer(1)));
    let p = load(vec![s], vec!["x\n".into()], true);
    assert!(
        stop_at(&p, 0).title.contains("untitled"),
        "expected title to fall back to filename, got {:?}",
        stop_at(&p, 0).title
    );
    assert_eq!(stop_at(&p, 0).title, "untitled-stop");
}

#[test]
fn title_from_filename_drops_every_md() {
    let title = |f: &str| {
        prepare_stop(&parsed(f, "x", "line", None), 0, "").title
    };
    assert_eq!(title("a.md.md"), "a");
    assert_eq!(title("a.md.txt"), "a.md.txt");
    assert_eq!(title(".md"), "");
    assert_eq!(title("md"), "md");
}

#[test]
fn load_treesitter_falls_back_to_longest_literal() {
    let mut s = parsed("s.md", "src/lib.rs", "treesitter", None);
    s.frontmatter.anchor.query =
        Some("(function_item name: (identifier) @n (#eq? @n \"tokenize\"))".into());
    let p = load(vec![s], vec!["fn helper() {}\nfn tokenize() {}\n".into()], true);
    assert_eq!(stop_at(&p, 0).anchor_line, Some(2));
    assert_eq!(stop_at(&p, 0).warnings.len(), 1);
    assert!(
        stop_at(&p, 0).warnings[0].contains("tree-sitter not bundled"),
        "warning was: {:?}",
        stop_at(&p, 0).warnings
    );
    assert!(stop_at(&p, 0).warnings[0].contains("tokenize"));
}

#[test]
fn load_treesitter_with_no_quoted_literal_warns_and_returns_none() {
    let mut s = parsed("s.md", "src/lib.rs", "treesitter", None);
    s.frontmatter.anchor.query = Some("(identifier)".into());
    let p = load(vec![s], vec!["x\n".into()], true);
    assert_eq!(stop_at(&p, 0).anchor_line, None);
    assert_eq!(stop_at(&p, 0).warnings.len(), 1);
    assert!(stop_at(&p, 0).warnings[0].contains("no quoted literal"));
}

#[test]
fn load_unknown_anchor_kind_warns() {
    let s = parsed("s.md", "src/lib.rs", "magic", Some(Value::Text("x".into())));
    let p = load(vec![s], vec!["x\n".into()], true);
    assert_eq!(stop_at(&p, 0).anchor_line, None);
    assert!(stop_at(&p, 0)
        .warnings
        .first()
        .map(|w| w.contains("unknown anchor kind"))
        .unwrap_or(false));
}

#[test]
fn load_sets_initial_scroll_to_auto_position_for_first_stop() {
    // 50-line file, anchor at line 30 → scroll should land at 30 - 5 - 1 = 24
    let source: String = (1..=50).map(|i| format!("line {}\n", i)).collect();
    let s = parsed("s.md", "src/lib.rs", "line", Some(Value::Integer(30)));
    let p = load(vec![s], vec![source], true);
    assert_eq!(p.scroll, 30 - CONTEXT_ABOVE - 1);
}

#[test]
fn load_preserves_stop_order_from_index() {
    let stops = ["c.md", "a.md", "b.md"]
        .iter()
        .map(|name| {
            let mut s = parsed(name, "src/lib.rs", "line", Some(Value::Integer(1)));
            s.frontmatter.title = Some(name.to_string());
            s
        })
        .collect();
    let mut p = load(stops, vec!["x\n".into(); 3], true);
    p.ensure_prepared(1);
    p.ensure_prepared(2);
    let titles: Vec<&str> =
        p.stops.iter().map(|s| s.as_ref().unwrap().title.as_str()).collect();
    assert_eq!(titles, vec!["c.md", "a.md", "b.md"]);
}

fn three_stops() -> Vec<ParsedStop> {
    let a = parsed("a.md", "a.rs", "pattern", Some(Value::Text("one".into())));
    let b = parsed("b.md", "b.rs", "pattern", Some(Value::Text("two".into())));
    let c = parsed("c.md", "a.rs", "pattern", Some(Value::Text("three".into())));
    vec![a, b, c]
}

#[test]
fn every_stop_is_prepared_by_load() {
    let texts = vec!["one\n\nthree\n".into(), "\ntwo\n".into(), "not taken: three\n".into()];
    let mut p = load(three_stops(), texts, false);
    let shown: Vec<(&str, usize, Option<usize>)> = (0..3)
        .map(|i| stop_at(&p, i))
        .map(|s| (s.file.as_str(), s.source, s.anchor_line))
        .collect();
    assert_eq!(
        shown,
        vec![("a.rs", 0, Some(1)), ("b.rs", 1, Some(2)), ("a.rs", 0, Some(3))]
    );
    let files: Vec<(&str, &str)> =
        p.sources.iter().map(|s| (s.file.as_str(), s.file_text.as_str())).collect();
    assert_eq!(files, vec![("a.rs", "one\n\nthree\n"), ("b.rs", "\ntwo\n")]);
    assert!(p.sources.iter().all(|s| !s.color));
    for i in 0..3 {
        assert_eq!(p.wanted_file(i), None);
        assert_eq!(p.cached_stop(i).unwrap().anchor_line, stop_at(&p, i).anchor_line);
    }
    assert_eq!(p.next_unprepared(0), None);
    assert_eq!((p.index, p.scroll, p.body_scroll, p.active_pane), (0, 0, 0, Pane::Code));
    assert_eq!(p.file_for(Event::Next), None);
    p.handle(Event::Next);
    assert_eq!(stop_at(&p, p.index).title, "b");
}

/// A player of which only the first stop is prepared.
fn two_files() -> Player {
    let parsed_stops = three_stops();
    let text = "one\n\nthree\n";
    let first = |p: &ParsedStop| Some(prepare_stop(p, 0, text));
    Player {
        stops: vec![first(&parsed_stops[0]), None, None],
        sources: vec![LoadedSource::new("a.rs", text.into(), false)],
        index: 0,
        scroll: 0,
        body_scroll: 0,
        active_pane: Pane::Code,
        preload: Some(PreloadState {
            prepared_stops: vec![first(&parsed_stops[0]), None, None],
            parsed_stops,
            color: false,
        }),
    }
}

#[test]
fn files_are_asked_for_when_they_are_needed() {
    let mut p = two_files();
    assert_eq!(p.file_for(Event::Next), Some("b.rs"));
    assert_eq!(p.file_for(Event::Goto(2)), None);
    assert_eq!(p.file_for(Event::Goto(9)), None);
    assert_eq!(p.file_for(Event::Prev), None);
    assert_eq!(p.file_for(Event::ScrollDown), None);
    assert_eq!(p.wanted_file(1), Some("b.rs"));
    assert_eq!(p.wanted_file(0), None);

    p.add_source("b.rs", "\n\n\n\n\n\n\n\n\ntwo\n".into());
    assert_eq!(p.file_for(Event::Next), None);
    p.handle(Event::Next);
    assert_eq!(stop_at(&p, 1).anchor_line, Some(10));
    assert_eq!(stop_at(&p, 1).source, 1);
    assert_eq!(p.scroll, 4);

    // The third stop shares the first file.
    p.handle(Event::Next);
    assert_eq!(stop_at(&p, 2).anchor_line, Some(3));
    assert_eq!(stop_at(&p, 2).source, 0);
    assert_eq!(p.sources.len(), 2);
}

#[test]
fn a_source_is_kept_once() {
    let mut p = two_files();
    p.add_source("a.rs", "another text".into());
    assert_eq!(p.sources.len(), 1);
    assert_eq!(p.sources[0].file_text, "one\n\nthree\n");
}

#[test]
fn preloading_prepares_ahead_without_showing() {
    let mut p = two_files();
    assert_eq!(p.next_unprepared(1), Some(1));
    p.add_source("b.rs", "two\n".into());
    p.preload_stop(1);
    assert!(p.stops[1].is_none());
    assert_eq!(p.cached_stop(1).unwrap().anchor_line, Some(1));
    assert_eq!(p.next_unprepared(1), Some(2));
    p.preload_stop(2);
    assert_eq!(p.next_unprepared(1), None);
    assert_eq!(p.next_unprepared(9), None);

    p.handle(Event::Next);
    assert_eq!(stop_at(&p, 1).anchor_line, Some(1));
    assert_eq!(p.stop_count(), 3);
}
