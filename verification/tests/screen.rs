use ratatui::buffer::Buffer;
use ratatui::style::Color as TermColor;
use turin::highlight::Assets;
use turin::layout::{Pane, Rect};
use turin::play::{LoadedStop, Player};
use turin::screen::{draw, drawable, highlight_range, render, visible_code_lines, wrappable};
use turin::source::LoadedSource;
use turin::style::{raw_line, Style};

fn make_loaded_stop(title: &str) -> LoadedStop {
    LoadedStop {
        title: title.into(),
        body: String::new(),
        file: "src/foo.rs".into(),
        source: 0,
        anchor_line: Some(1),
        highlight_lines: None,
        warnings: Vec::new(),
    }
}

fn player_with_text(stops: Vec<LoadedStop>, text: &str, index: usize, scroll: usize) -> Player {
    Player {
        sources: vec![LoadedSource::new(&stops[0].file, text.into(), true)],
        stops: stops.into_iter().map(Some).collect(),
        index,
        scroll,
        body_scroll: 0,
        active_pane: Pane::Code,
        preload: None,
    }
}

fn player_from_stops(stops: Vec<LoadedStop>) -> Player {
    player_with_text(stops, "", 0, 0)
}

fn empty_player() -> Player {
    Player {
        stops: vec![],
        sources: vec![],
        index: 0,
        scroll: 0,
        body_scroll: 0,
        active_pane: Pane::Code,
        preload: None,
    }
}

fn screen(width: u16, height: u16) -> Rect {
    Rect { x: 0, y: 0, width, height }
}

fn render_with(assets: &Assets, state: &mut Player, w: u16, h: u16) -> Buffer {
    let backend = ratatui::backend::TestBackend::new(w, h);
    let mut term = ratatui::Terminal::new(backend).unwrap();
    assert!(drawable(state, screen(w, h)));
    term.draw(|f| render(state, f, assets)).unwrap();
    term.backend().buffer().clone()
}

fn render_to_buffer(state: &mut Player, w: u16, h: u16) -> Buffer {
    render_with(&Assets::load(), state, w, h)
}

fn buf_to_string(buf: &Buffer) -> String {
    let area = buf.area;
    let mut out = String::new();
    for y in 0..area.height {
        for x in 0..area.width {
            out.push_str(buf[(x, y)].symbol());
        }
        out.push('\n');
    }
    out
}

fn numbered(n: usize) -> String {
    (1..=n).map(|i| format!("line {}\n", i)).collect()
}

#[test]
fn render_shows_stop_title_in_right_pane() {
    let mut p = player_from_stops(vec![make_loaded_stop("Entry point")]);
    let buf = render_to_buffer(&mut p, 80, 20);
    let s = buf_to_string(&buf);
    assert!(s.contains("Entry point"), "buffer:\n{}", s);
}

#[test]
fn render_shows_file_path_in_left_pane_header() {
    let mut stop = make_loaded_stop("X");
    stop.file = "src/parser/lexer.rs".into();
    let mut p = player_from_stops(vec![stop]);
    let buf = render_to_buffer(&mut p, 80, 20);
    let s = buf_to_string(&buf);
    assert!(s.contains("src/parser/lexer.rs"), "buffer:\n{}", s);
}

#[test]
fn render_shows_progress_in_status_bar() {
    let stops = (0..3).map(|i| make_loaded_stop(&format!("Stop {}", i))).collect();
    let mut p = player_with_text(stops, "", 1, 0);
    let buf = render_to_buffer(&mut p, 80, 20);
    let s = buf_to_string(&buf);
    assert!(s.contains("2 / 3"), "buffer:\n{}", s);
}

#[test]
fn render_status_bar_includes_key_hints() {
    let mut p = player_from_stops(vec![make_loaded_stop("X")]);
    let buf = render_to_buffer(&mut p, 80, 20);
    let s = buf_to_string(&buf);
    assert!(
        s.contains("next") && s.contains("prev") && s.contains("quit"),
        "buffer:\n{}",
        s
    );
    // The bracket-key aliases should be shown alongside n and p.
    assert!(s.contains("n/]"), "expected n/] alias, buffer:\n{}", s);
    assert!(s.contains("p/["), "expected p/[ alias, buffer:\n{}", s);
}

#[test]
fn render_progress_right_aligned_in_status_bar() {
    let stops: Vec<LoadedStop> =
        (0..3).map(|i| make_loaded_stop(&format!("Stop {}", i))).collect();
    let mut p = player_with_text(stops, "", 1, 0);
    let buf = render_to_buffer(&mut p, 80, 10);
    let last_row_y = buf.area.height - 1;
    let last_row: String = (0..buf.area.width)
        .map(|x| buf[(x, last_row_y)].symbol().to_string())
        .collect::<Vec<_>>()
        .concat();
    assert!(
        last_row.trim_end().ends_with("2 / 3"),
        "expected status bar to end with progress; row was:\n{:?}",
        last_row
    );
}

#[test]
fn render_displays_body_text() {
    let mut stop = make_loaded_stop("X");
    stop.body = "specific body marker xyz".into();
    let mut p = player_from_stops(vec![stop]);
    let buf = render_to_buffer(&mut p, 80, 20);
    let s = buf_to_string(&buf);
    assert!(s.contains("specific body marker"), "buffer:\n{}", s);
}

#[test]
fn render_scrolls_commentary_independently() {
    let mut stop = make_loaded_stop("X");
    stop.body = (1..=30).map(|i| format!("commentary line {}\n", i)).collect();
    let mut p = player_from_stops(vec![stop]);
    p.body_scroll = 5;
    let buf = render_to_buffer(&mut p, 100, 20);
    let s = buf_to_string(&buf);
    assert!(s.contains("commentary line 6"), "buffer:\n{}", s);
    assert!(
        !s.contains("commentary line 1                     │"),
        "buffer:\n{}",
        s
    );
}

#[test]
fn render_displays_source_code_text() {
    let text = "fn unique_marker_fn() {}\n";
    let mut p = player_with_text(vec![make_loaded_stop("X")], text, 0, 0);
    let buf = render_to_buffer(&mut p, 80, 20);
    let s = buf_to_string(&buf);
    assert!(s.contains("unique_marker_fn"), "buffer:\n{}", s);
}

#[test]
fn render_uses_cached_visible_code_line() {
    let text = "this text should not be rendered\n";
    let mut p = player_with_text(vec![make_loaded_stop("X")], text, 0, 0);
    p.sources[0].rendered_lines.insert(0, raw_line("cached marker line"));
    let buf = render_to_buffer(&mut p, 80, 20);
    let s = buf_to_string(&buf);
    assert!(s.contains("cached marker line"), "buffer:\n{}", s);
    assert!(
        !s.contains("this text should not be rendered"),
        "buffer:\n{}",
        s
    );
}

#[test]
fn render_scrolls_lazily_rendered_code_lines() {
    let mut p = player_with_text(vec![make_loaded_stop("X")], &numbered(30), 0, 5);
    let buf = render_to_buffer(&mut p, 80, 20);
    let s = buf_to_string(&buf);
    assert!(s.contains("6 │ line 6"), "buffer:\n{}", s);
    assert!(!s.contains("│   1 │ line 1"), "buffer:\n{}", s);
}

#[test]
fn render_caches_only_visible_code_lines() {
    let mut p = player_with_text(vec![make_loaded_stop("X")], &numbered(100), 0, 0);

    assert!(p.sources[0].rendered_lines.is_empty());
    let _ = render_to_buffer(&mut p, 80, 10);

    let cached = &p.sources[0].rendered_lines;
    assert!(cached.contains_key(&0));
    assert!(cached.contains_key(&6));
    assert!(!cached.contains_key(&7));
    assert_eq!(cached.len(), 7);
}

#[test]
fn render_stores_checkpoint_after_visible_range() {
    let mut p = player_with_text(vec![make_loaded_stop("X")], &numbered(100), 0, 0);

    let _ = render_to_buffer(&mut p, 80, 10);

    assert!(p.sources[0].checkpoints.contains_key(&7));
}

#[test]
fn checkpointed_highlighting_carries_multiline_context() {
    let text = "fn main() {\n/* comment\nstill comment\n*/\nlet x = 1;\n}\n";
    let mut p = player_with_text(vec![make_loaded_stop("X")], text, 0, 0);

    let _ = render_to_buffer(&mut p, 100, 10);

    let cached = &p.sources[0].rendered_lines;
    let opening_comment = cached.get(&1).unwrap();
    let continued_comment = cached.get(&2).unwrap();
    let opening_style = opening_comment.spans.last().unwrap().style;
    let continued_style = continued_comment.spans.last().unwrap().style;
    assert_eq!(continued_style, opening_style);
    assert_ne!(continued_style, Style::plain());
}

/// Count rows in the buffer that contain at least one cell with the given
/// background color, restricted to x < `cutoff_x` (the code pane).
fn rows_with_bg(buf: &Buffer, bg: TermColor, cutoff_x: u16) -> Vec<u16> {
    let area = buf.area;
    (0..area.height)
        .filter(|y| (0..cutoff_x.min(area.width)).any(|x| buf[(x, *y)].bg == bg))
        .collect()
}

#[test]
fn render_highlights_anchor_line_with_distinct_bg() {
    let mut stop = make_loaded_stop("X");
    stop.anchor_line = Some(10);
    stop.highlight_lines = None; // default = 1 line
    let mut p = player_with_text(vec![stop], &numbered(30), 0, 0);
    let buf = render_to_buffer(&mut p, 80, 20);
    let highlighted = rows_with_bg(&buf, TermColor::DarkGray, 48);
    assert_eq!(
        highlighted.len(),
        1,
        "expected exactly one highlighted row, got {:?}\n{}",
        highlighted,
        buf_to_string(&buf)
    );
    // Line 10 stands in row 10, below the border.
    assert_eq!(highlighted, vec![10]);
}

#[test]
fn render_highlights_full_region_when_highlight_lines_set() {
    let mut stop = make_loaded_stop("X");
    stop.anchor_line = Some(10);
    stop.highlight_lines = Some(4);
    let mut p = player_with_text(vec![stop], &numbered(30), 0, 0);
    let buf = render_to_buffer(&mut p, 80, 20);
    let highlighted = rows_with_bg(&buf, TermColor::DarkGray, 48);
    assert_eq!(
        highlighted.len(),
        4,
        "expected 4 highlighted rows, got {:?}\n{}",
        highlighted,
        buf_to_string(&buf)
    );
}

#[test]
fn render_no_highlight_when_anchor_unresolved() {
    let mut stop = make_loaded_stop("X");
    stop.anchor_line = None;
    let mut p = player_with_text(vec![stop], "a\nb\nc\n", 0, 0);
    let buf = render_to_buffer(&mut p, 80, 20);
    let highlighted = rows_with_bg(&buf, TermColor::DarkGray, 48);
    assert!(
        highlighted.is_empty(),
        "expected no highlight, got rows {:?}",
        highlighted
    );
}

#[test]
fn render_shows_first_warning_in_status_bar() {
    let mut s = make_loaded_stop("X");
    s.warnings = vec!["fell back to literal match on \"tokenize\"".into()];
    let mut p = player_from_stops(vec![s]);
    let buf = render_to_buffer(&mut p, 120, 20);
    let s = buf_to_string(&buf);
    assert!(s.contains("fell back to literal match"), "buffer:\n{}", s);
    assert!(s.contains("q quit  ! fell back"), "buffer:\n{}", s);
    let bang = (0..120).find(|x| buf[(*x, 19)].symbol() == "!").unwrap();
    assert_eq!(buf[(bang, 19)].fg, TermColor::Yellow);
}

#[test]
fn render_includes_line_numbers_in_code_pane() {
    let mut p =
        player_with_text(vec![make_loaded_stop("X")], "alpha\nbeta\ngamma\n", 0, 0);
    let buf = render_to_buffer(&mut p, 80, 20);
    let s = buf_to_string(&buf);
    // Each line should be preceded by its 1-based line number and a separator.
    assert!(s.contains("1 │ alpha"), "buffer:\n{}", s);
    assert!(s.contains("2 │ beta"), "buffer:\n{}", s);
    assert!(s.contains("3 │ gamma"), "buffer:\n{}", s);
}

#[test]
fn render_handles_empty_player_without_panic() {
    let mut p = empty_player();
    let buf = render_to_buffer(&mut p, 80, 20);
    let s = buf_to_string(&buf);
    // Renderer must convey that there's nothing to play.
    assert!(s.to_lowercase().contains("no stops"), "buffer:\n{}", s);
    assert!(s.contains("no stops — q quit"), "buffer:\n{}", s);
    assert!(s.contains("(no stops)"), "buffer:\n{}", s);
}

#[test]
fn render_marks_the_active_pane() {
    let assets = Assets::load();
    let mut p = player_from_stops(vec![make_loaded_stop("Title")]);
    let s = buf_to_string(&render_with(&assets, &mut p, 80, 20));
    assert!(s.contains("> src/foo.rs") && !s.contains("> Title"), "buffer:\n{}", s);
    p.active_pane = Pane::Commentary;
    let s = buf_to_string(&render_with(&assets, &mut p, 80, 20));
    assert!(!s.contains("> src/foo.rs") && s.contains("> Title"), "buffer:\n{}", s);
}

#[test]
fn render_whole_screen() {
    let mut stop = make_loaded_stop("Title");
    stop.body = "Some words that wrap".into();
    let mut p = player_with_text(vec![stop], "a\nb\n", 0, 0);
    let s = buf_to_string(&render_to_buffer(&mut p, 30, 6));
    let expected = [
        "┌> src/foo.rs────┐┌Title─────┐",
        "│   1 │ a        ││Some words│",
        "│   2 │ b        ││that wrap │",
        "│                ││          │",
        "└────────────────┘└──────────┘",
        "n/] next  p/[ prev  tab p1 / 1",
    ];
    assert_eq!(s.lines().collect::<Vec<_>>(), expected);
}

#[test]
fn rendering_again_changes_nothing() {
    let assets = Assets::load();
    let mut p = player_with_text(vec![make_loaded_stop("X")], &numbered(100), 0, 40);
    let first = render_with(&assets, &mut p, 80, 10);
    let lines = p.sources[0].rendered_lines.len();
    let points = p.sources[0].checkpoints.len();
    let second = render_with(&assets, &mut p, 80, 10);
    assert_eq!(first, second);
    assert_eq!(p.sources[0].rendered_lines.len(), lines);
    assert_eq!(p.sources[0].checkpoints.len(), points);
}

#[test]
fn render_fits_any_screen() {
    let assets = Assets::load();
    let mut stop = make_loaded_stop("X");
    stop.body = "words and more words".into();
    stop.warnings = vec!["careful".into()];
    let mut p = player_with_text(vec![stop], &numbered(5), 0, 0);
    for (w, h) in [(1, 1), (1, 2), (2, 1), (3, 3), (5, 2), (10, 4)] {
        let _ = render_with(&assets, &mut p, w, h);
    }
}

#[test]
fn highlight_range_covers_one_line_at_least() {
    let mut s = make_loaded_stop("X");
    s.anchor_line = Some(10);
    assert_eq!(highlight_range(&s), Some((10, 11)));
    s.highlight_lines = Some(0);
    assert_eq!(highlight_range(&s), Some((10, 11)));
    s.highlight_lines = Some(4);
    assert_eq!(highlight_range(&s), Some((10, 14)));
    s.anchor_line = None;
    assert_eq!(highlight_range(&s), None);
}

#[test]
fn a_range_past_the_end_of_numbers_cannot_be_drawn() {
    let mut s = make_loaded_stop("X");
    s.anchor_line = Some(usize::MAX);
    let p = player_from_stops(vec![s]);
    assert!(!drawable(&p, screen(80, 24)));
    let mut s = make_loaded_stop("X");
    s.anchor_line = Some(usize::MAX - 4);
    s.highlight_lines = Some(4);
    let mut p = player_from_stops(vec![s]);
    assert!(drawable(&p, screen(80, 24)));
    p.stops[0].as_mut().unwrap().highlight_lines = Some(5);
    assert!(!drawable(&p, screen(80, 24)));
}

/// Draws a commentary on a screen of 80 columns, where its pane is 30 cells wide inside
/// the borders, if it can be drawn.
fn drawn_commentary(assets: &Assets, body: &str) -> Option<Buffer> {
    let mut s = make_loaded_stop("X");
    s.body = body.into();
    let mut p = player_from_stops(vec![s]);
    let backend = ratatui::backend::TestBackend::new(80, 10);
    let mut term = ratatui::Terminal::new(backend).unwrap();
    let mut drawn = false;
    term.draw(|f| drawn = draw(&mut p, f, assets)).unwrap();
    assert_eq!(drawn, drawable(&p, screen(80, 10)));
    let buf = term.backend().buffer().clone();
    if drawn {
        Some(buf)
    } else {
        assert!(buf.content.iter().all(|c| c.symbol() == " "));
        None
    }
}

/// A row of the commentary pane, without its left border.
fn commentary_row(buf: &Buffer, y: u16) -> String {
    (49..80).map(|x| buf[(x, y)].symbol()).collect()
}

#[test]
fn commentary_with_very_wide_clusters_is_not_drawn_broken() {
    let assets = Assets::load();
    // A letter with twelve sound marks of two cells is one cluster.
    let wide = format!("k{}", "\u{ff9e}".repeat(12));
    assert!(drawn_commentary(&assets, &format!("a {}{}c", "b".repeat(20), wide)).is_none());
    // Alone in its line it fits.
    let buf = drawn_commentary(&assets, &format!("{}c", wide)).unwrap();
    assert_eq!(buf[(49, 1)].symbol(), wide);
    assert_eq!(buf[(74, 1)].symbol(), "c");
    // Four cells are too many in a line that is broken, three are not.
    let four = format!("{}紅\u{ff9e}", "b ".repeat(20));
    assert!(drawn_commentary(&assets, &four).is_none());
    let three = format!("{}a\u{ff9e}", "b ".repeat(20));
    assert!(drawn_commentary(&assets, &three).is_some());
    // A cluster that is wider than the pane is left out.
    let wider = format!("a {}{}{}c", "b".repeat(20), wide, "\u{ff9e}".repeat(12));
    let buf = drawn_commentary(&assets, &wider).unwrap();
    assert_eq!(commentary_row(&buf, 1).trim_end_matches('│').trim_end(), "a bbbbbbbbbbbbbbbbbbbbc");
}

#[test]
fn commentary_with_clusters_without_width() {
    let assets = Assets::load();
    let (mark, blank) = ("\u{300}", "\u{200b}");
    let words = "b".repeat(29);
    let draw = |body: String| drawn_commentary(&assets, &body);
    // With both a mark and a blank that take no cell, ideographs are too wide.
    assert!(draw(format!("{}{}{}紅紅", mark, blank, words)).is_none());
    assert!(draw(format!("{}{}{}bbbb", mark, blank, words)).is_some());
    // With one of the two they are not; the last one stands on the border at most.
    for body in [format!("{} {}紅紅", mark, words), format!("a{}{}紅紅", blank, words)] {
        let buf = draw(body).unwrap();
        assert_eq!(buf[(0, 0)].symbol(), "┌");
        let rows: String = (1..9).map(|y| commentary_row(&buf, y)).collect();
        assert_eq!(rows.matches('紅').count(), 2);
    }
}

#[test]
fn wide_commentary_is_broken_inside_its_pane() {
    let assets = Assets::load();
    let buf = drawn_commentary(&assets, &"紅".repeat(40)).unwrap();
    let row = |y| commentary_row(&buf, y).matches('紅').count();
    assert_eq!((row(1), row(2), row(3), row(4)), (15, 15, 10, 0));
    // The pane to the left is as it is without commentary.
    let empty = drawn_commentary(&assets, "").unwrap();
    for y in 0..10 {
        for x in 0..48 {
            assert_eq!(buf[(x, y)].symbol(), empty[(x, y)].symbol());
        }
    }
}

#[test]
fn wrappable_depends_on_the_width() {
    let wide = format!("k{}", "\u{ff9e}".repeat(12));
    assert!(wrappable(&wide, 25));
    assert!(!wrappable(&format!("{}c", wide), 25));
    assert!(wrappable(&format!("{}c", wide), 26));
    assert!(wrappable(&format!("{}c", wide), 24));
    assert!(!wrappable(&format!("fine\n{}c\nfine", wide), 25));
    assert!(wrappable("plain text, far longer than the pane", 5));
    assert!(wrappable("", 5));
    // Control characters are not drawn.
    assert!(wrappable("\t\u{1b}紅紅紅", 2));
}

#[test]
fn a_line_that_is_too_long_to_be_coloured_cannot_be_drawn() {
    let long = format!("{}\n", "x".repeat(turin::highlight::LONGEST_LINE));
    let mut p = player_with_text(vec![make_loaded_stop("X")], &long, 0, 0);
    assert!(!drawable(&p, screen(80, 24)));
    p.sources[0].color = false;
    assert!(drawable(&p, screen(80, 24)));
}

#[test]
fn a_screen_of_enormous_width_cannot_be_drawn() {
    let p = empty_player();
    assert!(drawable(&p, screen(32767, 24)));
    assert!(!drawable(&p, screen(32768, 24)));
    assert!(drawable(&p, Rect { x: 65434, y: 0, width: 100, height: 24 }));
    assert!(!drawable(&p, Rect { x: 65435, y: 0, width: 100, height: 24 }));
}

#[test]
fn visible_code_lines_are_those_of_the_pane() {
    let assets = Assets::load();
    let mut source = LoadedSource::new("a.txt", "one\ntwo\nthree\nfour\n".into(), false);
    let mut s = make_loaded_stop("X");
    s.anchor_line = Some(3);
    let lines = visible_code_lines(&s, &mut source, &assets, 1, 4);
    assert_eq!(lines.len(), 2);
    assert_eq!(lines[0].spans[0].content, "   2 │ ");
    assert_eq!(lines[0].spans[1].content, "two");
    assert_eq!(lines[0].spans[1].style.bg, None);
    assert_eq!(lines[1].spans[1].content, "three");
    assert_eq!(lines[1].spans[1].style.bg, Some(turin::style::Color::DarkGray));
    assert_eq!(lines[1].spans[1].style.modifier, turin::style::BOLD);
    assert!(visible_code_lines(&s, &mut source, &assets, 4, 10).is_empty());
    assert!(visible_code_lines(&s, &mut source, &assets, 0, 2).is_empty());
}

#[test]
fn an_opened_stop_shows_its_line() {
    let assets = Assets::load();
    for anchor in [1, 3, 6, 7, 50, 100] {
        let mut second = make_loaded_stop("second");
        second.anchor_line = Some(anchor);
        let stops = vec![make_loaded_stop("first"), second];
        let mut p = player_with_text(stops, &numbered(100), 0, 0);
        p.handle(turin::play::Event::Next);
        let buf = render_with(&assets, &mut p, 80, 10);
        let rows = rows_with_bg(&buf, TermColor::DarkGray, 48);
        let row = (anchor - p.scroll) as u16;
        assert_eq!(rows, vec![row]);
        let shown: String = (1..30).map(|x| buf[(x, row)].symbol().to_string()).collect();
        assert_eq!(shown.trim_end(), format!("{:>4} │ line {}", anchor, anchor));
    }
}
