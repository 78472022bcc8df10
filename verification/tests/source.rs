use turin::highlight::Assets;
use turin::source::{line_ranges, should_store_checkpoint, LoadedSource, SourceLineRange};
use turin::style::{Color, Line, Style};

fn numbered(n: usize) -> String {
    (1..=n).map(|i| format!("line {}\n", i)).collect()
}

fn shown(line: &Line) -> String {
    line.spans.iter().map(|s| s.content.as_str()).collect()
}

fn same_lines(a: &Line, b: &Line) -> bool {
    a.spans.len() == b.spans.len()
        && a.spans.iter().zip(b.spans.iter()).all(|(x, y)| x.content == y.content && x.style == y.style)
}

#[test]
fn load_no_color_uses_plain_code_lines() {
    let mut source = LoadedSource::new("src/lib.rs", "fn main() {}\n".into(), false);
    let line = source.cached_code_lines(&Assets::load(), 0, 1).into_iter().next().unwrap();
    assert_eq!(line.spans.len(), 2);
    assert_eq!(line.spans[1].content, "fn main() {}");
    assert_eq!(line.spans[1].style, Style::plain());
}

#[test]
fn line_ranges_handle_lf_and_crlf_lines() {
    let lf = LoadedSource::new("x", "a\nbb\nccc".into(), false);
    assert_eq!(lf.source_line(0), Some("a"));
    assert_eq!(lf.source_line(1), Some("bb"));
    assert_eq!(lf.source_line(2), Some("ccc"));

    let crlf = LoadedSource::new("x", "a\r\nbb\r\nccc".into(), false);
    assert_eq!(crlf.source_line(0), Some("a"));
    assert_eq!(crlf.source_line(1), Some("bb"));
    assert_eq!(crlf.source_line(2), Some("ccc"));
    assert_eq!(crlf.source_line(3), None);
    assert_eq!(crlf.source_line_with_ending(1), Some("bb\r\n"));
    assert_eq!(crlf.source_line_with_ending(2), Some("ccc"));
}

#[test]
fn line_ranges_at_the_edges() {
    let range = |full_start, content_end, full_end| SourceLineRange { full_start, content_end, full_end };
    assert_eq!(line_ranges(""), vec![]);
    assert_eq!(line_ranges("\n"), vec![range(0, 0, 1)]);
    assert_eq!(line_ranges("\r\n"), vec![range(0, 0, 2)]);
    assert_eq!(line_ranges("\n\r\n"), vec![range(0, 0, 1), range(1, 1, 3)]);
    assert_eq!(line_ranges("a\r\r\n"), vec![range(0, 2, 4)]);
    assert_eq!(line_ranges("a\rb"), vec![range(0, 3, 3)]);
    assert_eq!(line_ranges("é\nß"), vec![range(0, 2, 3), range(3, 5, 5)]);
}

#[test]
fn lines_make_up_the_file() {
    for text in ["", "a", "a\n", "\n\n", "a\r\nß\n\nlast", "\r\n\rx\n"] {
        let source = LoadedSource::new("x", text.into(), false);
        let n = source.line_ranges.len();
        let whole: String = (0..n).map(|i| source.source_line_with_ending(i).unwrap()).collect();
        assert_eq!(whole, text);
        for i in 0..n {
            assert!(!source.source_line(i).unwrap().contains('\n'));
        }
    }
}

#[test]
fn extension_is_read_off_the_file_name() {
    let ext = |f: &str| LoadedSource::new(f, String::new(), true).extension;
    assert_eq!(ext("src/lib.rs"), Some("rs".to_string()));
    assert_eq!(ext("/abs/a.tar.gz"), Some("gz".to_string()));
    assert_eq!(ext("Makefile"), None);
    assert_eq!(ext("a/b"), None);
    assert_eq!(ext(".gitignore"), None);
    assert_eq!(ext("a.b/.env"), None);
    assert_eq!(ext("src/.env.local"), Some("local".to_string()));
}

#[test]
fn checkpoints_are_due_at_the_last_line_and_every_64() {
    assert!(should_store_checkpoint(5, 5));
    assert!(!should_store_checkpoint(5, 6));
    assert!(should_store_checkpoint(63, 100));
    assert!(!should_store_checkpoint(64, 100));
    assert!(should_store_checkpoint(127, 128));
}

#[test]
fn colours_come_from_the_grammar_of_the_extension() {
    let assets = Assets::load();
    let mut rust = LoadedSource::new("a.rs", "fn main() {}\n".into(), true);
    let line = rust.cached_code_lines(&assets, 0, 1).remove(0);
    assert_eq!(shown(&line), "   1 │ fn main() {}");
    assert!(line.spans.len() > 2);
    assert_eq!(line.spans[0].style, Style::of_color(Color::DarkGray));
    let mut colors: Vec<Style> = line.spans.iter().skip(1).map(|s| s.style).collect();
    colors.dedup();
    assert!(colors.len() > 1);

    let mut plain = LoadedSource::new("a.unknown-extension", "fn main() {}\n".into(), true);
    let line = plain.cached_code_lines(&assets, 0, 1).remove(0);
    assert_eq!(shown(&line), "   1 │ fn main() {}");
    assert_eq!(line.spans.len(), 2);
    assert_ne!(line.spans[1].style, Style::plain());
}

#[test]
fn empty_lines_have_a_number_only() {
    let assets = Assets::load();
    let mut source = LoadedSource::new("a.rs", "\nx\n".into(), true);
    let lines = source.cached_code_lines(&assets, 0, 5);
    assert_eq!(lines.len(), 2);
    assert_eq!(lines[0].spans.len(), 1);
    assert_eq!(shown(&lines[0]), "   1 │ ");
}

#[test]
fn scrolling_page_by_page_keeps_the_colours_of_the_whole() {
    let assets = Assets::load();
    let mut text = String::from("fn main() {\n/* opens\n");
    for i in 0..200 {
        text.push_str(&format!("still comment {}\n", i));
    }
    text.push_str("*/\nlet x = 1;\n}\n");
    let mut whole = LoadedSource::new("a.rs", text.clone(), true);
    let all = whole.cached_code_lines(&assets, 0, 1000);
    let mut paged = LoadedSource::new("a.rs", text, true);
    let mut at = 0;
    while at < all.len() {
        let page = paged.cached_code_lines(&assets, at, 17);
        for (j, line) in page.iter().enumerate() {
            assert!(same_lines(line, &all[at + j]), "line {}", at + j);
        }
        at += 17;
    }
    // Every page has left a checkpoint behind it, and so has every 64th line.
    assert!(paged.checkpoints.contains_key(&17));
    assert!(paged.checkpoints.contains_key(&34));
    assert!(paged.checkpoints.contains_key(&64));
    assert!(whole.checkpoints.contains_key(&128));
}

#[test]
fn a_jump_starts_some_lines_ahead() {
    let assets = Assets::load();
    let mut source = LoadedSource::new("a.rs", numbered(1000), true);
    let lines = source.cached_code_lines(&assets, 700, 3);
    assert_eq!(shown(&lines[0]), " 701 │ line 701");
    // 64 lines ahead of the first, and the three themselves.
    assert_eq!(source.rendered_lines.len(), 67);
    assert!(source.rendered_lines.contains_key(&636));
    assert!(!source.rendered_lines.contains_key(&635));
    assert!(source.checkpoints.contains_key(&703));
    assert!(source.checkpoints.contains_key(&640));

    // The next page goes on from there.
    source.cached_code_lines(&assets, 703, 3);
    assert_eq!(source.rendered_lines.len(), 70);

    // A checkpoint further back than 512 lines is not used.
    let mut source = LoadedSource::new("a.rs", numbered(1000), true);
    source.cached_code_lines(&assets, 0, 1);
    source.cached_code_lines(&assets, 514, 1);
    assert!(!source.rendered_lines.contains_key(&449));
    assert!(source.rendered_lines.contains_key(&450));
    let mut source = LoadedSource::new("a.rs", numbered(1000), true);
    source.cached_code_lines(&assets, 0, 1);
    source.cached_code_lines(&assets, 513, 1);
    assert_eq!(source.rendered_lines.len(), 514);
}

#[test]
fn without_colours_only_the_lines_asked_for_are_drawn() {
    let assets = Assets::load();
    let mut source = LoadedSource::new("a.rs", numbered(1000), false);
    source.ensure_code_lines(&assets, 700, 3);
    assert_eq!(source.rendered_lines.len(), 3);
    assert!(source.checkpoints.is_empty());
    source.ensure_code_lines(&assets, 0, 0);
    source.ensure_code_lines(&assets, 1000, 5);
    assert_eq!(source.rendered_lines.len(), 3);
    source.ensure_code_lines(&assets, 999, usize::MAX);
    assert_eq!(source.rendered_lines.len(), 4);
}

#[test]
fn drawing_again_changes_nothing() {
    let assets = Assets::load();
    let mut source = LoadedSource::new("a.rs", numbered(50), true);
    let first = source.cached_code_lines(&assets, 10, 20);
    let points = source.checkpoints.len();
    let second = source.cached_code_lines(&assets, 10, 20);
    assert!(first.iter().zip(second.iter()).all(|(a, b)| same_lines(a, b)));
    assert_eq!(source.checkpoints.len(), points);
    assert_eq!(source.rendered_lines.len(), 30);
}

#[test]
fn drawn_lines_show_the_file() {
    let assets = Assets::load();
    let text = "use std::io;\r\n\r\nfn main() {\n    // words  \n\t\"a \\\" b\"\n}";
    for color in [true, false] {
        let mut source = LoadedSource::new("a.rs", text.into(), color);
        let lines = source.cached_code_lines(&assets, 0, 100);
        assert_eq!(lines.len(), 6);
        for (i, line) in lines.iter().enumerate() {
            let content = source.source_line(i).unwrap();
            assert_eq!(shown(line), format!("{:>4} │ {}", i + 1, content));
        }
    }
}

#[test]
fn only_lines_on_the_way_have_to_be_short() {
    let limit = turin::highlight::LONGEST_LINE;
    let short = "y\n".repeat(200);
    let longest = format!("{}\n{}", "x".repeat(limit - 1), short);
    let source = LoadedSource::new("a.rs", longest, true);
    assert!(source.drawable_lines(0, 1));

    let long = format!("{}\n{}", "x".repeat(limit), short);
    let source = LoadedSource::new("a.rs", long.clone(), true);
    assert!(!source.drawable_lines(0, 1));
    assert!(source.drawable_lines(0, 0));
    assert!(source.drawable_lines(1000, 1));
    // The highlighter starts 64 lines ahead.
    assert!(!source.drawable_lines(64, 1));
    assert!(source.drawable_lines(65, 1));
    assert!(LoadedSource::new("a.rs", long, false).drawable_lines(0, 1));
}
