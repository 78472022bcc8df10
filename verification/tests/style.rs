use turin::style::{
    build_highlighted_code_line, build_plain_code_line, clone_line, highlight_code_line, raw_line,
    Color, Region, Style, BOLD,
};

#[test]
fn plain_code_line_has_a_right_aligned_number() {
    let line = build_plain_code_line(7, "let x = 1;");
    assert_eq!(line.spans.len(), 2);
    assert_eq!(line.spans[0].content, "   7 │ ");
    assert_eq!(line.spans[0].style, Style::of_color(Color::DarkGray));
    assert_eq!(line.spans[1].content, "let x = 1;");
    assert_eq!(build_plain_code_line(12345, "").spans[0].content, "12345 │ ");
}

#[test]
fn highlighted_code_line_drops_line_ends_and_empty_regions() {
    let red = Color::Rgb(255, 0, 0);
    let regions = vec![
        Region { color: red, content: "let".into() },
        Region { color: Color::Yellow, content: "".into() },
        Region { color: Color::Yellow, content: " x;\r\n".into() },
        Region { color: red, content: "\n".into() },
    ];
    let line = build_highlighted_code_line(1, "let x;", &regions);
    assert_eq!(line.spans.len(), 3);
    assert_eq!(line.spans[1].content, "let");
    assert_eq!(line.spans[1].style, Style::of_color(red));
    assert_eq!(line.spans[2].content, " x;");
}

#[test]
fn highlighted_code_line_falls_back_to_the_text() {
    let line = build_highlighted_code_line(1, "text", &vec![]);
    assert_eq!(line.spans.len(), 2);
    assert_eq!(line.spans[1].content, "text");
    assert_eq!(line.spans[1].style, Style::plain());
    assert_eq!(build_highlighted_code_line(1, "", &vec![]).spans.len(), 1);
}

#[test]
fn marked_lines_keep_their_text_colour() {
    let line = highlight_code_line(build_plain_code_line(1, "x"));
    for span in line.spans.iter() {
        assert_eq!(span.style.bg, Some(Color::DarkGray));
        assert_eq!(span.style.modifier, BOLD);
    }
    assert_eq!(line.spans[0].style.fg, Some(Color::DarkGray));
    assert_eq!(line.spans[1].style.fg, None);
    assert_eq!(line.spans[1].content, "x");
}

#[test]
fn a_copy_of_a_line_is_the_line() {
    let line = raw_line("words");
    let copy = clone_line(&line);
    assert_eq!(copy.spans.len(), 1);
    assert_eq!(copy.spans[0].content, "words");
    assert_eq!(copy.spans[0].style, Style::plain());
}
