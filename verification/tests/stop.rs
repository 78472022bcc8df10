use turin::cli::{AnchorKind, StopArgs};
use turin::stop::{
    bad_frontmatter, build_content, file_name, parse, parse_frontmatter, split_frontmatter, write_file,
    Anchor, StopFrontmatter, Value,
};

fn pattern_stop() -> StopArgs {
    StopArgs {
        file: Some("src/foo.rs".into()),
        anchor_kind: Some(AnchorKind::Pattern),
        anchor: Some("fn handler".into()),
        title: Some("Handler".into()),
        ..Default::default()
    }
}

#[test]
fn build_content_writes_pattern_anchor_with_quoted_value() {
    let c = build_content(&pattern_stop(), "");
    assert!(c.contains(r#"anchor = { kind = "pattern", value = "fn handler" }"#));
}

#[test]
fn build_content_writes_line_anchor_with_unquoted_integer() {
    let s = StopArgs {
        anchor_kind: Some(AnchorKind::Line),
        anchor: Some("42".into()),
        ..pattern_stop()
    };
    let c = build_content(&s, "");
    assert!(c.contains(r#"anchor = { kind = "line", value = 42 }"#));
}

#[test]
fn build_content_writes_treesitter_anchor_with_query_field() {
    let s = StopArgs {
        anchor_kind: Some(AnchorKind::Treesitter),
        anchor: Some("(function_item)".into()),
        ..pattern_stop()
    };
    let c = build_content(&s, "");
    assert!(c.contains(r#"anchor = { kind = "treesitter", query = "(function_item)" }"#));
}

#[test]
fn build_content_omits_optional_fields_when_unset() {
    let s = StopArgs { title: None, id: None, highlight_lines: None, ..pattern_stop() };
    let c = build_content(&s, "");
    assert!(!c.contains("title ="));
    assert!(!c.contains("id ="));
    assert!(!c.contains("highlight"));
}

#[test]
fn build_content_includes_inline_body_with_trailing_newline() {
    let s = StopArgs { body: Some("hello world".into()), ..pattern_stop() };
    let c = build_content(&s, "");
    assert!(c.contains("\n---\n\nhello world\n"));
    assert!(c.ends_with('\n'));
}

#[test]
fn build_content_starts_and_ends_frontmatter_with_dashes() {
    let c = build_content(&pattern_stop(), "");
    assert!(c.starts_with("---\n"));
    assert!(c.contains("\n---\n\n"));
}

#[test]
fn build_content_in_full() {
    let s = StopArgs {
        id: Some("entry".into()),
        highlight_lines: Some(8),
        body: Some("Text.\n".into()),
        ..pattern_stop()
    };
    assert_eq!(
        build_content(&s, "ignored"),
        "---\nid = \"entry\"\nfile = \"src/foo.rs\"\nanchor = { kind = \"pattern\", value = \"fn handler\" }\ntitle = \"Handler\"\nhighlight = { lines = 8 }\n---\n\nText.\n"
    );
}

#[test]
fn build_content_takes_the_body_file_where_there_is_no_inline_body() {
    let s = StopArgs { body_file: Some("notes.md".into()), ..pattern_stop() };
    assert!(build_content(&s, "from the file").ends_with("---\n\nfrom the file\n"));
    assert!(build_content(&pattern_stop(), "from the file").ends_with("---\n\n\n"));
}

#[test]
fn split_frontmatter_basic() {
    let text = "---\nfoo = 1\n---\nbody text\n";
    let (fm, body) = split_frontmatter(text).unwrap();
    assert_eq!(fm, "foo = 1");
    assert_eq!(body, "body text\n");
}

#[test]
fn split_frontmatter_returns_none_without_leading_dashes() {
    assert!(split_frontmatter("just a body").is_none());
}

#[test]
fn split_frontmatter_returns_none_without_closing_dashes() {
    assert!(split_frontmatter("---\nfoo = 1\nno close\n").is_none());
}

#[test]
fn split_frontmatter_handles_crlf_line_endings() {
    let text = "---\r\nfoo = 1\r\n---\r\nbody\r\n";
    let (fm, body) = split_frontmatter(text).unwrap();
    assert_eq!(fm, "foo = 1\r");
    assert_eq!(body, "body\r\n");
}

#[test]
fn split_frontmatter_takes_the_first_close_of_either_kind() {
    let (fm, body) = split_frontmatter("---\na\r\n---\r\nb\n---\nc\n---\nd").unwrap();
    assert_eq!(fm, "a\r");
    assert_eq!(body, "b\n---\nc\n---\nd");
    let (fm, body) = split_frontmatter("---\r\na = 1\r\n---\r\nx\n---\ny").unwrap();
    assert_eq!((fm, body), ("a = 1\r", "x\n---\ny"));
    let (fm, body) = split_frontmatter("---\na = 1\n---\nx\r\n---\r\ny").unwrap();
    assert_eq!((fm, body), ("a = 1", "x\r\n---\r\ny"));
    let (fm, body) = split_frontmatter("---\nü = \"é\"\n---\nñ").unwrap();
    assert_eq!(fm, "ü = \"é\"");
    assert_eq!(body, "ñ");
    assert!(split_frontmatter("---\n---\n").is_none());
    assert!(split_frontmatter("").is_none());
}

#[test]
fn write_file_then_parse_round_trip() {
    let file = write_file(&pattern_stop(), ".turin/handler.md", false, &Ok(String::new())).unwrap();
    assert_eq!(file.filename, "handler.md");

    let (fm, body) = parse("handler.md", &Ok(file.content)).unwrap();
    let parsed: toml::Table = fm.parse().unwrap();
    assert_eq!(parsed["file"].as_str(), Some("src/foo.rs"));
    assert_eq!(parsed["anchor"]["kind"].as_str(), Some("pattern"));
    assert_eq!(parsed["title"].as_str(), Some("Handler"));
    assert_eq!(parsed["anchor"]["value"].as_str(), Some("fn handler"));
    assert_eq!(body, "\n\n");
}

#[test]
fn split_undoes_build() {
    let s = StopArgs {
        id: Some("a \"quoted\" id\\".into()),
        title: Some("-\n--\n".into()),
        body: Some("first\n---\nsecond".into()),
        highlight_lines: Some(3),
        ..pattern_stop()
    };
    let content = build_content(&s, "");
    let (fm, body) = split_frontmatter(&content).unwrap();
    assert_eq!(
        fm,
        "id = \"a \\\"quoted\\\" id\\\\\"\nfile = \"src/foo.rs\"\nanchor = { kind = \"pattern\", value = \"fn handler\" }\ntitle = \"-\\n--\\n\"\nhighlight = { lines = 3 }"
    );
    assert_eq!(body, "\nfirst\n---\nsecond\n");
}

#[test]
fn a_written_stop_reads_back() {
    let odd = "a\n---\nb\r\n---\r\n\t\u{0}\u{1b}\u{7f} \"q\" \\ ß";
    let kinds = [AnchorKind::Line, AnchorKind::Pattern, AnchorKind::Treesitter];
    for (kind, name) in kinds.into_iter().zip(["line", "pattern", "treesitter"]) {
        let s = StopArgs {
            id: Some(odd.into()),
            file: Some(odd.into()),
            title: Some(odd.into()),
            anchor_kind: Some(kind),
            anchor: Some(if name == "line" { "-120" } else { odd }.into()),
            highlight_lines: Some(10),
            slug: Some("the stop".into()),
            body: Some("first\n---\nsecond".into()),
            ..Default::default()
        };
        let file = write_file(&s, "p", false, &Ok(String::new())).unwrap();
        assert_eq!(file.filename, "the-stop.md");
        let (fm, body) = parse("the-stop.md", &Ok(file.content)).unwrap();
        let read: toml::Table = fm.parse().unwrap();
        assert_eq!(read["id"].as_str(), Some(odd));
        assert_eq!(read["file"].as_str(), Some(odd));
        assert_eq!(read["title"].as_str(), Some(odd));
        assert_eq!(read["anchor"]["kind"].as_str(), Some(name));
        let anchor = read["anchor"].as_table().unwrap();
        match name {
            "line" => assert_eq!(anchor["value"].as_integer(), Some(-120)),
            "pattern" => assert_eq!(anchor["value"].as_str(), Some(odd)),
            _ => assert_eq!(anchor["query"].as_str(), Some(odd)),
        }
        assert_eq!(read["highlight"]["lines"].as_integer(), Some(10));
        assert_eq!(body, "\nfirst\n---\nsecond\n");
    }
}

#[test]
fn write_file_refuses_an_existing_file() {
    let r = write_file(&pattern_stop(), ".turin/handler.md", true, &Ok(String::new()));
    assert_eq!(r.unwrap_err(), ".turin/handler.md already exists");
}

#[test]
fn write_file_reports_an_unreadable_body_file() {
    let s = StopArgs { body_file: Some("notes.md".into()), ..pattern_stop() };
    let missing: Result<String, String> = Err("gone".into());
    assert_eq!(write_file(&s, "p", false, &missing).unwrap_err(), "reading notes.md: gone");
    // The inline body makes the body file irrelevant.
    let s = StopArgs { body: Some("inline".into()), ..s };
    assert!(write_file(&s, "p", false, &missing).unwrap().content.ends_with("inline\n"));
}

#[test]
fn parse_reports_what_is_wrong() {
    assert_eq!(parse("a.md", &Err("gone".into())).unwrap_err(), "reading a.md: gone");
    assert_eq!(
        parse_frontmatter("a.md", &Ok("no dashes".into())).unwrap_err(),
        "a.md: missing `---` frontmatter delimiters"
    );
    assert_eq!(parse_frontmatter("a.md", &Ok("---\nx\n---\ny".into())).unwrap(), "x");
    assert_eq!(bad_frontmatter("a.md", "why"), "parsing frontmatter in a.md: why");
}

#[test]
fn file_name_is_the_slug_with_md() {
    assert_eq!(file_name(&pattern_stop()), "handler.md");
    assert_eq!(file_name(&StopArgs::default()), "stop.md");
}

fn fm(kind: &str, value: Option<Value>, query: Option<&str>) -> StopFrontmatter {
    StopFrontmatter {
        file: "x".into(),
        anchor: Anchor { kind: kind.into(), value, query: query.map(|s| s.to_string()) },
        title: None,
        highlight: None,
    }
}

#[test]
fn anchor_display_pattern() {
    let f = fm("pattern", Some(Value::Text("fn foo".into())), None);
    assert_eq!(f.anchor_display(), "pattern /fn foo/");
}

#[test]
fn anchor_display_line() {
    let f = fm("line", Some(Value::Integer(42)), None);
    assert_eq!(f.anchor_display(), "line 42");
}

#[test]
fn anchor_display_treesitter() {
    let f = fm("treesitter", None, Some("(fn)"));
    assert_eq!(f.anchor_display(), "ts (fn)");
}

#[test]
fn anchor_display_of_odd_anchors() {
    assert_eq!(fm("line", None, None).anchor_display(), "line ?");
    assert_eq!(fm("line", Some(Value::Integer(-7)), None).anchor_display(), "line -7");
    assert_eq!(
        fm("line", Some(Value::Integer(i64::MIN)), None).anchor_display(),
        "line -9223372036854775808"
    );
    assert_eq!(fm("line", Some(Value::Text("3".into())), None).anchor_display(), "line ?");
    assert_eq!(fm("pattern", Some(Value::Other), None).anchor_display(), "pattern /?/");
    assert_eq!(fm("treesitter", None, None).anchor_display(), "ts ?");
    assert_eq!(fm("magic", None, None).anchor_display(), "magic");
}

#[test]
fn value_get_finds_a_key() {
    let table = Value::Table(vec![
        ("a".to_string(), Value::Integer(1)),
        ("lines".to_string(), Value::Integer(8)),
    ]);
    assert_eq!(table.get("lines").and_then(|v| v.as_integer()), Some(8));
    assert!(table.get("other").is_none());
    assert!(Value::Integer(3).get("lines").is_none());
}

#[test]
fn stop_files_stay_in_their_directory() {
    for slug in ["../../etc/passwd", "a/b\\c", ".hidden", "..", "C:\\x"] {
        let s = StopArgs { slug: Some(slug.into()), ..pattern_stop() };
        let name = file_name(&s);
        assert!(!name.contains('/') && !name.contains('\\') && !name.starts_with('.'));
        assert!(name.ends_with(".md"));
    }
}

#[test]
fn splitting_loses_nothing_but_the_dashes() {
    let lf = "---\na = 1\nb = 2\n---\n\nbody\n---\n";
    let (fm, body) = split_frontmatter(lf).unwrap();
    assert_eq!(format!("---\n{}\n---\n{}", fm, body), lf);
    let crlf = "---\r\na = 1\r\n---\r\nbody";
    let (fm, body) = split_frontmatter(crlf).unwrap();
    assert_eq!(format!("---\r\n{}\n---\r\n{}", fm, body), crlf);
}
