use turin::anchor::{
    extract_highlight_lines, extract_query_literals, line_of_match, regex_find_line, resolve_anchor,
};
use turin::stop::{Anchor, Value};

fn anchor(kind: &str, value: Option<Value>, query: Option<&str>) -> Anchor {
    Anchor { kind: kind.into(), value, query: query.map(|s| s.to_string()) }
}

#[test]
fn extract_query_literals_returns_quoted_substrings() {
    let q = r#"(function_item name: (identifier) @n (#eq? @n "tokenize"))"#;
    let lits = extract_query_literals(q);
    assert_eq!(lits, vec!["tokenize"]);
}

#[test]
fn extract_query_literals_picks_up_multiple_quotes() {
    let q = r#"(#match? @n "foo") (#eq? @n "tokenizer")"#;
    let lits = extract_query_literals(q);
    assert_eq!(lits, vec!["foo", "tokenizer"]);
}

#[test]
fn extract_query_literals_handles_escaped_quotes() {
    let q = r#""abc\"def" "x""#;
    let lits = extract_query_literals(q);
    assert_eq!(lits.len(), 2);
    assert!(lits.iter().any(|s| s.contains("abc")));
    assert_eq!(lits, vec![r#"abc\"def"#, "x"]);
}

#[test]
fn extract_query_literals_at_the_edges() {
    let none: Vec<&str> = vec![];
    assert_eq!(extract_query_literals(""), none);
    assert_eq!(extract_query_literals("\"open"), none);
    assert_eq!(extract_query_literals("\"a\" \"open"), vec!["a"]);
    assert_eq!(extract_query_literals("\"\""), vec![""]);
    assert_eq!(extract_query_literals("\"ends in backslash\\"), none);
    assert_eq!(extract_query_literals("\"\\é\" \"ß\""), vec!["\\é", "ß"]);
    // A quote behind a backslash opens nothing either.
    assert_eq!(extract_query_literals(r#"\"a" b "c""#), vec![" b "]);
    assert_eq!(extract_query_literals(r#"\\"a""#), vec!["a"]);
}

#[test]
fn regex_find_line_counts_lines_before_the_first_match() {
    let text = "use std::io;\n\nfn main() {\n    println!(\"hi\");\n}\n";
    assert_eq!(regex_find_line("fn main", text), Some(3));
    assert_eq!(regex_find_line("^use", text), Some(1));
    assert_eq!(regex_find_line("print.n!", text), Some(4));
    assert_eq!(regex_find_line("absent", text), None);
    assert_eq!(regex_find_line("(unclosed", text), None);
    assert_eq!(regex_find_line("", text), Some(1));
    assert_eq!(regex_find_line("ß", "ä\r\nö\r\nß"), Some(3));
}

#[test]
fn line_of_match_takes_the_offset_of_a_search() {
    assert_eq!(line_of_match("a\nb\nc", Some(0)), Some(1));
    assert_eq!(line_of_match("a\nb\nc", Some(1)), Some(1));
    assert_eq!(line_of_match("a\nb\nc", Some(2)), Some(2));
    assert_eq!(line_of_match("a\nb\nc", Some(5)), Some(3));
    assert_eq!(line_of_match("a\nb\nc", None), None);
}

#[test]
fn resolve_line_anchors() {
    let line = |v| resolve_anchor(&anchor("line", v, None), "a\n");
    assert_eq!(line(Some(Value::Integer(3))), (Some(3), None));
    assert_eq!(line(Some(Value::Integer(1))), (Some(1), None));
    assert_eq!(line(Some(Value::Integer(0))), (None, None));
    assert_eq!(line(Some(Value::Integer(-1))), (None, None));
    // Past the last line, the number stays.
    assert_eq!(line(Some(Value::Integer(i64::MAX))), (Some(i64::MAX as usize), None));
    assert_eq!(line(Some(Value::Text("3".into()))), (None, None));
    assert_eq!(line(None), (None, None));
}

#[test]
fn resolve_pattern_anchors() {
    let pattern = |p: &str| {
        resolve_anchor(&anchor("pattern", Some(Value::Text(p.into())), None), "one\ntwo\n")
    };
    assert_eq!(pattern("t.o"), (Some(2), None));
    assert_eq!(pattern("three"), (None, None));
    assert_eq!(pattern("["), (None, None));
    assert_eq!(resolve_anchor(&anchor("pattern", None, Some("q")), "q"), (None, None));
}

#[test]
fn resolve_treesitter_matches_the_longest_literal_itself() {
    let text = "x\na+b\na.b(c)\n";
    let (line, warning) =
        resolve_anchor(&anchor("treesitter", None, Some(r#""a" "a.b(c" "x+y""#)), text);
    assert_eq!(line, Some(3));
    assert_eq!(
        warning.unwrap(),
        "tree-sitter not bundled — fell back to literal match on \"a.b(c\""
    );
    // The last of several that are equally long.
    let (line, warning) = resolve_anchor(&anchor("treesitter", None, Some(r#""a+b" "a.b""#)), text);
    assert_eq!(line, Some(3));
    assert!(warning.unwrap().contains("\"a.b\""));
    // A literal stands for itself: its plus sign repeats nothing.
    let (line, _) = resolve_anchor(&anchor("treesitter", None, Some(r#""a+b""#)), "aab\na+b\n");
    assert_eq!(line, Some(2));
    // Length is measured in bytes.
    let (_, warning) = resolve_anchor(&anchor("treesitter", None, Some(r#""ßß" "abc""#)), "");
    assert!(warning.unwrap().contains("\"ßß\""));
}

#[test]
fn resolve_treesitter_without_a_literal() {
    let none = "tree-sitter not bundled and no quoted literal in query for fallback";
    assert_eq!(
        resolve_anchor(&anchor("treesitter", None, Some("(identifier)")), "x"),
        (None, Some(none.to_string()))
    );
    assert_eq!(
        resolve_anchor(&anchor("treesitter", None, Some("\"\"")), "x"),
        (None, Some(none.to_string()))
    );
    assert_eq!(
        resolve_anchor(&anchor("treesitter", None, None), "x"),
        (None, Some("tree-sitter anchor missing `query` field".to_string()))
    );
}

#[test]
fn resolve_unknown_kind() {
    assert_eq!(
        resolve_anchor(&anchor("magic", Some(Value::Text("x".into())), None), "x"),
        (None, Some("unknown anchor kind: magic".to_string()))
    );
}

#[test]
fn highlight_lines_from_a_table() {
    let table = |v| Some(Value::Table(vec![("lines".to_string(), v)]));
    assert_eq!(extract_highlight_lines(&table(Value::Integer(8))), Some(8));
    assert_eq!(extract_highlight_lines(&table(Value::Integer(-8))), None);
    assert_eq!(extract_highlight_lines(&table(Value::Other)), None);
    assert_eq!(extract_highlight_lines(&Some(Value::Integer(8))), None);
    assert_eq!(extract_highlight_lines(&None), None);
}
