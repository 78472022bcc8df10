use turin::util::{project_root, prompt, slugify, toml_quote};

#[test]
fn slugify_basic() {
    assert_eq!(slugify("Entry Point"), "entry-point");
}

#[test]
fn slugify_strips_leading_and_trailing_punct() {
    assert_eq!(slugify("  hello, world!  "), "hello-world");
}

#[test]
fn slugify_collapses_runs_of_separators() {
    assert_eq!(slugify("a   b---c"), "a-b-c");
}

#[test]
fn slugify_returns_empty_for_no_alnum() {
    assert_eq!(slugify(""), "");
    assert_eq!(slugify("!!!"), "");
    assert_eq!(slugify("   "), "");
}

#[test]
fn slugify_preserves_digits() {
    assert_eq!(slugify("Step 1"), "step-1");
}

#[test]
fn slugify_lowercases() {
    assert_eq!(slugify("ABC"), "abc");
}

#[test]
fn slugify_drops_letters_outside_ascii() {
    assert_eq!(slugify("naïve café"), "na-ve-caf");
}

#[test]
fn toml_quote_simple() {
    assert_eq!(toml_quote("hello"), "\"hello\"");
}

#[test]
fn toml_quote_escapes_backslash_and_double_quote() {
    assert_eq!(toml_quote(r#"a"b\c"#), r#""a\"b\\c""#);
}

#[test]
fn toml_quote_reads_back() {
    for s in ["", "plain", "a\"b", "back\\slash", "\\\"", "ends with \\"] {
        let line = format!("v = {}", toml_quote(s));
        let table: toml::Table = line.parse().unwrap();
        assert_eq!(table["v"].as_str(), Some(s));
    }
}

#[test]
fn toml_quote_escapes_control_characters() {
    assert_eq!(toml_quote("a\nb\r\tc"), "\"a\\nb\\r\tc\"");
    assert_eq!(toml_quote("\u{0}\u{8}\u{b}\u{1f}\u{7f}"), r#""\u0000\u0008\u000B\u001F\u007F""#);
    // Controls beyond ASCII stand as they are.
    assert_eq!(toml_quote("\u{80}\u{85}"), "\"\u{80}\u{85}\"");
}

#[test]
fn every_control_character_reads_back() {
    let s: String = (0..=0xff).filter_map(char::from_u32).collect();
    let quoted = toml_quote(&s);
    assert!(quoted.chars().all(|c| c == '\t' || !c.is_ascii_control()));
    let table: toml::Table = format!("v = {}", quoted).parse().unwrap();
    assert_eq!(table["v"].as_str(), Some(s.as_str()));
}

#[test]
fn project_root_uses_explicit_flag() {
    assert_eq!(project_root(Some("/some/path"), Some("/cwd")), Some("/some/path"));
}

#[test]
fn project_root_falls_back_to_current_directory() {
    assert_eq!(project_root(None, Some("/cwd")), Some("/cwd"));
    let nothing: Option<&str> = None;
    assert_eq!(project_root(nothing, None), None);
}

#[test]
fn prompt_drops_the_line_end() {
    assert_eq!(prompt("answer\n"), "answer");
    assert_eq!(prompt("answer\r\n"), "answer");
    assert_eq!(prompt(" spaced \n"), " spaced ");
    assert_eq!(prompt(""), "");
}
