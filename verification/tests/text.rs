use turin::text::{
    chars_of, decimal, find_from, join_strings, join_strs, pad_left, pad_right, same_text,
    signed_decimal, slice, stands_at, string_of, trim_line_end,
};

#[test]
fn numbers_in_decimal() {
    assert_eq!(decimal(0), "0");
    assert_eq!(decimal(1090), "1090");
    assert_eq!(decimal(usize::MAX), usize::MAX.to_string());
    for n in [0, 7, -7, 10, -10, i64::MAX, i64::MIN] {
        assert_eq!(signed_decimal(n), n.to_string());
    }
}

#[test]
fn padding_counts_characters() {
    assert_eq!(pad_right("ß", 3), "ß  ");
    assert_eq!(pad_left("ß", 3), "  ß");
    assert_eq!(pad_right("long", 3), "long");
    assert_eq!(pad_left("long", 4), "long");
}

#[test]
fn joining() {
    assert_eq!(join_strs(&vec![], ", "), "");
    assert_eq!(join_strs(&vec!["a"], ", "), "a");
    assert_eq!(join_strs(&vec!["a", "", "c"], ", "), "a, , c");
    assert_eq!(join_strings(&vec!["a".to_string(), "b".to_string()], "\n"), "a\nb");
}

#[test]
fn comparing_and_searching() {
    assert!(same_text("ß", "ß"));
    assert!(!same_text("a", "ab"));
    assert!(!same_text("ab", "ac"));
    let hay = chars_of("abcabc");
    let needle = chars_of("ca");
    assert!(stands_at(&hay, &needle, 2));
    assert!(!stands_at(&hay, &needle, 5));
    assert_eq!(find_from(&hay, &needle, 0), Some(2));
    assert_eq!(find_from(&hay, &needle, 3), None);
    assert_eq!(find_from(&hay, &chars_of(""), 6), Some(6));
    assert_eq!(find_from(&hay, &chars_of(""), 7), None);
    assert_eq!(string_of(&hay, 1, 3), "bc");
}

#[test]
fn trimming_and_slicing() {
    assert_eq!(trim_line_end("a\r\n\n"), "a");
    assert_eq!(trim_line_end("\n"), "");
    assert_eq!(trim_line_end(" a "), " a ");
    assert_eq!(slice("aßc", 1, 3), "ß");
    assert_eq!(slice("aßc", 4, 4), "");
}
