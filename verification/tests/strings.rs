use ishizue::strings::{
    is_whitespace_char, pad_left, pad_right, split_first, trim, trim_end, trim_start, truncate,
};

// -- truncate -----------------------------------------------------------

#[test]
fn truncate_short_string_unchanged() {
    assert_eq!(truncate("hi", 10, "..."), "hi");
}

#[test]
fn truncate_exact_length_unchanged() {
    assert_eq!(truncate("hello", 5, "..."), "hello");
}

#[test]
fn truncate_adds_ellipsis() {
    assert_eq!(truncate("hello world", 8, "..."), "hello...");
}

#[test]
fn truncate_single_char_ellipsis() {
    assert_eq!(truncate("abcdef", 4, "~"), "abc~");
}

#[test]
fn truncate_max_less_than_ellipsis() {
    assert_eq!(truncate("abcdef", 2, "..."), "ab");
}

#[test]
fn truncate_zero_width() {
    assert_eq!(truncate("hello", 0, "..."), "");
}

#[test]
fn truncate_empty_string() {
    assert_eq!(truncate("", 5, "..."), "");
}

#[test]
fn truncate_empty_ellipsis() {
    assert_eq!(truncate("abcdef", 3, ""), "abc");
}

#[test]
fn truncate_unicode() {
    assert_eq!(truncate("abcdef", 5, ".."), "abc..");
}

#[test]
fn truncate_counts_chars_not_bytes() {
    assert_eq!(truncate("héllo wörld", 6, "…"), "héllo…");
    assert_eq!(truncate("日本語テキスト", 4, "..."), "日...");
}

#[test]
fn truncate_max_equal_to_ellipsis_is_all_ellipsis() {
    assert_eq!(truncate("abcdef", 3, "..."), "...");
    assert_eq!(truncate("abcdef", 1, "~"), "~");
}

// -- pad_right ----------------------------------------------------------

#[test]
fn pad_right_adds_spaces() {
    assert_eq!(pad_right("hi", 5), "hi   ");
}

#[test]
fn pad_right_exact_width() {
    assert_eq!(pad_right("hello", 5), "hello");
}

#[test]
fn pad_right_longer_unchanged() {
    assert_eq!(pad_right("hello world", 5), "hello world");
}

#[test]
fn pad_right_zero_width() {
    assert_eq!(pad_right("hi", 0), "hi");
}

#[test]
fn pad_right_empty_string() {
    assert_eq!(pad_right("", 3), "   ");
}

#[test]
fn pad_right_counts_chars() {
    assert_eq!(pad_right("é", 3), "é  ");
}

// -- pad_left -----------------------------------------------------------

#[test]
fn pad_left_adds_spaces() {
    assert_eq!(pad_left("hi", 5), "   hi");
}

#[test]
fn pad_left_exact_width() {
    assert_eq!(pad_left("hello", 5), "hello");
}

#[test]
fn pad_left_longer_unchanged() {
    assert_eq!(pad_left("hello world", 5), "hello world");
}

#[test]
fn pad_left_zero_width() {
    assert_eq!(pad_left("hi", 0), "hi");
}

#[test]
fn pad_left_empty_string() {
    assert_eq!(pad_left("", 3), "   ");
}

#[test]
fn pad_left_counts_chars() {
    assert_eq!(pad_left("ü", 2), " ü");
}

// -- split_first --------------------------------------------------------

#[test]
fn split_first_basic() {
    assert_eq!(split_first("key=value", '='), Some(("key", "value")));
}

#[test]
fn split_first_multiple_delimiters() {
    assert_eq!(
        split_first("key=value=extra", '='),
        Some(("key", "value=extra")),
    );
}

#[test]
fn split_first_no_delimiter() {
    assert_eq!(split_first("no delimiter", '='), None);
}

#[test]
fn split_first_delimiter_at_start() {
    assert_eq!(split_first("=value", '='), Some(("", "value")));
}

#[test]
fn split_first_delimiter_at_end() {
    assert_eq!(split_first("key=", '='), Some(("key", "")));
}

#[test]
fn split_first_only_delimiter() {
    assert_eq!(split_first("=", '='), Some(("", "")));
}

#[test]
fn split_first_empty_string() {
    assert_eq!(split_first("", '='), None);
}

#[test]
fn split_first_multibyte_delimiter() {
    assert_eq!(split_first("a→b→c", '→'), Some(("a", "b→c")));
    assert_eq!(split_first("αβγ", 'β'), Some(("α", "γ")));
}

#[test]
fn split_first_rejoins_to_input() {
    let s = "left:right:more";
    let (a, b) = split_first(s, ':').unwrap();
    assert_eq!(format!("{a}:{b}"), s);
    assert!(!a.contains(':'));
}

// -- trim ---------------------------------------------------------------

#[test]
fn trim_both_sides() {
    assert_eq!(trim("  hello  "), "hello");
}

#[test]
fn trim_no_whitespace() {
    assert_eq!(trim("hello"), "hello");
}

#[test]
fn trim_only_whitespace() {
    assert_eq!(trim("   "), "");
}

#[test]
fn trim_tabs_and_newlines() {
    assert_eq!(trim("\t\nhello\n\t"), "hello");
}

#[test]
fn trim_unicode_whitespace() {
    assert_eq!(trim("\u{3000}\u{a0}x y\u{2029}\u{85}"), "x y");
    assert_eq!(trim("\u{200b}x"), "\u{200b}x");
}

#[test]
fn trim_is_idempotent_and_commutes() {
    let s = " \t a b \n ";
    assert_eq!(trim(&trim(s)), trim(s));
    assert_eq!(trim_end(&trim_start(s)), trim_start(&trim_end(s)));
    assert_eq!(trim_end(&trim_start(s)), trim(s));
}

#[test]
fn whitespace_matches_std() {
    for code in 0u32..0x3100 {
        if let Some(c) = char::from_u32(code) {
            assert_eq!(is_whitespace_char(c), c.is_whitespace(), "U+{code:04X}");
        }
    }
}

// -- trim_start ---------------------------------------------------------

#[test]
fn trim_start_removes_leading() {
    assert_eq!(trim_start("  hello  "), "hello  ");
}

#[test]
fn trim_start_no_leading_whitespace() {
    assert_eq!(trim_start("hello  "), "hello  ");
}

#[test]
fn trim_start_all_whitespace() {
    assert_eq!(trim_start(" \t\n"), "");
}

// -- trim_end -----------------------------------------------------------

#[test]
fn trim_end_removes_trailing() {
    assert_eq!(trim_end("  hello  "), "  hello");
}

#[test]
fn trim_end_no_trailing_whitespace() {
    assert_eq!(trim_end("  hello"), "  hello");
}

#[test]
fn trim_end_all_whitespace() {
    assert_eq!(trim_end(" \r\n"), "");
}
