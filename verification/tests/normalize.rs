use libedit::normalize::{
    adjust_indentation, convert_leading_tabs_to_spaces, count_leading_whitespace,
    detect_indent_char, detect_line_ending, get_leading_whitespace, min_indent,
    normalize_for_fuzzy, normalize_to_lf, normalize_unicode, restore_line_endings, strip_bom,
    LineEnding,
};

// ── detect_line_ending ──

#[test]
fn detect_lf_only() {
    assert_eq!(detect_line_ending("a\nb\nc"), LineEnding::Lf);
}

#[test]
fn detect_crlf() {
    assert_eq!(detect_line_ending("a\r\nb\r\n"), LineEnding::Crlf);
}

#[test]
fn detect_no_newlines() {
    assert_eq!(detect_line_ending("hello"), LineEnding::Lf);
}

#[test]
fn detect_empty() {
    assert_eq!(detect_line_ending(""), LineEnding::Lf);
}

#[test]
fn detect_mixed_crlf_first() {
    // CRLF appears at index 1, LF at index 2 (inside CRLF) — CRLF wins.
    assert_eq!(detect_line_ending("a\r\nb\nc"), LineEnding::Crlf);
}

#[test]
fn detect_mixed_lf_first() {
    assert_eq!(detect_line_ending("a\nb\r\nc"), LineEnding::Lf);
}

// ── normalize_to_lf ──

#[test]
fn normalize_crlf_to_lf() {
    assert_eq!(normalize_to_lf("a\r\nb\r\n"), "a\nb\n");
}

#[test]
fn normalize_lone_cr() {
    assert_eq!(normalize_to_lf("a\rb\r"), "a\nb\n");
}

#[test]
fn normalize_lf_noop() {
    assert_eq!(normalize_to_lf("a\nb\n"), "a\nb\n");
}

#[test]
fn normalize_empty() {
    assert_eq!(normalize_to_lf(""), "");
}

// ── strip_bom ──

#[test]
fn strip_bom_present() {
    let r = strip_bom("\u{FEFF}hello");
    assert_eq!(r.bom, "\u{FEFF}");
    assert_eq!(r.text, "hello");
}

#[test]
fn strip_bom_absent() {
    let r = strip_bom("hello");
    assert_eq!(r.bom, "");
    assert_eq!(r.text, "hello");
}

#[test]
fn strip_bom_empty() {
    let r = strip_bom("");
    assert_eq!(r.bom, "");
    assert_eq!(r.text, "");
}

// ── count_leading_whitespace ──

#[test]
fn leading_ws_spaces() {
    assert_eq!(count_leading_whitespace("    hello"), 4);
}

#[test]
fn leading_ws_tabs() {
    assert_eq!(count_leading_whitespace("\t\thello"), 2);
}

#[test]
fn leading_ws_mixed() {
    assert_eq!(count_leading_whitespace(" \t hello"), 3);
}

#[test]
fn leading_ws_none() {
    assert_eq!(count_leading_whitespace("hello"), 0);
}

#[test]
fn leading_ws_empty() {
    assert_eq!(count_leading_whitespace(""), 0);
}

// ── get_leading_whitespace ──

#[test]
fn get_leading_ws() {
    assert_eq!(get_leading_whitespace("  \thello"), "  \t");
}

// ── min_indent ──

#[test]
fn min_indent_basic() {
    assert_eq!(min_indent("  a\n    b\n  c"), 2);
}

#[test]
fn min_indent_skips_blank() {
    assert_eq!(min_indent("  a\n\n    b"), 2);
}

#[test]
fn min_indent_empty() {
    assert_eq!(min_indent(""), 0);
}

// ── detect_indent_char ──

#[test]
fn detect_indent_space() {
    assert_eq!(detect_indent_char("  a\n  b"), ' ');
}

#[test]
fn detect_indent_tab() {
    assert_eq!(detect_indent_char("\ta\n\tb"), '\t');
}

#[test]
fn detect_indent_default() {
    assert_eq!(detect_indent_char("a\nb"), ' ');
}

// ── normalize_for_fuzzy ──

#[test]
fn fuzzy_collapses_whitespace() {
    assert_eq!(normalize_for_fuzzy("  a   b  "), "a b");
}

#[test]
fn fuzzy_normalizes_quotes() {
    assert_eq!(normalize_for_fuzzy("\u{201C}hi\u{201D}"), "\"hi\"");
}

#[test]
fn fuzzy_normalizes_dashes() {
    assert_eq!(normalize_for_fuzzy("a\u{2014}b"), "a-b");
}

#[test]
fn fuzzy_empty() {
    assert_eq!(normalize_for_fuzzy(""), "");
    assert_eq!(normalize_for_fuzzy("   "), "");
}

// ── normalize_unicode ──

#[test]
fn unicode_dashes() {
    assert_eq!(normalize_unicode("a\u{2014}b"), "a-b");
}

#[test]
fn unicode_nbsp() {
    assert_eq!(normalize_unicode("a\u{00A0}b"), "a b");
}

#[test]
fn unicode_zero_width() {
    assert_eq!(normalize_unicode("a\u{200B}b"), "ab");
}

// ── adjust_indentation ──

#[test]
fn adjust_no_change() {
    let text = "  foo\n  bar";
    assert_eq!(adjust_indentation(text, text, "  baz\n  qux"), "  baz\n  qux");
}

#[test]
fn adjust_adds_indent() {
    let old = "foo\nbar";
    let actual = "    foo\n    bar";
    let new = "baz\nqux";
    assert_eq!(adjust_indentation(old, actual, new), "    baz\n    qux");
}

#[test]
fn adjust_removes_indent() {
    let old = "    foo\n    bar";
    let actual = "  foo\n  bar";
    let new = "    baz\n    qux";
    assert_eq!(adjust_indentation(old, actual, new), "  baz\n  qux");
}

#[test]
fn adjust_mixed_returns_unchanged() {
    let old = " \tfoo";
    let actual = "  foo";
    let new = " \tbaz";
    // old has mixed indent → return new unchanged.
    assert_eq!(adjust_indentation(old, actual, new), " \tbaz");
}

#[test]
fn adjust_indentation_only_change() {
    // Same trimmed content, different indent → purely re-indentation → return new
    // as-is.
    let old = "foo\nbar";
    let actual = "  foo\n  bar";
    let new = "    foo\n    bar";
    assert_eq!(adjust_indentation(old, actual, new), "    foo\n    bar");
}

#[test]
fn adjust_tab_to_space_conversion() {
    let old = "\tfoo\n\tbar";
    let actual = "    foo\n    bar";
    let new = "\tbaz\n\tqux";
    assert_eq!(adjust_indentation(old, actual, new), "    baz\n    qux");
}

#[test]
fn adjust_empty_profiles() {
    assert_eq!(adjust_indentation("", "  foo", "baz"), "baz");
    assert_eq!(adjust_indentation("foo", "", "baz"), "baz");
    assert_eq!(adjust_indentation("foo", "  foo", ""), "");
}

// ── convert_leading_tabs_to_spaces ──

#[test]
fn tabs_to_spaces_basic() {
    assert_eq!(convert_leading_tabs_to_spaces("\t\thello", 4), "        hello");
}

#[test]
fn tabs_to_spaces_mixed_skip() {
    // Mixed leading whitespace is not converted.
    assert_eq!(convert_leading_tabs_to_spaces(" \thello", 4), " \thello");
}

#[test]
fn tabs_to_spaces_zero() {
    assert_eq!(convert_leading_tabs_to_spaces("\thello", 0), "\thello");
}

// ── restore_line_endings ──

#[test]
fn restore_crlf() {
    assert_eq!(restore_line_endings("a\nb\n", LineEnding::Crlf), "a\r\nb\r\n");
}

#[test]
fn restore_lf_noop() {
    assert_eq!(restore_line_endings("a\nb\n", LineEnding::Lf), "a\nb\n");
}
