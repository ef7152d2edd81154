use libedit::diff::{
    ReplaceOptions, generate_diff_string, generate_unified_diff_string, replace_text,
};
use libedit::error::EditError;


// ── generate_diff_string ────────────────────────────────────────────

#[test]
fn diff_simple_change() {
    let old = "line1\nline2\nline3\nline4\n";
    let new = "line1\nline2 modified\nline3\nline4\n";
    let result = generate_diff_string(old, new, 4);

    assert!(result.diff.contains("-"), "should have deletions");
    assert!(result.diff.contains("+"), "should have insertions");
    assert!(result.diff.contains("line2"), "should reference changed line");
    assert!(result.diff.contains("line2 modified"), "should show new content");
    assert_eq!(result.first_changed_line, Some(2));
}

#[test]
fn diff_no_change() {
    let content = "same\ncontent\n";
    let result = generate_diff_string(content, content, 4);
    assert!(result.diff.is_empty(), "identical content produces empty diff");
    assert_eq!(result.first_changed_line, None);
}

#[test]
fn diff_insertion_only() {
    let old = "a\nb\n";
    let new = "a\nx\nb\n";
    let result = generate_diff_string(old, new, 4);
    assert!(result.diff.contains("+"), "should have insertion");
    assert!(result.diff.contains("x"), "should show inserted line");
    assert!(result.first_changed_line.is_some());
}

#[test]
fn diff_deletion_only() {
    let old = "a\nb\nc\n";
    let new = "a\nc\n";
    let result = generate_diff_string(old, new, 4);
    assert!(result.diff.contains("-"), "should have deletion");
    assert!(result.diff.contains("b"), "should show deleted line");
    assert!(result.first_changed_line.is_some());
}

// ── generate_unified_diff_string ────────────────────────────────────

#[test]
fn unified_diff_has_hunk_headers() {
    let old = "line1\nline2\nline3\n";
    let new = "line1\nchanged\nline3\n";
    let result = generate_unified_diff_string(old, new, 3);
    assert!(result.diff.contains("@@"), "should have hunk header");
    assert!(result.first_changed_line.is_some());
}

// ── replace_text ────────────────────────────────────────────────────

#[test]
fn replace_exact_single() {
    let content = "hello world";
    let result = replace_text(content, "world", "rust", &ReplaceOptions {
        fuzzy:     false,
        all:       false,
        threshold: None,
    })
    .expect("should succeed");

    assert_eq!(result.content, "hello rust");
    assert_eq!(result.count, 1);
}

#[test]
fn replace_exact_all() {
    let content = "aaa bbb aaa ccc aaa";
    let result = replace_text(content, "aaa", "xxx", &ReplaceOptions {
        fuzzy:     false,
        all:       true,
        threshold: None,
    })
    .expect("should succeed");

    assert_eq!(result.content, "xxx bbb xxx ccc xxx");
    assert_eq!(result.count, 3);
}

#[test]
fn replace_no_match_single() {
    let content = "hello world";
    let result = replace_text(content, "missing", "new", &ReplaceOptions {
        fuzzy:     false,
        all:       false,
        threshold: None,
    })
    .expect("should succeed");

    assert_eq!(result.content, "hello world");
    assert_eq!(result.count, 0);
}

#[test]
fn replace_no_match_all() {
    let content = "hello world";
    let result = replace_text(content, "missing", "new", &ReplaceOptions {
        fuzzy:     false,
        all:       true,
        threshold: None,
    })
    .expect("should succeed");

    assert_eq!(result.content, "hello world");
    assert_eq!(result.count, 0);
}

#[test]
fn replace_empty_old_text_errors() {
    let result = replace_text("content", "", "new", &ReplaceOptions {
        fuzzy:     false,
        all:       false,
        threshold: None,
    });
    assert!(result.is_err(), "empty old_text should error");
    let err = result.unwrap_err();
    assert!(
        matches!(err, EditError::ValidationError { .. }),
        "should be ValidationError, got: {err:?}"
    );
}

#[test]
fn replace_multiple_exact_without_all_errors() {
    let content = "foo bar foo baz foo";
    let result = replace_text(content, "foo", "xxx", &ReplaceOptions {
        fuzzy:     false,
        all:       false,
        threshold: None,
    });
    assert!(result.is_err(), "multiple occurrences without all should error");
    let err = result.unwrap_err();
    assert!(
        matches!(err, EditError::ValidationError { .. }),
        "should be ValidationError, got: {err:?}"
    );
    assert!(err.to_string().contains("3 occurrences"));
}

#[test]
fn replace_normalizes_crlf() {
    let content = "hello\r\nworld\r\n";
    let result = replace_text(content, "hello\nworld", "goodbye\nworld", &ReplaceOptions {
        fuzzy:     false,
        all:       false,
        threshold: None,
    })
    .expect("should succeed with CRLF normalization");

    assert_eq!(result.count, 1);
    assert!(result.content.contains("goodbye"));
}
