use libedit::error::EditError;
use libedit::parser::{
    is_diff_content_line, normalize_create_content, normalize_diff, parse_hunks, parse_line_hint,
    parse_unified_hunk_header, strip_line_number_prefixes, DiffHunk,
};

// ── normalize_diff ──────────────────────────────────────────────────

#[test]
fn normalize_diff_strips_begin_end_patch() {
    let input = "*** Begin Patch\n@@ -1,2 +1,2 @@\n-old\n+new\n*** End Patch";
    let result = normalize_diff(input);
    assert_eq!(result, "@@ -1,2 +1,2 @@\n-old\n+new");
}

#[test]
fn normalize_diff_strips_unified_metadata() {
    let input = "diff --git a/foo.rs b/foo.rs\nindex abc123..def456 100644\n--- a/foo.rs\n+++ \
                 b/foo.rs\n@@ -1,3 +1,3 @@\n context\n-old\n+new";
    let result = normalize_diff(input);
    assert_eq!(result, "@@ -1,3 +1,3 @@\n context\n-old\n+new");
}

#[test]
fn normalize_diff_strips_codex_markers() {
    let input = "*** Update File: src/lib.rs\n@@ -1,1 +1,1 @@\n-old\n+new";
    let result = normalize_diff(input);
    assert_eq!(result, "@@ -1,1 +1,1 @@\n-old\n+new");
}

#[test]
fn normalize_diff_preserves_content_lines() {
    // Lines starting with + or - that aren't +++ or --- should be preserved
    let input = "+added\n-removed\n context";
    let result = normalize_diff(input);
    assert_eq!(result, "+added\n-removed\n context");
}

#[test]
fn normalize_diff_strips_trailing_blank_lines() {
    let input = "-old\n+new\n\n\n";
    let result = normalize_diff(input);
    assert_eq!(result, "-old\n+new");
}

#[test]
fn normalize_diff_preserves_context_space_lines() {
    // A line that is just " " is a context line for an empty line — must survive
    let input = " \n-old\n+new";
    let result = normalize_diff(input);
    assert_eq!(result, " \n-old\n+new");
}

// ── normalize_create_content ────────────────────────────────────────

#[test]
fn normalize_create_strips_plus_prefix() {
    let input = "+ line one\n+ line two\n\n+ line four";
    let result = normalize_create_content(input);
    assert_eq!(result, "line one\nline two\n\nline four");
}

#[test]
fn normalize_create_strips_bare_plus() {
    let input = "+line one\n+line two";
    let result = normalize_create_content(input);
    assert_eq!(result, "line one\nline two");
}

#[test]
fn normalize_create_leaves_mixed_content() {
    let input = "+ added\nnormal line";
    let result = normalize_create_content(input);
    assert_eq!(result, "+ added\nnormal line");
}

// ── parse_unified_hunk_header ───────────────────────────────────────

#[test]
fn parse_header_standard() {
    let h = parse_unified_hunk_header("@@ -10,3 +20,5 @@").expect("should parse standard header");
    assert_eq!(h.old_start_line, 10);
    assert_eq!(h.old_line_count, 3);
    assert_eq!(h.new_start_line, 20);
    assert_eq!(h.new_line_count, 5);
    assert!(h.change_context.is_none());
}

#[test]
fn parse_header_with_context() {
    let h = parse_unified_hunk_header("@@ -1,2 +1,3 @@ fn main()")
        .expect("should parse header with context");
    assert_eq!(h.change_context.as_deref(), Some("fn main()"));
}

#[test]
fn parse_header_no_count() {
    let h = parse_unified_hunk_header("@@ -5 +5 @@").expect("should parse header without counts");
    assert_eq!(h.old_start_line, 5);
    assert_eq!(h.old_line_count, 1);
    assert_eq!(h.new_start_line, 5);
    assert_eq!(h.new_line_count, 1);
}

#[test]
fn parse_header_rejects_non_header() {
    assert!(parse_unified_hunk_header("not a header").is_none());
    assert!(parse_unified_hunk_header("@@ function foo").is_none());
}

// ── parse_hunks ─────────────────────────────────────────────────────

#[test]
fn parse_hunks_empty_diff() {
    let hunks = parse_hunks("").expect("empty diff should succeed");
    assert!(hunks.is_empty());
}

#[test]
fn parse_hunks_simple_unified() {
    let diff = "@@ -1,3 +1,3 @@\n context\n-old line\n+new line\n context2";
    let hunks = parse_hunks(diff).expect("should parse simple unified diff");
    assert_eq!(hunks.len(), 1);
    let h = &hunks[0];
    assert_eq!(h.old_start_line, Some(1));
    assert_eq!(h.new_start_line, Some(1));
    assert!(h.has_context_lines);
    assert_eq!(h.old_lines, vec!["context", "old line", "context2"]);
    assert_eq!(h.new_lines, vec!["context", "new line", "context2"]);
    assert!(!h.is_end_of_file);
}

#[test]
fn parse_hunks_no_header() {
    // First hunk is allowed without @@ header
    let diff = "-removed\n+added";
    let hunks = parse_hunks(diff).expect("should parse headerless diff");
    assert_eq!(hunks.len(), 1);
    assert_eq!(hunks[0].old_lines, vec!["removed"]);
    assert_eq!(hunks[0].new_lines, vec!["added"]);
}

#[test]
fn parse_hunks_with_eof_marker() {
    let diff = "@@ -1,2 +1,1 @@\n-old\n+new\n*** End of File";
    let hunks = parse_hunks(diff).expect("should parse diff with EOF marker");
    assert_eq!(hunks.len(), 1);
    assert!(hunks[0].is_end_of_file);
}

#[test]
fn parse_hunks_multiple() {
    let diff = "@@ -1,2 +1,2 @@\n-a\n+b\n\n@@ -10,2 +10,2 @@\n-c\n+d";
    let hunks = parse_hunks(diff).expect("should parse multiple hunks");
    assert_eq!(hunks.len(), 2);
    assert_eq!(hunks[0].old_start_line, Some(1));
    assert_eq!(hunks[1].old_start_line, Some(10));
}

#[test]
fn parse_hunks_context_header() {
    let diff = "@@ function foo\n-old\n+new";
    let hunks = parse_hunks(diff).expect("should parse context header");
    assert_eq!(hunks.len(), 1);
    assert_eq!(hunks[0].change_context.as_deref(), Some("function foo"));
}

#[test]
fn parse_hunks_nested_context() {
    let diff = "@@ class Foo\n@@   method bar\n-old\n+new";
    let hunks = parse_hunks(diff).expect("should parse nested context");
    assert_eq!(hunks.len(), 1);
    assert_eq!(hunks[0].change_context.as_deref(), Some("class Foo\n  method bar"));
}

#[test]
fn parse_hunks_line_hint() {
    let diff = "@@ line 42\n-old\n+new";
    let hunks = parse_hunks(diff).expect("should parse line hint");
    assert_eq!(hunks.len(), 1);
    assert_eq!(hunks[0].old_start_line, Some(42));
    assert_eq!(hunks[0].new_start_line, Some(42));
}

#[test]
fn parse_hunks_rejects_multi_file() {
    let diff = "*** Update File: a.rs\n-old\n+new\n*** Update File: b.rs\n-old2\n+new2";
    let result = parse_hunks(diff);
    assert!(result.is_err());
}

#[test]
fn parse_hunks_full_unified_with_metadata() {
    let diff = "\
diff --git a/src/main.rs b/src/main.rs
index abc..def 100644
--- a/src/main.rs
+++ b/src/main.rs
@@ -1,3 +1,3 @@
 fn main() {
-    println!(\"hello\");
+    println!(\"world\");
 }";
    let hunks = parse_hunks(diff).expect("should parse full unified diff");
    assert_eq!(hunks.len(), 1);
    assert_eq!(hunks[0].old_start_line, Some(1));
    assert_eq!(hunks[0].old_lines, vec!["fn main() {", "    println!(\"hello\");", "}"]);
    assert_eq!(hunks[0].new_lines, vec!["fn main() {", "    println!(\"world\");", "}"]);
}

// ── helpers ─────────────────────────────────────────────────────────

#[test]
fn is_diff_content_line_basics() {
    assert!(is_diff_content_line(" context"));
    assert!(is_diff_content_line("+added"));
    assert!(is_diff_content_line("-removed"));
    assert!(!is_diff_content_line("+++ b/file"));
    assert!(!is_diff_content_line("--- a/file"));
    assert!(!is_diff_content_line("plain text"));
}

#[test]
fn line_hint_parsing() {
    assert_eq!(parse_line_hint("line 42"), Some(42));
    assert_eq!(parse_line_hint("lines 10-20"), Some(10));
    assert_eq!(parse_line_hint("Line 5"), Some(5));
    assert_eq!(parse_line_hint("lines 100@@"), Some(100));
    assert!(parse_line_hint("not a hint").is_none());
}

#[test]
fn strip_line_number_prefixes_sequential() {
    let mut hunk = DiffHunk {
        change_context:    None,
        old_start_line:    None,
        new_start_line:    None,
        has_context_lines: false,
        old_lines:         vec!["1 first".into(), "2 second".into(), "3 third".into()],
        new_lines:         vec!["1 first".into(), "2 replaced".into(), "3 third".into()],
        is_end_of_file:    false,
    };
    strip_line_number_prefixes(&mut hunk);
    assert_eq!(hunk.old_lines, vec!["first", "second", "third"]);
    assert_eq!(hunk.new_lines, vec!["first", "replaced", "third"]);
}
