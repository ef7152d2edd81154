use libedit::applicator::{ApplyPatchOptions, Operation, PatchInput, apply_patch, preview_patch};
use libedit::error::EditError;
use libedit::fs::InMemoryFs;
use libedit::traits::ChangeOp;
use libedit::variants::{reduce_to_single_line_change, trim_common_context};


fn make_input(
    path: &str,
    op: Operation,
    diff: Option<&str>,
    rename: Option<&str>,
) -> PatchInput {
    PatchInput {
        path: path.to_string(),
        op,
        rename: rename.map(str::to_string),
        diff: diff.map(str::to_string),
    }
}

#[test]
fn create_op_writes_file() {
    let mut fs = InMemoryFs::new();
    let input = make_input("hello.txt", Operation::Create, Some("hello world\n"), None);
    let result =
        apply_patch(&input, &mut fs, ApplyPatchOptions::default()).expect("create should succeed");
    assert_eq!(result.change.op, ChangeOp::Create);
    assert_eq!(fs.get("hello.txt").expect("file should exist"), "hello world\n");
    assert!(result.warnings.is_empty());
}

#[test]
fn create_op_adds_trailing_newline() {
    let mut fs = InMemoryFs::new();
    let input = make_input("no_nl.txt", Operation::Create, Some("content"), None);
    let result =
        apply_patch(&input, &mut fs, ApplyPatchOptions::default()).expect("create should succeed");
    assert_eq!(result.change.new_content.expect("should have content"), "content\n");
}

#[test]
fn create_op_rejects_existing_file() {
    let mut fs = InMemoryFs::with_files(&[("exists.txt", "data")]);
    let input = make_input("exists.txt", Operation::Create, Some("new"), None);
    let err = apply_patch(&input, &mut fs, ApplyPatchOptions::default()).unwrap_err();
    assert!(matches!(err, EditError::FileAlreadyExists { .. }));
}

#[test]
fn delete_op_removes_file() {
    let mut fs = InMemoryFs::with_files(&[("gone.txt", "bye")]);
    let input = make_input("gone.txt", Operation::Delete, None, None);
    let result =
        apply_patch(&input, &mut fs, ApplyPatchOptions::default()).expect("delete should succeed");
    assert_eq!(result.change.op, ChangeOp::Delete);
    assert_eq!(
        result
            .change
            .old_content
            .expect("should capture old content"),
        "bye"
    );
    assert!(fs.get("gone.txt").is_none());
}

#[test]
fn delete_op_file_not_found() {
    let mut fs = InMemoryFs::new();
    let input = make_input("nope.txt", Operation::Delete, None, None);
    let err = apply_patch(&input, &mut fs, ApplyPatchOptions::default()).unwrap_err();
    assert!(matches!(err, EditError::FileNotFound { .. }));
}

#[test]
fn update_simple_hunk() {
    let mut fs = InMemoryFs::with_files(&[("test.rs", "fn main() {\n    println!(\"hello\");\n}\n")]);
    let diff = "\
-    println!(\"hello\");
+    println!(\"world\");";
    let input = make_input("test.rs", Operation::Update, Some(diff), None);
    let result =
        apply_patch(&input, &mut fs, ApplyPatchOptions::default()).expect("update should succeed");
    assert_eq!(result.change.op, ChangeOp::Update);
    let new = fs.get("test.rs").expect("file should exist");
    assert!(new.contains("world"));
    assert!(!new.contains("hello"));
}

#[test]
fn update_with_context_lines() {
    let original = "line1\nline2\nline3\nline4\n";
    let mut fs = InMemoryFs::with_files(&[("ctx.txt", original)]);
    let diff = "\
 line1
 line2
-line3
+replaced
 line4";
    let input = make_input("ctx.txt", Operation::Update, Some(diff), None);
    let result = apply_patch(&input, &mut fs, ApplyPatchOptions::default())
        .expect("context update should succeed");
    let new = fs.get("ctx.txt").expect("file should exist");
    assert!(new.contains("replaced"));
    assert!(!new.contains("line3"));
    assert!(new.contains("line1"));
    assert!(new.contains("line4"));
    assert!(result.warnings.is_empty());
}

#[test]
fn overlapping_hunks_error() {
    // Two hunks that both target line2→replaced.
    let original = "line1\nline2\nline3\n";
    let mut fs = InMemoryFs::with_files(&[("overlap.txt", original)]);
    // A diff that produces two overlapping replacements at the same location:
    // Both hunks include the full file so their replacements overlap.
    let diff = "\
@@ -1,2 +1,2 @@
-line1
-line2
+a
+b
@@ -2,2 +2,2 @@
-line2
-line3
+c
+d";
    let input = make_input("overlap.txt", Operation::Update, Some(diff), None);
    let err = apply_patch(&input, &mut fs, ApplyPatchOptions::default()).unwrap_err();
    assert!(matches!(err, EditError::OverlappingHunks { .. }));
}

#[test]
fn rename_to_same_path_error() {
    let mut fs = InMemoryFs::with_files(&[("file.txt", "data\n")]);
    let input =
        make_input("file.txt", Operation::Update, Some("-data\n+new\n"), Some("file.txt"));
    let err = apply_patch(&input, &mut fs, ApplyPatchOptions::default()).unwrap_err();
    assert!(matches!(err, EditError::SamePathRename));
}

#[test]
fn update_with_rename() {
    let mut fs = InMemoryFs::with_files(&[("old.txt", "hello\n")]);
    let diff = "-hello\n+goodbye";
    let input = make_input("old.txt", Operation::Update, Some(diff), Some("new.txt"));
    let result =
        apply_patch(&input, &mut fs, ApplyPatchOptions::default()).expect("rename should succeed");
    assert_eq!(result.change.new_path, Some("new.txt".to_string()));
    assert!(fs.get("old.txt").is_none());
    assert!(fs.get("new.txt").is_some());
}

#[test]
fn empty_diff_on_update_errors() {
    let mut fs = InMemoryFs::with_files(&[("e.txt", "content\n")]);
    let input = make_input("e.txt", Operation::Update, Some(""), None);
    let err = apply_patch(&input, &mut fs, ApplyPatchOptions::default()).unwrap_err();
    assert!(matches!(err, EditError::ParseError { .. }));
}

#[test]
fn preview_does_not_mutate() {
    let mut fs = InMemoryFs::with_files(&[("ro.txt", "hello\n")]);
    let diff = "-hello\n+world";
    let input = make_input("ro.txt", Operation::Update, Some(diff), None);
    let result =
        preview_patch(&input, &mut fs, ApplyPatchOptions::default()).expect("preview should succeed");
    assert_eq!(result.change.op, ChangeOp::Update);
    // File should not be mutated.
    assert_eq!(fs.get("ro.txt").expect("file untouched"), "hello\n");
}

#[test]
fn trailing_newline_preserved() {
    let mut fs = InMemoryFs::with_files(&[("nl.txt", "a\nb\n")]);
    let diff = "-b\n+c";
    let input = make_input("nl.txt", Operation::Update, Some(diff), None);
    apply_patch(&input, &mut fs, ApplyPatchOptions::default()).expect("should succeed");
    let content = fs.get("nl.txt").expect("file should exist");
    assert!(content.ends_with('\n'), "trailing newline should be preserved");
}

#[test]
fn no_trailing_newline_preserved() {
    let mut fs = InMemoryFs::with_files(&[("no_nl.txt", "a\nb")]);
    let diff = "-b\n+c";
    let input = make_input("no_nl.txt", Operation::Update, Some(diff), None);
    apply_patch(&input, &mut fs, ApplyPatchOptions::default()).expect("should succeed");
    let content = fs.get("no_nl.txt").expect("file should exist");
    assert!(!content.ends_with('\n'), "no trailing newline should be preserved");
}

#[test]
fn bom_preserved_on_update() {
    let content_with_bom = "\u{FEFF}hello\nworld\n";
    let mut fs = InMemoryFs::with_files(&[("bom.txt", content_with_bom)]);
    let diff = "-hello\n+goodbye";
    let input = make_input("bom.txt", Operation::Update, Some(diff), None);
    apply_patch(&input, &mut fs, ApplyPatchOptions::default()).expect("should succeed");
    let result = fs.get("bom.txt").expect("file should exist");
    assert!(result.starts_with('\u{FEFF}'), "BOM should be preserved");
    assert!(result.contains("goodbye"));
}

#[test]
fn character_match_multiple_occurrences_error() {
    let mut fs = InMemoryFs::with_files(&[("dup.txt", "foo\nbar\nfoo\n")]);
    // Single hunk, no context → character match. "foo" appears twice.
    let diff = "-foo\n+baz";
    let input = make_input("dup.txt", Operation::Update, Some(diff), None);
    let err = apply_patch(&input, &mut fs, ApplyPatchOptions::default()).unwrap_err();
    assert!(
        matches!(err, EditError::AmbiguousMatch { .. }),
        "expected AmbiguousMatch, got {err:?}"
    );
}

#[test]
fn trim_common_context_basic() {
    let old: Vec<String> = vec!["a".into(), "b".into(), "c".into()];
    let new: Vec<String> = vec!["a".into(), "x".into(), "c".into()];
    let variant = trim_common_context(&old, &new).expect("should produce variant");
    assert_eq!(variant.old_lines, vec!["b"]);
    assert_eq!(variant.new_lines, vec!["x"]);
}

#[test]
fn reduce_single_line_change_basic() {
    let old: Vec<String> = vec!["a".into(), "b".into(), "c".into()];
    let new: Vec<String> = vec!["a".into(), "x".into(), "c".into()];
    let variant = reduce_to_single_line_change(&old, &new).expect("should produce variant");
    assert_eq!(variant.old_lines, vec!["b"]);
    assert_eq!(variant.new_lines, vec!["x"]);
}

#[test]
fn pure_addition_hunk() {
    let mut fs = InMemoryFs::with_files(&[("add.txt", "line1\nline2\n")]);
    let diff = "@@ -2,0 +2,1 @@\n+inserted";
    let input = make_input("add.txt", Operation::Update, Some(diff), None);
    let result = apply_patch(&input, &mut fs, ApplyPatchOptions::default())
        .expect("pure addition should succeed");
    let content = fs.get("add.txt").expect("file should exist");
    assert!(content.contains("inserted"));
    assert!(result.warnings.is_empty());
}
