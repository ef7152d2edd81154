use libedit::double::Double;
use libedit::hashline::format_line_tag;
use libedit::{
    ChangeOp, EditError, EditFs, EditMethod, HashlineMethod, InMemoryFs, PatchMethod,
    ReplaceMethod, Value,
};

fn text(s: &str) -> Value {
    Value::Text(s.to_string())
}

fn object(entries: Vec<(&str, Value)>) -> Value {
    Value::Object(entries.into_iter().map(|(k, v)| (k.to_string(), v)).collect())
}

fn texts(items: &[&str]) -> Value {
    Value::Array(items.iter().map(|s| text(s)).collect())
}

fn threshold(x: f64) -> Double {
    Double::from_bits(x.to_bits())
}

/// Build a `LINE#ID` anchor for the provided 1-indexed line.
fn anchor_for(text: &str, line: usize) -> String {
    let lines: Vec<&str> = text.split('\n').collect();
    format_line_tag(line, lines[line - 1])
}

#[test]
fn hashline_method_updates_existing_file() {
    let mut fs =
        InMemoryFs::with_files(&[("src/main.rs", "fn main() {\n    println!(\"hello\");\n}\n")]);
    let method = HashlineMethod;
    let original = fs.read("src/main.rs").expect("file should exist");
    let line_two = anchor_for(&original, 2);

    let result = method
        .apply(
            &object(vec![
                ("path", text("src/main.rs")),
                (
                    "edits",
                    Value::Array(vec![object(vec![
                        ("loc", object(vec![("line", text(&line_two))])),
                        ("content", texts(&["    println!(\"world\");"])),
                    ])]),
                ),
            ]),
            &mut fs,
        )
        .expect("hashline edit should succeed");

    let updated = fs.read("src/main.rs").expect("file should still exist");
    assert!(updated.contains("world"));
    assert_eq!(result.change.op, ChangeOp::Update);
    assert!(
        result
            .diff
            .as_deref()
            .unwrap_or_default()
            .contains("+2|    println!(\"world\");")
    );
}

#[test]
fn hashline_method_create_delete_and_move_only() {
    let mut fs = InMemoryFs::new();
    let method = HashlineMethod;

    let created = method
        .apply(
            &object(vec![
                ("path", text("notes.txt")),
                (
                    "edits",
                    Value::Array(vec![object(vec![
                        ("loc", text("append")),
                        ("content", texts(&["hello", "world"])),
                    ])]),
                ),
            ]),
            &mut fs,
        )
        .expect("create should succeed");
    assert_eq!(created.change.op, ChangeOp::Create);
    assert_eq!(fs.read("notes.txt").expect("created file should exist"), "hello\nworld");

    let moved = method
        .apply(
            &object(vec![
                ("path", text("notes.txt")),
                ("move", text("archive/notes.txt")),
                ("edits", Value::Array(vec![])),
            ]),
            &mut fs,
        )
        .expect("move-only should succeed");
    assert_eq!(moved.change.new_path.as_deref(), Some("archive/notes.txt"));
    assert!(!fs.file_exists("notes.txt").expect("exists should succeed"));
    assert!(
        fs.file_exists("archive/notes.txt")
            .expect("exists should succeed")
    );

    let deleted = method
        .apply(
            &object(vec![
                ("path", text("archive/notes.txt")),
                ("delete", Value::Bool(true)),
                ("edits", Value::Array(vec![])),
            ]),
            &mut fs,
        )
        .expect("delete should succeed");
    assert_eq!(deleted.change.op, ChangeOp::Delete);
    assert!(
        !fs.file_exists("archive/notes.txt")
            .expect("exists should succeed")
    );
}

#[test]
fn hashline_method_reports_hash_mismatch_and_noop() {
    let mut fs = InMemoryFs::with_files(&[("file.txt", "alpha\nbeta\n")]);
    let method = HashlineMethod;
    let anchor = anchor_for("alpha\nbeta\n", 1);

    fs.write("file.txt", "changed\nbeta\n")
        .expect("write should succeed");
    let mismatch = method
        .apply(
            &object(vec![
                ("path", text("file.txt")),
                (
                    "edits",
                    Value::Array(vec![object(vec![
                        ("loc", object(vec![("line", text(&anchor))])),
                        ("content", texts(&["omega"])),
                    ])]),
                ),
            ]),
            &mut fs,
        )
        .expect_err("stale anchor should fail");
    assert!(matches!(mismatch, EditError::HashMismatch { .. }));

    let current = fs.read("file.txt").expect("file should exist");
    let fresh_anchor = anchor_for(&current, 1);
    let noop = method
        .apply(
            &object(vec![
                ("path", text("file.txt")),
                (
                    "edits",
                    Value::Array(vec![object(vec![
                        ("loc", object(vec![("line", text(&fresh_anchor))])),
                        ("content", texts(&["changed"])),
                    ])]),
                ),
            ]),
            &mut fs,
        )
        .expect_err("noop edit should fail");
    assert!(matches!(noop, EditError::NoChanges { .. }));
}

#[test]
fn patch_method_updates_existing_file_with_context_hunk() {
    let mut fs =
        InMemoryFs::with_files(&[("src/lib.rs", "fn main() {\n    println!(\"hello\");\n}\n")]);
    let method = PatchMethod::new(true, threshold(0.95));

    let result = method
        .apply(
            &object(vec![
                ("path", text("src/lib.rs")),
                (
                    "diff",
                    text("@@ fn main() {\n fn main() {\n-    println!(\"hello\");\n+    println!(\"world\");\n }\n"),
                ),
            ]),
            &mut fs,
        )
        .expect("patch should succeed");

    let updated = fs.read("src/lib.rs").expect("file should exist");
    assert!(updated.contains("world"));
    assert_eq!(result.change.op, ChangeOp::Update);
    assert!(result.diff.as_deref().unwrap_or_default().contains("@@"));
}

#[test]
fn patch_method_supports_create_delete_and_rename() {
    let mut fs = InMemoryFs::with_files(&[("old.txt", "old\n")]);
    let method = PatchMethod::new(true, threshold(0.95));

    let created = method
        .apply(
            &object(vec![
                ("path", text("new.txt")),
                ("op", text("create")),
                ("diff", text("hello\n")),
            ]),
            &mut fs,
        )
        .expect("create should succeed");
    assert_eq!(created.change.op, ChangeOp::Create);
    assert!(fs.file_exists("new.txt").expect("exists should succeed"));

    let renamed = method
        .apply(
            &object(vec![
                ("path", text("old.txt")),
                ("rename", text("moved.txt")),
                ("diff", text("@@\n-old\n+new\n")),
            ]),
            &mut fs,
        )
        .expect("rename update should succeed");
    assert_eq!(renamed.change.new_path.as_deref(), Some("moved.txt"));
    assert!(!fs.file_exists("old.txt").expect("exists should succeed"));
    assert_eq!(fs.read("moved.txt").expect("file should exist"), "new\n");

    let deleted = method
        .apply(
            &object(vec![("path", text("new.txt")), ("op", text("delete"))]),
            &mut fs,
        )
        .expect("delete should succeed");
    assert_eq!(deleted.change.op, ChangeOp::Delete);
    assert!(!fs.file_exists("new.txt").expect("exists should succeed"));
}

#[test]
fn patch_method_rejects_multi_file_patch() {
    let mut fs = InMemoryFs::with_files(&[("a.txt", "a\n")]);
    let method = PatchMethod::new(true, threshold(0.95));

    let err = method
        .apply(
            &object(vec![
                ("path", text("a.txt")),
                (
                    "diff",
                    text("*** Update File: a.txt\n@@\n-a\n+b\n*** Update File: b.txt\n@@\n-x\n+y\n"),
                ),
            ]),
            &mut fs,
        )
        .expect_err("multi-file patch should fail");

    assert!(matches!(err, EditError::MultiFilePatch { .. } | EditError::ApplyError { .. }));
}

#[test]
fn replace_method_updates_unique_match_and_preserves_crlf() {
    let mut fs =
        InMemoryFs::with_files(&[("app.ts", "const value = 1;\r\nconst answer = 41;\r\n")]);
    let method = ReplaceMethod::new(true, threshold(0.95));

    let result = method
        .apply(
            &object(vec![
                ("path", text("app.ts")),
                ("old_text", text("const answer = 41;\n")),
                ("new_text", text("const answer = 42;\n")),
            ]),
            &mut fs,
        )
        .expect("replace should succeed");

    let updated = fs.read("app.ts").expect("file should exist");
    assert!(updated.contains("42"));
    assert!(updated.contains("\r\n"));
    assert_eq!(result.change.op, ChangeOp::Update);
    assert_eq!(result.first_changed_line, Some(2));
}

#[test]
fn replace_method_rejects_ambiguous_match() {
    let mut fs = InMemoryFs::with_files(&[("dup.txt", "foo\nbar\nfoo\n")]);
    let method = ReplaceMethod::new(true, threshold(0.95));

    let err = method
        .apply(
            &object(vec![
                ("path", text("dup.txt")),
                ("old_text", text("foo")),
                ("new_text", text("baz")),
            ]),
            &mut fs,
        )
        .expect_err("ambiguous replace should fail");

    assert!(matches!(err, EditError::AmbiguousMatch { .. }));
    assert_eq!(fs.read("dup.txt").expect("file should exist"), "foo\nbar\nfoo\n");
}
