use libedit::error::EditError;
use libedit::fs::{EditFs, InMemoryFs};
use libedit::methods::codex_patch_method::{CodexFileOp, CodexPatchMethod, parse_codex_patch};
use libedit::traits::{ChangeOp, EditMethod, EditResult};
use libedit::value::Value;

fn apply_patch(patch: &str, fs: &mut InMemoryFs) -> Result<EditResult, EditError> {
    CodexPatchMethod::default().apply(&Value::Text(patch.to_string()), fs)
}

#[test]
fn parses_multi_file_patch() {
    let patch = "*** Begin Patch\n*** Add File: one.txt\n+hello\n*** Delete File: old.txt\n*** \
                 Update File: src/lib.rs\n@@\n-old\n+new\n*** End Patch";
    let parsed = parse_codex_patch(patch).expect("patch should parse");
    assert_eq!(parsed.len(), 3);
    assert!(matches!(parsed[0], CodexFileOp::Add { .. }));
    assert!(matches!(parsed[1], CodexFileOp::Delete { .. }));
    assert!(matches!(parsed[2], CodexFileOp::Update { .. }));
}

#[test]
fn applies_multiple_operations_and_reports_all_changes() {
    let mut fs =
        InMemoryFs::with_files(&[("delete.txt", "obsolete\n"), ("modify.txt", "line1\nline2\n")]);
    let patch = "*** Begin Patch\n*** Add File: nested/new.txt\n+created\n*** Delete File: \
                 delete.txt\n*** Update File: modify.txt\n@@\n-line2\n+changed\n*** End Patch";

    let result = apply_patch(patch, &mut fs).expect("patch should apply");

    assert_eq!(fs.read("nested/new.txt").expect("file should exist"), "created\n");
    assert!(!fs.file_exists("delete.txt").expect("exists should succeed"));
    assert_eq!(fs.read("modify.txt").expect("file should exist"), "line1\nchanged\n");
    assert_eq!(result.changes.len(), 3);
    assert_eq!(
        result.message,
        "Success. Updated the following files:\nA nested/new.txt\nM modify.txt\nD delete.txt"
    );
}

#[test]
fn add_file_overwrites_existing_file_like_codex() {
    let mut fs = InMemoryFs::with_files(&[("duplicate.txt", "old content\n")]);
    let patch = "*** Begin Patch\n*** Add File: duplicate.txt\n+new content\n*** End Patch";

    let result = apply_patch(patch, &mut fs).expect("patch should apply");

    assert_eq!(fs.read("duplicate.txt").expect("file should exist"), "new content\n");
    assert_eq!(result.change.op, ChangeOp::Create);
    assert_eq!(result.change.old_content.as_deref(), Some("old content\n"));
}

#[test]
fn update_appends_trailing_newline() {
    let mut fs = InMemoryFs::with_files(&[("no_newline.txt", "no newline at end")]);
    let patch = "*** Begin Patch\n*** Update File: no_newline.txt\n@@\n-no newline at \
                 end\n+first line\n+second line\n*** End Patch";

    apply_patch(patch, &mut fs).expect("patch should apply");

    assert_eq!(
        fs.read("no_newline.txt").expect("file should exist"),
        "first line\nsecond line\n"
    );
}

#[test]
fn move_overwrites_existing_destination_like_codex() {
    let mut fs = InMemoryFs::with_files(&[
        ("old/name.txt", "from\n"),
        ("renamed/dir/name.txt", "existing\n"),
    ]);
    let patch = "*** Begin Patch\n*** Update File: old/name.txt\n*** Move to: \
                 renamed/dir/name.txt\n@@\n-from\n+new\n*** End Patch";

    let result = apply_patch(patch, &mut fs).expect("patch should apply");

    assert!(!fs.file_exists("old/name.txt").expect("exists should succeed"));
    assert_eq!(fs.read("renamed/dir/name.txt").expect("file should exist"), "new\n");
    assert_eq!(result.change.new_path.as_deref(), Some("renamed/dir/name.txt"));
}

#[test]
fn pure_rename_has_no_diff_preview() {
    let mut fs = InMemoryFs::with_files(&[("old/name.txt", "same\n")]);
    let patch = "*** Begin Patch\n*** Update File: old/name.txt\n*** Move to: \
                 renamed/name.txt\n@@\n same\n*** End Patch";

    let result = apply_patch(patch, &mut fs).expect("patch should apply");

    assert_eq!(result.diff, None);
    assert_eq!(result.first_changed_line, None);
    assert!(!fs.file_exists("old/name.txt").expect("exists should succeed"));
    assert_eq!(fs.read("renamed/name.txt").expect("file should exist"), "same\n");
}

#[test]
fn supports_deletion_only_update_hunk() {
    let mut fs = InMemoryFs::with_files(&[("lines.txt", "line1\nline2\nline3\n")]);
    let patch =
        "*** Begin Patch\n*** Update File: lines.txt\n@@\n line1\n-line2\n line3\n*** End Patch";

    apply_patch(patch, &mut fs).expect("patch should apply");

    assert_eq!(fs.read("lines.txt").expect("file should exist"), "line1\nline3\n");
}

#[test]
fn supports_end_of_file_marker() {
    let mut fs = InMemoryFs::with_files(&[("tail.txt", "first\nsecond\n")]);
    let patch = "*** Begin Patch\n*** Update File: tail.txt\n@@\n first\n-second\n+second \
                 updated\n*** End of File\n*** End Patch";

    apply_patch(patch, &mut fs).expect("patch should apply");

    assert_eq!(fs.read("tail.txt").expect("file should exist"), "first\nsecond updated\n");
}

#[test]
fn partial_success_leaves_prior_changes() {
    let mut fs = InMemoryFs::new();
    let patch = "*** Begin Patch\n*** Add File: created.txt\n+hello\n*** Update File: \
                 missing.txt\n@@\n-old\n+new\n*** End Patch";

    let error = apply_patch(patch, &mut fs).expect_err("patch should fail");

    assert!(matches!(error, EditError::FileNotFound { .. }));
    assert_eq!(fs.read("created.txt").expect("file should exist"), "hello\n");
}

#[test]
fn accepts_whitespace_padded_markers_and_heredoc_wrapper() {
    let mut fs = InMemoryFs::with_files(&[("file.txt", "one\n")]);
    let patch = "<<'EOF'\n *** Begin Patch\n  *** Update File: file.txt\n@@\n-one\n+two\n *** \
                 End Patch\nEOF\n";

    let result = apply_patch(patch, &mut fs).expect("patch should apply");

    assert_eq!(fs.read("file.txt").expect("file should exist"), "two\n");
    assert_eq!(result.message, "Success. Updated the following files:\nM file.txt");
}

#[test]
fn rejects_object_wrapper_to_keep_contract_honest() {
    let mut fs = InMemoryFs::with_files(&[("file.txt", "one\n")]);
    let input = Value::Object(vec![(
        "input".to_string(),
        Value::Text("*** Begin Patch\n*** Update File: file.txt\n@@\n-one\n+two\n*** End Patch".to_string()),
    )]);

    let error = CodexPatchMethod::default()
        .apply(&input, &mut fs)
        .expect_err("object wrapper should be rejected");

    assert!(matches!(error, EditError::InvalidInput { .. }));
    assert_eq!(
        error.to_string(),
        "Invalid input: apply_patch expects the raw patch text as a JSON string; do not wrap it \
         in an object"
    );
}

#[test]
fn empty_patch_fails_at_apply_time() {
    let mut fs = InMemoryFs::with_files(&[("foo.txt", "keep\n")]);
    let patch = "*** Begin Patch\n*** End Patch";

    let error = apply_patch(patch, &mut fs).expect_err("empty patch should fail");

    assert!(matches!(error, EditError::ApplyError { .. }));
    assert_eq!(error.to_string(), "No files were modified.");
    assert_eq!(fs.read("foo.txt").expect("file should exist"), "keep\n");
}
