use libedit::applicator::compute_replacements;
use libedit::double::Double;
use libedit::error::HashMismatch;
use libedit::methods::codex_patch_method::{
    codex_patch_content_format_lark, derive_updated_contents, parse_codex_patch,
    seek_codex_sequence, CodexDiffHunk, CodexFileOp,
};
use libedit::methods::{build_method, list_methods, methods_with};
use libedit::operations::{build_operations, OperationKind};
use libedit::parser::parse_hunks;
use libedit::{
    all_methods, ChangeOp, CodexPatchMethod, EditError, EditFs, EditMethod, EditResult,
    FileChange, HashlineMethod, InMemoryFs, PatchMethod, ReplaceMethod, Value,
};

fn text(s: &str) -> Value {
    Value::Text(s.to_string())
}

fn object(entries: Vec<(&str, Value)>) -> Value {
    Value::Object(entries.into_iter().map(|(k, v)| (k.to_string(), v)).collect())
}

fn strings(lines: &[&str]) -> Vec<String> {
    lines.iter().map(|l| l.to_string()).collect()
}

fn default_threshold() -> Double {
    Double::from_bits(0.95f64.to_bits())
}

fn hunk(context: Option<&str>, old: &[&str], new: &[&str], eof: bool) -> CodexDiffHunk {
    CodexDiffHunk {
        change_context: context.map(str::to_string),
        old_lines: strings(old),
        new_lines: strings(new),
        is_end_of_file: eof,
    }
}

#[test]
fn every_error_has_its_message() {
    let s = |x: &str| x.to_string();
    let mismatch = |line: usize| HashMismatch { line, expected: s("AA"), actual: s("BB") };
    let cases = vec![
        (EditError::FileNotFound { path: s("p") }, "File not found: p"),
        (EditError::FileAlreadyExists { path: s("p") }, "File already exists: p"),
        (EditError::AnchorNotFound { anchor: s("a"), file: s("f") }, "Anchor not found: a in f"),
        (
            EditError::HashMismatch { mismatches: vec![mismatch(1), mismatch(2)], context: s("C") },
            "2 lines have changed since last read. Use the updated LINE#ID references shown below (>>> marks changed lines).\n\nC",
        ),
        (
            EditError::AmbiguousMatch { file: s("f"), count: 2, previews: s(" ") },
            "Found 2 occurrences in f. Add more context to disambiguate.",
        ),
        (
            EditError::AmbiguousMatch { file: s("f"), count: 2, previews: s("P") },
            "Found 2 occurrences in f.\n\nP\n\nAdd more context to disambiguate.",
        ),
        (EditError::NoMatch { file: s("f"), detail: s("d") }, "No match found in f: d"),
        (EditError::NoChanges { file: s("f"), detail: s(" d") }, "No changes made to f. d"),
        (EditError::ParseError { message: s("m"), line_number: Some(3) }, "Line 3: m"),
        (EditError::ParseError { message: s("m"), line_number: None }, "m"),
        (
            EditError::MultiFilePatch { count: 2 },
            "Diff contains 2 file markers. Single-file patches cannot contain multi-file markers.",
        ),
        (
            EditError::OverlappingHunks { file: s("f"), range1: s("1-2"), range2: s("2-3") },
            "Overlapping hunks detected in f at lines 1-2 and 2-3.",
        ),
        (EditError::InvalidInput { message: s("m") }, "Invalid input: m"),
        (EditError::InvalidRange { message: s("m") }, "Invalid range: m"),
        (EditError::SamePathRename, "Rename path is the same as source path"),
        (EditError::MatchError { path: s("p"), message: s("m") }, "p: m"),
        (EditError::ApplyError { message: s("m") }, "m"),
        (EditError::ValidationError { message: s("m") }, "Validation error: m"),
        (EditError::Io { path: s("p"), message: s("m") }, "I/O error on p: m"),
        (EditError::JsonError { message: s("m") }, "m"),
    ];
    for (error, message) in cases {
        assert_eq!(error.to_string(), message);
    }
}

#[test]
fn values_give_their_parts() {
    let v = object(vec![
        ("a", text("first")),
        ("b", Value::Bool(true)),
        ("a", text("last")),
        ("c", Value::Array(vec![Value::Null, Value::Number("1".to_string())])),
    ]);
    assert!(v.is_object());
    assert_eq!(v.get_str("a"), Some("last"));
    assert_eq!(v.get_bool("b"), Some(true));
    assert_eq!(v.get_str("b"), None);
    assert_eq!(v.get_bool("a"), None);
    assert_eq!(v.get("c").and_then(|c| c.as_array()).map(|c| c.len()), Some(2));
    assert!(v.get("d").is_none());
    assert!(text("x").get("a").is_none());
    assert_eq!(text("x").as_str(), Some("x"));
    assert_eq!(Value::Bool(false).as_bool(), Some(false));
}

#[test]
fn methods_are_found_by_name() {
    let names: Vec<String> = all_methods().iter().map(|m| m.name().to_string()).collect();
    assert_eq!(names, strings(&["hashline", "replace", "patch", "apply_patch"]));
    for name in &names {
        let m = build_method(name, true, default_threshold()).expect("a method");
        assert_eq!(m.name(), name);
        assert!(!m.prompt().is_empty());
        assert!(m.schema().contains("\"type\""));
        assert!(m.validate(&Value::Null).is_ok());
        let mut fs = InMemoryFs::new();
        assert!(m.apply_partial("x", &mut fs).expect("no error").is_none());
    }
    let listed = list_methods();
    assert_eq!(listed.len(), 4);
    for (info, m) in listed.iter().zip(all_methods()) {
        assert_eq!(info.name, m.name());
        assert_eq!(info.prompt, m.prompt());
        assert_eq!(info.schema, m.schema());
        assert_eq!(info.grammar.as_deref(), m.grammar());
    }
    assert!(build_method("other", true, default_threshold()).is_none());
    assert_eq!(methods_with(false, default_threshold()).len(), 4);
    let grammars: Vec<bool> = all_methods().iter().map(|m| m.grammar().is_some()).collect();
    assert_eq!(grammars, vec![false, false, false, true]);
    assert!(codex_patch_content_format_lark().contains("*** Begin Patch"));
}

#[test]
fn failed_methods_leave_the_files() {
    let old = |new: &str| object(vec![("path", text("a")), ("old_text", text("zzzz")), ("new_text", text(new))]);
    let cases: Vec<(&str, Value)> = vec![
        ("replace", old("y")),
        ("replace", object(vec![("path", text("a"))])),
        ("replace", object(vec![("path", text("none")), ("old_text", text("a")), ("new_text", text("b"))])),
        ("patch", object(vec![("path", text("a")), ("op", text("update")), ("diff", text("@@\n-zzzz\n+y"))])),
        ("patch", object(vec![("op", text("delete"))])),
        ("hashline", object(vec![("path", text("a"))])),
        (
            "hashline",
            object(vec![
                ("path", text("a")),
                (
                    "edits",
                    Value::Array(vec![object(vec![
                        ("loc", object(vec![("line", text("7#ZZ"))])),
                        ("content", text("x")),
                    ])]),
                ),
            ]),
        ),
        (
            "hashline",
            object(vec![("path", text("a")), ("move", text("a")), ("edits", Value::Array(vec![]))]),
        ),
    ];
    for (name, input) in cases {
        let mut fs = InMemoryFs::with_files(&[("a", "one\ntwo\n")]);
        let m = build_method(name, false, default_threshold()).expect("a method");
        assert!(m.apply(&input, &mut fs).is_err(), "{} {:?}", name, input);
        assert_eq!(fs.paths(), strings(&["a"]));
        assert_eq!(fs.read("a").unwrap(), "one\ntwo\n");
    }
}

#[test]
fn methods_say_what_is_missing() {
    let mut fs = InMemoryFs::with_files(&[("a", "x")]);
    let message = |r: Result<EditResult, EditError>| r.expect_err("an error").to_string();
    assert_eq!(
        message(HashlineMethod.apply(&Value::Null, &mut fs)),
        "Invalid input: missing 'path'"
    );
    assert_eq!(
        message(HashlineMethod.apply(&object(vec![("path", text("a"))]), &mut fs)),
        "Invalid input: missing 'edits' array"
    );
    assert_eq!(
        message(ReplaceMethod::new(true, default_threshold()).apply(&object(vec![("path", text("a"))]), &mut fs)),
        "Invalid input: missing 'old_text'"
    );
    assert_eq!(
        message(PatchMethod::new(true, default_threshold()).apply(&object(vec![]), &mut fs)),
        "Invalid input: missing 'path'"
    );
    assert_eq!(
        message(PatchMethod::new(true, default_threshold()).apply(
            &object(vec![("path", text("a")), ("op", text("create"))]),
            &mut fs
        )),
        "Invalid input: create operation requires 'diff'"
    );
}

#[test]
fn hashline_creates_moves_and_deletes() {
    let mut fs = InMemoryFs::new();
    let edits = |content: &str| {
        Value::Array(vec![object(vec![("loc", text("append")), ("content", text(content))])])
    };
    let made = HashlineMethod
        .apply(&object(vec![("path", text("n")), ("edits", edits("x\ny"))]), &mut fs)
        .expect("created");
    assert_eq!(made.change.op, ChangeOp::Create);
    assert_eq!(fs.read("n").unwrap(), "x\ny");
    let moved = HashlineMethod
        .apply(
            &object(vec![("path", text("n")), ("move", text("m")), ("edits", Value::Array(vec![]))]),
            &mut fs,
        )
        .expect("moved");
    assert_eq!(moved.message, "Moved n to m");
    assert_eq!(fs.paths(), strings(&["m"]));
    let deleted = HashlineMethod
        .apply(
            &object(vec![
                ("path", text("m")),
                ("delete", Value::Bool(true)),
                ("edits", Value::Array(vec![])),
            ]),
            &mut fs,
        )
        .expect("deleted");
    assert_eq!(deleted.message, "Deleted m");
    assert!(fs.paths().is_empty());
}

#[test]
fn codex_operations_before_a_failure_stay() {
    let mut fs = InMemoryFs::with_files(&[("a", "1\n")]);
    let ops = vec![
        CodexFileOp::Add { path: "n".to_string(), contents: "new\n".to_string() },
        CodexFileOp::Update {
            path: "a".to_string(),
            move_to: None,
            hunks: vec![hunk(None, &["1"], &["2"], false)],
        },
        CodexFileOp::Delete { path: "missing".to_string() },
        CodexFileOp::Delete { path: "a".to_string() },
    ];
    let r = CodexPatchMethod::default().apply_file_ops(&ops, &mut fs);
    assert!(matches!(r, Err(EditError::FileNotFound { path }) if path == "missing"));
    assert_eq!(fs.read("n").unwrap(), "new\n");
    assert_eq!(fs.read("a").unwrap(), "2\n");
}

#[test]
fn codex_lines_are_found_by_rules_in_turn() {
    let lines = strings(&["a ", "a", "  b", "x\u{2014}y"]);
    let seek = |pattern: &str, start: usize, lenient: bool| {
        seek_codex_sequence(&lines, &strings(&[pattern]), start, false, lenient)
    };
    assert_eq!(seek("a", 0, true), Some(1));
    assert_eq!(seek("a", 0, false), Some(1));
    assert_eq!(seek("a", 2, true), None);
    assert_eq!(seek("b", 0, false), None);
    assert_eq!(seek("b", 0, true), Some(2));
    assert_eq!(seek("x-y", 0, true), Some(3));
    assert_eq!(seek_codex_sequence(&lines, &[], 3, false, true), Some(3));
    assert_eq!(seek_codex_sequence(&lines, &strings(&["a"]), 0, true, true), None);
}

#[test]
fn codex_update_ends_in_a_line_feed() {
    let r = derive_updated_contents("a\nb", "f", &[hunk(None, &["b"], &["c"], true)], true);
    assert_eq!(r.expect("updated"), "a\nc\n");
    let r = derive_updated_contents("a\nb\nc\nb\n", "f", &[hunk(None, &["b"], &["x", "y"], false)], true);
    assert_eq!(r.expect("updated"), "a\nx\ny\nc\nb\n");
    let r = derive_updated_contents("a\n", "f", &[hunk(Some("none"), &["a"], &["c"], false)], true);
    assert_eq!(r.expect_err("an error").to_string(), "Failed to find context 'none' in f");
    let r = derive_updated_contents("a\n", "f", &[hunk(None, &["z"], &["c"], false)], true);
    assert_eq!(r.expect_err("an error").to_string(), "Failed to find expected lines in f:\nz");
}

#[test]
fn codex_hunks_that_overlap_fail() {
    let hunks = [hunk(None, &["a", "b"], &["x"], false), hunk(None, &["b"], &[], true)];
    let r = derive_updated_contents("a\nb\n", "f", &hunks, true);
    assert_eq!(r.expect_err("an error").to_string(), "Update hunks overlap in f");
}

#[test]
fn codex_patches_that_cannot_be_read_fail() {
    let message = |patch: &str| parse_codex_patch(patch).expect_err("an error").to_string();
    assert_eq!(
        message("nothing"),
        "The first line of the patch must be '*** Begin Patch'"
    );
    assert_eq!(
        message("*** Begin Patch\n*** Add File: x\n+a"),
        "The last line of the patch must be '*** End Patch'"
    );
    assert!(message("*** Begin Patch\n*** Update File: x\n*** End Patch").starts_with("Line 2: "));
    assert!(message("*** Begin Patch\nwhat\n*** End Patch").starts_with("Line 2: "));
}

#[test]
fn match_beyond_the_end_fails() {
    let hunks = parse_hunks("@@\n-a\n+b\n@@\n    \n+c").expect("parsed");
    assert_eq!(hunks.len(), 2);
    let r = compute_replacements(&strings(&["a"]), "f", &hunks, true);
    assert_eq!(r.expect_err("an error").to_string(), "Match at line 2 exceeds the end of f");
}

#[test]
fn line_hints_out_of_range_fail() {
    let hunks = parse_hunks("@@ -9,0 +9,1 @@\n+x").expect("parsed");
    let r = compute_replacements(&strings(&["a"]), "f", &hunks, true);
    match r {
        Err(EditError::InvalidRange { message }) => {
            assert_eq!(message, "Line hint 9 is out of range for insertion in f (file has 1 lines)");
        },
        other => panic!("unexpected {:?}", other),
    }
}

#[test]
fn changes_call_for_operations() {
    let change = |op: ChangeOp, path: &str, new_path: Option<&str>| FileChange {
        op,
        path: path.to_string(),
        new_path: new_path.map(str::to_string),
        old_content: None,
        new_content: None,
    };
    let fs = InMemoryFs::with_files(&[("new", "N"), ("to", "T")]);
    let result = EditResult {
        message: String::new(),
        change: change(ChangeOp::Create, "new", None),
        changes: vec![
            change(ChangeOp::Create, "new", None),
            change(ChangeOp::Update, "from", Some("to")),
            change(ChangeOp::Delete, "old", None),
            change(ChangeOp::Delete, "old", None),
        ],
        diff: None,
        first_changed_line: None,
        warnings: vec![],
    };
    let ops = build_operations(&result, &fs).expect("operations");
    let shown: Vec<(OperationKind, &str, Option<&str>)> =
        ops.iter().map(|o| (o.kind, o.path.as_str(), o.content.as_deref())).collect();
    assert_eq!(
        shown,
        vec![
            (OperationKind::Write, "new", Some("N")),
            (OperationKind::Write, "to", Some("T")),
            (OperationKind::Delete, "from", None),
            (OperationKind::Delete, "old", None),
        ]
    );
    let lost = EditResult { change: change(ChangeOp::Update, "gone", None), changes: vec![], ..result };
    assert!(matches!(build_operations(&lost, &fs), Err(EditError::FileNotFound { .. })));
}
