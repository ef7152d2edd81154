use libedit::applicator::{
    apply_hunks_to_content, apply_patch, apply_replacements, compute_replacements,
    preview_patch, ApplyPatchOptions, Operation, PatchInput,
};
use libedit::diff::{
    generate_diff_string, generate_unified_diff_string, replace_text, ReplaceOptions,
};
use libedit::double::Double;
use libedit::error::EditError;
use libedit::fuzzy::{find_match, replace_match, seek_sequence, similarity, SequenceMatchStrategy};
use libedit::hashline::{
    apply_hashline_edits, apply_hashline_edits_with_options, compute_line_hash,
    format_hash_lines, format_line_tag, hash_of_checksum, is_escaped_tab_autocorrect_enabled,
    parse_tag, validate_line_ref, Anchor, HashlineApplyOptions, HashlineEdit,
};
use libedit::normalize::{
    adjust_indentation, detect_line_ending, normalize_for_fuzzy, normalize_to_lf,
    restore_line_endings, strip_bom, LineEnding,
};
use libedit::parser::{normalize_create_content, parse_hunks};
use libedit::reindent::adjust_lines_indentation;
use libedit::splice::{replace_back, sort_replacements, Replacement};
use libedit::variants::trim_common_context;
use libedit::{EditFs, InMemoryFs};

fn strings(lines: &[&str]) -> Vec<String> {
    lines.iter().map(|l| l.to_string()).collect()
}

fn number(d: Double) -> f64 {
    f64::from_bits(d.to_bits())
}

fn anchor(text: &str, line: usize) -> Anchor {
    let content = text.split('\n').nth(line - 1).unwrap();
    Anchor { line, hash: compute_line_hash(line, content) }
}

fn replace_line(text: &str, line: usize, new: &[&str]) -> HashlineEdit {
    HashlineEdit::ReplaceLine { pos: anchor(text, line), lines: strings(new) }
}

fn patch(path: &str, op: Operation, diff: Option<&str>, rename: Option<&str>) -> PatchInput {
    PatchInput {
        path: path.to_string(),
        op,
        rename: rename.map(str::to_string),
        diff: diff.map(str::to_string),
    }
}

// -- Normalization -----------------------------------------------------

#[test]
fn normalized_text_has_no_carriage_return() {
    for s in ["a\r\nb\rc\n", "\r\r\n", "plain", ""] {
        let once = normalize_to_lf(s);
        assert!(!once.contains('\r'));
        assert_eq!(normalize_to_lf(&once), once);
    }
    assert_eq!(normalize_to_lf("a\r\nb\rc\n"), "a\nb\nc\n");
}

#[test]
fn line_endings_read_back() {
    for text in ["a\nb\n", "\n", "x", "one\n\ntwo"] {
        for ending in [LineEnding::Lf, LineEnding::Crlf] {
            let written = restore_line_endings(text, ending);
            assert_eq!(normalize_to_lf(&written), text);
            if text.contains('\n') {
                assert_eq!(detect_line_ending(&written), ending);
            }
        }
    }
    assert_eq!(restore_line_endings("a\nb\n", LineEnding::Crlf), "a\r\nb\r\n");
}

#[test]
fn mark_and_text_are_the_content() {
    for s in ["\u{FEFF}hello", "hello", "\u{FEFF}", ""] {
        let parts = strip_bom(s);
        assert_eq!(format!("{}{}", parts.bom, parts.text), s);
    }
}

#[test]
fn comparable_form_settles() {
    for s in ["  a \t b  ", "“x” — y", "a\u{a0}\u{a0}b", ""] {
        let once = normalize_for_fuzzy(s);
        assert_eq!(normalize_for_fuzzy(&once), once);
    }
    assert_eq!(normalize_for_fuzzy("  “x”  —\t y "), "\"x\" - y");
}

#[test]
fn expected_text_is_not_reindented() {
    assert_eq!(adjust_indentation("  a\n  b", "  a\n  b", "      c"), "      c");
    let lines = strings(&["  a", "    b"]);
    let new = strings(&["\tc"]);
    assert_eq!(adjust_lines_indentation(&lines, &lines, &new), new);
}

// -- Matching ----------------------------------------------------------

#[test]
fn similarity_of_a_text_to_itself_and_both_ways() {
    for s in ["", "a", "hello world", "日本語"] {
        assert_eq!(number(similarity(s, s)), 1.0);
    }
    assert_eq!(number(similarity("kitten", "sitting")), 1.0 - 3.0 / 7.0);
    assert_eq!(
        similarity("kitten", "sitting").to_bits(),
        similarity("sitting", "kitten").to_bits()
    );
}

#[test]
fn single_occurrence_is_found_and_replaced() {
    let content = "é one\ntwo\nthree";
    let found = find_match(content, "two", false, None).matched.expect("one match");
    assert_eq!(found.start_index, 7);
    assert_eq!(found.start_line, 2);
    assert_eq!(number(found.confidence), 1.0);
    assert_eq!(replace_match(content, &found, "2\n2"), "é one\n2\n2\nthree");
}

#[test]
fn several_occurrences_are_not_matched() {
    let outcome = find_match("x\ny\nx\nx", "x", true, None);
    assert!(outcome.matched.is_none());
    assert_eq!(outcome.occurrences, Some(3));
    assert_eq!(outcome.occurrence_lines, vec![1, 3, 4]);
}

#[test]
fn exact_lines_are_found_first() {
    let lines = ["  a", "a", "b", "a", "b"];
    for fuzzy in [false, true] {
        let r = seek_sequence(&lines, &["a", "b"], 0, false, fuzzy);
        assert_eq!(r.index, Some(1));
        assert_eq!(r.strategy, Some(SequenceMatchStrategy::Exact));
        let r = seek_sequence(&lines, &["a", "b"], 2, false, fuzzy);
        assert_eq!(r.index, Some(3));
    }
}

#[test]
fn strict_search_that_fails_has_no_agreeing_place() {
    let lines = ["alpha", "beta"];
    let r = seek_sequence(&lines, &["gamma"], 0, false, false);
    assert_eq!(r.index, None);
    let r = seek_sequence(&lines, &["beta  "], 0, false, false);
    assert_eq!(r.index, Some(1));
    assert_eq!(r.strategy, Some(SequenceMatchStrategy::TrimTrailing));
}

// -- Replacement -------------------------------------------------------

#[test]
fn single_text_is_replaced_where_it_occurs() {
    let options = ReplaceOptions { all: false, fuzzy: true, threshold: None };
    let r = replace_text("a\r\nb\r\nc", "b", "B\r\nB", &options).expect("replaced");
    assert_eq!(r.count, 1);
    assert_eq!(r.content, "a\nB\nB\nc");
}

#[test]
fn nothing_replaced_leaves_the_text() {
    for all in [false, true] {
        let options = ReplaceOptions { all, fuzzy: false, threshold: None };
        let r = replace_text("a\r\nb", "zzz", "y", &options).expect("no error");
        assert_eq!(r.count, 0);
        assert_eq!(r.content, "a\nb");
    }
}

#[test]
fn equal_texts_have_no_diff() {
    for s in ["", "a", "a\nb\n"] {
        let d = generate_diff_string(s, s, 3);
        assert_eq!(d.diff, "");
        assert_eq!(d.first_changed_line, None);
        assert_eq!(generate_unified_diff_string(s, s, 3).diff, "");
    }
}

#[test]
fn diff_is_rendered_line_by_line() {
    let d = generate_diff_string("a\nb\nc\n", "a\nB\nc\n", 1);
    assert_eq!(d.diff, " 1|a\n-2|b\n+2|B\n 3|c");
    assert_eq!(d.first_changed_line, Some(2));
}

// -- Hashline ----------------------------------------------------------

#[test]
fn checksum_gives_the_hash() {
    let crc = crc32fast::hash(b"hello world");
    assert_eq!(compute_line_hash(5, "hello world  \r"), hash_of_checksum(crc));
    let mut seeded = crc32fast::Hasher::new_with_initial(7);
    seeded.update(b"---");
    assert_eq!(compute_line_hash(7, "---"), hash_of_checksum(seeded.finalize()));
    assert_eq!(hash_of_checksum(0x0000_0000), "ZZ");
    assert_eq!(hash_of_checksum(0xABCD_EF1F), "PH");
    assert_eq!(hash_of_checksum(0xFFFF_FFA3), "TQ");
}

#[test]
fn displayed_references_are_accepted() {
    let text = "fn main() {\n\n  let x = 1;\t\n}\n";
    let lines: Vec<&str> = text.split('\n').collect();
    let shown = format_hash_lines(text, 1);
    let rows: Vec<&str> = shown.split('\n').collect();
    assert_eq!(rows.len(), lines.len());
    for (i, row) in rows.iter().enumerate() {
        assert_eq!(*row, format!("{}:{}", format_line_tag(i + 1, lines[i]), lines[i]));
        let a = parse_tag(row).expect("a reference");
        assert_eq!(a.line, i + 1);
        assert!(validate_line_ref(&a, &lines).is_ok());
        let edit = HashlineEdit::ReplaceLine { pos: a, lines: strings(&["new", "lines"]) };
        let mut expected = strings(&lines);
        expected.splice(i..i + 1, strings(&["new", "lines"]));
        let r = apply_hashline_edits(text, &[edit]).expect("applied");
        assert_eq!(r.text, expected.join("\n"));
    }
}

#[test]
fn stale_reference_is_refused_with_both_hashes() {
    let lines = ["alpha", "beta"];
    let hash = compute_line_hash(2, "gamma");
    assert_ne!(hash, compute_line_hash(2, "beta"));
    let stale = Anchor { line: 2, hash: hash.clone() };
    match validate_line_ref(&stale, &lines) {
        Err(EditError::HashMismatch { mismatches, context }) => {
            assert_eq!(mismatches.len(), 1);
            assert_eq!(mismatches[0].line, 2);
            assert_eq!(mismatches[0].expected, hash);
            assert_eq!(mismatches[0].actual, compute_line_hash(2, "beta"));
            assert!(context.contains(&format_line_tag(2, "beta")));
        },
        other => panic!("unexpected {:?}", other),
    }
}

#[test]
fn hash_ignores_the_end_of_a_line_and_where_it_stands() {
    assert_eq!(compute_line_hash(1, "a b"), compute_line_hash(1, "a b \t\u{a0}"));
    assert_eq!(compute_line_hash(1, "a\rb\r"), compute_line_hash(1, "ab"));
    assert_eq!(compute_line_hash(1, "word"), compute_line_hash(99, "word"));
    assert_ne!(compute_line_hash(1, " a"), compute_line_hash(1, "a"));
}

#[test]
fn stale_edits_change_nothing_and_are_all_reported() {
    let text = "one\ntwo\nthree";
    let wrong = |line: usize| Anchor { line, hash: compute_line_hash(line, "other") };
    let edits = vec![
        replace_line(text, 1, &["ONE"]),
        HashlineEdit::ReplaceLine { pos: wrong(2), lines: strings(&["TWO"]) },
        HashlineEdit::AppendAt { pos: wrong(3), lines: strings(&["FOUR"]) },
    ];
    match apply_hashline_edits(text, &edits) {
        Err(EditError::HashMismatch { mismatches, .. }) => {
            let lines: Vec<usize> = mismatches.iter().map(|m| m.line).collect();
            assert_eq!(lines, vec![2, 3]);
        },
        other => panic!("unexpected {:?}", other),
    }
}

#[test]
fn single_edits_change_their_lines_only() {
    let text = "a\nb\nc";
    let at = |line: usize| anchor(text, line);
    let cases = vec![
        (HashlineEdit::ReplaceLine { pos: at(2), lines: strings(&["x", "y"]) }, "a\nx\ny\nc"),
        (HashlineEdit::ReplaceLine { pos: at(2), lines: vec![] }, "a\nc"),
        (HashlineEdit::ReplaceRange { pos: at(1), end: at(2), lines: strings(&["x"]) }, "x\nc"),
        (HashlineEdit::AppendAt { pos: at(1), lines: strings(&["x"]) }, "a\nx\nb\nc"),
        (HashlineEdit::AppendAt { pos: at(1), lines: vec![] }, "a\n\nb\nc"),
        (HashlineEdit::PrependAt { pos: at(1), lines: strings(&["x"]) }, "x\na\nb\nc"),
        (HashlineEdit::AppendFile { lines: strings(&["x"]) }, "a\nb\nc\nx"),
        (HashlineEdit::PrependFile { lines: strings(&["x"]) }, "x\na\nb\nc"),
        (HashlineEdit::ReplaceLine { pos: at(2), lines: strings(&["b"]) }, "a\nb\nc"),
    ];
    for (edit, expected) in cases {
        let r = apply_hashline_edits(text, &[edit]).expect("applied");
        assert_eq!(r.text, expected);
    }
}

#[test]
fn edits_in_any_order_act_on_the_original_lines() {
    let text = "1\n2\n3\n4\n5\n6";
    let edits = || {
        vec![
            replace_line(text, 1, &["one", "uno"]),
            HashlineEdit::ReplaceRange {
                pos: anchor(text, 3),
                end: anchor(text, 4),
                lines: strings(&[]),
            },
            HashlineEdit::AppendAt { pos: anchor(text, 6), lines: strings(&["end"]) },
        ]
    };
    let expected = "one\nuno\n2\n5\n6\nend";
    let r = apply_hashline_edits(text, &edits()).expect("applied");
    assert_eq!(r.text, expected);
    assert_eq!(r.first_changed_line, Some(1));
    let mut reversed = edits();
    reversed.reverse();
    assert_eq!(apply_hashline_edits(text, &reversed).expect("applied").text, expected);
}

#[test]
fn edits_on_one_line_go_by_precedence() {
    let text = "a\nb";
    let edits = vec![
        HashlineEdit::PrependAt { pos: anchor(text, 1), lines: strings(&["before"]) },
        HashlineEdit::AppendAt { pos: anchor(text, 1), lines: strings(&["after"]) },
        replace_line(text, 1, &["A"]),
    ];
    let r = apply_hashline_edits(text, &edits).expect("applied");
    assert_eq!(r.text, "before\nA\nafter\nb");
}

#[test]
fn overlapping_hashline_edits_fail() {
    let text = "1\n2\n3";
    let edits = vec![
        HashlineEdit::ReplaceRange {
            pos: anchor(text, 1),
            end: anchor(text, 3),
            lines: strings(&[]),
        },
        replace_line(text, 2, &["x"]),
    ];
    match apply_hashline_edits(text, &edits) {
        Err(EditError::ApplyError { message }) => {
            assert_eq!(message, "Edit at line 2 overlaps another edit that removed the line");
        },
        other => panic!("unexpected {:?}", other),
    }
}

#[test]
fn backward_range_and_missing_line_fail() {
    let text = "1\n2\n3";
    let edits = vec![HashlineEdit::ReplaceRange {
        pos: anchor(text, 3),
        end: anchor(text, 1),
        lines: strings(&["x"]),
    }];
    match apply_hashline_edits(text, &edits) {
        Err(EditError::ApplyError { message }) => {
            assert_eq!(message, "Range start line 3 must be <= end line 1");
        },
        other => panic!("unexpected {:?}", other),
    }
    let edits = vec![HashlineEdit::AppendAt {
        pos: Anchor { line: 9, hash: "ZZ".to_string() },
        lines: strings(&["x"]),
    }];
    match apply_hashline_edits(text, &edits) {
        Err(EditError::ApplyError { message }) => {
            assert_eq!(message, "Line 9 does not exist (file has 3 lines)");
        },
        other => panic!("unexpected {:?}", other),
    }
}

#[test]
fn tab_setting_is_on_unless_it_is_zero() {
    assert!(is_escaped_tab_autocorrect_enabled(None));
    assert!(is_escaped_tab_autocorrect_enabled(Some("1")));
    assert!(!is_escaped_tab_autocorrect_enabled(Some("0")));
    let text = "a";
    let on = HashlineApplyOptions { autocorrect_escaped_tabs: true };
    let r = apply_hashline_edits_with_options(text, &[replace_line(text, 1, &["\\t\\tx"])], on)
        .expect("applied");
    assert_eq!(r.text, "\t\tx");
    assert_eq!(r.warnings.len(), 1);
}

// -- Patches -----------------------------------------------------------

#[test]
fn marked_lines_count_on_their_sides() {
    let hunks = parse_hunks("@@ fn f\n a\n-b\n+c\n+d\n e").expect("parsed");
    assert_eq!(hunks.len(), 1);
    assert_eq!(hunks[0].old_lines, strings(&["a", "b", "e"]));
    assert_eq!(hunks[0].new_lines, strings(&["a", "c", "d", "e"]));
    assert!(hunks[0].has_context_lines);
}

#[test]
fn three_at_signs_are_a_context() {
    let hunks = parse_hunks("@@@\n-a\n+b").expect("parsed");
    assert_eq!(hunks.len(), 1);
    assert_eq!(hunks[0].change_context.as_deref(), Some("@"));
    assert_eq!(hunks[0].old_lines, strings(&["a"]));
}

#[test]
fn added_lines_are_the_created_content() {
    for content in ["a\nb", "x\n\ny\n", "+ plus"] {
        let given: Vec<String> = content.split('\n').map(|l| format!("+ {}", l)).collect();
        assert_eq!(normalize_create_content(&given.join("\n")), content);
    }
}

#[test]
fn exact_hunk_replaces_its_lines_and_no_other() {
    let content = "a\nb\nc\nd\nb\nc\n";
    let hunks = parse_hunks("@@\n b\n-c\n+C\n+C2").expect("parsed");
    let (text, warnings) = apply_hunks_to_content(
        content,
        "f.txt",
        &hunks,
        Double::from_bits(0.95f64.to_bits()),
        true,
        false,
    )
    .expect("applied");
    assert_eq!(text, "a\nb\nC\nC2\nd\nb\nc\n");
    assert!(warnings.is_empty());
}

#[test]
fn bare_hunk_replaces_the_only_occurrence() {
    let hunks = parse_hunks("@@\n-bb\n+B").expect("parsed");
    for (content, expected) in [("a\nbb\nc\n", "a\nB\nc\n"), ("a\nbb", "a\nB")] {
        let (text, _) = apply_hunks_to_content(
            content,
            "f.txt",
            &hunks,
            Double::from_bits(0.95f64.to_bits()),
            false,
            false,
        )
        .expect("applied");
        assert_eq!(text, expected);
    }
}

#[test]
fn final_line_feed_is_kept_or_added() {
    let hunks = parse_hunks("@@\n-a\n+b").expect("parsed");
    let threshold = Double::from_bits(0.95f64.to_bits());
    let apply = |content: &str, ensure: bool| {
        apply_hunks_to_content(content, "f", &hunks, threshold, false, ensure).expect("applied").0
    };
    assert_eq!(apply("a\n", false), "b\n");
    assert_eq!(apply("a", false), "b");
    assert_eq!(apply("a", true), "b\n");
}

#[test]
fn replacements_in_turn_are_made_at_once() {
    let lines = strings(&["0", "1", "2", "3", "4"]);
    let make = |start_index: usize, old_len: usize, new: &[&str]| Replacement {
        start_index,
        old_len,
        new_lines: strings(new),
    };
    let reps = sort_replacements(vec![make(3, 2, &["x"]), make(0, 1, &["a", "b"]), make(1, 0, &["c"])]);
    let starts: Vec<usize> = reps.iter().map(|r| r.start_index).collect();
    assert_eq!(starts, vec![0, 1, 3]);
    let expected = strings(&["a", "b", "c", "1", "2", "x"]);
    assert_eq!(apply_replacements(&lines, &reps), expected);
    assert_eq!(replace_back(&lines, &reps), Some(expected));
    assert_eq!(replace_back(&lines, &[make(4, 2, &[])]), None);
}

#[test]
fn common_lines_are_trimmed_from_both_sides() {
    let old = strings(&["a", "b", "c", "d"]);
    let new = strings(&["a", "x", "y", "d"]);
    let v = trim_common_context(&old, &new).expect("a variant");
    assert_eq!(v.old_lines, strings(&["b", "c"]));
    assert_eq!(v.new_lines, strings(&["x", "y"]));
}

#[test]
fn hints_lead_to_one_of_several_places() {
    let lines = strings(&["x", "a", "x", "a", "x"]);
    let hunks = parse_hunks("@@ -4,1 +4,1 @@\n-a\n+b").expect("parsed");
    let (reps, _) = compute_replacements(&lines, "f", &hunks, true).expect("planned");
    assert_eq!(reps.len(), 1);
    assert_eq!(reps[0].start_index, 3);
}

#[test]
fn failed_patches_leave_the_files() {
    let cases = vec![
        patch("a.txt", Operation::Create, Some("new"), None),
        patch("none.txt", Operation::Delete, None, None),
        patch("none.txt", Operation::Update, Some("@@\n-a\n+b"), None),
        patch("a.txt", Operation::Update, Some("@@\n-zzz zzz\n+b"), None),
        patch("a.txt", Operation::Update, None, None),
        patch("a.txt", Operation::Update, Some("@@\n-a\n+b"), Some("a.txt")),
    ];
    for input in cases {
        let mut fs = InMemoryFs::with_files(&[("a.txt", "a\n"), ("b.txt", "b\n")]);
        assert!(apply_patch(&input, &mut fs, ApplyPatchOptions::default()).is_err());
        let mut paths = fs.paths();
        paths.sort();
        assert_eq!(paths, strings(&["a.txt", "b.txt"]));
        assert_eq!(fs.read("a.txt").unwrap(), "a\n");
        assert_eq!(fs.read("b.txt").unwrap(), "b\n");
    }
}

#[test]
fn patched_files_read_back() {
    let mut fs = InMemoryFs::with_files(&[("a.txt", "\u{FEFF}a\r\nb\r\n"), ("keep.txt", "k")]);
    let input = patch("a.txt", Operation::Update, Some("@@\n-b\n+B"), Some("c.txt"));
    let shown = preview_patch(&input, &mut fs, ApplyPatchOptions::default()).expect("previewed");
    assert_eq!(fs.read("a.txt").unwrap(), "\u{FEFF}a\r\nb\r\n");
    let done = apply_patch(&input, &mut fs, ApplyPatchOptions::default()).expect("applied");
    assert_eq!(shown.change.new_content, done.change.new_content);
    assert_eq!(done.change.new_content.as_deref(), Some("a\nB\n"));
    assert_eq!(fs.read("c.txt").unwrap(), "\u{FEFF}a\r\nB\r\n");
    assert!(matches!(fs.read("a.txt"), Err(EditError::FileNotFound { .. })));
    assert_eq!(fs.read("keep.txt").unwrap(), "k");

    let input = patch("c.txt", Operation::Delete, None, None);
    apply_patch(&input, &mut fs, ApplyPatchOptions::default()).expect("deleted");
    assert_eq!(fs.paths(), strings(&["keep.txt"]));

    let input = patch("n.txt", Operation::Create, Some("+ x\n+ y"), None);
    apply_patch(&input, &mut fs, ApplyPatchOptions::default()).expect("created");
    assert_eq!(fs.read("n.txt").unwrap(), "x\ny\n");
}

#[test]
fn files_read_as_written() {
    let mut fs = InMemoryFs::new();
    fs.write("p", "1").unwrap();
    fs.write("q", "2").unwrap();
    fs.write("p", "3").unwrap();
    assert_eq!(fs.read("p").unwrap(), "3");
    assert_eq!(fs.read("q").unwrap(), "2");
    fs.delete("p").unwrap();
    assert!(!fs.file_exists("p").unwrap());
    assert!(fs.file_exists("q").unwrap());
    assert!(matches!(fs.delete("p"), Err(EditError::FileNotFound { .. })));
    fs.mkdir("dir").unwrap();
    assert_eq!(fs.paths(), strings(&["q"]));
}
