use libedit::diff::{
    generate_diff_string, generate_unified_diff_string, render_unified_diff, replace_text,
    DiffLine, LineTag, ReplaceOptions, UnifiedHunk,
};
use libedit::fuzzy::{
    find_closest_sequence_match, find_match, find_match_among, levenshtein_distance,
    line_includes_pattern, normalize_lines,
};
use libedit::hashline::{
    apply_hashline_edits, apply_hashline_edits_with_options, compute_line_hash,
    format_hash_lines, hash_of_checksum, Anchor, HashlineApplyOptions, HashlineEdit,
};
use libedit::locate::{choose_hinted_match, find_hierarchical_context};
use libedit::methods::hashline_method::strip_new_line_prefixes;
use libedit::normalize::{normalize_for_fuzzy, strip_bom};
use libedit::parser::parse_hunks;
use libedit::Double;

fn strings(lines: &[&str]) -> Vec<String> {
    lines.iter().map(|l| l.to_string()).collect()
}

fn anchor(line: usize, content: &str) -> Anchor {
    Anchor { line, hash: compute_line_hash(line, content) }
}

fn rewrite(line: usize, content: &str, new: &[&str]) -> HashlineEdit {
    HashlineEdit::ReplaceLine { pos: anchor(line, content), lines: strings(new) }
}

fn plain() -> HashlineApplyOptions {
    HashlineApplyOptions { autocorrect_escaped_tabs: false }
}

fn replace_every(content: &str, old: &str, new: &str) -> (String, usize) {
    let options = ReplaceOptions { fuzzy: true, all: true, threshold: None };
    let r = replace_text(content, old, new, &options).unwrap();
    (r.content, r.count)
}

// -- Hashline edits ------------------------------------------------------

#[test]
fn noop_index_is_that_of_the_given_array() {
    let edits =
        [rewrite(1, "a", &["A"]), rewrite(1, "a", &["A"]), rewrite(2, "b", &["b"])];
    let r = apply_hashline_edits_with_options("a\nb", &edits, plain()).unwrap();
    assert_eq!(r.text, "A\nb");
    assert_eq!(r.noop_edits.len(), 1);
    assert_eq!(r.noop_edits[0].edit_index, 2);
}

#[test]
fn deleting_a_line_is_not_blanking_it() {
    let edits = [rewrite(1, "", &[""]), rewrite(1, "", &[])];
    let r = apply_hashline_edits_with_options("\n", &edits, plain());
    match r {
        Ok(r) => {
            assert_eq!(r.text, "");
            assert!(r.first_changed_line.is_some());
        },
        Err(e) => panic!("{:?}", e),
    }
    let only = [rewrite(1, "", &[])];
    let r = apply_hashline_edits_with_options("\n", &only, plain()).unwrap();
    assert_eq!(r.text, "");
    assert_eq!(r.first_changed_line, Some(1));
}

#[test]
fn edits_with_the_same_text_are_one() {
    let edits = [rewrite(1, "a", &["x", "y"]), rewrite(1, "a", &["x\ny"])];
    let r = apply_hashline_edits_with_options("a\nb", &edits, plain()).unwrap();
    assert_eq!(r.text, "x\ny\nb");
    assert_eq!(r.first_changed_line, Some(1));
}

#[test]
fn no_line_changes_where_every_edit_keeps_its_line() {
    let text = "a\nb";
    let r = apply_hashline_edits_with_options(text, &[], plain()).unwrap();
    assert_eq!((r.text.as_str(), r.first_changed_line), (text, None));
    assert!(r.noop_edits.is_empty());
    let edits = [rewrite(2, "b", &["b"]), rewrite(1, "a", &["a"])];
    let r = apply_hashline_edits_with_options(text, &edits, plain()).unwrap();
    assert_eq!((r.text.as_str(), r.first_changed_line), (text, None));
    assert_eq!(r.noop_edits.len(), 2);
    let r = apply_hashline_edits_with_options(text, &[rewrite(2, "b", &[])], plain()).unwrap();
    assert_eq!(r.first_changed_line, Some(2));
}

#[test]
fn permuted_edits_of_disjoint_lines_agree() {
    let text = "a\nb\nc\nd\ne";
    let edits = [
        rewrite(1, "a", &["A", "AA"]),
        HashlineEdit::ReplaceRange {
            pos: anchor(2, "b"),
            end: anchor(3, "c"),
            lines: strings(&["BC"]),
        },
        HashlineEdit::AppendAt { pos: anchor(4, "d"), lines: strings(&["dd"]) },
        HashlineEdit::AppendFile { lines: strings(&["z"]) },
        HashlineEdit::PrependFile { lines: strings(&["0"]) },
    ];
    let expected = apply_hashline_edits(text, &edits).unwrap();
    assert_eq!(expected.text, "0\nA\nAA\nBC\nd\ndd\ne\nz");
    for order in [[4, 3, 2, 1, 0], [2, 0, 4, 1, 3], [1, 2, 3, 4, 0]] {
        let permuted: Vec<HashlineEdit> = order.iter().map(|&i| edits[i].clone()).collect();
        let r = apply_hashline_edits(text, &permuted).unwrap();
        assert_eq!(r.text, expected.text);
        assert_eq!(r.first_changed_line, expected.first_changed_line);
    }
}

fn bitwise_crc(seed: u32, data: &[u8]) -> u32 {
    let mut c = !seed;
    for b in data {
        c ^= *b as u32;
        for _ in 0..8 {
            c = if c & 1 == 1 { (c >> 1) ^ 0xEDB8_8320 } else { c >> 1 };
        }
    }
    !c
}

#[test]
fn hash_is_that_of_the_checksum() {
    assert_eq!(bitwise_crc(0, b"123456789"), 0xCBF4_3926);
    let long = "fn with_a_rather_long_name(and: Several, parameters: Too) -> Result<(), ()> {".repeat(5);
    for line in ["a", "123456789", "function hello() {", "\u{e9}t\u{e9} \u{1F980} 1", long.as_str()] {
        assert_eq!(compute_line_hash(7, line), hash_of_checksum(bitwise_crc(0, line.as_bytes())));
    }
    for (idx, line) in [(1, ""), (2, "}"), (70000, "\u{2026} {}")] {
        assert_eq!(
            compute_line_hash(idx, line),
            hash_of_checksum(bitwise_crc(idx as u32, line.as_bytes())),
        );
    }
}

#[test]
fn white_space_behind_a_line_and_its_number_leave_the_hash() {
    for s in ["x", "  return 1;", "\u{3042}"] {
        for w in ["", " ", "\t \r", "\r", " \u{a0}\u{3000}"] {
            for (i, j) in [(1, 1), (3, 900), (0, usize::MAX)] {
                let h = compute_line_hash(i, s);
                assert_eq!(h, compute_line_hash(j, &format!("{s}{w}")));
                assert_eq!(h.chars().count(), 2);
                assert!(h.chars().all(|c| "ZPMQVRWSNKTXJBYH".contains(c)));
            }
        }
    }
}

#[test]
fn white_space_is_not_alphanumeric() {
    for c in '\0'..=char::MAX {
        assert!(!(c.is_whitespace() && c.is_alphanumeric()));
    }
}

#[test]
fn displayed_lines_are_stripped_again() {
    for text in ["", "a", "a\nb\n", "1#ZZ:x\n+y\n\n  z: 2", "\n\n"] {
        for start in [1, 9, 1000] {
            let shown: Vec<String> =
                format_hash_lines(text, start).split('\n').map(str::to_string).collect();
            let lines: Vec<String> = text.split('\n').map(str::to_string).collect();
            assert_eq!(strip_new_line_prefixes(shown), lines);
        }
    }
}

// -- Lines compared --------------------------------------------------------

#[test]
fn lines_indented_alike_compare_alike() {
    let lines = ["a", "  b", "", "    c  d"];
    for k in [0, 1, 4, 7] {
        let moved: Vec<String> = lines.iter().map(|l| " ".repeat(k) + l).collect();
        let refs: Vec<&str> = moved.iter().map(String::as_str).collect();
        for depth in [true, false] {
            assert_eq!(normalize_lines(&refs, depth), normalize_lines(&lines, depth));
        }
    }
    for (form, line) in normalize_lines(&lines, false).iter().zip(lines) {
        assert_eq!(*form, format!("|{}", normalize_for_fuzzy(line)));
    }
}

#[test]
fn closest_lines_have_the_greatest_score() {
    let lines = ["let a = 1;", "let total = 2;", "let tota = 3;", "end"];
    let r = find_closest_sequence_match(&lines, &["let total = 3;"], None, false);
    assert_eq!(r.index, Some(1));
    let score = f64::from_bits(r.confidence.to_bits());
    assert_eq!(score, 1.0 - 1.0 / 14.0);
    let r = find_closest_sequence_match(&lines, &["let tota = 3;"], None, true);
    assert_eq!(r.index, Some(2));
    assert_eq!(f64::from_bits(r.confidence.to_bits()), 1.0);
}

#[test]
fn distance_is_the_least_number_of_edits() {
    assert_eq!(levenshtein_distance("kitten", "sitting"), 3);
    assert_eq!(levenshtein_distance("flaw", "lawn"), 2);
    assert_eq!(levenshtein_distance("abc", "abcdef"), 3);
    assert_eq!(levenshtein_distance("", "\u{e9}"), 2);
}

#[test]
fn short_patterns_are_never_part_of_a_line() {
    assert!(!line_includes_pattern("", ""));
    assert!(!line_includes_pattern("abcde", "abcde"));
    assert!(line_includes_pattern("abcdef", "abcdef"));
}

#[test]
fn literal_context_comes_before_its_parts() {
    let lines = ["a b", "c", "a b c"];
    assert_eq!(find_hierarchical_context(&lines, "a b c", 0, None, true).index, Some(2));
    let lines = ["a b", "c", "d"];
    assert_eq!(find_hierarchical_context(&lines, "a b c", 0, None, true).index, Some(1));
}

#[test]
fn listed_occurrences_may_overlap() {
    let o = find_match("aaaa", "aa", false, None);
    assert_eq!(o.occurrences, Some(2));
    assert_eq!(o.occurrence_lines, vec![1, 1, 1]);
    assert_eq!(o.occurrence_previews.len(), 3);
    let o = find_match("x\n\n\n\n", "\n\n", false, None);
    assert_eq!(o.occurrences, Some(2));
    assert_eq!(o.occurrence_lines, vec![1, 2, 3]);
}

#[test]
fn huge_hint_is_near_nothing() {
    assert_eq!(choose_hinted_match(&[0, 1], Some(usize::MAX), 5), None);
    assert_eq!(choose_hinted_match(&[0, 9], Some(6), 3), Some(9));
    assert_eq!(choose_hinted_match(&[0, 9], Some(6), usize::MAX), None);
}

#[test]
fn search_among_places_sees_no_others() {
    let content = "alpha beta gamma\n--\nalpha beta gamXa";
    let threshold = Double::from_bits(0.8f64.to_bits());
    let o = find_match_among(content, "alpha beta gamma", &[1, 2], true, threshold);
    assert_eq!(o.matched.map(|m| m.start_line), Some(3));
    let o = find_match_among(content, "alpha beta gamma", &[], true, threshold);
    assert!(o.matched.is_none() && o.closest.is_none());
}

// -- Diffs and replacements ----------------------------------------------

#[test]
fn first_change_may_be_a_deletion() {
    let r = generate_unified_diff_string("a\nb\nc\n", "a\nc\n", 3);
    assert_eq!(r.first_changed_line, Some(2));
    for (old, new) in [
        ("a\nb\nc\n", "a\nc\n"),
        ("a\n", ""),
        ("a\nb\n", "a\n"),
        ("1\n2\n3\n4\n5\n6\n7\n8\n9\n", "1\n2\n3\n4\n5\n6\n7\n9\n"),
        ("1\n2\n3\n4\n5\n6\n7\n8\n9\n", "1\n2\n3\n4\nx\n6\n7\n9\n"),
        ("a\n", "a\nb\n"),
        ("", "a\n"),
    ] {
        for context in [0, 1, 3] {
            let unified = generate_unified_diff_string(old, new, context);
            let numbered = generate_diff_string(old, new, context);
            assert!(unified.first_changed_line.is_some());
            assert_eq!(unified.first_changed_line, numbered.first_changed_line);
        }
    }
}

#[test]
fn hunks_are_rendered_from_their_lines() {
    let line = |tag, old_index, new_index, text: &str| DiffLine {
        tag,
        old_index,
        new_index,
        text: text.to_string(),
    };
    let hunk = UnifiedHunk {
        header: "@@ -5,2 +6 @@".to_string(),
        new_start: 5,
        lines: vec![
            line(LineTag::Equal, Some(4), Some(5), "same\n"),
            line(LineTag::Delete, Some(5), None, "gone\n"),
        ],
    };
    let r = render_unified_diff(&[hunk], 1);
    assert_eq!(r.diff, "@@ -5,2 +6 @@\n 5|same\n-6|gone");
    assert_eq!(r.first_changed_line, Some(7));
}

#[test]
fn replaced_text_is_not_searched_again() {
    let old = "let total = compute(a, b);";
    let new = "let total = compute(a, b); // ok";
    assert_eq!(replace_every("let total = compute(a, c);", old, new), (new.to_string(), 1));
    let content = "first\nlet total = compute(a, c);\nlast";
    assert_eq!(replace_every(content, old, new), (format!("first\n{new}\nlast"), 1));
    assert_eq!(replace_every("", old, new), (String::new(), 0));
    let two = "let total = compute(a, b);\nlet total = compute(a, b);";
    assert_eq!(replace_every(two, old, new), (format!("{new}\n{new}"), 2));
}

const SOUGHT: &str = "alpha beta gamma delta epsilon zeta";
const NEAR: &str = "alpha beta gamma delta epsilon zetX";
const FAR: &str = "alpha beta gamXX delta epsiXXn zeta";
const FAR_TOO: &str = "alpha beta gamma deXXX epsiXXn zeta";

fn replace_at_80(content: &str, new: &str) -> (String, usize) {
    let threshold = Some(Double::from_bits(0.8f64.to_bits()));
    let options = ReplaceOptions { fuzzy: true, all: true, threshold };
    let r = replace_text(content, SOUGHT, new, &options).unwrap();
    (r.content, r.count)
}

#[test]
fn every_similar_place_with_a_single_best_is_replaced() {
    let content = format!("{NEAR}\n--\n{FAR}");
    assert_eq!(replace_at_80(&content, "new"), ("new\n--\nnew".to_string(), 2));
    assert_eq!(replace_at_80(&content, "n\nm"), ("n\nm\n--\nn\nm".to_string(), 2));
}

#[test]
fn several_similar_places_are_left() {
    let content = format!("{FAR}\n--\n{NEAR}\n--\n{FAR_TOO}");
    let expected = format!("{FAR}\n--\nnew\n--\n{FAR_TOO}");
    assert_eq!(replace_at_80(&content, "new"), (expected, 1));
}

#[test]
fn written_text_that_is_the_best_match_is_the_end() {
    let content = format!("{NEAR}\n--\n{FAR}");
    let new = "alpha beta gamma delta epsilon zetY";
    assert_eq!(replace_at_80(&content, new), (format!("{new}\n--\n{FAR}"), 1));
    let twice = format!("{SOUGHT} {SOUGHT}");
    assert_eq!(replace_at_80(&content, &twice), (format!("{twice}\n--\n{FAR}"), 1));
}

#[test]
fn search_goes_on_beside_written_text_that_would_match_again() {
    let content = format!("{NEAR}\n--\n{FAR}");
    let new = format!("{SOUGHT} // ok");
    assert_eq!(replace_at_80(&content, &new), (format!("{new}\n--\n{new}"), 2));
    let content = format!("{FAR}\n--\n{NEAR}\n--\n{FAR_TOO}");
    let expected = format!("{FAR}\n--\n{new}\n--\n{FAR_TOO}");
    assert_eq!(replace_at_80(&content, &new), (expected, 1));
}

// -- Values copied and compared ------------------------------------------

#[test]
fn values_are_cloned_and_compared() {
    let edit = rewrite(1, "a", &["b"]);
    assert_eq!(format!("{:?}", edit.clone()), format!("{:?}", edit));
    let hunk = parse_hunks("@@\n-a\n+b").unwrap().remove(0);
    assert_eq!(hunk.clone().new_lines, vec!["b".to_string()]);
    assert_eq!(strip_bom("\u{feff}a"), strip_bom("\u{feff}a"));
    assert_ne!(strip_bom("\u{feff}a"), strip_bom("a"));
}
