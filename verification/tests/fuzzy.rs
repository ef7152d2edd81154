use libedit::double::Double;
use libedit::fuzzy::{
    compute_line_offsets, find_closest_sequence_match, find_context_line, find_match,
    levenshtein_distance, line_includes_pattern, line_starts_with_pattern, seek_sequence,
    similarity, strip_comment_prefix, ContextMatchStrategy, SequenceMatchStrategy,
};

fn value(x: Double) -> f64 {
    f64::from_bits(x.to_bits())
}

fn double(x: f64) -> Double {
    Double::from_bits(x.to_bits())
}

// -- levenshtein_distance --

#[test]
fn levenshtein_identical() {
    assert_eq!(levenshtein_distance("abc", "abc"), 0);
}

#[test]
fn levenshtein_empty_strings() {
    assert_eq!(levenshtein_distance("", ""), 0);
    assert_eq!(levenshtein_distance("abc", ""), 3);
    assert_eq!(levenshtein_distance("", "xyz"), 3);
}

#[test]
fn levenshtein_single_edit() {
    assert_eq!(levenshtein_distance("kitten", "sitten"), 1);
    assert_eq!(levenshtein_distance("kitten", "kittens"), 1);
    assert_eq!(levenshtein_distance("kitten", "kiten"), 1);
}

#[test]
fn levenshtein_multi_edit() {
    assert_eq!(levenshtein_distance("kitten", "sitting"), 3);
}

// -- similarity --

#[test]
fn similarity_identical() {
    assert!((value(similarity("hello", "hello")) - 1.0).abs() < f64::EPSILON);
}

#[test]
fn similarity_empty() {
    assert!((value(similarity("", "")) - 1.0).abs() < f64::EPSILON);
}

#[test]
fn similarity_completely_different() {
    let s = value(similarity("abc", "xyz"));
    assert!(s < 0.01, "expected near 0, got {s}");
}

#[test]
fn similarity_partial() {
    let s = value(similarity("hello", "helo"));
    // distance 1, max_len 5 => 0.8
    assert!((s - 0.8).abs() < f64::EPSILON);
}

// -- find_match --

#[test]
fn find_match_empty_target() {
    let r = find_match("some content", "", false, None);
    assert!(r.matched.is_none());
    assert!(r.closest.is_none());
}

#[test]
fn find_match_exact_single() {
    let content = "line one\nline two\nline three";
    let r = find_match(content, "line two", false, None);
    let m = r.matched.expect("should find exact match");
    assert_eq!(m.actual_text, "line two");
    assert_eq!(m.start_line, 2);
    assert!((value(m.confidence) - 1.0).abs() < f64::EPSILON);
}

#[test]
fn find_match_exact_multiple_occurrences() {
    let content = "foo\nbar\nfoo\nbaz\nfoo";
    let r = find_match(content, "foo", false, None);
    assert!(r.matched.is_none(), "ambiguous: should not return a match");
    assert_eq!(r.occurrences, Some(3));
    assert_eq!(r.occurrence_lines.len(), 3);
    assert_eq!(r.occurrence_lines, vec![1, 3, 5]);
}

#[test]
fn find_match_fuzzy_allowed() {
    // Content with a slight typo vs the target
    let content = "fn process_data() {\n    let result = compute();\n    return result;\n}";
    let target = "fn process_data() {\n    let rsult = compute();\n    return result;\n}";
    let r = find_match(content, target, true, Some(double(0.9)));
    assert!(r.matched.is_some() || r.closest.is_some());
}

#[test]
fn find_match_fuzzy_not_allowed() {
    let content = "fn process_data() {\n    let result = compute();\n    return result;\n}";
    let target = "fn process_data() {\n    let rsult = compute();\n    return result;\n}";
    let r = find_match(content, target, false, None);
    // Not an exact match, fuzzy not allowed → no matched
    assert!(r.matched.is_none());
}

// -- seek_sequence --

#[test]
fn seek_sequence_empty_pattern() {
    let lines = vec!["a", "b", "c"];
    let r = seek_sequence(&lines, &[], 0, false, true);
    assert_eq!(r.index, Some(0));
    assert!((value(r.confidence) - 1.0).abs() < f64::EPSILON);
}

#[test]
fn seek_sequence_exact() {
    let lines = vec!["alpha", "beta", "gamma", "delta"];
    let pattern = vec!["beta", "gamma"];
    let r = seek_sequence(&lines, &pattern, 0, false, true);
    assert_eq!(r.index, Some(1));
    assert!((value(r.confidence) - 1.0).abs() < f64::EPSILON);
    assert_eq!(r.strategy, Some(SequenceMatchStrategy::Exact));
}

#[test]
fn seek_sequence_trim() {
    let lines = vec!["  alpha  ", "  beta  ", "  gamma  "];
    let pattern = vec!["alpha", "beta"];
    let r = seek_sequence(&lines, &pattern, 0, false, true);
    assert_eq!(r.index, Some(0));
    assert!(value(r.confidence) >= 0.98);
    assert_eq!(r.strategy, Some(SequenceMatchStrategy::Trim));
}

#[test]
fn seek_sequence_pattern_too_long() {
    let lines = vec!["a"];
    let pattern = vec!["a", "b", "c"];
    let r = seek_sequence(&lines, &pattern, 0, false, true);
    assert!(r.index.is_none());
}

#[test]
fn seek_sequence_eof_prefers_end() {
    let lines = vec!["x", "y", "x", "y"];
    let pattern = vec!["x", "y"];
    // With eof=true, search starts from the end
    let r = seek_sequence(&lines, &pattern, 0, true, true);
    assert_eq!(r.index, Some(2));
    assert_eq!(r.strategy, Some(SequenceMatchStrategy::Exact));
}

#[test]
fn seek_sequence_fuzzy_fallback() {
    let lines = vec!["fn main() {", "    println!(\"hello world\");", "}"];
    // Slight typo: "helo" instead of "hello"
    let pattern = vec!["fn main() {", "    println!(\"helo world\");", "}"];
    let r = seek_sequence(&lines, &pattern, 0, false, true);
    assert_eq!(r.index, Some(0));
    assert!(value(r.confidence) > 0.9);
}

// -- find_context_line --

#[test]
fn context_line_exact() {
    let lines = vec!["foo", "bar", "baz"];
    let r = find_context_line(&lines, "bar", 0, true);
    assert_eq!(r.index, Some(1));
    assert!((value(r.confidence) - 1.0).abs() < f64::EPSILON);
    assert_eq!(r.strategy, Some(ContextMatchStrategy::Exact));
}

#[test]
fn context_line_trimmed() {
    let lines = vec!["  foo  ", "  bar  ", "  baz  "];
    let r = find_context_line(&lines, "bar", 0, true);
    assert_eq!(r.index, Some(1));
    assert_eq!(r.strategy, Some(ContextMatchStrategy::Trim));
}

#[test]
fn context_line_not_found() {
    let lines = vec!["foo", "bar", "baz"];
    let r = find_context_line(&lines, "completely_different_xxxxxx", 0, true);
    assert!(r.index.is_none());
}

#[test]
fn context_line_function_fallback() {
    let lines = vec!["fn process(data: &str) {", "    // body", "}"];
    // Context ends with "()" — should retry with "(" and without
    let r = find_context_line(&lines, "fn process()", 0, true);
    // Should match via prefix or substring fallback
    assert!(r.index.is_some());
}

// -- strip_comment_prefix --

#[test]
fn strip_comment_various() {
    assert_eq!(strip_comment_prefix("// hello"), "hello");
    assert_eq!(strip_comment_prefix("# comment"), "comment");
    assert_eq!(strip_comment_prefix("/* block */"), "block */");
    assert_eq!(strip_comment_prefix("  * item"), "item");
    assert_eq!(strip_comment_prefix("; lisp"), "lisp");
}

// -- line_starts_with_pattern --

#[test]
fn starts_with_pattern() {
    assert!(line_starts_with_pattern("  hello world  ", "hello"));
    assert!(!line_starts_with_pattern("  world hello  ", "hello"));
}

// -- line_includes_pattern --

#[test]
fn includes_pattern_significant() {
    // Pattern "process_data" is 12 chars, well above minimum 6
    assert!(line_includes_pattern("fn process_data(x: i32) -> bool {", "process_data"));
}

#[test]
fn includes_pattern_too_short() {
    // Pattern "fn" is only 2 chars, below minimum 6
    assert!(!line_includes_pattern("fn main() {}", "fn"));
}

// -- compute_line_offsets --

#[test]
fn line_offsets() {
    let lines = vec!["abc", "de", "f"];
    let offsets = compute_line_offsets(&lines);
    // "abc" at 0, "de" at 4 (3 + newline), "f" at 7 (4+2+1)
    assert_eq!(offsets, vec![0, 4, 7]);
}

// -- find_closest_sequence_match --

#[test]
fn closest_sequence_empty_pattern() {
    let lines = vec!["a", "b"];
    let r = find_closest_sequence_match(&lines, &[], None, false);
    assert_eq!(r.index, Some(0));
    assert!((value(r.confidence) - 1.0).abs() < f64::EPSILON);
}

#[test]
fn closest_sequence_basic() {
    let lines = vec!["alpha", "beta", "gamma"];
    let pattern = vec!["bta", "gama"]; // typos
    let r = find_closest_sequence_match(&lines, &pattern, None, false);
    assert_eq!(r.index, Some(1));
    assert!(value(r.confidence) > 0.5);
}
