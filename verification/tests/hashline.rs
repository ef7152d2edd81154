use libedit::error::{EditError, HashMismatch};
use libedit::hashline::{
    apply_hashline_edits, apply_hashline_edits_with_options, compute_line_hash,
    format_hash_lines, format_hash_mismatch_error, format_line_tag, parse_tag, try_parse_tag,
    validate_line_ref, Anchor, HashlineApplyOptions, HashlineEdit, NIBBLE_STR,
};

// -- Hashing -----------------------------------------------------------

#[test]
fn hash_deterministic() {
    let h1 = compute_line_hash(1, "hello world");
    let h2 = compute_line_hash(1, "hello world");
    assert_eq!(h1, h2);
    assert_eq!(h1.len(), 2);
}

#[test]
fn hash_strips_trailing_whitespace_and_cr() {
    let h1 = compute_line_hash(1, "hello");
    let h2 = compute_line_hash(1, "hello   \r");
    assert_eq!(h1, h2);
}

#[test]
fn hash_empty_string() {
    let h = compute_line_hash(1, "");
    assert_eq!(h.len(), 2);
    // Empty line uses idx as seed, so different indices yield different seeds.
    // Whether the final byte differs depends on CRC32 — just verify both are valid.
    let h2 = compute_line_hash(100, "");
    // Use a distant index to make collision unlikely.
    assert_eq!(h2.len(), 2);
    // Verify the seed is actually used (different from seed=0).
    let _h_zero_seed = compute_line_hash(1, "abc"); // has significant chars → seed=0
    // h (seed=1) and h_zero_seed (seed=0) computed on different content, so no
    // assertion here. Just confirm no panic and valid output.
    assert!(NIBBLE_STR.contains(h.chars().next().expect("non-empty hash")));
}

#[test]
fn hash_non_significant_uses_idx_seed() {
    // Lines with only punctuation/whitespace should use idx as seed.
    let h1 = compute_line_hash(1, "  ---  ");
    let h2 = compute_line_hash(2, "  ---  ");
    assert_ne!(h1, h2);
}

#[test]
fn hash_nibble_alphabet_only() {
    let h = compute_line_hash(42, "fn main() {}");
    for c in h.chars() {
        assert!(NIBBLE_STR.contains(c), "char '{c}' not in NIBBLE_STR");
    }
}

// -- Formatting --------------------------------------------------------

#[test]
fn format_line_tag_format() {
    let tag = format_line_tag(3, "let x = 1;");
    assert!(tag.starts_with("3#"));
    assert_eq!(tag.len(), 4); // "3#XX"
}

#[test]
fn format_hash_lines_basic() {
    let out = format_hash_lines("alpha\nbeta", 1);
    let lines: Vec<&str> = out.split('\n').collect();
    assert_eq!(lines.len(), 2);
    assert!(lines[0].contains(":alpha"));
    assert!(lines[1].contains(":beta"));
    assert!(lines[0].starts_with("1#"));
    assert!(lines[1].starts_with("2#"));
}

// -- Parsing -----------------------------------------------------------

#[test]
fn parse_tag_basic() {
    let anchor = parse_tag("5#ZP").expect("should parse");
    assert_eq!(anchor.line, 5);
    assert_eq!(anchor.hash, "ZP");
}

#[test]
fn parse_tag_with_prefix_and_suffix() {
    let anchor = parse_tag("> 10#MQ:some content").expect("should parse");
    assert_eq!(anchor.line, 10);
    assert_eq!(anchor.hash, "MQ");
}

#[test]
fn parse_tag_with_plus_prefix() {
    let anchor = parse_tag("+5#HB").expect("should parse");
    assert_eq!(anchor.line, 5);
    assert_eq!(anchor.hash, "HB");
}

#[test]
fn parse_tag_with_spaces_around_hash() {
    let anchor = parse_tag("  5 # ZP").expect("should parse");
    assert_eq!(anchor.line, 5);
    assert_eq!(anchor.hash, "ZP");
}

#[test]
fn parse_tag_invalid() {
    assert!(parse_tag("not_a_tag").is_err());
    assert!(parse_tag("5#aa").is_err()); // lowercase not in NIBBLE_STR
    assert!(parse_tag("").is_err());
}

#[test]
fn try_parse_tag_returns_none() {
    assert!(try_parse_tag("garbage").is_none());
    assert!(try_parse_tag("5#ZP").is_some());
}

// -- Validation --------------------------------------------------------

#[test]
fn validate_line_ref_ok() {
    let line = "hello world";
    let hash = compute_line_hash(1, line);
    let anchor = Anchor { line: 1, hash };
    assert!(validate_line_ref(&anchor, &[line]).is_ok());
}

#[test]
fn validate_line_ref_mismatch() {
    let anchor = Anchor { line: 1, hash: "ZZ".to_string() };
    let result = validate_line_ref(&anchor, &["hello"]);
    assert!(result.is_err());
    let err = result.unwrap_err();
    assert!(matches!(err, EditError::HashMismatch { .. }));
}

#[test]
fn validate_line_ref_out_of_range() {
    let anchor = Anchor { line: 5, hash: "ZP".to_string() };
    let result = validate_line_ref(&anchor, &["only one line"]);
    assert!(result.is_err());
}

// -- Edit application --------------------------------------------------

#[test]
fn apply_empty_edits() {
    let result = apply_hashline_edits("hello\nworld", &[]).expect("should succeed");
    assert_eq!(result.text, "hello\nworld");
    assert_eq!(result.first_changed_line, None);
}

#[test]
fn apply_replace_line() {
    let text = "aaa\nbbb\nccc";
    let hash = compute_line_hash(2, "bbb");
    let edits = vec![HashlineEdit::ReplaceLine {
        pos:   Anchor { line: 2, hash },
        lines: vec!["BBB".to_string()],
    }];
    let result = apply_hashline_edits(text, &edits).expect("should succeed");
    assert_eq!(result.text, "aaa\nBBB\nccc");
    assert_eq!(result.first_changed_line, Some(2));
}

#[test]
fn apply_replace_range() {
    let text = "aaa\nbbb\nccc\nddd";
    let hash2 = compute_line_hash(2, "bbb");
    let hash3 = compute_line_hash(3, "ccc");
    let edits = vec![HashlineEdit::ReplaceRange {
        pos:   Anchor { line: 2, hash: hash2 },
        end:   Anchor { line: 3, hash: hash3 },
        lines: vec!["XXX".to_string()],
    }];
    let result = apply_hashline_edits(text, &edits).expect("should succeed");
    assert_eq!(result.text, "aaa\nXXX\nddd");
    assert_eq!(result.first_changed_line, Some(2));
}

#[test]
fn apply_append_at() {
    let text = "aaa\nbbb";
    let hash1 = compute_line_hash(1, "aaa");
    let edits = vec![HashlineEdit::AppendAt {
        pos:   Anchor { line: 1, hash: hash1 },
        lines: vec!["INSERTED".to_string()],
    }];
    let result = apply_hashline_edits(text, &edits).expect("should succeed");
    assert_eq!(result.text, "aaa\nINSERTED\nbbb");
}

#[test]
fn apply_prepend_at() {
    let text = "aaa\nbbb";
    let hash2 = compute_line_hash(2, "bbb");
    let edits = vec![HashlineEdit::PrependAt {
        pos:   Anchor { line: 2, hash: hash2 },
        lines: vec!["INSERTED".to_string()],
    }];
    let result = apply_hashline_edits(text, &edits).expect("should succeed");
    assert_eq!(result.text, "aaa\nINSERTED\nbbb");
}

#[test]
fn apply_append_file_to_empty() {
    // A file with only one empty line should be replaced, not appended to.
    let text = "";
    let edits = vec![HashlineEdit::AppendFile { lines: vec!["new content".to_string()] }];
    let result = apply_hashline_edits(text, &edits).expect("should succeed");
    assert_eq!(result.text, "new content");
    assert_eq!(result.first_changed_line, Some(1));
}

#[test]
fn apply_prepend_file() {
    let text = "existing";
    let edits = vec![HashlineEdit::PrependFile { lines: vec!["first".to_string()] }];
    let result = apply_hashline_edits(text, &edits).expect("should succeed");
    assert_eq!(result.text, "first\nexisting");
    assert_eq!(result.first_changed_line, Some(1));
}

#[test]
fn apply_hash_mismatch_error() {
    let text = "hello\nworld";
    let edits = vec![HashlineEdit::ReplaceLine {
        pos:   Anchor {
            line: 1,
            hash: "ZZ".to_string(), // wrong hash
        },
        lines: vec!["goodbye".to_string()],
    }];
    let result = apply_hashline_edits(text, &edits);
    assert!(result.is_err());
    let err = result.unwrap_err();
    assert!(matches!(err, EditError::HashMismatch { .. }));
}

#[test]
fn apply_deduplicates_identical_edits() {
    let text = "aaa\nbbb\nccc";
    let hash2 = compute_line_hash(2, "bbb");
    let edits = vec![
        HashlineEdit::ReplaceLine {
            pos:   Anchor { line: 2, hash: hash2.clone() },
            lines: vec!["BBB".to_string()],
        },
        HashlineEdit::ReplaceLine {
            pos:   Anchor { line: 2, hash: hash2 },
            lines: vec!["BBB".to_string()],
        },
    ];
    let result = apply_hashline_edits(text, &edits).expect("should succeed");
    assert_eq!(result.text, "aaa\nBBB\nccc");
}

#[test]
fn apply_noop_detection() {
    let text = "aaa\nbbb\nccc";
    let hash2 = compute_line_hash(2, "bbb");
    let edits = vec![HashlineEdit::ReplaceLine {
        pos:   Anchor { line: 2, hash: hash2 },
        lines: vec!["bbb".to_string()], // same content
    }];
    let result = apply_hashline_edits(text, &edits).expect("should succeed");
    assert_eq!(result.text, "aaa\nbbb\nccc");
    assert_eq!(result.noop_edits.len(), 1);
}

#[test]
fn escaped_tab_autocorrect() {
    let text = "line1";
    let hash = compute_line_hash(1, "line1");
    let edits = vec![HashlineEdit::ReplaceLine {
        pos:   Anchor { line: 1, hash },
        lines: vec!["\\t\\tindented".to_string()],
    }];
    let result = apply_hashline_edits(text, &edits).expect("should succeed");
    assert_eq!(result.text, "\t\tindented");
    assert!(!result.warnings.is_empty());
}

#[test]
fn escaped_tab_autocorrect_can_be_disabled() {
    let text = "line1";
    let hash = compute_line_hash(1, "line1");
    let edits = vec![HashlineEdit::ReplaceLine {
        pos:   Anchor { line: 1, hash },
        lines: vec!["\\t\\tindented".to_string()],
    }];
    let result = apply_hashline_edits_with_options(text, &edits, HashlineApplyOptions {
        autocorrect_escaped_tabs: false,
    })
    .expect("should succeed");
    assert_eq!(result.text, "\\t\\tindented");
    assert!(result.warnings.is_empty());
}

#[test]
fn format_hash_mismatch_error_message() {
    let lines = vec!["aaa", "bbb", "ccc", "ddd", "eee"];
    let mismatches = vec![HashMismatch {
        line:     3,
        expected: "ZZ".to_string(),
        actual:   compute_line_hash(3, "ccc"),
    }];
    let msg = format_hash_mismatch_error(&mismatches, &lines);
    assert!(msg.contains(">>> "));
    assert!(msg.contains("1 line has changed"));
}

#[test]
fn multiple_edits_sorted_bottom_up() {
    let text = "a\nb\nc\nd";
    let hash1 = compute_line_hash(1, "a");
    let hash3 = compute_line_hash(3, "c");
    let edits = vec![
        HashlineEdit::ReplaceLine {
            pos:   Anchor { line: 1, hash: hash1 },
            lines: vec!["A".to_string()],
        },
        HashlineEdit::ReplaceLine {
            pos:   Anchor { line: 3, hash: hash3 },
            lines: vec!["C".to_string()],
        },
    ];
    let result = apply_hashline_edits(text, &edits).expect("should succeed");
    assert_eq!(result.text, "A\nb\nC\nd");
    assert_eq!(result.first_changed_line, Some(1));
}
