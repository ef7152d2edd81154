use libedit::error::{EditError, HashMismatch};

#[test]
fn parse_error_with_line_number() {
    let err =
        EditError::ParseError { message: "unexpected token".into(), line_number: Some(42) };
    assert_eq!(err.to_string(), "Line 42: unexpected token");
}

#[test]
fn parse_error_without_line_number() {
    let err = EditError::ParseError { message: "empty input".into(), line_number: None };
    assert_eq!(err.to_string(), "empty input");
}

#[test]
fn hash_mismatch_message_includes_context() {
    let err = EditError::HashMismatch {
        mismatches: vec![HashMismatch {
            line:     3,
            expected: "ZZ".into(),
            actual:   "PM".into(),
        }],
        context:    ">>> 3#PM:changed".into(),
    };
    let rendered = err.to_string();
    assert!(rendered.contains("changed since last read"));
    assert!(rendered.contains(">>> 3#PM:changed"));
}

#[test]
fn ambiguous_match_includes_file() {
    let err = EditError::AmbiguousMatch {
        file:     "src/lib.rs".into(),
        count:    2,
        previews: "  10 | foo".into(),
    };
    assert!(err.to_string().contains("src/lib.rs"));
    assert!(err.to_string().contains("2 occurrences"));
}
