//! Error types.
//!
//! Failures are explicit, so that an orchestrator can retry with better input
//! instead of treating every problem as an opaque "edit failed".

use crate::text::{blank, decimal, is_blank, opt_nat, show};
use vstd::prelude::*;
use vstd::string::*;

verus! {

/// A single stale hashline reference.
#[derive(Debug, PartialEq, Eq)]
pub struct HashMismatch {
    /// 1-indexed line number whose hash no longer matches.
    pub line: usize,
    /// Hash supplied by the caller.
    pub expected: String,
    /// Hash computed from the current file content.
    pub actual: String,
}

/// A stale reference, by its contents.
pub ghost struct MismatchView {
    /// The line number.
    pub line: nat,
    /// The hash that was supplied.
    pub expected: Seq<char>,
    /// The hash of the line.
    pub actual: Seq<char>,
}

impl View for HashMismatch {
    type V = MismatchView;

    open spec fn view(&self) -> MismatchView {
        MismatchView { line: self.line as nat, expected: self.expected@, actual: self.actual@ }
    }
}

impl Clone for HashMismatch {
    fn clone(&self) -> (r: HashMismatch)
        ensures
            r@ == self@,
    {
        HashMismatch {
            line: self.line,
            expected: self.expected.clone(),
            actual: self.actual.clone(),
        }
    }
}

/// The stale references, by their contents.
pub open spec fn mismatch_views(v: Seq<HashMismatch>) -> Seq<MismatchView> {
    Seq::new(v.len(), |i: int| v[i]@)
}

/// The error of all edit operations.
#[derive(Debug)]
pub enum EditError {
    /// The target file does not exist.
    FileNotFound { path: String },
    /// The caller attempted to create a file that already exists.
    FileAlreadyExists { path: String },
    /// An anchor could not be parsed or resolved.
    AnchorNotFound { anchor: String, file: String },
    /// One or more hashline references are stale. The context shows the lines
    /// with updated `LINE#ID` markers.
    HashMismatch { mismatches: Vec<HashMismatch>, context: String },
    /// The requested old text or hunk matched multiple locations. The previews
    /// help to disambiguate.
    AmbiguousMatch { file: String, count: usize, previews: String },
    /// No acceptable match could be found.
    NoMatch { file: String, detail: String },
    /// The edit would not change the file.
    NoChanges { file: String, detail: String },
    /// Failed to parse tool input or diff hunks, at a 1-based line number if it
    /// is known.
    ParseError { message: String, line_number: Option<usize> },
    /// A single-file patch contained multiple file markers.
    MultiFilePatch { count: usize },
    /// Patch hunks target overlapping ranges.
    OverlappingHunks { file: String, range1: String, range2: String },
    /// Caller supplied malformed or incomplete JSON input.
    InvalidInput { message: String },
    /// Caller supplied an invalid range or line hint.
    InvalidRange { message: String },
    /// Move/rename target is identical to the source.
    SamePathRename,
    /// Generic match failure of helper-level functions.
    MatchError { path: String, message: String },
    /// Generic application failure of helper-level functions.
    ApplyError { message: String },
    /// Generic validation failure of helper-level functions.
    ValidationError { message: String },
    /// Filesystem I/O error.
    Io { path: String, message: String },
    /// JSON serialization/deserialization error.
    JsonError { message: String },
}

/// An error, by its contents.
#[verifier::ext_equal]
pub ghost enum ErrorView {
    /// See [`EditError::FileNotFound`].
    FileNotFound { path: Seq<char> },
    /// See [`EditError::FileAlreadyExists`].
    FileAlreadyExists { path: Seq<char> },
    /// See [`EditError::AnchorNotFound`].
    AnchorNotFound { anchor: Seq<char>, file: Seq<char> },
    /// See [`EditError::HashMismatch`].
    HashMismatch { mismatches: Seq<MismatchView>, context: Seq<char> },
    /// See [`EditError::AmbiguousMatch`].
    AmbiguousMatch { file: Seq<char>, count: nat, previews: Seq<char> },
    /// See [`EditError::NoMatch`].
    NoMatch { file: Seq<char>, detail: Seq<char> },
    /// See [`EditError::NoChanges`].
    NoChanges { file: Seq<char>, detail: Seq<char> },
    /// See [`EditError::ParseError`].
    ParseError { message: Seq<char>, line_number: Option<nat> },
    /// See [`EditError::MultiFilePatch`].
    MultiFilePatch { count: nat },
    /// See [`EditError::OverlappingHunks`].
    OverlappingHunks { file: Seq<char>, range1: Seq<char>, range2: Seq<char> },
    /// See [`EditError::InvalidInput`].
    InvalidInput { message: Seq<char> },
    /// See [`EditError::InvalidRange`].
    InvalidRange { message: Seq<char> },
    /// See [`EditError::SamePathRename`].
    SamePathRename,
    /// See [`EditError::MatchError`].
    MatchError { path: Seq<char>, message: Seq<char> },
    /// See [`EditError::ApplyError`].
    ApplyError { message: Seq<char> },
    /// See [`EditError::ValidationError`].
    ValidationError { message: Seq<char> },
    /// See [`EditError::Io`].
    Io { path: Seq<char>, message: Seq<char> },
    /// See [`EditError::JsonError`].
    JsonError { message: Seq<char> },
}

impl View for EditError {
    type V = ErrorView;

    open spec fn view(&self) -> ErrorView {
        match self {
            EditError::FileNotFound { path } => ErrorView::FileNotFound { path: path@ },
            EditError::FileAlreadyExists { path } => ErrorView::FileAlreadyExists { path: path@ },
            EditError::AnchorNotFound { anchor, file } => ErrorView::AnchorNotFound {
                anchor: anchor@,
                file: file@,
            },
            EditError::HashMismatch { mismatches, context } => ErrorView::HashMismatch {
                mismatches: mismatch_views(mismatches@),
                context: context@,
            },
            EditError::AmbiguousMatch { file, count, previews } => ErrorView::AmbiguousMatch {
                file: file@,
                count: *count as nat,
                previews: previews@,
            },
            EditError::NoMatch { file, detail } => ErrorView::NoMatch {
                file: file@,
                detail: detail@,
            },
            EditError::NoChanges { file, detail } => ErrorView::NoChanges {
                file: file@,
                detail: detail@,
            },
            EditError::ParseError { message, line_number } => ErrorView::ParseError {
                message: message@,
                line_number: opt_nat(*line_number),
            },
            EditError::MultiFilePatch { count } => ErrorView::MultiFilePatch {
                count: *count as nat,
            },
            EditError::OverlappingHunks { file, range1, range2 } => ErrorView::OverlappingHunks {
                file: file@,
                range1: range1@,
                range2: range2@,
            },
            EditError::InvalidInput { message } => ErrorView::InvalidInput { message: message@ },
            EditError::InvalidRange { message } => ErrorView::InvalidRange { message: message@ },
            EditError::SamePathRename => ErrorView::SamePathRename,
            EditError::MatchError { path, message } => ErrorView::MatchError {
                path: path@,
                message: message@,
            },
            EditError::ApplyError { message } => ErrorView::ApplyError { message: message@ },
            EditError::ValidationError { message } => ErrorView::ValidationError {
                message: message@,
            },
            EditError::Io { path, message } => ErrorView::Io { path: path@, message: message@ },
            EditError::JsonError { message } => ErrorView::JsonError { message: message@ },
        }
    }
}

/// A result, by its contents.
pub open spec fn outcome<T: View>(r: Result<T, EditError>) -> Result<T::V, ErrorView> {
    match r {
        Ok(x) => Ok(x@),
        Err(e) => Err(e@),
    }
}

/// A result without a value, by its contents.
pub open spec fn status(r: Result<(), EditError>) -> Result<(), ErrorView> {
    match r {
        Ok(_) => Ok(()),
        Err(e) => Err(e@),
    }
}

/// What is shown for an error.
pub open spec fn message_of(e: ErrorView) -> Seq<char> {
    match e {
        ErrorView::FileNotFound { path } => "File not found: "@ + path,
        ErrorView::FileAlreadyExists { path } => "File already exists: "@ + path,
        ErrorView::AnchorNotFound { anchor, file } => "Anchor not found: "@ + anchor + " in "@
            + file,
        ErrorView::HashMismatch { mismatches, context } => {
            let n = mismatches.len();
            decimal(n) + " line"@ + (if n == 1 {
                ""@
            } else {
                "s"@
            }) + " "@ + (if n == 1 {
                "has"@
            } else {
                "have"@
            })
                + " changed since last read. Use the updated LINE#ID references shown below (>>> marks changed lines).\n\n"@
                + context
        },
        ErrorView::AmbiguousMatch { file, count, previews } => if is_blank(previews) {
            "Found "@ + decimal(count) + " occurrences in "@ + file
                + ". Add more context to disambiguate."@
        } else {
            "Found "@ + decimal(count) + " occurrences in "@ + file + ".\n\n"@ + previews
                + "\n\nAdd more context to disambiguate."@
        },
        ErrorView::NoMatch { file, detail } => "No match found in "@ + file + ": "@ + detail,
        ErrorView::NoChanges { file, detail } => "No changes made to "@ + file + "."@ + detail,
        ErrorView::ParseError { message, line_number } => match line_number {
            Some(n) => "Line "@ + decimal(n) + ": "@ + message,
            None => message,
        },
        ErrorView::MultiFilePatch { count } => "Diff contains "@ + decimal(count)
            + " file markers. Single-file patches cannot contain multi-file markers."@,
        ErrorView::OverlappingHunks { file, range1, range2 } => "Overlapping hunks detected in "@
            + file + " at lines "@ + range1 + " and "@ + range2 + "."@,
        ErrorView::InvalidInput { message } => "Invalid input: "@ + message,
        ErrorView::InvalidRange { message } => "Invalid range: "@ + message,
        ErrorView::SamePathRename => "Rename path is the same as source path"@,
        ErrorView::MatchError { path, message } => path + ": "@ + message,
        ErrorView::ApplyError { message } => message,
        ErrorView::ValidationError { message } => "Validation error: "@ + message,
        ErrorView::Io { path, message } => "I/O error on "@ + path + ": "@ + message,
        ErrorView::JsonError { message } => message,
    }
}

fn format_parse_error(message: &str, line_number: &Option<usize>) -> (r: String)
    ensures
        r@ == message_of(
            ErrorView::ParseError { message: message@, line_number: opt_nat(*line_number) },
        ),
{
    match line_number {
        Some(n) => {
            let mut r = "Line ".to_owned();
            r.append(show(*n).as_str());
            r.append(": ");
            r.append(message);
            r
        },
        None => message.to_owned(),
    }
}

fn format_hash_mismatch_message(mismatches: &[HashMismatch], context: &str) -> (r: String)
    ensures
        r@ == message_of(
            ErrorView::HashMismatch {
                mismatches: mismatch_views(mismatches@),
                context: context@,
            },
        ),
{
    let n: usize = mismatches.len();
    let mut r = show(n);
    r.append(" line");
    r.append(
        if n == 1 {
            ""
        } else {
            "s"
        },
    );
    r.append(" ");
    r.append(
        if n == 1 {
            "has"
        } else {
            "have"
        },
    );
    r.append(
        " changed since last read. Use the updated LINE#ID references shown below (>>> marks changed lines).\n\n",
    );
    r.append(context);
    r
}

fn format_ambiguous_match(file: &str, count: usize, previews: &str) -> (r: String)
    ensures
        r@ == message_of(
            ErrorView::AmbiguousMatch { file: file@, count: count as nat, previews: previews@ },
        ),
{
    let mut r = "Found ".to_owned();
    r.append(show(count).as_str());
    r.append(" occurrences in ");
    r.append(file);
    if blank(previews) {
        r.append(". Add more context to disambiguate.");
    } else {
        r.append(".\n\n");
        r.append(previews);
        r.append("\n\nAdd more context to disambiguate.");
    }
    r
}

impl EditError {
    /// The message that describes the error.
    pub fn to_string(&self) -> (r: String)
        ensures
            r@ == message_of(self@),
    {
        match self {
            EditError::FileNotFound { path } => {
                let mut r = "File not found: ".to_owned();
                r.append(path.as_str());
                r
            },
            EditError::FileAlreadyExists { path } => {
                let mut r = "File already exists: ".to_owned();
                r.append(path.as_str());
                r
            },
            EditError::AnchorNotFound { anchor, file } => {
                let mut r = "Anchor not found: ".to_owned();
                r.append(anchor.as_str());
                r.append(" in ");
                r.append(file.as_str());
                r
            },
            EditError::HashMismatch { mismatches, context } => format_hash_mismatch_message(
                mismatches.as_slice(),
                context.as_str(),
            ),
            EditError::AmbiguousMatch { file, count, previews } => format_ambiguous_match(
                file.as_str(),
                *count,
                previews.as_str(),
            ),
            EditError::NoMatch { file, detail } => {
                let mut r = "No match found in ".to_owned();
                r.append(file.as_str());
                r.append(": ");
                r.append(detail.as_str());
                r
            },
            EditError::NoChanges { file, detail } => {
                let mut r = "No changes made to ".to_owned();
                r.append(file.as_str());
                r.append(".");
                r.append(detail.as_str());
                r
            },
            EditError::ParseError { message, line_number } => format_parse_error(
                message.as_str(),
                line_number,
            ),
            EditError::MultiFilePatch { count } => {
                let mut r = "Diff contains ".to_owned();
                r.append(show(*count).as_str());
                r.append(
                    " file markers. Single-file patches cannot contain multi-file markers.",
                );
                r
            },
            EditError::OverlappingHunks { file, range1, range2 } => {
                let mut r = "Overlapping hunks detected in ".to_owned();
                r.append(file.as_str());
                r.append(" at lines ");
                r.append(range1.as_str());
                r.append(" and ");
                r.append(range2.as_str());
                r.append(".");
                r
            },
            EditError::InvalidInput { message } => {
                let mut r = "Invalid input: ".to_owned();
                r.append(message.as_str());
                r
            },
            EditError::InvalidRange { message } => {
                let mut r = "Invalid range: ".to_owned();
                r.append(message.as_str());
                r
            },
            EditError::SamePathRename => "Rename path is the same as source path".to_owned(),
            EditError::MatchError { path, message } => {
                let mut r = path.clone();
                r.append(": ");
                r.append(message.as_str());
                r
            },
            EditError::ApplyError { message } => message.clone(),
            EditError::ValidationError { message } => {
                let mut r = "Validation error: ".to_owned();
                r.append(message.as_str());
                r
            },
            EditError::Io { path, message } => {
                let mut r = "I/O error on ".to_owned();
                r.append(path.as_str());
                r.append(": ");
                r.append(message.as_str());
                r
            },
            EditError::JsonError { message } => message.clone(),
        }
    }
}

} // verus!
