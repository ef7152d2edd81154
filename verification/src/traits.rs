//! The trait of edit methods, and their result types.

use crate::error::EditError;
use crate::fs::EditFs;
use crate::text::{opt_nat, opt_view, views};
use crate::value::Value;
use vstd::prelude::*;
use vstd::string::*;

verus! {

/// The type of file mutation that occurred.
#[derive(Debug, Clone, Copy, PartialEq, Eq, Structural)]
pub enum ChangeOp {
    /// A file was created.
    Create,
    /// A file was updated or moved.
    Update,
    /// A file was deleted.
    Delete,
}

/// A concrete file change made by an edit method.
#[derive(Debug, PartialEq, Eq)]
pub struct FileChange {
    /// Operation type.
    pub op: ChangeOp,
    /// Original path.
    pub path: String,
    /// New path for moves/renames.
    pub new_path: Option<String>,
    /// File contents before the change when available.
    pub old_content: Option<String>,
    /// File contents after the change when available.
    pub new_content: Option<String>,
}

/// A file change, by its contents.
#[verifier::ext_equal]
pub ghost struct ChangeView {
    /// Operation type.
    pub op: ChangeOp,
    /// Original path.
    pub path: Seq<char>,
    /// New path.
    pub new_path: Option<Seq<char>>,
    /// The contents before the change.
    pub old_content: Option<Seq<char>>,
    /// The contents after the change.
    pub new_content: Option<Seq<char>>,
}

impl View for FileChange {
    type V = ChangeView;

    open spec fn view(&self) -> ChangeView {
        ChangeView {
            op: self.op,
            path: self.path@,
            new_path: opt_view(self.new_path),
            old_content: opt_view(self.old_content),
            new_content: opt_view(self.new_content),
        }
    }
}

/// Copies an optional text.
pub fn copy_opt(s: &Option<String>) -> (r: Option<String>)
    ensures
        opt_view(r) == opt_view(*s),
{
    match s {
        Some(x) => Some(x.clone()),
        None => None,
    }
}

impl Clone for FileChange {
    fn clone(&self) -> (r: FileChange)
        ensures
            r@ == self@,
    {
        FileChange {
            op: self.op,
            path: self.path.clone(),
            new_path: copy_opt(&self.new_path),
            old_content: copy_opt(&self.old_content),
            new_content: copy_opt(&self.new_content),
        }
    }
}

/// The changes, by their contents.
pub open spec fn change_views(v: Seq<FileChange>) -> Seq<ChangeView> {
    Seq::new(v.len(), |i: int| v[i]@)
}

/// Structured result of an edit method.
#[derive(Debug, Clone)]
pub struct EditResult {
    /// Human-readable summary.
    pub message: String,
    /// File mutation details.
    pub change: FileChange,
    /// Additional file mutations when a method edits multiple files.
    pub changes: Vec<FileChange>,
    /// Diff preview of the change, when applicable.
    pub diff: Option<String>,
    /// 1-indexed line number of the first changed line in the new file.
    pub first_changed_line: Option<usize>,
    /// Warnings surfaced during application.
    pub warnings: Vec<String>,
}

/// The result of an edit method, by its contents.
#[verifier::ext_equal]
pub ghost struct ResultView {
    /// The summary.
    pub message: Seq<char>,
    /// The first change.
    pub change: ChangeView,
    /// All changes, of a method that edits several files.
    pub changes: Seq<ChangeView>,
    /// Diff preview of the change.
    pub diff: Option<Seq<char>>,
    /// The first changed line in the new file, from one.
    pub first: Option<nat>,
    /// Warnings.
    pub warnings: Seq<Seq<char>>,
}

impl View for EditResult {
    type V = ResultView;

    open spec fn view(&self) -> ResultView {
        ResultView {
            message: self.message@,
            change: self.change@,
            changes: change_views(self.changes@),
            diff: opt_view(self.diff),
            first: opt_nat(self.first_changed_line),
            warnings: views(self.warnings@),
        }
    }
}

/// Preview emitted from partially streamed tool input.
#[derive(Debug, Clone, PartialEq, Eq)]
pub struct PartialPreview {
    /// Preview text or diff built from the partial input.
    pub preview: String,
    /// Number of edits parsed so far.
    pub edit_count: usize,
}

/// A single edit method implementation.
pub trait EditMethod: Sized {
    /// What [`EditMethod::name`] gives.
    closed spec fn name_text(&self) -> Seq<char> {
        arbitrary()
    }

    /// What [`EditMethod::prompt`] gives.
    closed spec fn prompt_text(&self) -> Seq<char> {
        arbitrary()
    }

    /// What [`EditMethod::schema`] gives.
    closed spec fn schema_text(&self) -> Seq<char> {
        arbitrary()
    }

    /// What [`EditMethod::grammar`] gives.
    closed spec fn grammar_text(&self) -> Option<Seq<char>> {
        arbitrary()
    }

    /// Machine-readable method name such as `"hashline"` or `"patch"`.
    fn name(&self) -> (r: &str)
        ensures
            r@ == self.name_text(),
    ;

    /// Full markdown prompt shown to the LLM.
    fn prompt(&self) -> (r: &str)
        ensures
            r@ == self.prompt_text(),
    ;

    /// JSON schema describing the tool input for this method.
    fn schema(&self) -> (r: &str)
        ensures
            r@ == self.schema_text(),
    ;

    /// Formal grammar (e.g. Lark/EBNF) for the tool's content format, if one
    /// exists.
    ///
    /// Returns `None` for methods whose input is described entirely by the JSON
    /// schema.
    fn grammar(&self) -> (r: Option<&str>)
        ensures
            opt_view(r) == self.grammar_text(),
    ;

    /// Applies an edit operation using structured input and the provided
    /// filesystem. What it answers, each method states.
    fn apply<F: EditFs>(&self, input: &Value, fs: &mut F) -> (r: Result<EditResult, EditError>);

    /// Optionally validates the provided input before application.
    fn validate(&self, _input: &Value) -> (r: Result<(), EditError>)
        default_ensures
            r is Ok,
    {
        Ok(())
    }

    /// Optionally parses and previews partially streamed input.
    fn apply_partial<F: EditFs>(&self, _partial: &str, _fs: &mut F) -> (r: Result<
        Option<PartialPreview>,
        EditError,
    >)
        default_ensures
            r matches Ok(x) && x is None,
            *final(_fs) == *old(_fs),
    {
        Ok(None)
    }
}

} // verus!
