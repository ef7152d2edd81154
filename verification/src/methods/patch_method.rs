//! Patch edit method implementation.

use crate::applicator::{
    ApplyPatchOptions, InputView, Operation, PatchInput, PatchView, apply_patch, patched,
};
use crate::diff::{
    DiffResult, DiffView, generate_unified_diff_string, number_width, unified_diff, unified_hunks,
};
use crate::double::Double;
use crate::error::{EditError, ErrorView, outcome};
use crate::fs::EditFs;
use crate::text::{opt_view, same};
use crate::traits::{ChangeOp, ChangeView, EditMethod, EditResult, FileChange, ResultView};
use crate::value::Value;
use vstd::prelude::*;
use vstd::string::*;

verus! {

/// The prompt of the patch method.
pub const PATCH_PROMPT: &'static str = "Patches files given diff hunks. This is the primary method for existing-file edits.

Hunk headers:
- `@@`: bare header when context lines are unique
- `@@ $ANCHOR`: anchor copied verbatim from the file

Rules:
- Read the target file before editing.
- Copy anchors and context lines verbatim, including whitespace.
- Use enough context lines to make a match unique.
- Keep changes inside the intended structured block.
- If a patch fails, re-read the file and generate a new patch from the current content.
- Do not use patch hunks for piecemeal formatting changes.

Operations:
- `{ path, op: \"update\", diff }`
- `{ path, op: \"create\", diff }`
- `{ path, op: \"delete\" }`
- `{ path, op: \"update\", rename, diff }`
";

/// The schema of the input of the patch method.
pub const PATCH_SCHEMA: &'static str = "{
  \"type\": \"object\",
  \"properties\": {
    \"path\": { \"type\": \"string\" },
    \"op\": { \"type\": \"string\", \"enum\": [\"create\", \"delete\", \"update\"] },
    \"rename\": { \"type\": \"string\" },
    \"diff\": { \"type\": \"string\" }
  },
  \"required\": [\"path\"]
}\n";

/// Patch edit method with configurable fuzzy matching.
#[derive(Debug, Clone, Copy)]
pub struct PatchMethod {
    /// Allow fuzzy matching.
    pub allow_fuzzy: bool,
    /// Similarity that a match by characters has to reach.
    pub threshold: Double,
}

impl PatchMethod {
    /// Creates a new patch method.
    pub fn new(allow_fuzzy: bool, threshold: Double) -> (r: PatchMethod)
        ensures
            r == (PatchMethod { allow_fuzzy, threshold }),
    {
        PatchMethod { allow_fuzzy, threshold }
    }

    /// The options of a patch that is applied.
    pub open spec fn options(self) -> ApplyPatchOptions {
        ApplyPatchOptions {
            allow_fuzzy: self.allow_fuzzy,
            fuzzy_threshold: self.threshold,
            dry_run: false,
        }
    }
}

/// The error for an input that lacks something.
pub open spec fn invalid_input(message: Seq<char>) -> ErrorView {
    ErrorView::InvalidInput { message }
}

/// The operation that an input names; an update by default.
pub open spec fn operation_of(input: Value) -> Operation {
    match input.text_field("op"@) {
        Some(s) => if s == "create"@ {
            Operation::Create
        } else if s == "delete"@ {
            Operation::Delete
        } else {
            Operation::Update
        },
        None => Operation::Update,
    }
}

/// The patch that an input describes, once it has a path.
pub open spec fn patch_input(input: Value, path: Seq<char>) -> InputView {
    InputView {
        path,
        op: operation_of(input),
        rename: input.text_field("rename"@),
        diff: input.text_field("diff"@),
    }
}

/// The unified diff of two texts.
pub open spec fn text_diff(old: Seq<char>, new: Seq<char>, context: nat) -> DiffView {
    unified_diff(unified_hunks(old, new, context), number_width(old, new))
}

/// The preview of an updated file.
pub open spec fn change_diff(change: ChangeView, context: nat) -> Option<DiffView> {
    if change.op == ChangeOp::Update && change.old_content is Some && change.new_content is Some {
        Some(text_diff(change.old_content->0, change.new_content->0, context))
    } else {
        None
    }
}

/// The text of an optional diff.
pub open spec fn opt_diff_text(d: Option<DiffView>) -> Option<Seq<char>> {
    match d {
        Some(x) => Some(x.diff),
        None => None,
    }
}

/// The first changed line of an optional diff.
pub open spec fn opt_diff_first(d: Option<DiffView>) -> Option<nat> {
    match d {
        Some(x) => x.first,
        None => None,
    }
}

/// The summary of a patch.
pub open spec fn patch_message(op: ChangeOp, path: Seq<char>, rename: Option<Seq<char>>) -> Seq<
    char,
> {
    match op {
        ChangeOp::Create => "Created "@ + path,
        ChangeOp::Delete => "Deleted "@ + path,
        ChangeOp::Update => match rename {
            Some(to) => "Updated and moved "@ + path + " to "@ + to,
            None => "Updated "@ + path,
        },
    }
}

/// What is reported of a patch.
pub open spec fn patch_report(p: PatchView, input: InputView) -> ResultView {
    let d = change_diff(p.change, 3);
    ResultView {
        message: patch_message(p.change.op, input.path, input.rename),
        change: p.change,
        changes: Seq::empty(),
        diff: opt_diff_text(d),
        first: opt_diff_first(d),
        warnings: p.warnings,
    }
}

/// What the patch method answers, and the state that it leaves.
pub open spec fn patch_applied<F: EditFs>(
    method: PatchMethod,
    state: F::State,
    input: Value,
) -> (Result<ResultView, ErrorView>, F::State) {
    match input.text_field("path"@) {
        None => (Err(invalid_input("missing 'path'"@)), state),
        Some(path) => {
            let patch = patch_input(input, path);
            let (r, after) = patched::<F>(state, patch, method.options());
            match r {
                Err(e) => (Err(e), after),
                Ok(p) => (Ok(patch_report(p, patch)), after),
            }
        },
    }
}

/// The view of an optional diff.
pub open spec fn opt_diff(d: Option<DiffResult>) -> Option<DiffView> {
    match d {
        Some(x) => Some(x@),
        None => None,
    }
}

/// Makes the preview of an updated file.
pub fn diff_change(change: &FileChange, context: usize) -> (r: Option<DiffResult>)
    requires
        context <= usize::MAX / 2,
    ensures
        opt_diff(r) == change_diff(change@, context as nat),
        change@.old_content == change@.new_content ==> (r matches Some(d) ==> d@.diff.len() == 0),
{
    if change.op != ChangeOp::Update {
        return None;
    }
    match (&change.old_content, &change.new_content) {
        (Some(old), Some(new)) => Some(
            generate_unified_diff_string(old.as_str(), new.as_str(), context),
        ),
        _ => None,
    }
}

/// Copies an optional text.
pub fn own(s: Option<&str>) -> (r: Option<String>)
    ensures
        opt_view(r) == opt_view(s),
{
    match s {
        Some(x) => Some(x.to_owned()),
        None => None,
    }
}

fn read_operation(input: &Value) -> (r: Operation)
    ensures
        r == operation_of(*input),
{
    match input.get_str("op") {
        Some(s) => if same(s, "create") {
            Operation::Create
        } else if same(s, "delete") {
            Operation::Delete
        } else {
            Operation::Update
        },
        None => Operation::Update,
    }
}

pub(crate) fn summarize(op: ChangeOp, path: &str, rename: &Option<String>) -> (r: String)
    ensures
        r@ == patch_message(op, path@, opt_view(*rename)),
{
    let mut r = match op {
        ChangeOp::Create => "Created ".to_owned(),
        ChangeOp::Delete => "Deleted ".to_owned(),
        ChangeOp::Update => if rename.is_some() {
            "Updated and moved ".to_owned()
        } else {
            "Updated ".to_owned()
        },
    };
    r.append(path);
    if op == ChangeOp::Update {
        match rename {
            Some(to) => {
                r.append(" to ");
                r.append(to.as_str());
            },
            None => {},
        }
    }
    r
}

impl EditMethod for PatchMethod {
    open spec fn name_text(&self) -> Seq<char> {
        "patch"@
    }

    open spec fn prompt_text(&self) -> Seq<char> {
        PATCH_PROMPT@
    }

    open spec fn schema_text(&self) -> Seq<char> {
        PATCH_SCHEMA@
    }

    open spec fn grammar_text(&self) -> Option<Seq<char>> {
        None
    }

    fn name(&self) -> (r: &str) {
        "patch"
    }

    fn prompt(&self) -> (r: &str) {
        PATCH_PROMPT
    }

    fn schema(&self) -> (r: &str) {
        PATCH_SCHEMA
    }

    fn grammar(&self) -> (r: Option<&str>) {
        None
    }

    fn apply<F: EditFs>(&self, input: &Value, fs: &mut F) -> (r: Result<EditResult, EditError>)
        ensures
            (outcome(r), final(fs).state()) == patch_applied::<F>(*self, old(fs).state(), *input),
    {
        let path = match input.get_str("path") {
            Some(p) => p,
            None => {
                return Err(EditError::InvalidInput { message: "missing 'path'".to_owned() });
            },
        };
        let patch = PatchInput {
            path: path.to_owned(),
            op: read_operation(input),
            rename: own(input.get_str("rename")),
            diff: own(input.get_str("diff")),
        };
        assert(patch@ == patch_input(*input, path@));
        let options = ApplyPatchOptions {
            allow_fuzzy: self.allow_fuzzy,
            fuzzy_threshold: self.threshold,
            dry_run: false,
        };
        let result = match apply_patch(&patch, fs, options) {
            Ok(x) => x,
            Err(e) => {
                return Err(e);
            },
        };
        let (diff, first): (Option<String>, Option<usize>) = match diff_change(&result.change, 3) {
            Some(d) => (Some(d.diff), d.first_changed_line),
            None => (None, None),
        };
        let message = summarize(result.change.op, path, &patch.rename);
        let r = EditResult {
            message,
            change: result.change,
            changes: Vec::new(),
            diff,
            first_changed_line: first,
            warnings: result.warnings,
        };
        assert(r@.changes =~= Seq::empty());
        Ok(r)
    }
}

} // verus!
