//! The built-in edit methods.

pub mod codex_patch_method;
pub mod hashline_method;
pub mod patch_method;
pub mod replace_method;

use crate::double::Double;
use crate::error::{EditError, ErrorView, outcome};
use crate::applicator::{law_failed_patch, patched};
use crate::fs::{EditFs, Files, InMemoryFs};
use crate::fuzzy::DEFAULT_FUZZY_THRESHOLD;
use crate::methods::codex_patch_method::{CodexPatchMethod, codex_applied};
use crate::methods::hashline_method::{HashlineMethod, hashline_applied};
use crate::methods::patch_method::{PatchMethod, own, patch_applied, patch_input};
use crate::methods::replace_method::{ReplaceMethod, replace_applied};
use crate::text::{opt_view, same};
use crate::traits::{EditMethod, EditResult, ResultView};
use crate::value::Value;
use vstd::prelude::*;
use vstd::string::*;

verus! {

/// One of the built-in edit methods.
#[derive(Debug, Clone, Copy)]
pub enum BuiltinMethod {
    /// Line-addressed edits.
    Hashline(HashlineMethod),
    /// Find and replace.
    Replace(ReplaceMethod),
    /// Diff hunks.
    Patch(PatchMethod),
    /// Codex-style patches.
    Codex(CodexPatchMethod),
}

/// What a built-in method answers, and the state that it leaves.
pub open spec fn builtin_applied<F: EditFs>(
    method: BuiltinMethod,
    state: F::State,
    input: Value,
) -> (Result<ResultView, ErrorView>, F::State) {
    match method {
        BuiltinMethod::Hashline(_) => hashline_applied::<F>(state, input),
        BuiltinMethod::Replace(m) => replace_applied::<F>(m, state, input),
        BuiltinMethod::Patch(m) => patch_applied::<F>(m, state, input),
        BuiltinMethod::Codex(m) => codex_applied::<F>(
            state,
            input,
            m.allow_lenient_sequence_match,
        ),
    }
}

impl EditMethod for BuiltinMethod {
    open spec fn name_text(&self) -> Seq<char> {
        match self {
            BuiltinMethod::Hashline(m) => m.name_text(),
            BuiltinMethod::Replace(m) => m.name_text(),
            BuiltinMethod::Patch(m) => m.name_text(),
            BuiltinMethod::Codex(m) => m.name_text(),
        }
    }

    open spec fn prompt_text(&self) -> Seq<char> {
        match self {
            BuiltinMethod::Hashline(m) => m.prompt_text(),
            BuiltinMethod::Replace(m) => m.prompt_text(),
            BuiltinMethod::Patch(m) => m.prompt_text(),
            BuiltinMethod::Codex(m) => m.prompt_text(),
        }
    }

    open spec fn schema_text(&self) -> Seq<char> {
        match self {
            BuiltinMethod::Hashline(m) => m.schema_text(),
            BuiltinMethod::Replace(m) => m.schema_text(),
            BuiltinMethod::Patch(m) => m.schema_text(),
            BuiltinMethod::Codex(m) => m.schema_text(),
        }
    }

    open spec fn grammar_text(&self) -> Option<Seq<char>> {
        match self {
            BuiltinMethod::Hashline(m) => m.grammar_text(),
            BuiltinMethod::Replace(m) => m.grammar_text(),
            BuiltinMethod::Patch(m) => m.grammar_text(),
            BuiltinMethod::Codex(m) => m.grammar_text(),
        }
    }

    fn name(&self) -> (r: &str) {
        match self {
            BuiltinMethod::Hashline(m) => m.name(),
            BuiltinMethod::Replace(m) => m.name(),
            BuiltinMethod::Patch(m) => m.name(),
            BuiltinMethod::Codex(m) => m.name(),
        }
    }

    fn prompt(&self) -> (r: &str) {
        match self {
            BuiltinMethod::Hashline(m) => m.prompt(),
            BuiltinMethod::Replace(m) => m.prompt(),
            BuiltinMethod::Patch(m) => m.prompt(),
            BuiltinMethod::Codex(m) => m.prompt(),
        }
    }

    fn schema(&self) -> (r: &str) {
        match self {
            BuiltinMethod::Hashline(m) => m.schema(),
            BuiltinMethod::Replace(m) => m.schema(),
            BuiltinMethod::Patch(m) => m.schema(),
            BuiltinMethod::Codex(m) => m.schema(),
        }
    }

    fn grammar(&self) -> (r: Option<&str>) {
        match self {
            BuiltinMethod::Hashline(m) => m.grammar(),
            BuiltinMethod::Replace(m) => m.grammar(),
            BuiltinMethod::Patch(m) => m.grammar(),
            BuiltinMethod::Codex(m) => m.grammar(),
        }
    }

    fn apply<F: EditFs>(&self, input: &Value, fs: &mut F) -> (r: Result<EditResult, EditError>)
        ensures
            (outcome(r), final(fs).state()) == builtin_applied::<F>(
                *self,
                old(fs).state(),
                *input,
            ),
    {
        match self {
            BuiltinMethod::Hashline(m) => m.apply(input, fs),
            BuiltinMethod::Replace(m) => m.apply(input, fs),
            BuiltinMethod::Patch(m) => m.apply(input, fs),
            BuiltinMethod::Codex(m) => m.apply(input, fs),
        }
    }
}

/// The built-in methods with the given options.
pub open spec fn builtin_methods(allow_fuzzy: bool, threshold: Double) -> Seq<BuiltinMethod> {
    seq![
        BuiltinMethod::Hashline(HashlineMethod),
        BuiltinMethod::Replace(ReplaceMethod { allow_fuzzy, threshold }),
        BuiltinMethod::Patch(PatchMethod { allow_fuzzy, threshold }),
        BuiltinMethod::Codex(CodexPatchMethod { allow_lenient_sequence_match: allow_fuzzy }),
    ]
}

/// Returns all built-in edit methods.
pub fn all_methods() -> (r: Vec<BuiltinMethod>)
    ensures
        r@ == builtin_methods(true, Double { bits: DEFAULT_FUZZY_THRESHOLD }),
{
    methods_with(true, Double::from_bits(DEFAULT_FUZZY_THRESHOLD))
}

/// Returns all built-in edit methods, with the given options.
pub fn methods_with(allow_fuzzy: bool, threshold: Double) -> (r: Vec<BuiltinMethod>)
    ensures
        r@ == builtin_methods(allow_fuzzy, threshold),
{
    let r: Vec<BuiltinMethod> = vec![
        BuiltinMethod::Hashline(HashlineMethod),
        BuiltinMethod::Replace(ReplaceMethod::new(allow_fuzzy, threshold)),
        BuiltinMethod::Patch(PatchMethod::new(allow_fuzzy, threshold)),
        BuiltinMethod::Codex(CodexPatchMethod::new(allow_fuzzy, threshold)),
    ];
    assert(r@ =~= builtin_methods(allow_fuzzy, threshold));
    r
}

/// The built-in method with a name.
pub open spec fn method_named(name: Seq<char>, allow_fuzzy: bool, threshold: Double) -> Option<
    BuiltinMethod,
> {
    if name == "hashline"@ {
        Some(BuiltinMethod::Hashline(HashlineMethod))
    } else if name == "replace"@ {
        Some(BuiltinMethod::Replace(ReplaceMethod { allow_fuzzy, threshold }))
    } else if name == "patch"@ {
        Some(BuiltinMethod::Patch(PatchMethod { allow_fuzzy, threshold }))
    } else if name == "apply_patch"@ {
        Some(
            BuiltinMethod::Codex(CodexPatchMethod { allow_lenient_sequence_match: allow_fuzzy }),
        )
    } else {
        None
    }
}

/// Finds the built-in method with a name.
pub fn build_method(name: &str, allow_fuzzy: bool, threshold: Double) -> (r: Option<BuiltinMethod>)
    ensures
        r == method_named(name@, allow_fuzzy, threshold),
{
    if same(name, "hashline") {
        Some(BuiltinMethod::Hashline(HashlineMethod))
    } else if same(name, "replace") {
        Some(BuiltinMethod::Replace(ReplaceMethod::new(allow_fuzzy, threshold)))
    } else if same(name, "patch") {
        Some(BuiltinMethod::Patch(PatchMethod::new(allow_fuzzy, threshold)))
    } else if same(name, "apply_patch") {
        Some(BuiltinMethod::Codex(CodexPatchMethod::new(allow_fuzzy, threshold)))
    } else {
        None
    }
}

/// A method is found by its own name, and by no other.
pub proof fn law_method_names(name: Seq<char>, allow_fuzzy: bool, threshold: Double)
    ensures
        match method_named(name, allow_fuzzy, threshold) {
            Some(m) => m.name_text() == name && builtin_methods(allow_fuzzy, threshold).contains(m),
            None => forall|i: int|
                0 <= i < 4 ==> (
                #[trigger] builtin_methods(allow_fuzzy, threshold)[i]).name_text() != name,
        },
{
    let ms = builtin_methods(allow_fuzzy, threshold);
    assert(ms.contains(ms[0]) && ms.contains(ms[1]) && ms.contains(ms[2]) && ms.contains(ms[3]));
}

/// Metadata about an available edit method.
#[derive(Debug)]
pub struct MethodInfo {
    /// Method name.
    pub name: String,
    /// LLM-facing prompt text.
    pub prompt: String,
    /// JSON schema string.
    pub schema: String,
    /// Formal grammar (Lark/EBNF) for the content format, if any.
    pub grammar: Option<String>,
}

/// Metadata about an edit method, by its contents.
#[verifier::ext_equal]
pub ghost struct InfoView {
    /// The name.
    pub name: Seq<char>,
    /// The prompt.
    pub prompt: Seq<char>,
    /// The schema.
    pub schema: Seq<char>,
    /// The grammar.
    pub grammar: Option<Seq<char>>,
}

impl View for MethodInfo {
    type V = InfoView;

    open spec fn view(&self) -> InfoView {
        InfoView {
            name: self.name@,
            prompt: self.prompt@,
            schema: self.schema@,
            grammar: opt_view(self.grammar),
        }
    }
}

/// Metadata, by its contents.
pub open spec fn info_views(v: Seq<MethodInfo>) -> Seq<InfoView> {
    Seq::new(v.len(), |i: int| v[i]@)
}

/// The metadata of a method.
pub open spec fn info_of(m: BuiltinMethod) -> InfoView {
    InfoView {
        name: m.name_text(),
        prompt: m.prompt_text(),
        schema: m.schema_text(),
        grammar: m.grammar_text(),
    }
}

/// Lists all built-in edit methods.
pub fn list_methods() -> (r: Vec<MethodInfo>)
    ensures
        info_views(r@) == builtin_methods(
            true,
            Double { bits: DEFAULT_FUZZY_THRESHOLD },
        ).map_values(|m: BuiltinMethod| info_of(m)),
{
    let methods = all_methods();
    let ghost target = methods@.map_values(|m: BuiltinMethod| info_of(m));
    let mut out: Vec<MethodInfo> = Vec::new();
    let mut i: usize = 0;
    while i < methods.len()
        invariant
            i <= methods@.len(),
            target == methods@.map_values(|m: BuiltinMethod| info_of(m)),
            info_views(out@) == target.take(i as int),
        decreases methods@.len() - i,
    {
        let m = methods[i];
        let info = MethodInfo {
            name: m.name().to_owned(),
            prompt: m.prompt().to_owned(),
            schema: m.schema().to_owned(),
            grammar: own(m.grammar()),
        };
        let ghost before = out@;
        let ghost iv = info@;
        out.push(info);
        proof {
            assert(iv == target[i as int]);
            assert(info_views(out@) =~= info_views(before).push(iv));
            assert(target.take(i + 1) =~= target.take(i as int).push(target[i as int]));
        }
        i = i + 1;
    }
    assert(target.take(i as int) =~= target);
    out
}

/// Where a method that edits one file fails, the files are as they were.
pub proof fn law_failed_method(method: BuiltinMethod, files: Files, input: Value)
    requires
        !(method is Codex),
        builtin_applied::<InMemoryFs>(method, files, input).0 is Err,
    ensures
        builtin_applied::<InMemoryFs>(method, files, input).1 == files,
{
    if let BuiltinMethod::Patch(m) = method {
        if let Some(path) = input.text_field("path"@) {
            if patched::<InMemoryFs>(files, patch_input(input, path), m.options()).0 is Err {
                law_failed_patch(files, patch_input(input, path), m.options());
            }
        }
    }
}

} // verus!
