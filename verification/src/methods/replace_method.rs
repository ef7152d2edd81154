//! Replace edit method implementation.

use crate::applicator::{in_style_of, restyle};
use crate::diff::{
    DiffView, ReplaceOptions, ReplaceResult, ReplaceView, generate_diff_string, grouped_spans,
    law_every_replaced, law_single_replaced, number_width, numbered_diff, replace_text,
    text_replaced,
};
use crate::double::{Double, ONE, percent_of};
use crate::error::{EditError, ErrorView, outcome};
use crate::fs::{EditFs, Files, InMemoryFs};
use crate::fuzzy::{
    FuzzyMatch, MatchView, find_match, found, law_several_occurrences, law_single_occurrence,
    lemma_tally_joined, opt_match,
};
use crate::methods::patch_method::invalid_input;
use crate::normalize::{has_bom, law_lf_keeps, normalize_to_lf, strip_bom, with_lf, without_bom};
use crate::text::{decimal, index_from, join, joined, lemma_index_from, occurs_at, same, show};
use crate::traits::{ChangeOp, ChangeView, EditMethod, EditResult, FileChange, ResultView};
use crate::value::Value;
use vstd::prelude::*;
use vstd::string::*;

verus! {

/// The prompt of the replace method.
pub const REPLACE_PROMPT: &'static str = "Performs string replacements in files with fuzzy whitespace matching.

Instructions:
- Use the smallest edit that uniquely identifies the change.
- If `old_text` is not unique, expand it with more context or set `all: true`.
- Fuzzy matching handles minor whitespace and indentation differences automatically.
- Prefer editing existing files over creating new ones.

Critical rule:
- Read the file at least once before editing. The old text must come from the current file state.
";

/// The schema of the input of the replace method.
pub const REPLACE_SCHEMA: &'static str = "{
  \"type\": \"object\",
  \"properties\": {
    \"path\": { \"type\": \"string\" },
    \"old_text\": { \"type\": \"string\" },
    \"new_text\": { \"type\": \"string\" },
    \"all\": { \"type\": \"boolean\" }
  },
  \"required\": [\"path\", \"old_text\", \"new_text\"]
}\n";

/// Replace edit method with configurable fuzzy matching.
#[derive(Debug, Clone, Copy)]
pub struct ReplaceMethod {
    /// Allow fuzzy matching.
    pub allow_fuzzy: bool,
    /// Similarity that a match has to reach.
    pub threshold: Double,
}

impl ReplaceMethod {
    /// Creates a new replace method.
    pub fn new(allow_fuzzy: bool, threshold: Double) -> (r: ReplaceMethod)
        ensures
            r == (ReplaceMethod { allow_fuzzy, threshold }),
    {
        ReplaceMethod { allow_fuzzy, threshold }
    }

    /// The options of a replacement.
    pub open spec fn options(self, all: bool) -> ReplaceOptions {
        ReplaceOptions { fuzzy: self.allow_fuzzy, all, threshold: Some(self.threshold) }
    }
}

/// The error for an old text that is not found.
pub open spec fn nothing_replaced(
    path: Seq<char>,
    closest: Option<MatchView>,
    allow_fuzzy: bool,
) -> ErrorView {
    ErrorView::NoMatch {
        file: path,
        detail: match closest {
            Some(m) => "Closest match ("@ + decimal(percent_of(m.confidence) as nat)
                + "% similar) at line "@ + decimal(m.line) + "."@,
            None => if allow_fuzzy {
                "Could not find a close enough match."@
            } else {
                "Could not find the exact text."@
            },
        },
    }
}

/// What a file with the content `raw` becomes when `old` is replaced by `new`.
pub open spec fn file_replaced(
    method: ReplaceMethod,
    raw: Seq<char>,
    path: Seq<char>,
    old: Seq<char>,
    new: Seq<char>,
    all: bool,
) -> Result<ReplaceView, ErrorView> {
    let content = with_lf(without_bom(raw));
    let o = found(content, with_lf(old), method.allow_fuzzy, method.threshold.bits);
    if !all && o.occurrences is Some && o.occurrences->0 > 1 {
        Err(
            ErrorView::AmbiguousMatch {
                file: path,
                count: o.occurrences->0,
                previews: joined(o.previews, "\n\n"@),
            },
        )
    } else {
        match text_replaced(content, with_lf(old), with_lf(new), method.options(all)) {
            Err(e) => Err(e),
            Ok(r) => if r.count == 0 {
                Err(nothing_replaced(path, o.closest, method.allow_fuzzy))
            } else if r.content == content {
                Err(
                    ErrorView::NoChanges {
                        file: path,
                        detail: " The replacement produced identical content."@,
                    },
                )
            } else {
                Ok(r)
            },
        }
    }
}

/// The numbered diff of two texts.
pub open spec fn numbered_text_diff(old: Seq<char>, new: Seq<char>, context: nat) -> DiffView {
    numbered_diff(grouped_spans(old, new, context), number_width(old, new))
}

/// The summary of a replacement.
pub open spec fn replace_message(path: Seq<char>, count: nat) -> Seq<char> {
    if count > 1 {
        "Replaced "@ + decimal(count) + " occurrences in "@ + path
    } else {
        "Replaced text in "@ + path
    }
}

/// What is reported of a replacement.
pub open spec fn replace_report(raw: Seq<char>, path: Seq<char>, r: ReplaceView) -> ResultView {
    let content = with_lf(without_bom(raw));
    let d = numbered_text_diff(content, r.content, 4);
    ResultView {
        message: replace_message(path, r.count),
        change: ChangeView {
            op: ChangeOp::Update,
            path,
            new_path: None,
            old_content: Some(content),
            new_content: Some(r.content),
        },
        changes: Seq::empty(),
        diff: Some(d.diff),
        first: d.first,
        warnings: Seq::empty(),
    }
}

/// What a replacement in a file answers, and the state that it leaves.
pub open spec fn replaced_in<F: EditFs>(
    method: ReplaceMethod,
    state: F::State,
    path: Seq<char>,
    old: Seq<char>,
    new: Seq<char>,
    all: bool,
) -> (Result<ResultView, ErrorView>, F::State) {
    if old.len() == 0 {
        (Err(invalid_input("old_text must not be empty"@)), state)
    } else {
        match F::exists_in(state, path) {
            Err(e) => (Err(e), state),
            Ok(false) => (Err(ErrorView::FileNotFound { path }), state),
            Ok(true) => match F::read_in(state, path) {
                Err(e) => (Err(e), state),
                Ok(raw) => match file_replaced(method, raw, path, old, new, all) {
                    Err(e) => (Err(e), state),
                    Ok(r) => {
                        let (w, after) = F::write_in(state, path, in_style_of(raw, r.content));
                        match w {
                            Err(e) => (Err(e), after),
                            Ok(_) => (Ok(replace_report(raw, path, r)), after),
                        }
                    },
                },
            },
        }
    }
}

/// What the replace method answers, and the state that it leaves.
pub open spec fn replace_applied<F: EditFs>(
    method: ReplaceMethod,
    state: F::State,
    input: Value,
) -> (Result<ResultView, ErrorView>, F::State) {
    let path = input.text_field("path"@);
    let old = input.text_field("old_text"@);
    let new = input.text_field("new_text"@);
    if path is None {
        (Err(invalid_input("missing 'path'"@)), state)
    } else if old is None {
        (Err(invalid_input("missing 'old_text'"@)), state)
    } else if new is None {
        (Err(invalid_input("missing 'new_text'"@)), state)
    } else {
        replaced_in::<F>(
            method,
            state,
            path->0,
            old->0,
            new->0,
            input.truth_field("all"@) == Some(true),
        )
    }
}

fn report_nothing(path: &str, closest: &Option<FuzzyMatch>, allow_fuzzy: bool) -> (e: EditError)
    requires
        closest matches Some(m) ==> m.confidence.bits <= ONE,
    ensures
        e@ == nothing_replaced(path@, opt_match(*closest), allow_fuzzy),
{
    let detail = match closest {
        Some(m) => {
            let mut detail = "Closest match (".to_owned();
            detail.append(show(m.confidence.percent()).as_str());
            detail.append("% similar) at line ");
            detail.append(show(m.start_line).as_str());
            detail.append(".");
            detail
        },
        None => if allow_fuzzy {
            "Could not find a close enough match.".to_owned()
        } else {
            "Could not find the exact text.".to_owned()
        },
    };
    EditError::NoMatch { file: path.to_owned(), detail }
}

impl ReplaceMethod {
    /// Replaces text in a file, given as it was read.
    fn replace_in_file(&self, raw: &str, path: &str, old: &str, new: &str, all: bool) -> (r: Result<
        ReplaceResult,
        EditError,
    >)
        ensures
            outcome(r) == file_replaced(*self, raw@, path@, old@, new@, all),
    {
        let bom = strip_bom(raw);
        let content = normalize_to_lf(bom.text);
        let old = normalize_to_lf(old);
        let new = normalize_to_lf(new);
        let o = find_match(
            content.as_str(),
            old.as_str(),
            self.allow_fuzzy,
            Some(self.threshold),
        );
        if !all {
            match o.occurrences {
                Some(count) => {
                    if count > 1 {
                        return Err(
                            EditError::AmbiguousMatch {
                                file: path.to_owned(),
                                count,
                                previews: join(&o.occurrence_previews, "\n\n"),
                            },
                        );
                    }
                },
                None => {},
            }
        }
        let options = ReplaceOptions {
            fuzzy: self.allow_fuzzy,
            all,
            threshold: Some(self.threshold),
        };
        let r = match replace_text(content.as_str(), old.as_str(), new.as_str(), &options) {
            Ok(x) => x,
            Err(e) => {
                return Err(e);
            },
        };
        if r.count == 0 {
            return Err(report_nothing(path, &o.closest, self.allow_fuzzy));
        }
        if same(r.content.as_str(), content.as_str()) {
            return Err(
                EditError::NoChanges {
                    file: path.to_owned(),
                    detail: " The replacement produced identical content.".to_owned(),
                },
            );
        }
        Ok(r)
    }

    fn replace_in<F: EditFs>(&self, fs: &mut F, path: &str, old_text: &str, new_text: &str, all: bool) -> (
    r: Result<EditResult, EditError>)
        ensures
            (outcome(r), final(fs).state()) == replaced_in::<F>(
                *self,
                old(fs).state(),
                path@,
                old_text@,
                new_text@,
                all,
            ),
    {
        if old_text.is_empty() {
            return Err(
                EditError::InvalidInput { message: "old_text must not be empty".to_owned() },
            );
        }
        match fs.file_exists(path) {
            Err(e) => {
                return Err(e);
            },
            Ok(there) => {
                if !there {
                    return Err(EditError::FileNotFound { path: path.to_owned() });
                }
            },
        }
        let raw = match fs.read(path) {
            Ok(x) => x,
            Err(e) => {
                return Err(e);
            },
        };
        let result = match self.replace_in_file(raw.as_str(), path, old_text, new_text, all) {
            Ok(x) => x,
            Err(e) => {
                return Err(e);
            },
        };
        let styled = restyle(raw.as_str(), result.content.as_str());
        match fs.write(path, styled.as_str()) {
            Ok(_) => {},
            Err(e) => {
                return Err(e);
            },
        }
        let bom = strip_bom(raw.as_str());
        let content = normalize_to_lf(bom.text);
        let diff = generate_diff_string(content.as_str(), result.content.as_str(), 4);
        let message = if result.count > 1 {
            let mut m = "Replaced ".to_owned();
            m.append(show(result.count).as_str());
            m.append(" occurrences in ");
            m.append(path);
            m
        } else {
            let mut m = "Replaced text in ".to_owned();
            m.append(path);
            m
        };
        let r = EditResult {
            message,
            change: FileChange {
                op: ChangeOp::Update,
                path: path.to_owned(),
                new_path: None,
                old_content: Some(content),
                new_content: Some(result.content),
            },
            changes: Vec::new(),
            diff: Some(diff.diff),
            first_changed_line: diff.first_changed_line,
            warnings: Vec::new(),
        };
        assert(r@.changes =~= Seq::empty());
        assert(r@.warnings =~= Seq::empty());
        Ok(r)
    }
}

impl EditMethod for ReplaceMethod {
    open spec fn name_text(&self) -> Seq<char> {
        "replace"@
    }

    open spec fn prompt_text(&self) -> Seq<char> {
        REPLACE_PROMPT@
    }

    open spec fn schema_text(&self) -> Seq<char> {
        REPLACE_SCHEMA@
    }

    open spec fn grammar_text(&self) -> Option<Seq<char>> {
        None
    }

    fn name(&self) -> (r: &str) {
        "replace"
    }

    fn prompt(&self) -> (r: &str) {
        REPLACE_PROMPT
    }

    fn schema(&self) -> (r: &str) {
        REPLACE_SCHEMA
    }

    fn grammar(&self) -> (r: Option<&str>) {
        None
    }

    fn apply<F: EditFs>(&self, input: &Value, fs: &mut F) -> (r: Result<EditResult, EditError>)
        ensures
            (outcome(r), final(fs).state()) == replace_applied::<F>(*self, old(fs).state(), *input),
    {
        let path = match input.get_str("path") {
            Some(x) => x,
            None => {
                return Err(EditError::InvalidInput { message: "missing 'path'".to_owned() });
            },
        };
        let old_text = match input.get_str("old_text") {
            Some(x) => x,
            None => {
                return Err(EditError::InvalidInput { message: "missing 'old_text'".to_owned() });
            },
        };
        let new_text = match input.get_str("new_text") {
            Some(x) => x,
            None => {
                return Err(EditError::InvalidInput { message: "missing 'new_text'".to_owned() });
            },
        };
        let all = match input.get_bool("all") {
            Some(b) => b,
            None => false,
        };
        self.replace_in(fs, path, old_text, new_text, all)
    }
}

/// Whether an input asks for a replacement in a file.
pub open spec fn asks_replacement(
    input: Value,
    path: Seq<char>,
    old: Seq<char>,
    new: Seq<char>,
) -> bool {
    &&& input.text_field("path"@) == Some(path)
    &&& input.text_field("old_text"@) == Some(old)
    &&& input.text_field("new_text"@) == Some(new)
    &&& old.len() > 0
}

/// The method replaces a text that occurs once in a file where it occurs, and leaves
/// the rest of the file and all other files as they were. It reports the path and both
/// contents.
pub proof fn law_replaced_in_file(
    method: ReplaceMethod,
    files: Files,
    input: Value,
    path: Seq<char>,
    old: Seq<char>,
    new: Seq<char>,
    k: int,
)
    requires
        asks_replacement(input, path, old, new),
        input.truth_field("all"@) != Some(true),
        files.contains_key(path),
        !has_bom(files[path]),
        !files[path].contains('\r'),
        !old.contains('\r'),
        !new.contains('\r'),
        old != new,
        0 <= k,
        occurs_at(files[path], old, k),
        forall|j: int| 0 <= j && j != k ==> !occurs_at(files[path], old, j),
    ensures
        ({
            let made = files[path].take(k) + new + files[path].skip(k + old.len());
            let (r, after) = replace_applied::<InMemoryFs>(method, files, input);
            &&& after == files.insert(path, made)
            &&& r matches Ok(report) && {
                &&& report.message == "Replaced text in "@ + path
                &&& report.change.op == ChangeOp::Update
                &&& report.change.path == path
                &&& report.change.new_path is None
                &&& report.change.old_content == Some(files[path])
                &&& report.change.new_content == Some(made)
                &&& report.warnings.len() == 0
            }
        }),
{
    let raw = files[path];
    law_lf_keeps(raw);
    law_lf_keeps(old);
    law_lf_keeps(new);
    let options = method.options(false);
    law_single_replaced(raw, old, new, options, k);
    law_single_occurrence(raw, old, method.allow_fuzzy, method.threshold.bits, new, k);
    let made = raw.take(k) + new + raw.skip(k + old.len());
    assert(made != raw) by {
        if made == raw {
            assert(new.len() == old.len());
            assert(raw.subrange(k, k + old.len()) == old);
            assert(made.subrange(k, k + old.len()) =~= new);
        }
    }
    lemma_plain_style(raw, made);
}

/// A file with plain line feeds is written as given.
proof fn lemma_plain_style(raw: Seq<char>, made: Seq<char>)
    requires
        !has_bom(raw),
        !raw.contains('\r'),
    ensures
        in_style_of(raw, made) == made,
{
    if let Some(i) = index_from(raw, seq!['\n'], 0) {
        lemma_index_from(raw, seq!['\n'], 0);
        if i > 0 {
            assert(raw.contains(raw[i - 1]));
        }
    }
    assert(Seq::<char>::empty() + made =~= made);
}

/// With `all`, the method replaces a text in every place, and reports how many there
/// were. Without it, and where there are several, it reports how many, and changes
/// nothing.
pub proof fn law_all_replaced_in_file(
    method: ReplaceMethod,
    files: Files,
    input: Value,
    path: Seq<char>,
    old: Seq<char>,
    new: Seq<char>,
    parts: Seq<Seq<char>>,
)
    requires
        asks_replacement(input, path, old, new),
        files.contains_key(path),
        files[path] == joined(parts, old),
        !has_bom(files[path]),
        !files[path].contains('\r'),
        !old.contains('\r'),
        !new.contains('\r'),
        parts.len() >= 3,
        forall|k: int| 0 <= k < parts.len() ==> !(#[trigger] parts[k]).contains(old[0]),
        joined(parts, new) != joined(parts, old),
    ensures
        ({
            let (r, after) = replace_applied::<InMemoryFs>(method, files, input);
            let count = (parts.len() - 1) as nat;
            if input.truth_field("all"@) == Some(true) {
                &&& after == files.insert(path, joined(parts, new))
                &&& r matches Ok(report) && report.message == "Replaced "@ + decimal(count)
                    + " occurrences in "@ + path
            } else {
                &&& after == files
                &&& r matches Err(ErrorView::AmbiguousMatch { file, count: c, previews: _ }) && file
                    == path && c == count
            }
        }),
{
    let raw = files[path];
    law_lf_keeps(raw);
    law_lf_keeps(old);
    law_lf_keeps(new);
    let all = input.truth_field("all"@) == Some(true);
    law_every_replaced(parts, old, new, method.options(all));
    lemma_tally_joined(parts, old);
    law_several_occurrences(raw, old, method.allow_fuzzy, method.threshold.bits);
    lemma_plain_style(raw, joined(parts, new));
}

/// A replacement that fails changes nothing: in a file that is not there, or where a
/// field is missing.
pub proof fn law_replacement_refused(method: ReplaceMethod, files: Files, input: Value)
    ensures
        ({
            let (r, after) = replace_applied::<InMemoryFs>(method, files, input);
            let path = input.text_field("path"@);
            let old = input.text_field("old_text"@);
            &&& r is Err ==> after == files
            &&& path is None || old is None || input.text_field("new_text"@) is None ==> r is Err
            &&& old matches Some(text) ==> (text.len() == 0 ==> r is Err)
            &&& path matches Some(p) ==> (!files.contains_key(p) ==> r is Err)
        }),
{
}

} // verus!
