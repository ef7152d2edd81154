//! Patch application.
//!
//! Applies parsed diff hunks to file content using fuzzy matching for robust
//! handling of whitespace and formatting differences.

use crate::double::{Double, ONE, above, lesser, percent_of};
use crate::error::{EditError, ErrorView, outcome, status};
use crate::fs::{EditFs, Files, InMemoryFs};
use crate::fuzzy::{
    ContextLineResult, ContextMatchStrategy, DEFAULT_FUZZY_THRESHOLD, FuzzyMatch, MatchOutcome,
    MatchView, OutcomeView, SearchView, SequenceMatchStrategy, SequenceSearchResult,
    closest_sequence, find_closest_sequence_match, find_match, found, immediate, ints,
    law_exact_lines, law_single_occurrence, max, min, opt_int, opt_match, replace_match,
    seek_sequence, sought, with_match_replaced,
};
use crate::locate::{
    AMBIGUITY_HINT_WINDOW, attempt_sequence_fallback, choose_hinted_match, context_place,
    fallback_place, find_context_relative_match, find_hierarchical_context,
    find_sequence_with_hint, find_variant, first_like, fitting_variant,
    format_sequence_match_preview, format_sequence_match_previews, get_hunk_hint_index,
    hinted_place, hunk_hint, index_of_line, is_many, is_unique, law_context_line, next_like,
    place_preview, places_preview, relative_place, several, sought_near,
};
use crate::normalize::{
    LineEnding, adjust_indentation, adjusted, bom_of, detect_line_ending, has_bom, law_bom_split,
    law_ending_detected, law_ending_round_trip, law_lf_keeps, line_ending, lines_of,
    normalize_to_lf, restore_line_endings, strip_bom, with_ending, with_lf, without_bom,
};
use crate::parser::{
    DiffHunk, HunkView, created_content, hunk_views, hunks_of, normalize_create_content,
    parse_hunks,
};
use crate::reindent::{adjust_lines_indentation, law_expected_lines, reindented};
use crate::splice::{
    Replacement, ReplacementView, by_start, lemma_by_start, lemma_by_start_in_order, replace_back,
    replaced_back, replacement_views, sort_replacements,
};
use crate::text::{
    capped, contains_char, copy_range, copy_texts, decimal, index_from, join, joined,
    law_join_pieces, lemma_index_from, lemma_pieces_nonempty, lemma_replaced_absent, occurs_at,
    opt_nat, opt_view, push_text, replace, replaced, same, same_lines, show, spliced, split_on,
    split_whitespace, to_refs, trim, trimmed, views, words,
};
use crate::traits::{ChangeOp, ChangeView, FileChange, copy_opt};
use crate::variants::{
    HunkVariant, VariantView, build_fallback_variants, filter_fallback_variants, usable_variants,
    variant_views,
};
use vstd::prelude::*;
use vstd::string::*;

verus! {

/// Whether a hunk says where it belongs, so that more may be tried to find it.
pub open spec fn is_anchored(hunk: HunkView) -> bool {
    hunk.context is Some || hunk.old_start is Some || hunk.eof
}

/// The error for a line hint of zero.
pub open spec fn hint_error(path: Seq<char>) -> ErrorView {
    ErrorView::InvalidRange {
        message: "Line hint 0 is out of range for "@ + path + " (line numbers start at 1)"@,
    }
}

/// Where the search for a hunk begins: at its line hint where it has nothing
/// else to go by, or at `line`.
pub open spec fn search_line(lines: Seq<Seq<char>>, hunk: HunkView, line: int) -> int {
    if hunk.old_start is Some && hunk.context is None && !hunk.has_context {
        min(index_of_line(hunk.old_start->0), max(lines.len() - 1, 0))
    } else {
        line
    }
}

/// Where the context of a hunk leads.
pub ghost struct Located {
    /// The line of the context.
    pub context: Option<int>,
    /// The line from which the hunk is searched.
    pub line: int,
}

/// The name of a strategy.
pub open spec fn context_strategy_name(s: ContextMatchStrategy) -> Seq<char> {
    match s {
        ContextMatchStrategy::Exact => "Exact"@,
        ContextMatchStrategy::Trim => "Trim"@,
        ContextMatchStrategy::Unicode => "Unicode"@,
        ContextMatchStrategy::Prefix => "Prefix"@,
        ContextMatchStrategy::Substring => "Substring"@,
        ContextMatchStrategy::Fuzzy => "Fuzzy"@,
    }
}

/// The name of a strategy.
pub open spec fn sequence_strategy_name(s: SequenceMatchStrategy) -> Seq<char> {
    match s {
        SequenceMatchStrategy::Exact => "Exact"@,
        SequenceMatchStrategy::TrimTrailing => "TrimTrailing"@,
        SequenceMatchStrategy::Trim => "Trim"@,
        SequenceMatchStrategy::CommentPrefix => "CommentPrefix"@,
        SequenceMatchStrategy::Unicode => "Unicode"@,
        SequenceMatchStrategy::Prefix => "Prefix"@,
        SequenceMatchStrategy::Substring => "Substring"@,
        SequenceMatchStrategy::Fuzzy => "Fuzzy"@,
        SequenceMatchStrategy::FuzzyDominant => "FuzzyDominant"@,
        SequenceMatchStrategy::Character => "Character"@,
    }
}

/// The error for a search with several matches.
pub open spec fn several_error(
    lines: Seq<Seq<char>>,
    path: Seq<char>,
    what: Seq<char>,
    strategy: Option<Seq<char>>,
    indices: Seq<int>,
    count: Option<nat>,
) -> ErrorView {
    let n = match count {
        Some(n) => n,
        None => 2,
    };
    let by = match strategy {
        Some(s) => " Matching strategy: "@ + s + "."@,
        None => Seq::empty(),
    };
    let shown = match places_preview(lines, indices, count) {
        Some(p) => "\n\n"@ + p,
        None => Seq::empty(),
    };
    ErrorView::AmbiguousMatch {
        file: path,
        count: n,
        previews: "Found "@ + decimal(n) + " matches for "@ + what + " in "@ + path + "."@ + by
            + shown
            + "\n\nAdd more surrounding context or additional @@ anchors to make it unique."@,
    }
}

/// What a context is called in an error.
pub open spec fn context_name(context: Seq<char>) -> Seq<char> {
    "context '"@ + lines_of(context).last() + "'"@
}

/// The error for a context with several matches.
pub open spec fn context_several(
    lines: Seq<Seq<char>>,
    path: Seq<char>,
    context: Seq<char>,
    r: SearchView<ContextMatchStrategy>,
) -> ErrorView {
    several_error(
        lines,
        path,
        context_name(context),
        match r.strategy {
            Some(s) => Some(context_strategy_name(s)),
            None => None,
        },
        r.indices,
        r.count,
    )
}

/// The error for a context that is not found.
pub open spec fn context_missing(path: Seq<char>, context: Seq<char>) -> ErrorView {
    ErrorView::NoMatch {
        file: path,
        detail: "Failed to find context '"@ + replaced(context, "\n"@, " > "@) + "' in "@ + path,
    }
}

/// Whether a hunk begins with the line of its context, rather than behind it.
pub open spec fn begins_at_context(hunk: HunkView, context: Seq<char>) -> bool {
    hunk.old.len() > 0 && (trimmed(hunk.old[0]) == trimmed(lines_of(context).last())
        || context.contains('\n') || words(context).len() > 2)
}

/// Where the context of a hunk leads, or why it leads nowhere.
pub open spec fn located(
    lines: Seq<Seq<char>>,
    path: Seq<char>,
    hunk: HunkView,
    line: int,
    allow_fuzzy: bool,
) -> Result<Located, ErrorView> {
    match hunk.context {
        None => Ok(Located { context: None, line }),
        Some(context) => {
            let r = context_place(lines, context, line, hunk.old_start, allow_fuzzy);
            let direct = fallback_place(lines, hunk, line, allow_fuzzy, is_anchored(hunk));
            if is_unique(r) {
                let at = r.index->0;
                Ok(
                    Located {
                        context: Some(at),
                        line: if begins_at_context(hunk, context) {
                            at
                        } else {
                            at + 1
                        },
                    },
                )
            } else if direct is Some {
                Ok(Located { context: r.index, line: direct->0 })
            } else if is_many(r) {
                Err(context_several(lines, path, context, r))
            } else {
                Err(context_missing(path, context))
            }
        },
    }
}

/// Where the context leads, by its contents.
struct Location {
    context: Option<usize>,
    line: usize,
}

impl Location {
    spec fn located(&self) -> Located {
        Located { context: opt_int(self.context), line: self.line as int }
    }
}

spec fn location_outcome(r: Result<Location, EditError>) -> Result<Located, ErrorView> {
    match r {
        Ok(x) => Ok(x.located()),
        Err(e) => Err(e@),
    }
}

fn name_of_context_strategy(s: ContextMatchStrategy) -> (r: &'static str)
    ensures
        r@ == context_strategy_name(s),
{
    match s {
        ContextMatchStrategy::Exact => "Exact",
        ContextMatchStrategy::Trim => "Trim",
        ContextMatchStrategy::Unicode => "Unicode",
        ContextMatchStrategy::Prefix => "Prefix",
        ContextMatchStrategy::Substring => "Substring",
        ContextMatchStrategy::Fuzzy => "Fuzzy",
    }
}

fn name_of_sequence_strategy(s: SequenceMatchStrategy) -> (r: &'static str)
    ensures
        r@ == sequence_strategy_name(s),
{
    match s {
        SequenceMatchStrategy::Exact => "Exact",
        SequenceMatchStrategy::TrimTrailing => "TrimTrailing",
        SequenceMatchStrategy::Trim => "Trim",
        SequenceMatchStrategy::CommentPrefix => "CommentPrefix",
        SequenceMatchStrategy::Unicode => "Unicode",
        SequenceMatchStrategy::Prefix => "Prefix",
        SequenceMatchStrategy::Substring => "Substring",
        SequenceMatchStrategy::Fuzzy => "Fuzzy",
        SequenceMatchStrategy::FuzzyDominant => "FuzzyDominant",
        SequenceMatchStrategy::Character => "Character",
    }
}

fn report_several(
    lines: &[&str],
    path: &str,
    what: &str,
    strategy: Option<&str>,
    indices: &[usize],
    count: Option<usize>,
) -> (r: EditError)
    ensures
        r@ == several_error(
            views(lines@),
            path@,
            what@,
            opt_view(strategy),
            ints(indices@),
            opt_nat(count),
        ),
{
    let n: usize = match count {
        Some(n) => n,
        None => 2,
    };
    let mut text = "Found ".to_owned();
    text.append(show(n).as_str());
    text.append(" matches for ");
    text.append(what);
    text.append(" in ");
    text.append(path);
    text.append(".");
    let ghost head = text@;
    match strategy {
        Some(s) => {
            text.append(" Matching strategy: ");
            text.append(s);
            text.append(".");
            assert(text@ =~= head + (" Matching strategy: "@ + s@ + "."@));
        },
        None => {
            assert(text@ =~= head + Seq::empty());
        },
    }
    let ghost middle = text@;
    match format_sequence_match_previews(lines, indices, count) {
        Some(p) => {
            text.append("\n\n");
            text.append(p.as_str());
            assert(text@ =~= middle + ("\n\n"@ + p@));
        },
        None => {
            assert(text@ =~= middle + Seq::empty());
        },
    }
    text.append("\n\nAdd more surrounding context or additional @@ anchors to make it unique.");
    EditError::AmbiguousMatch { file: path.to_owned(), count: n, previews: text }
}

fn report_context(lines: &[&str], path: &str, context: &str, r: &ContextLineResult) -> (e: EditError)
    ensures
        e@ == context_several(views(lines@), path@, context@, r@),
{
    let parts = split_on(context, '\n');
    let mut what = "context '".to_owned();
    assert(lines_of(context@).last() == parts@[parts@.len() - 1]@);
    what.append(parts[parts.len() - 1].as_str());
    what.append("'");
    let strategy: Option<&str> = match r.strategy {
        Some(s) => Some(name_of_context_strategy(s)),
        None => None,
    };
    report_several(lines, path, what.as_str(), strategy, &r.match_indices, r.match_count)
}

fn report_missing_context(path: &str, context: &str) -> (e: EditError)
    ensures
        e@ == context_missing(path@, context@),
{
    proof {
        reveal_strlit("\n");
    }
    let mut detail = "Failed to find context '".to_owned();
    detail.append(replace(context, "\n", " > ").as_str());
    detail.append("' in ");
    detail.append(path);
    EditError::NoMatch { file: path.to_owned(), detail }
}

fn starts_at_context(hunk: &DiffHunk, context: &str) -> (r: bool)
    ensures
        r == begins_at_context(hunk@, context@),
{
    assert(hunk@.old.len() == hunk.old_lines@.len());
    if hunk.old_lines.len() == 0 {
        return false;
    }
    let parts = split_on(context, '\n');
    assert(lines_of(context@).last() == parts@[parts@.len() - 1]@);
    assert(hunk@.old[0] == hunk.old_lines@[0]@);
    let ws = split_whitespace(context);
    assert(views(ws@).len() == ws@.len());
    same(trim(hunk.old_lines[0].as_str()), trim(parts[parts.len() - 1].as_str())) || contains_char(
        context,
        '\n',
    ) || ws.len() > 2
}

/// Finds where the context of a hunk leads.
fn locate(lines: &[&str], path: &str, hunk: &DiffHunk, line: usize, allow_fuzzy: bool) -> (r: Result<
    Location,
    EditError,
>)
    ensures
        location_outcome(r) == located(views(lines@), path@, hunk@, line as int, allow_fuzzy),
        r matches Ok(x) ==> (x.context matches Some(c) ==> c < lines@.len()),
        hunk@.old.len() == 0 && hunk@.context is Some ==> (r matches Ok(x) ==> x.line
            <= lines@.len()),
{
    let total: usize = lines.len();
    let context = match &hunk.change_context {
        None => {
            return Ok(Location { context: None, line });
        },
        Some(c) => c.as_str(),
    };
    let found = find_hierarchical_context(lines, context, line, hunk.old_start_line, allow_fuzzy);
    let many = several(found.match_count);
    if !many {
        match found.index {
            Some(at) => {
                let from: usize = if starts_at_context(hunk, context) {
                    at
                } else {
                    at + 1
                };
                return Ok(Location { context: Some(at), line: from });
            },
            None => {},
        }
    }
    match attempt_sequence_fallback(lines, hunk, line, allow_fuzzy, true) {
        Some(at) => Ok(Location { context: found.index, line: at }),
        None => if many {
            Err(report_context(lines, path, context, &found))
        } else {
            Err(report_missing_context(path, context))
        },
    }
}

/// Where the lines of a hunk without old lines are inserted: where its context
/// leads, at its line hint, or at the end, before a last line that is empty.
pub open spec fn insertion(
    lines: Seq<Seq<char>>,
    path: Seq<char>,
    hunk: HunkView,
    line: int,
) -> Result<int, ErrorView> {
    let hint = match hunk.old_start {
        Some(n) => Some(n),
        None => hunk.new_start,
    };
    if hunk.context is Some {
        Ok(line)
    } else if hint is Some {
        if hint->0 > lines.len() + 1 {
            Err(
                ErrorView::InvalidRange {
                    message: "Line hint "@ + decimal(hint->0)
                        + " is out of range for insertion in "@ + path + " (file has "@ + decimal(
                        lines.len(),
                    ) + " lines)"@,
                },
            )
        } else {
            Ok(index_of_line(hint->0))
        }
    } else if lines.len() > 0 && lines.last().len() == 0 {
        Ok(lines.len() - 1)
    } else {
        Ok(lines.len() as int)
    }
}

spec fn place_outcome(r: Result<usize, EditError>) -> Result<int, ErrorView> {
    match r {
        Ok(n) => Ok(n as int),
        Err(e) => Err(e@),
    }
}

fn find_insertion(lines: &[&str], path: &str, hunk: &DiffHunk, line: usize) -> (r: Result<
    usize,
    EditError,
>)
    ensures
        place_outcome(r) == insertion(views(lines@), path@, hunk@, line as int),
        hunk@.context is None || line <= lines@.len() ==> (r matches Ok(n) ==> n <= lines@.len()),
{
    let ghost l = views(lines@);
    let n: usize = lines.len();
    if hunk.change_context.is_some() {
        return Ok(line);
    }
    let hint: Option<usize> = match hunk.old_start_line {
        Some(h) => Some(h),
        None => hunk.new_start_line,
    };
    match hint {
        Some(h) => {
            if h > n && h - n > 1 {
                let mut message = "Line hint ".to_owned();
                message.append(show(h).as_str());
                message.append(" is out of range for insertion in ");
                message.append(path);
                message.append(" (file has ");
                message.append(show(n).as_str());
                message.append(" lines)");
                return Err(EditError::InvalidRange { message });
            }
            Ok(h.saturating_sub(1))
        },
        None => {
            if n > 0 {
                assert(l.last() == lines@[n - 1]@);
                if lines[n - 1].is_empty() {
                    return Ok(n - 1);
                }
            }
            Ok(n)
        },
    }
}

/// A search for the old lines of a hunk.
#[verifier::ext_equal]
pub ghost struct Hunt {
    /// The lines that are searched.
    pub pattern: Seq<Seq<char>>,
    /// The lines in their place.
    pub new: Seq<Seq<char>>,
    /// What was found.
    pub result: SearchView<SequenceMatchStrategy>,
}

/// The search for the old lines as they stand.
pub open spec fn first_hunt(
    lines: Seq<Seq<char>>,
    hunk: HunkView,
    line: int,
    allow_fuzzy: bool,
) -> Hunt {
    Hunt {
        pattern: hunk.old,
        new: hunk.new,
        result: sought_near(
            lines,
            hunk.old,
            line,
            hunk_hint(hunk, line),
            hunk.eof,
            allow_fuzzy,
        ),
    }
}

/// The lines without a last one that is empty.
pub open spec fn without_empty_last(lines: Seq<Seq<char>>) -> Seq<Seq<char>> {
    if lines.len() > 0 && lines.last().len() == 0 {
        lines.drop_last()
    } else {
        lines
    }
}

/// The search again without a last line that is empty.
pub open spec fn second_hunt(
    lines: Seq<Seq<char>>,
    hunk: HunkView,
    line: int,
    allow_fuzzy: bool,
    h: Hunt,
) -> Hunt {
    let shorter = without_empty_last(h.pattern);
    if h.result.index is None && shorter.len() < h.pattern.len() {
        Hunt {
            pattern: shorter,
            new: without_empty_last(h.new),
            result: sought_near(
                lines,
                shorter,
                line,
                hunk_hint(hunk, line),
                hunk.eof,
                allow_fuzzy,
            ),
        }
    } else {
        h
    }
}

/// The search for the first variant that is found once, where there is not one
/// match yet.
pub open spec fn variant_hunt(
    lines: Seq<Seq<char>>,
    hunk: HunkView,
    line: int,
    allow_fuzzy: bool,
    h: Hunt,
) -> Hunt {
    let vs = usable_variants(hunk.old, hunk.new, is_anchored(hunk));
    let hint = hunk_hint(hunk, line);
    let v = fitting_variant(lines, vs, 0, line, hint, hunk.eof, allow_fuzzy);
    if !is_unique(h.result) && v is Some {
        Hunt {
            pattern: vs[v->0].old,
            new: vs[v->0].new,
            result: sought_near(lines, vs[v->0].old, line, hint, hunk.eof, allow_fuzzy),
        }
    } else {
        h
    }
}

/// Whether a new line of the hunk is `text` when trimmed.
pub open spec fn keeps_text(hunk: HunkView, text: Seq<char>) -> bool {
    exists|i: int| 0 <= i < hunk.new.len() && trimmed(#[trigger] hunk.new[i]) == text
}

/// Where the old line of a variant of one line stands near the context.
pub open spec fn variant_near(
    lines: Seq<Seq<char>>,
    hunk: HunkView,
    v: VariantView,
    context: int,
) -> Option<int> {
    if v.old.len() == 1 && v.new.len() == 1 {
        let text = trimmed(v.old[0]);
        relative_place(lines, text, context, keeps_text(hunk, text))
    } else {
        None
    }
}

/// The first of the variants, from `k` on, that stands near the context.
pub open spec fn near_variant(
    lines: Seq<Seq<char>>,
    hunk: HunkView,
    vs: Seq<VariantView>,
    k: int,
    context: int,
) -> Option<int>
    decreases vs.len() - k,
{
    if k < 0 || k >= vs.len() {
        None
    } else if variant_near(lines, hunk, vs[k], context) is Some {
        Some(k)
    } else {
        near_variant(lines, hunk, vs, k + 1, context)
    }
}

/// The score of a line that is found by its context.
pub const NEAR_CONTEXT: u64 = 0x3FEE_6666_6666_6666;

/// The search for a variant of one line near the context, where nothing is
/// found yet.
pub open spec fn near_hunt(
    lines: Seq<Seq<char>>,
    hunk: HunkView,
    context: Option<int>,
    h: Hunt,
) -> Hunt {
    let vs = usable_variants(hunk.old, hunk.new, is_anchored(hunk));
    let v = near_variant(lines, hunk, vs, 0, context->0);
    if h.result.index is None && context is Some && v is Some {
        Hunt {
            pattern: vs[v->0].old,
            new: vs[v->0].new,
            result: SearchView {
                index: variant_near(lines, hunk, vs[v->0], context->0),
                confidence: NEAR_CONTEXT,
                count: None,
                indices: Seq::empty(),
                strategy: None,
            },
        }
    } else {
        h
    }
}

/// Whether more than one line is `text` when trimmed.
pub open spec fn stands_twice(lines: Seq<Seq<char>>, text: Seq<char>) -> bool {
    match first_like(lines, text, 0) {
        Some(a) => first_like(lines, text, a + 1) is Some,
        None => false,
    }
}

/// The match of a single line that stands more than once, moved to the context.
pub open spec fn moved_hunt(
    lines: Seq<Seq<char>>,
    hunk: HunkView,
    context: Option<int>,
    h: Hunt,
) -> Hunt {
    let text = trimmed(h.pattern[0]);
    let at = relative_place(lines, text, context->0, keeps_text(hunk, text));
    if h.result.index is Some && context is Some && h.pattern.len() == 1 && stands_twice(
        lines,
        text,
    ) && at is Some {
        Hunt {
            result: SearchView { index: at, count: None, indices: Seq::empty(), ..h.result },
            ..h
        }
    } else {
        h
    }
}

/// The only one of several matches that is near the line hint.
pub open spec fn hinted_hunt(hunk: HunkView, line: int, h: Hunt) -> Hunt {
    let hint = match hunk_hint(hunk, line) {
        Some(i) => Some(i),
        None => match hunk.old_start {
            Some(n) => Some(index_of_line(n)),
            None => None,
        },
    };
    let at = hinted_place(h.result.indices, hint, AMBIGUITY_HINT_WINDOW as int);
    if is_many(h.result) && at is Some {
        Hunt {
            result: SearchView {
                index: at,
                count: Some(1),
                indices: seq![at->0],
                ..h.result
            },
            ..h
        }
    } else {
        h
    }
}

/// The search for the old lines of a hunk.
pub open spec fn hunted(
    lines: Seq<Seq<char>>,
    hunk: HunkView,
    at: Located,
    allow_fuzzy: bool,
) -> Hunt {
    let a = first_hunt(lines, hunk, at.line, allow_fuzzy);
    let b = second_hunt(lines, hunk, at.line, allow_fuzzy, a);
    let c = variant_hunt(lines, hunk, at.line, allow_fuzzy, b);
    let d = near_hunt(lines, hunk, at.context, c);
    let e = moved_hunt(lines, hunk, at.context, d);
    hinted_hunt(hunk, at.line, e)
}

/// A search for the old lines of a hunk, in progress.
struct Search {
    pattern: Vec<String>,
    new_slice: Vec<String>,
    result: SequenceSearchResult,
}

impl Search {
    spec fn hunt(&self) -> Hunt {
        Hunt {
            pattern: views(self.pattern@),
            new: views(self.new_slice@),
            result: self.result@,
        }
    }
}

fn search_first(lines: &[&str], hunk: &DiffHunk, line: usize, allow_fuzzy: bool) -> (r: Search)
    ensures
        r.hunt() == first_hunt(views(lines@), hunk@, line as int, allow_fuzzy),
        r.result.confidence.bits <= ONE,
{
    let hint = get_hunk_hint_index(hunk, line);
    let refs = to_refs(&hunk.old_lines);
    let result = find_sequence_with_hint(
        lines,
        &refs,
        line,
        hint,
        hunk.is_end_of_file,
        allow_fuzzy,
    );
    Search {
        pattern: copy_texts(&hunk.old_lines),
        new_slice: copy_texts(&hunk.new_lines),
        result,
    }
}

pub(crate) fn drop_empty_last(lines: &[String]) -> (r: Vec<String>)
    ensures
        views(r@) == without_empty_last(views(lines@)),
        r@.len() == views(r@).len(),
{
    let n: usize = lines.len();
    if n > 0 {
        assert(views(lines@).last() == lines@[n - 1]@);
        if lines[n - 1].as_str().is_empty() {
            let r = copy_range(lines, 0, n - 1);
            assert(views(r@) =~= views(lines@).drop_last());
            return r;
        }
    }
    copy_texts(lines)
}

fn search_second(
    lines: &[&str],
    hunk: &DiffHunk,
    line: usize,
    allow_fuzzy: bool,
    s: Search,
) -> (r: Search)
    requires
        s.result.confidence.bits <= ONE,
    ensures
        r.hunt() == second_hunt(views(lines@), hunk@, line as int, allow_fuzzy, s.hunt()),
        r.result.confidence.bits <= ONE,
{
    assert(views(s.pattern@).len() == s.pattern@.len());
    if s.result.index.is_some() {
        return s;
    }
    let shorter = drop_empty_last(&s.pattern);
    if shorter.len() == s.pattern.len() {
        return s;
    }
    let hint = get_hunk_hint_index(hunk, line);
    let refs = to_refs(&shorter);
    let result = find_sequence_with_hint(
        lines,
        &refs,
        line,
        hint,
        hunk.is_end_of_file,
        allow_fuzzy,
    );
    Search { pattern: shorter, new_slice: drop_empty_last(&s.new_slice), result }
}

fn variants_of(hunk: &DiffHunk) -> (r: Vec<HunkVariant>)
    ensures
        variant_views(r@) == usable_variants(hunk@.old, hunk@.new, is_anchored(hunk@)),
{
    let anchored = hunk.change_context.is_some() || hunk.old_start_line.is_some()
        || hunk.is_end_of_file;
    filter_fallback_variants(
        build_fallback_variants(&hunk.old_lines, &hunk.new_lines),
        anchored,
    )
}

fn search_variant(
    lines: &[&str],
    hunk: &DiffHunk,
    line: usize,
    allow_fuzzy: bool,
    s: Search,
) -> (r: Search)
    requires
        s.result.confidence.bits <= ONE,
    ensures
        r.hunt() == variant_hunt(views(lines@), hunk@, line as int, allow_fuzzy, s.hunt()),
        r.result.confidence.bits <= ONE,
{
    if s.result.index.is_some() && !several(s.result.match_count) {
        return s;
    }
    let vs = variants_of(hunk);
    let hint = get_hunk_hint_index(hunk, line);
    match find_variant(lines, &vs, line, hint, hunk.is_end_of_file, allow_fuzzy) {
        Some((k, result)) => {
            assert(variant_views(vs@)[k as int] == vs@[k as int]@);
            Search {
                pattern: copy_texts(&vs[k].old_lines),
                new_slice: copy_texts(&vs[k].new_lines),
                result,
            }
        },
        None => s,
    }
}

fn new_keeps(hunk: &DiffHunk, text: &str) -> (r: bool)
    ensures
        r == keeps_text(hunk@, text@),
{
    let mut i: usize = 0;
    while i < hunk.new_lines.len()
        invariant
            i <= hunk.new_lines@.len(),
            forall|k: int| 0 <= k < i ==> trimmed(#[trigger] hunk@.new[k]) != text@,
        decreases hunk.new_lines@.len() - i,
    {
        if same(trim(hunk.new_lines[i].as_str()), text) {
            assert(trimmed(hunk@.new[i as int]) == text@);
            return true;
        }
        i = i + 1;
    }
    false
}

fn search_near(lines: &[&str], hunk: &DiffHunk, near: Option<usize>, s: Search) -> (r: Search)
    requires
        s.result.confidence.bits <= ONE,
        near matches Some(c) ==> c < lines@.len(),
    ensures
        r.hunt() == near_hunt(views(lines@), hunk@, opt_int(near), s.hunt()),
        r.result.confidence.bits <= ONE,
{
    let ghost l = views(lines@);
    if s.result.index.is_some() {
        return s;
    }
    let context: usize = match near {
        Some(c) => c,
        None => {
            return s;
        },
    };
    let vs = variants_of(hunk);
    let ghost v = variant_views(vs@);
    let mut k: usize = 0;
    while k < vs.len()
        invariant
            l == views(lines@),
            v == variant_views(vs@),
            v == usable_variants(hunk@.old, hunk@.new, is_anchored(hunk@)),
            k <= vs@.len(),
            near == Some(context),
            context < lines@.len(),
            s.hunt().result.index is None,
            near_variant(l, hunk@, v, 0, context as int) == near_variant(
                l,
                hunk@,
                v,
                k as int,
                context as int,
            ),
        decreases vs@.len() - k,
    {
        assert(v[k as int] == vs@[k as int]@);
        assert(v[k as int].old.len() == vs@[k as int].old_lines@.len());
        assert(v[k as int].new.len() == vs@[k as int].new_lines@.len());
        if vs[k].old_lines.len() == 1 && vs[k].new_lines.len() == 1 {
            let removed = vs[k].old_lines[0].as_str();
            assert(v[k as int].old[0] == removed@);
            let keeps = new_keeps(hunk, trim(removed));
            match find_context_relative_match(lines, removed, context, keeps) {
                Some(at) => {
                    let r = Search {
                        pattern: copy_texts(&vs[k].old_lines),
                        new_slice: copy_texts(&vs[k].new_lines),
                        result: SequenceSearchResult {
                            index: Some(at),
                            confidence: Double::from_bits(NEAR_CONTEXT),
                            match_count: None,
                            match_indices: Vec::new(),
                            strategy: None,
                        },
                    };
                    assert(r.hunt() =~= near_hunt(l, hunk@, Some(context as int), s.hunt()));
                    return r;
                },
                None => {},
            }
        }
        k = k + 1;
    }
    s
}

fn line_stands_twice(lines: &[&str], text: &str) -> (r: bool)
    ensures
        r == stands_twice(views(lines@), text@),
{
    let total: usize = lines.len();
    match next_like(lines, text, 0) {
        Some(a) => next_like(lines, text, a + 1).is_some(),
        None => false,
    }
}

fn move_to_context(lines: &[&str], hunk: &DiffHunk, context: Option<usize>, s: Search) -> (r: Search)
    requires
        s.result.confidence.bits <= ONE,
        context matches Some(c) ==> c < lines@.len(),
    ensures
        r.hunt() == moved_hunt(views(lines@), hunk@, opt_int(context), s.hunt()),
        r.result.confidence.bits <= ONE,
{
    assert(views(s.pattern@).len() == s.pattern@.len());
    let context: usize = match context {
        Some(c) => c,
        None => {
            return s;
        },
    };
    if s.result.index.is_none() || s.pattern.len() != 1 {
        return s;
    }
    let line = s.pattern[0].as_str();
    assert(s.hunt().pattern[0] == line@);
    let text = trim(line);
    if !line_stands_twice(lines, text) {
        return s;
    }
    let keeps = new_keeps(hunk, text);
    match find_context_relative_match(lines, line, context, keeps) {
        Some(at) => {
            let ghost before = s.hunt();
            let result = SequenceSearchResult {
                index: Some(at),
                confidence: s.result.confidence,
                match_count: None,
                match_indices: Vec::new(),
                strategy: s.result.strategy,
            };
            let r = Search { pattern: s.pattern, new_slice: s.new_slice, result };
            assert(r.hunt() =~= moved_hunt(
                views(lines@),
                hunk@,
                Some(context as int),
                before,
            ));
            r
        },
        None => s,
    }
}

fn decide_by_hint(hunk: &DiffHunk, line: usize, s: Search) -> (r: Search)
    requires
        s.result.confidence.bits <= ONE,
    ensures
        r.hunt() == hinted_hunt(hunk@, line as int, s.hunt()),
        r.result.confidence.bits <= ONE,
{
    if !several(s.result.match_count) {
        return s;
    }
    let hint: Option<usize> = match get_hunk_hint_index(hunk, line) {
        Some(i) => Some(i),
        None => match hunk.old_start_line {
            Some(n) => Some(n.saturating_sub(1)),
            None => None,
        },
    };
    match choose_hinted_match(&s.result.match_indices, hint, AMBIGUITY_HINT_WINDOW) {
        Some(at) => {
            let ghost before = s.hunt();
            let result = SequenceSearchResult {
                index: Some(at),
                confidence: s.result.confidence,
                match_count: Some(1),
                match_indices: vec![at],
                strategy: s.result.strategy,
            };
            let r = Search { pattern: s.pattern, new_slice: s.new_slice, result };
            assert(r.hunt() =~= hinted_hunt(hunk@, line as int, before));
            r
        },
        None => s,
    }
}

/// Searches for the old lines of a hunk.
fn search(lines: &[&str], hunk: &DiffHunk, at: &Location, allow_fuzzy: bool) -> (r: Search)
    requires
        at.context matches Some(c) ==> c < lines@.len(),
    ensures
        r.hunt() == hunted(views(lines@), hunk@, at.located(), allow_fuzzy),
        r.result.confidence.bits <= ONE,
{
    let a = search_first(lines, hunk, at.line, allow_fuzzy);
    let b = search_second(lines, hunk, at.line, allow_fuzzy, a);
    let c = search_variant(lines, hunk, at.line, allow_fuzzy, b);
    let d = search_near(lines, hunk, at.context, c);
    let e = move_to_context(lines, hunk, at.context, d);
    decide_by_hint(hunk, at.line, e)
}

/// What the hunks so far have given.
#[verifier::ext_equal]
pub ghost struct HunkProgress {
    /// Their replacements.
    pub reps: Seq<ReplacementView>,
    /// Their warnings.
    pub warnings: Seq<Seq<char>>,
    /// The line from which the next one is searched.
    pub line: int,
}

/// The error for old lines with several matches.
pub open spec fn text_several(
    lines: Seq<Seq<char>>,
    path: Seq<char>,
    r: SearchView<SequenceMatchStrategy>,
) -> ErrorView {
    several_error(
        lines,
        path,
        "the text"@,
        match r.strategy {
            Some(s) => Some(sequence_strategy_name(s)),
            None => None,
        },
        r.indices,
        r.count,
    )
}

/// The error for old lines that are not found.
pub open spec fn text_missing(
    lines: Seq<Seq<char>>,
    path: Seq<char>,
    hunk: HunkView,
    pattern: Seq<Seq<char>>,
    line: int,
) -> ErrorView {
    let closest = closest_sequence(lines, pattern, line, hunk.eof);
    let base = "Failed to find expected lines in "@ + path + ":\n"@ + joined(hunk.old, "\n"@);
    ErrorView::NoMatch {
        file: path,
        detail: match closest.index {
            Some(i) => base + "\n\nClosest match ("@ + decimal(
                percent_of(closest.confidence) as nat,
            ) + "% similar) near line "@ + decimal(capped(i + 1)) + ":\n"@ + place_preview(lines, i),
            None => base,
        },
    }
}

/// The error for old lines that stand in two places.
pub open spec fn text_twice(
    lines: Seq<Seq<char>>,
    path: Seq<char>,
    first: int,
    second: int,
) -> ErrorView {
    ErrorView::AmbiguousMatch {
        file: path,
        count: 2,
        previews: "Found 2 occurrences in "@ + path + ":\n\n"@ + place_preview(lines, first)
            + "\n\n"@ + place_preview(lines, second)
            + "\n\nAdd more context lines to disambiguate."@,
    }
}

/// The error for a match that is not within the file.
pub open spec fn text_beyond(path: Seq<char>, at: int) -> ErrorView {
    ErrorView::ApplyError {
        message: "Match at line "@ + decimal(capped(at + 1)) + " exceeds the end of "@ + path,
    }
}

/// The warning for a match that stands out among several.
pub open spec fn dominant_warning(path: Seq<char>, line: nat, confidence: u64) -> Seq<char> {
    "Dominant fuzzy match selected in "@ + path + " near line "@ + decimal(line) + " ("@ + decimal(
        percent_of(confidence) as nat,
    ) + "% similar)."@
}

/// Whether a hunk has nothing that tells equal places apart.
pub open spec fn is_bare(hunk: HunkView) -> bool {
    hunk.context is None && !hunk.has_context && !hunk.eof && hunk.old_start is None
}

/// What a search for the old lines of a hunk gives.
pub open spec fn concluded(
    lines: Seq<Seq<char>>,
    path: Seq<char>,
    hunk: HunkView,
    line: int,
    h: Hunt,
    allow_fuzzy: bool,
    p: HunkProgress,
) -> Result<HunkProgress, ErrorView> {
    let at = h.result.index->0;
    let end = at + h.pattern.len();
    let second = sought(lines, h.pattern, capped(at + 1) as int, false, allow_fuzzy);
    let warnings = if h.result.strategy == Some(SequenceMatchStrategy::FuzzyDominant) {
        p.warnings.push(dominant_warning(path, capped(at + 1), h.result.confidence))
    } else {
        p.warnings
    };
    if is_many(h.result) {
        Err(text_several(lines, path, h.result))
    } else if h.result.index is None {
        Err(text_missing(lines, path, hunk, h.pattern, line))
    } else if is_bare(hunk) && second.index is Some {
        Err(text_twice(lines, path, at, second.index->0))
    } else if end > lines.len() {
        Err(text_beyond(path, at))
    } else if h.pattern == h.new {
        Ok(HunkProgress { reps: p.reps, warnings, line: end })
    } else {
        Ok(
            HunkProgress {
                reps: p.reps.push(
                    ReplacementView {
                        start: at,
                        len: h.pattern.len() as int,
                        new: reindented(h.pattern, lines.subrange(at, end), h.new),
                    },
                ),
                warnings,
                line: end,
            },
        )
    }
}

/// What one more hunk gives.
pub open spec fn hunk_step(
    lines: Seq<Seq<char>>,
    path: Seq<char>,
    hunk: HunkView,
    allow_fuzzy: bool,
    p: HunkProgress,
) -> Result<HunkProgress, ErrorView> {
    if hunk.old_start == Some(0nat) || hunk.new_start == Some(0nat) {
        Err(hint_error(path))
    } else {
        match located(lines, path, hunk, search_line(lines, hunk, p.line), allow_fuzzy) {
            Err(e) => Err(e),
            Ok(at) => if hunk.old.len() == 0 {
                match insertion(lines, path, hunk, at.line) {
                    Err(e) => Err(e),
                    Ok(i) => Ok(
                        HunkProgress {
                            reps: p.reps.push(ReplacementView { start: i, len: 0, new: hunk.new }),
                            warnings: p.warnings,
                            line: at.line,
                        },
                    ),
                }
            } else {
                concluded(
                    lines,
                    path,
                    hunk,
                    at.line,
                    hunted(lines, hunk, at, allow_fuzzy),
                    allow_fuzzy,
                    p,
                )
            },
        }
    }
}

/// What the hunks give.
pub open spec fn hunks_done(
    lines: Seq<Seq<char>>,
    path: Seq<char>,
    hunks: Seq<HunkView>,
    allow_fuzzy: bool,
) -> Result<HunkProgress, ErrorView>
    decreases hunks.len(),
{
    if hunks.len() == 0 {
        Ok(HunkProgress { reps: Seq::empty(), warnings: Seq::empty(), line: 0 })
    } else {
        match hunks_done(lines, path, hunks.drop_last(), allow_fuzzy) {
            Err(e) => Err(e),
            Ok(p) => hunk_step(lines, path, hunks.last(), allow_fuzzy, p),
        }
    }
}

/// The first replacement, from `k` on, that the next one overlaps.
pub open spec fn first_overlap(reps: Seq<ReplacementView>, k: int) -> Option<int>
    decreases reps.len() - k,
{
    if k < 0 || k + 1 >= reps.len() {
        None
    } else if reps[k + 1].start < reps[k].end() {
        Some(k)
    } else {
        first_overlap(reps, k + 1)
    }
}

/// The lines of a replacement, as an error names them.
pub open spec fn range_text(r: ReplacementView) -> Seq<char> {
    if r.len == 0 {
        decimal((r.start + 1) as nat) + " (insertion)"@
    } else {
        decimal((r.start + 1) as nat) + "-"@ + decimal(r.end() as nat)
    }
}

/// Replacements and warnings.
#[verifier::ext_equal]
pub ghost struct Plan {
    /// The replacements, in the order in which they begin.
    pub reps: Seq<ReplacementView>,
    /// The warnings.
    pub warnings: Seq<Seq<char>>,
}

/// The replacements that the hunks call for.
pub open spec fn planned(
    lines: Seq<Seq<char>>,
    path: Seq<char>,
    hunks: Seq<HunkView>,
    allow_fuzzy: bool,
) -> Result<Plan, ErrorView> {
    match hunks_done(lines, path, hunks, allow_fuzzy) {
        Err(e) => Err(e),
        Ok(p) => {
            let reps = by_start(p.reps);
            match first_overlap(reps, 0) {
                Some(k) => Err(
                    ErrorView::OverlappingHunks {
                        file: path,
                        range1: range_text(reps[k]),
                        range2: range_text(reps[k + 1]),
                    },
                ),
                None => Ok(Plan { reps, warnings: p.warnings }),
            }
        },
    }
}

/// What the hunks so far have given, in progress.
struct Done {
    replacements: Vec<Replacement>,
    warnings: Vec<String>,
    line: usize,
}

impl Done {
    spec fn progress(&self) -> HunkProgress {
        HunkProgress {
            reps: replacement_views(self.replacements@),
            warnings: views(self.warnings@),
            line: self.line as int,
        }
    }
}

spec fn done_outcome(r: Result<Done, EditError>) -> Result<HunkProgress, ErrorView> {
    match r {
        Ok(x) => Ok(x.progress()),
        Err(e) => Err(e@),
    }
}

/// Whether all replacements are within a file of `n` lines.
pub open spec fn all_within(reps: Seq<ReplacementView>, n: int) -> bool {
    forall|i: int|
        0 <= i < reps.len() ==> 0 <= (#[trigger] reps[i]).start && 0 <= reps[i].len
            && reps[i].end() <= n
}

fn report_text(lines: &[&str], path: &str, r: &SequenceSearchResult) -> (e: EditError)
    ensures
        e@ == text_several(views(lines@), path@, r@),
{
    let strategy: Option<&str> = match r.strategy {
        Some(s) => Some(name_of_sequence_strategy(s)),
        None => None,
    };
    report_several(lines, path, "the text", strategy, &r.match_indices, r.match_count)
}

fn report_missing(
    lines: &[&str],
    path: &str,
    hunk: &DiffHunk,
    pattern: &[String],
    line: usize,
) -> (e: EditError)
    ensures
        e@ == text_missing(views(lines@), path@, hunk@, views(pattern@), line as int),
{
    let refs = to_refs(pattern);
    let closest = find_closest_sequence_match(lines, &refs, Some(line), hunk.is_end_of_file);
    let mut detail = "Failed to find expected lines in ".to_owned();
    detail.append(path);
    detail.append(":\n");
    detail.append(join(&hunk.old_lines, "\n").as_str());
    match closest.index {
        Some(i) => {
            detail.append("\n\nClosest match (");
            detail.append(show(closest.confidence.percent()).as_str());
            detail.append("% similar) near line ");
            detail.append(show(i.saturating_add(1)).as_str());
            detail.append(":\n");
            detail.append(format_sequence_match_preview(lines, i).as_str());
        },
        None => {},
    }
    EditError::NoMatch { file: path.to_owned(), detail }
}

fn report_twice(lines: &[&str], path: &str, first: usize, second: usize) -> (e: EditError)
    ensures
        e@ == text_twice(views(lines@), path@, first as int, second as int),
{
    let mut text = "Found 2 occurrences in ".to_owned();
    text.append(path);
    text.append(":\n\n");
    text.append(format_sequence_match_preview(lines, first).as_str());
    text.append("\n\n");
    text.append(format_sequence_match_preview(lines, second).as_str());
    text.append("\n\nAdd more context lines to disambiguate.");
    EditError::AmbiguousMatch { file: path.to_owned(), count: 2, previews: text }
}

fn report_beyond(path: &str, at: usize) -> (e: EditError)
    ensures
        e@ == text_beyond(path@, at as int),
{
    let mut message = "Match at line ".to_owned();
    message.append(show(at.saturating_add(1)).as_str());
    message.append(" exceeds the end of ");
    message.append(path);
    EditError::ApplyError { message }
}

fn warn_dominant(path: &str, line: usize, confidence: Double) -> (r: String)
    requires
        confidence.bits <= ONE,
    ensures
        r@ == dominant_warning(path@, line as nat, confidence.bits),
{
    let mut text = "Dominant fuzzy match selected in ".to_owned();
    text.append(path);
    text.append(" near line ");
    text.append(show(line).as_str());
    text.append(" (");
    text.append(show(confidence.percent()).as_str());
    text.append("% similar).");
    text
}

/// Turns a search for the old lines of a hunk into a replacement.
fn conclude(
    owned: &[String],
    lines: &[&str],
    path: &str,
    hunk: &DiffHunk,
    line: usize,
    s: Search,
    allow_fuzzy: bool,
    p: Done,
) -> (r: Result<Done, EditError>)
    requires
        views(owned@) == views(lines@),
        s.result.confidence.bits <= ONE,
        all_within(p.progress().reps, owned@.len() as int),
    ensures
        done_outcome(r) == concluded(
            views(lines@),
            path@,
            hunk@,
            line as int,
            s.hunt(),
            allow_fuzzy,
            p.progress(),
        ),
        r matches Ok(x) ==> all_within(x.progress().reps, owned@.len() as int),
{
    let ghost l = views(lines@);
    let ghost h = s.hunt();
    let ghost before = p.progress();
    let ghost goal = concluded(l, path@, hunk@, line as int, h, allow_fuzzy, before);
    proof {
        assert(l.len() == owned@.len());
        assert(h.pattern.len() == s.pattern@.len());
    }
    if several(s.result.match_count) {
        return Err(report_text(lines, path, &s.result));
    }
    let at: usize = match s.result.index {
        Some(i) => i,
        None => {
            return Err(report_missing(lines, path, hunk, &s.pattern, line));
        },
    };
    let next: usize = at.saturating_add(1);
    if hunk.change_context.is_none() && !hunk.has_context_lines && !hunk.is_end_of_file
        && hunk.old_start_line.is_none() {
        let refs = to_refs(&s.pattern);
        let second = seek_sequence(lines, &refs, next, false, allow_fuzzy);
        match second.index {
            Some(other) => {
                return Err(report_twice(lines, path, at, other));
            },
            None => {},
        }
    }
    if at > owned.len() || s.pattern.len() > owned.len() - at {
        return Err(report_beyond(path, at));
    }
    let end: usize = at + s.pattern.len();
    let mut warnings = p.warnings;
    if s.result.strategy == Some(SequenceMatchStrategy::FuzzyDominant) {
        let text = warn_dominant(path, next, s.result.confidence);
        push_text(&mut warnings, text.as_str());
    }
    let mut replacements = p.replacements;
    if same_lines(&s.pattern, &s.new_slice) {
        let r = Done { replacements, warnings, line: end };
        assert(Ok::<HunkProgress, ErrorView>(r.progress()) == goal);
        return Ok(r);
    }
    let actual = copy_range(owned, at, end);
    let new_lines = adjust_lines_indentation(&s.pattern, &actual, &s.new_slice);
    let rep = Replacement { start_index: at, old_len: s.pattern.len(), new_lines };
    let ghost rv = rep@;
    let ghost raw = replacements@;
    replacements.push(rep);
    let r = Done { replacements, warnings, line: end };
    proof {
        assert(replacement_views(replacements@) =~= replacement_views(raw).push(rv));
        assert(Ok::<HunkProgress, ErrorView>(r.progress()) == goal);
    }
    Ok(r)
}

/// Applies one more hunk to the plan.
fn take_hunk(
    owned: &[String],
    lines: &[&str],
    path: &str,
    hunk: &DiffHunk,
    allow_fuzzy: bool,
    p: Done,
) -> (r: Result<Done, EditError>)
    requires
        views(owned@) == views(lines@),
        all_within(p.progress().reps, owned@.len() as int),
    ensures
        done_outcome(r) == hunk_step(views(lines@), path@, hunk@, allow_fuzzy, p.progress()),
        r matches Ok(x) ==> all_within(x.progress().reps, owned@.len() as int),
{
    let ghost l = views(lines@);
    proof {
        assert(l.len() == owned@.len());
        assert(hunk@.old.len() == hunk.old_lines@.len());
    }
    let zero_old = match hunk.old_start_line {
        Some(h) => h == 0,
        None => false,
    };
    let zero_new = match hunk.new_start_line {
        Some(h) => h == 0,
        None => false,
    };
    if zero_old || zero_new {
        let mut message = "Line hint 0 is out of range for ".to_owned();
        message.append(path);
        message.append(" (line numbers start at 1)");
        return Err(EditError::InvalidRange { message });
    }
    let mut line: usize = p.line;
    if hunk.change_context.is_none() && !hunk.has_context_lines {
        match hunk.old_start_line {
            Some(h) => {
                let i: usize = h.saturating_sub(1);
                let last: usize = lines.len().saturating_sub(1);
                line = if i <= last {
                    i
                } else {
                    last
                };
            },
            None => {},
        }
    }
    assert(line == search_line(l, hunk@, p.progress().line));
    let at = match locate(lines, path, hunk, line, allow_fuzzy) {
        Ok(x) => x,
        Err(e) => {
            return Err(e);
        },
    };
    if hunk.old_lines.len() == 0 {
        let i: usize = match find_insertion(lines, path, hunk, at.line) {
            Ok(i) => i,
            Err(e) => {
                return Err(e);
            },
        };
        let mut replacements = p.replacements;
        let rep = Replacement {
            start_index: i,
            old_len: 0,
            new_lines: copy_texts(&hunk.new_lines),
        };
        let ghost rv = rep@;
        let ghost raw = replacements@;
        replacements.push(rep);
        assert(replacement_views(replacements@) =~= replacement_views(raw).push(rv));
        return Ok(Done { replacements, warnings: p.warnings, line: at.line });
    }
    let s = search(lines, hunk, &at, allow_fuzzy);
    conclude(owned, lines, path, hunk, at.line, s, allow_fuzzy, p)
}

/// A replacement that overlaps the one before it begins within the file.
proof fn lemma_within_sorted(reps: Seq<ReplacementView>, n: int)
    requires
        all_within(reps, n),
    ensures
        all_within(by_start(reps), n),
{
    lemma_by_start(reps);
    let sorted = by_start(reps);
    assert forall|i: int| 0 <= i < sorted.len() implies 0 <= (#[trigger] sorted[i]).start && 0
        <= sorted[i].len && sorted[i].end() <= n by {
        broadcast use vstd::seq_lib::group_to_multiset_ensures;

        assert(sorted.contains(sorted[i]));
        assert(sorted.to_multiset().count(sorted[i]) > 0);
        assert(reps.to_multiset().count(sorted[i]) > 0);
        assert(reps.contains(sorted[i]));
    }
}

fn show_range(r: &Replacement) -> (text: String)
    requires
        r@.start + 1 <= usize::MAX,
        r@.end() <= usize::MAX,
    ensures
        text@ == range_text(r@),
{
    let mut text = show(r.start_index + 1);
    if r.old_len == 0 {
        text.append(" (insertion)");
    } else {
        text.append("-");
        text.append(show(r.start_index + r.old_len).as_str());
    }
    text
}

/// A plan, by its contents.
pub open spec fn plan_outcome(r: Result<(Vec<Replacement>, Vec<String>), EditError>) -> Result<
    Plan,
    ErrorView,
> {
    match r {
        Ok((a, b)) => Ok(Plan { reps: replacement_views(a@), warnings: views(b@) }),
        Err(e) => Err(e@),
    }
}

/// Whether the replacements are within a file of `n` lines, and each begins no
/// earlier than the one before it ends.
pub open spec fn in_turn(reps: Seq<ReplacementView>, n: int) -> bool {
    all_within(reps, n) && forall|i: int, j: int|
        0 <= i < j < reps.len() ==> (#[trigger] reps[i]).end() <= (#[trigger] reps[j]).start
}

/// Replacements of which none overlaps the next are in turn.
proof fn lemma_in_turn(reps: Seq<ReplacementView>, n: int)
    requires
        all_within(reps, n),
        first_overlap(reps, 0) is None,
    ensures
        in_turn(reps, n),
{
    assert forall|i: int, j: int| 0 <= i < j < reps.len() implies (#[trigger] reps[i]).end() <= (
    #[trigger] reps[j]).start by {
        lemma_no_overlap(reps, 0, i, j);
    }
}

proof fn lemma_no_overlap(reps: Seq<ReplacementView>, k: int, i: int, j: int)
    requires
        0 <= k <= i < j < reps.len(),
        forall|i: int| 0 <= i < reps.len() ==> 0 <= (#[trigger] reps[i]).len,
        first_overlap(reps, k) is None,
    ensures
        reps[i].end() <= reps[j].start,
    decreases j - k,
{
    if k < i {
        lemma_no_overlap(reps, k + 1, i, j);
    } else if i + 1 < j {
        lemma_no_overlap(reps, k + 1, i + 1, j);
    }
}

/// Replacements in turn can all be made.
proof fn lemma_in_turn_made(lines: Seq<Seq<char>>, reps: Seq<ReplacementView>, n: int)
    requires
        in_turn(reps, n),
        reps.len() > 0 ==> reps.last().end() <= lines.len(),
    ensures
        replaced_back(lines, reps) is Some,
    decreases reps.len(),
{
    if reps.len() > 0 {
        let r = reps.last();
        let rest = reps.drop_last();
        assert(forall|i: int| 0 <= i < rest.len() ==> #[trigger] rest[i] == reps[i]);
        lemma_in_turn_made(spliced(lines, r.start, r.end(), r.new), rest, n);
    }
}

/// Computes the set of replacements needed to transform `original_lines`
/// according to `hunks`. Each hunk is located via context, line hints, and
/// fuzzy matching.
pub fn compute_replacements(
    original_lines: &[String],
    path: &str,
    hunks: &[DiffHunk],
    allow_fuzzy: bool,
) -> (r: Result<(Vec<Replacement>, Vec<String>), EditError>)
    ensures
        plan_outcome(r) == planned(views(original_lines@), path@, hunk_views(hunks@), allow_fuzzy),
        r matches Ok((reps, _)) ==> in_turn(
            replacement_views(reps@),
            original_lines@.len() as int,
        ),
{
    let ghost l = views(original_lines@);
    let ghost hs = hunk_views(hunks@);
    let ghost n = original_lines@.len() as int;
    let total: usize = original_lines.len();
    let lines = to_refs(original_lines);
    let mut p = Done { replacements: Vec::new(), warnings: Vec::new(), line: 0 };
    let mut i: usize = 0;
    proof {
        assert(hs.take(0) =~= Seq::empty());
        assert(p.progress() =~= (HunkProgress {
            reps: Seq::empty(),
            warnings: Seq::empty(),
            line: 0,
        }));
    }
    while i < hunks.len()
        invariant
            l == views(original_lines@),
            views(lines@) == l,
            hs == hunk_views(hunks@),
            n == original_lines@.len(),
            i <= hunks@.len(),
            hunks_done(l, path@, hs.take(i as int), allow_fuzzy) == Ok::<HunkProgress, ErrorView>(
                p.progress(),
            ),
            all_within(p.progress().reps, n),
        decreases hunks@.len() - i,
    {
        proof {
            assert(hs.take(i + 1).drop_last() =~= hs.take(i as int));
            assert(hs.take(i + 1).last() == hunks@[i as int]@);
        }
        match take_hunk(original_lines, &lines, path, &hunks[i], allow_fuzzy, p) {
            Ok(x) => {
                p = x;
            },
            Err(e) => {
                proof {
                    lemma_hunks_fail(l, path@, hs, allow_fuzzy, i + 1);
                }
                return Err(e);
            },
        }
        i = i + 1;
    }
    assert(hs.take(i as int) =~= hs);
    proof {
        lemma_within_sorted(p.progress().reps, n);
        lemma_by_start(p.progress().reps);
    }
    let warnings = p.warnings;
    let sorted = sort_replacements(p.replacements);
    let ghost reps = replacement_views(sorted@);
    let pairs: usize = sorted.len().saturating_sub(1);
    let mut k: usize = 0;
    while k < pairs
        invariant
            pairs == max(sorted@.len() - 1, 0),
            reps == replacement_views(sorted@),
            forall|i: int, j: int|
                0 <= i <= j < reps.len() ==> (#[trigger] reps[i]).start <= (
                #[trigger] reps[j]).start,
            all_within(reps, n),
            n == total,
            k <= pairs,
            first_overlap(reps, 0) == first_overlap(reps, k as int),
            planned(l, path@, hs, allow_fuzzy) == (match first_overlap(reps, 0) {
                Some(k) => Err::<Plan, ErrorView>(
                    ErrorView::OverlappingHunks {
                        file: path@,
                        range1: range_text(reps[k]),
                        range2: range_text(reps[k + 1]),
                    },
                ),
                None => Ok(Plan { reps, warnings: views(warnings@) }),
            }),
            l == views(original_lines@),
            hs == hunk_views(hunks@),
        decreases sorted@.len() - k,
    {
        let left = &sorted[k];
        let right = &sorted[k + 1];
        assert(reps[k as int] == left@ && reps[k + 1] == right@);
        if right.start_index < left.start_index + left.old_len {
            return Err(
                EditError::OverlappingHunks {
                    file: path.to_owned(),
                    range1: show_range(left),
                    range2: show_range(right),
                },
            );
        }
        k = k + 1;
    }
    proof {
        lemma_in_turn(reps, n);
    }
    Ok((sorted, warnings))
}

/// A hunk that fails makes all fail.
proof fn lemma_hunks_fail(
    lines: Seq<Seq<char>>,
    path: Seq<char>,
    hunks: Seq<HunkView>,
    allow_fuzzy: bool,
    k: int,
)
    requires
        0 <= k <= hunks.len(),
        hunks_done(lines, path, hunks.take(k), allow_fuzzy) is Err,
    ensures
        hunks_done(lines, path, hunks, allow_fuzzy) == hunks_done(
            lines,
            path,
            hunks.take(k),
            allow_fuzzy,
        ),
    decreases hunks.len() - k,
{
    if k < hunks.len() {
        assert(hunks.take(k + 1).drop_last() =~= hunks.take(k));
        lemma_hunks_fail(lines, path, hunks, allow_fuzzy, k + 1);
    } else {
        assert(hunks.take(k) =~= hunks);
    }
}

/// Applies replacements in reverse order so earlier indices stay valid.
pub fn apply_replacements(lines: &[String], replacements: &[Replacement]) -> (r: Vec<String>)
    requires
        replaced_back(views(lines@), replacement_views(replacements@)) is Some,
    ensures
        Some(views(r@)) == replaced_back(views(lines@), replacement_views(replacements@)),
{
    replace_back(lines, replacements).unwrap()
}

/// Whether a text ends in a line feed.
pub open spec fn ends_line(s: Seq<char>) -> bool {
    s.len() > 0 && s.last() == '\n'
}

/// A text with a line feed at its end.
pub open spec fn with_newline(s: Seq<char>) -> Seq<char> {
    if ends_line(s) {
        s
    } else {
        s.push('\n')
    }
}

/// A text without the line feeds at its end.
pub open spec fn without_newlines(s: Seq<char>) -> Seq<char>
    decreases s.len(),
{
    if ends_line(s) {
        without_newlines(s.drop_last())
    } else {
        s
    }
}

fn line_ends(s: &str) -> (r: bool)
    ensures
        r == ends_line(s@),
{
    let n: usize = s.unicode_len();
    n > 0 && s.get_char(n - 1) == '\n'
}

fn end_line(s: String) -> (r: String)
    ensures
        r@ == with_newline(s@),
{
    if line_ends(s.as_str()) {
        s
    } else {
        let mut r = s;
        r.push('\n');
        r
    }
}

fn strip_newlines(s: &str) -> (r: &str)
    ensures
        r@ == without_newlines(s@),
    decreases s@.len(),
{
    if line_ends(s) {
        let rest = s.substring_char(0, s.unicode_len() - 1);
        assert(rest@ =~= s@.drop_last());
        strip_newlines(rest)
    } else {
        s
    }
}

/// The end of a text that was patched by characters: with a line feed where
/// there is to be one, and else with none.
pub open spec fn with_end(s: Seq<char>, had: bool, ensure: bool) -> Seq<char> {
    if ensure || had {
        with_newline(s)
    } else {
        without_newlines(s)
    }
}

/// Preserves or strips the trailing newline to match the policy of the original
/// file.
pub fn apply_trailing_newline_policy(
    content: String,
    had_final_newline: bool,
    ensure_final_newline: bool,
) -> (r: String)
    ensures
        r@ == with_end(content@, had_final_newline, ensure_final_newline),
{
    if ensure_final_newline || had_final_newline {
        end_line(content)
    } else {
        strip_newlines(content.as_str()).to_owned()
    }
}

/// A patched text and the warnings about it.
#[verifier::ext_equal]
pub ghost struct PatchedText {
    /// The text.
    pub content: Seq<char>,
    /// The warnings.
    pub warnings: Seq<Seq<char>>,
}

/// A patched text, by its contents.
pub open spec fn text_outcome(r: Result<(String, Vec<String>), EditError>) -> Result<
    PatchedText,
    ErrorView,
> {
    match r {
        Ok((a, b)) => Ok(PatchedText { content: a@, warnings: views(b@) }),
        Err(e) => Err(e@),
    }
}

/// The relaxed threshold.
pub const RELAXED_THRESHOLD: u64 = 0x3FED_70A3_D70A_3D71;

/// What a search for the old text finds; with a relaxed threshold where the
/// given one is higher and finds nothing.
pub open spec fn relaxed_found(
    content: Seq<char>,
    old: Seq<char>,
    allow_fuzzy: bool,
    threshold: u64,
) -> OutcomeView {
    let first = found(content, old, allow_fuzzy, threshold);
    let relaxed = lesser(threshold, RELAXED_THRESHOLD);
    let second = found(content, old, allow_fuzzy, relaxed);
    if first.matched is None && allow_fuzzy && above(threshold, relaxed) && second.matched is Some {
        second
    } else {
        first
    }
}

/// The error for several exact occurrences.
pub open spec fn occurrences_error(
    path: Seq<char>,
    count: nat,
    previews: Seq<Seq<char>>,
) -> ErrorView {
    let more = if count > 5 {
        " (showing first 5 of "@ + decimal(count) + ")"@
    } else {
        Seq::empty()
    };
    ErrorView::AmbiguousMatch {
        file: path,
        count,
        previews: "Found "@ + decimal(count) + " occurrences in "@ + path + more + ":\n\n"@ + joined(
            previews,
            "\n\n"@,
        ) + "\n\nAdd more context lines to disambiguate."@,
    }
}

/// The error for several similar matches.
pub open spec fn similar_error(path: Seq<char>, count: nat) -> ErrorView {
    ErrorView::AmbiguousMatch {
        file: path,
        count,
        previews: "Found "@ + decimal(count) + " high-confidence matches in "@ + path
            + ". The text must be unique. Please provide more context to make it unique."@,
    }
}

/// The error for an old text that is not found.
pub open spec fn unmatched_error(
    path: Seq<char>,
    old: Seq<char>,
    closest: Option<MatchView>,
) -> ErrorView {
    ErrorView::NoMatch {
        file: path,
        detail: match closest {
            Some(m) => "Could not find a close enough match in "@ + path + ". Closest match ("@
                + decimal(percent_of(m.confidence) as nat) + "% similar) at line "@ + decimal(
                m.line,
            ) + "."@,
            None => "Failed to find expected lines in "@ + path + ":\n"@ + old,
        },
    }
}

/// What becomes of a text when a single hunk is applied to it by characters.
pub open spec fn character_patched(
    content: Seq<char>,
    path: Seq<char>,
    hunk: HunkView,
    threshold: u64,
    allow_fuzzy: bool,
) -> Result<PatchedText, ErrorView> {
    let text = with_lf(content);
    let old = joined(hunk.old, "\n"@);
    let o = relaxed_found(text, with_lf(old), allow_fuzzy, threshold);
    if o.occurrences is Some && o.occurrences->0 > 1 {
        Err(occurrences_error(path, o.occurrences->0, o.previews))
    } else if o.fuzzy_matches is Some && o.fuzzy_matches->0 > 1 {
        Err(similar_error(path, o.fuzzy_matches->0))
    } else {
        match o.matched {
            None => Err(unmatched_error(path, old, o.closest)),
            Some(m) => Ok(
                PatchedText {
                    content: with_match_replaced(
                        text,
                        m,
                        adjusted(with_lf(old), m.text, joined(hunk.new, "\n"@)),
                    ),
                    warnings: if o.dominant {
                        seq![dominant_warning(path, m.line, m.confidence)]
                    } else {
                        Seq::empty()
                    },
                },
            ),
        }
    }
}

fn find_relaxed(content: &str, old: &str, allow_fuzzy: bool, threshold: Double) -> (r: MatchOutcome)
    ensures
        r@ == relaxed_found(content@, old@, allow_fuzzy, threshold.bits),
        r@.matched matches Some(m) ==> m.confidence <= ONE && m.line >= 1,
        r@.closest matches Some(m) ==> m.confidence <= ONE,
{
    let first = find_match(content, old, allow_fuzzy, Some(threshold));
    if first.matched.is_none() && allow_fuzzy {
        let relaxed = threshold.lesser_of(Double::from_bits(RELAXED_THRESHOLD));
        if threshold.gt(relaxed) {
            let second = find_match(content, old, allow_fuzzy, Some(relaxed));
            if second.matched.is_some() {
                return second;
            }
        }
    }
    first
}

fn report_occurrences_in(path: &str, count: usize, previews: &[String]) -> (e: EditError)
    ensures
        e@ == occurrences_error(path@, count as nat, views(previews@)),
{
    let mut text = "Found ".to_owned();
    text.append(show(count).as_str());
    text.append(" occurrences in ");
    text.append(path);
    let ghost head = text@;
    if count > 5 {
        text.append(" (showing first 5 of ");
        text.append(show(count).as_str());
        text.append(")");
        assert(text@ =~= head + (" (showing first 5 of "@ + decimal(count as nat) + ")"@));
    } else {
        assert(text@ =~= head + Seq::empty());
    }
    text.append(":\n\n");
    text.append(join(previews, "\n\n").as_str());
    text.append("\n\nAdd more context lines to disambiguate.");
    EditError::AmbiguousMatch { file: path.to_owned(), count, previews: text }
}

fn report_similar(path: &str, count: usize) -> (e: EditError)
    ensures
        e@ == similar_error(path@, count as nat),
{
    let mut text = "Found ".to_owned();
    text.append(show(count).as_str());
    text.append(" high-confidence matches in ");
    text.append(path);
    text.append(". The text must be unique. Please provide more context to make it unique.");
    EditError::AmbiguousMatch { file: path.to_owned(), count, previews: text }
}

fn report_unmatched(path: &str, old: &str, closest: &Option<FuzzyMatch>) -> (e: EditError)
    requires
        closest matches Some(m) ==> m.confidence.bits <= ONE,
    ensures
        e@ == unmatched_error(path@, old@, opt_match(*closest)),
{
    match closest {
        Some(m) => {
            let mut detail = "Could not find a close enough match in ".to_owned();
            detail.append(path);
            detail.append(". Closest match (");
            detail.append(show(m.confidence.percent()).as_str());
            detail.append("% similar) at line ");
            detail.append(show(m.start_line).as_str());
            detail.append(".");
            EditError::NoMatch { file: path.to_owned(), detail }
        },
        None => {
            let mut detail = "Failed to find expected lines in ".to_owned();
            detail.append(path);
            detail.append(":\n");
            detail.append(old);
            EditError::NoMatch { file: path.to_owned(), detail }
        },
    }
}

/// Applies a single hunk via character-level fuzzy matching.
///
/// Used when the hunk has no context lines, no line hints, and no EOF marker:
/// the simplest diff shape where line-based search adds no value.
pub fn apply_character_match(
    original_content: &str,
    path: &str,
    hunk: &DiffHunk,
    fuzzy_threshold: Double,
    allow_fuzzy: bool,
) -> (r: Result<(String, Vec<String>), EditError>)
    ensures
        text_outcome(r) == character_patched(
            original_content@,
            path@,
            hunk@,
            fuzzy_threshold.bits,
            allow_fuzzy,
        ),
{
    let old = join(&hunk.old_lines, "\n");
    let new = join(&hunk.new_lines, "\n");
    let content = normalize_to_lf(original_content);
    let normal_old = normalize_to_lf(old.as_str());
    let o = find_relaxed(content.as_str(), normal_old.as_str(), allow_fuzzy, fuzzy_threshold);
    match o.occurrences {
        Some(n) => {
            if n > 1 {
                return Err(report_occurrences_in(path, n, &o.occurrence_previews));
            }
        },
        None => {},
    }
    match o.fuzzy_matches {
        Some(n) => {
            if n > 1 {
                return Err(report_similar(path, n));
            }
        },
        None => {},
    }
    match &o.matched {
        None => Err(report_unmatched(path, old.as_str(), &o.closest)),
        Some(m) => {
            let fitted = adjust_indentation(
                normal_old.as_str(),
                m.actual_text.as_str(),
                new.as_str(),
            );
            let mut warnings: Vec<String> = Vec::new();
            assert(views(warnings@) =~= Seq::empty());
            if o.dominant_fuzzy {
                let text = warn_dominant(path, m.start_line, m.confidence);
                push_text(&mut warnings, text.as_str());
                assert(views(warnings@) =~= seq![text@]);
            }
            Ok((replace_match(content.as_str(), m, fitted.as_str()), warnings))
        },
    }
}

/// The lines of a text, without the empty one behind a last line feed.
pub open spec fn file_lines(content: Seq<char>) -> Seq<Seq<char>> {
    if ends_line(content) {
        lines_of(content).drop_last()
    } else {
        lines_of(content)
    }
}

/// The text of lines, with the end that it is to have.
pub open spec fn file_text(lines: Seq<Seq<char>>, had: bool, ensure: bool) -> Seq<char> {
    let text = joined(
        if had {
            lines.push(Seq::empty())
        } else {
            lines
        },
        "\n"@,
    );
    if ensure || had {
        with_newline(text)
    } else if ends_line(text) {
        text.drop_last()
    } else {
        text
    }
}

/// Whether hunks are one that is applied by characters: it has no context, no
/// hint and no end of file marker to go by.
pub open spec fn is_by_characters(hunks: Seq<HunkView>) -> bool {
    hunks.len() == 1 && is_bare(hunks[0]) && hunks[0].old.len() > 0
}

/// What becomes of a text when hunks are applied to it.
pub open spec fn hunks_applied(
    content: Seq<char>,
    path: Seq<char>,
    hunks: Seq<HunkView>,
    threshold: u64,
    allow_fuzzy: bool,
    ensure: bool,
) -> Result<PatchedText, ErrorView> {
    let had = ends_line(content);
    if is_by_characters(hunks) {
        match character_patched(content, path, hunks[0], threshold, allow_fuzzy) {
            Ok(t) => Ok(
                PatchedText { content: with_end(t.content, had, ensure), warnings: t.warnings },
            ),
            Err(e) => Err(e),
        }
    } else {
        let lines = file_lines(content);
        match planned(lines, path, hunks, allow_fuzzy) {
            Ok(plan) => Ok(
                PatchedText {
                    content: file_text(replaced_back(lines, plan.reps)->0, had, ensure),
                    warnings: plan.warnings,
                },
            ),
            Err(e) => Err(e),
        }
    }
}

/// Applies diff hunks to file content. Returns the new content and warnings.
///
/// Detects single-hunk diffs without context and delegates to character-level
/// matching; otherwise splits into lines and computes per-hunk replacements.
pub fn apply_hunks_to_content(
    original_content: &str,
    path: &str,
    hunks: &[DiffHunk],
    fuzzy_threshold: Double,
    allow_fuzzy: bool,
    ensure_final_newline: bool,
) -> (r: Result<(String, Vec<String>), EditError>)
    ensures
        text_outcome(r) == hunks_applied(
            original_content@,
            path@,
            hunk_views(hunks@),
            fuzzy_threshold.bits,
            allow_fuzzy,
            ensure_final_newline,
        ),
{
    let ghost hs = hunk_views(hunks@);
    let had = line_ends(original_content);
    if hunks.len() == 1 {
        let hunk = &hunks[0];
        assert(hs[0] == hunk@);
        assert(hunk@.old.len() == hunk.old_lines@.len());
        if hunk.change_context.is_none() && !hunk.has_context_lines && hunk.old_lines.len() > 0
            && hunk.old_start_line.is_none() && !hunk.is_end_of_file {
            return match apply_character_match(
                original_content,
                path,
                hunk,
                fuzzy_threshold,
                allow_fuzzy,
            ) {
                Ok((content, warnings)) => Ok(
                    (apply_trailing_newline_policy(content, had, ensure_final_newline), warnings),
                ),
                Err(e) => Err(e),
            };
        }
    }
    assert(!is_by_characters(hs));
    let all = split_on(original_content, '\n');
    assert(views(all@).len() == all@.len());
    let lines = if had {
        let n: usize = all.len() - 1;
        let r = copy_range(&all, 0, n);
        assert(views(r@) =~= views(all@).drop_last());
        r
    } else {
        all
    };
    let (replacements, warnings) = match compute_replacements(&lines, path, hunks, allow_fuzzy) {
        Ok(x) => x,
        Err(e) => {
            return Err(e);
        },
    };
    proof {
        assert(views(lines@).len() == lines@.len());
        lemma_in_turn_made(
            views(lines@),
            replacement_views(replacements@),
            lines@.len() as int,
        );
    }
    let mut result = apply_replacements(&lines, &replacements);
    let ghost made = views(result@);
    if had {
        push_text(&mut result, "");
        proof {
            reveal_strlit("");
            assert(""@ =~= Seq::<char>::empty());
        }
    }
    let text = join(&result, "\n");
    if ensure_final_newline || had {
        return Ok((end_line(text), warnings));
    }
    if line_ends(text.as_str()) {
        let cut = text.as_str().substring_char(0, text.as_str().unicode_len() - 1);
        assert(cut@ =~= text@.drop_last());
        return Ok((cut.to_owned(), warnings));
    }
    Ok((text, warnings))
}

/// Supported patch operations.
#[derive(Debug, Clone, Copy, PartialEq, Eq, Structural)]
pub enum Operation {
    /// Create a new file from full content.
    Create,
    /// Delete an existing file.
    Delete,
    /// Update an existing file with diff hunks.
    Update,
}

/// Input for patch application.
#[derive(Debug, Clone)]
pub struct PatchInput {
    /// Source path.
    pub path: String,
    /// Operation to perform.
    pub op: Operation,
    /// Optional rename destination for updates.
    pub rename: Option<String>,
    /// Diff hunks for updates or full content for creates.
    pub diff: Option<String>,
}

/// Input for patch application, by its contents.
pub ghost struct InputView {
    /// Source path.
    pub path: Seq<char>,
    /// Operation to perform.
    pub op: Operation,
    /// Rename destination.
    pub rename: Option<Seq<char>>,
    /// Diff hunks or content.
    pub diff: Option<Seq<char>>,
}

impl View for PatchInput {
    type V = InputView;

    open spec fn view(&self) -> InputView {
        InputView {
            path: self.path@,
            op: self.op,
            rename: opt_view(self.rename),
            diff: opt_view(self.diff),
        }
    }
}

/// Options controlling patch application.
#[derive(Debug, Clone, Copy)]
pub struct ApplyPatchOptions {
    /// Allow fuzzy matching when locating hunks.
    pub allow_fuzzy: bool,
    /// Similarity that a match by characters has to reach.
    pub fuzzy_threshold: Double,
    /// Dry-run without mutating the filesystem.
    pub dry_run: bool,
}

impl Default for ApplyPatchOptions {
    fn default() -> (r: ApplyPatchOptions)
        ensures
            r.allow_fuzzy,
            r.fuzzy_threshold.bits == DEFAULT_FUZZY_THRESHOLD,
            !r.dry_run,
    {
        ApplyPatchOptions {
            allow_fuzzy: true,
            fuzzy_threshold: Double::from_bits(DEFAULT_FUZZY_THRESHOLD),
            dry_run: false,
        }
    }
}

/// Result of applying a patch.
#[derive(Debug, Clone)]
pub struct ApplyPatchResult {
    /// Concrete file change produced by the patch.
    pub change: FileChange,
    /// Warnings emitted while applying hunks.
    pub warnings: Vec<String>,
}

/// The result of applying a patch, by its contents.
#[verifier::ext_equal]
pub ghost struct PatchView {
    /// The file change.
    pub change: ChangeView,
    /// The warnings.
    pub warnings: Seq<Seq<char>>,
}

impl View for ApplyPatchResult {
    type V = PatchView;

    open spec fn view(&self) -> PatchView {
        PatchView { change: self.change@, warnings: views(self.warnings@) }
    }
}

/// What a patch that creates a file answers, and the state that it leaves.
pub open spec fn patch_create<F: EditFs>(
    state: F::State,
    input: InputView,
    options: ApplyPatchOptions,
) -> (Result<PatchView, ErrorView>, F::State) {
    match input.diff {
        None => (
            Err(
                ErrorView::InvalidInput { message: "create operation requires 'diff'"@ },
            ),
            state,
        ),
        Some(diff) => {
            let content = with_newline(created_content(diff));
            let done = PatchView {
                change: ChangeView {
                    op: ChangeOp::Create,
                    path: input.path,
                    new_path: None,
                    old_content: None,
                    new_content: Some(content),
                },
                warnings: Seq::empty(),
            };
            match F::exists_in(state, input.path) {
                Err(e) => (Err(e), state),
                Ok(true) => (Err(ErrorView::FileAlreadyExists { path: input.path }), state),
                Ok(false) => if options.dry_run {
                    (Ok(done), state)
                } else {
                    let (r, after) = F::write_in(state, input.path, content);
                    match r {
                        Ok(_) => (Ok(done), after),
                        Err(e) => (Err(e), after),
                    }
                },
            }
        },
    }
}

/// What a patch that deletes a file answers, and the state that it leaves.
pub open spec fn patch_delete<F: EditFs>(
    state: F::State,
    input: InputView,
    options: ApplyPatchOptions,
) -> (Result<PatchView, ErrorView>, F::State) {
    match F::exists_in(state, input.path) {
        Err(e) => (Err(e), state),
        Ok(false) => (Err(ErrorView::FileNotFound { path: input.path }), state),
        Ok(true) => match F::read_in(state, input.path) {
            Err(e) => (Err(e), state),
            Ok(content) => {
                let done = PatchView {
                    change: ChangeView {
                        op: ChangeOp::Delete,
                        path: input.path,
                        new_path: None,
                        old_content: Some(content),
                        new_content: None,
                    },
                    warnings: Seq::empty(),
                };
                if options.dry_run {
                    (Ok(done), state)
                } else {
                    let (r, after) = F::delete_in(state, input.path);
                    match r {
                        Ok(_) => (Ok(done), after),
                        Err(e) => (Err(e), after),
                    }
                }
            },
        },
    }
}

/// What a file with the content `raw` becomes when `diff` is applied to it.
pub open spec fn diff_applied(
    raw: Seq<char>,
    input: InputView,
    diff: Seq<char>,
    options: ApplyPatchOptions,
) -> Result<PatchedText, ErrorView> {
    let text = with_lf(without_bom(raw));
    match hunks_of(diff) {
        Err(e) => Err(e),
        Ok(hunks) => if hunks.len() == 0 {
            Err(
                ErrorView::ParseError { message: "Diff contains no hunks"@, line_number: None },
            )
        } else {
            match hunks_applied(
                text,
                input.path,
                hunks,
                options.fuzzy_threshold.bits,
                options.allow_fuzzy,
                false,
            ) {
                Err(e) => Err(e),
                Ok(t) => if t.content == text && input.rename is None {
                    Err(
                        ErrorView::NoChanges {
                            file: input.path,
                            detail: " The patch produced identical content."@,
                        },
                    )
                } else {
                    Ok(t)
                },
            }
        },
    }
}

/// `text` with the byte order mark and the line endings of `raw`.
pub open spec fn in_style_of(raw: Seq<char>, text: Seq<char>) -> Seq<char> {
    bom_of(raw) + with_ending(text, line_ending(without_bom(raw)))
}

/// What a write to `to`, and where it is another path than `from` a deletion
/// of that, answers, and the state that it leaves.
pub open spec fn moved_in<F: EditFs>(
    state: F::State,
    from: Seq<char>,
    to: Option<Seq<char>>,
    content: Seq<char>,
) -> (Result<(), ErrorView>, F::State) {
    match to {
        None => F::write_in(state, from, content),
        Some(path) => {
            let (r, after) = F::write_in(state, path, content);
            match r {
                Err(e) => (Err(e), after),
                Ok(_) => F::delete_in(after, from),
            }
        },
    }
}

/// What a patch that updates a file answers, and the state that it leaves.
pub open spec fn patch_update<F: EditFs>(
    state: F::State,
    input: InputView,
    options: ApplyPatchOptions,
) -> (Result<PatchView, ErrorView>, F::State) {
    match input.diff {
        None => (
            Err(
                ErrorView::InvalidInput { message: "update operation requires 'diff'"@ },
            ),
            state,
        ),
        Some(diff) => match F::exists_in(state, input.path) {
            Err(e) => (Err(e), state),
            Ok(false) => (Err(ErrorView::FileNotFound { path: input.path }), state),
            Ok(true) => match F::read_in(state, input.path) {
                Err(e) => (Err(e), state),
                Ok(raw) => match diff_applied(raw, input, diff, options) {
                    Err(e) => (Err(e), state),
                    Ok(t) => {
                        let done = PatchView {
                            change: ChangeView {
                                op: ChangeOp::Update,
                                path: input.path,
                                new_path: input.rename,
                                old_content: Some(with_lf(without_bom(raw))),
                                new_content: Some(t.content),
                            },
                            warnings: t.warnings,
                        };
                        if options.dry_run {
                            (Ok(done), state)
                        } else {
                            let (r, after) = moved_in::<F>(
                                state,
                                input.path,
                                input.rename,
                                in_style_of(raw, t.content),
                            );
                            match r {
                                Ok(_) => (Ok(done), after),
                                Err(e) => (Err(e), after),
                            }
                        }
                    },
                },
            },
        },
    }
}

/// What a patch answers, and the state that it leaves.
pub open spec fn patched<F: EditFs>(
    state: F::State,
    input: InputView,
    options: ApplyPatchOptions,
) -> (Result<PatchView, ErrorView>, F::State) {
    if input.rename == Some(input.path) {
        (Err(ErrorView::SamePathRename), state)
    } else {
        match input.op {
            Operation::Create => patch_create::<F>(state, input, options),
            Operation::Delete => patch_delete::<F>(state, input, options),
            Operation::Update => patch_update::<F>(state, input, options),
        }
    }
}

fn apply_create<F: EditFs>(input: &PatchInput, fs: &mut F, options: ApplyPatchOptions) -> (r: Result<
    ApplyPatchResult,
    EditError,
>)
    ensures
        (outcome(r), final(fs).state()) == patch_create::<F>(old(fs).state(), input@, options),
{
    let diff = match &input.diff {
        Some(d) => d.as_str(),
        None => {
            return Err(
                EditError::InvalidInput { message: "create operation requires 'diff'".to_owned() },
            );
        },
    };
    let content = end_line(normalize_create_content(diff));
    match fs.file_exists(input.path.as_str()) {
        Err(e) => {
            return Err(e);
        },
        Ok(there) => {
            if there {
                return Err(EditError::FileAlreadyExists { path: input.path.clone() });
            }
        },
    }
    if !options.dry_run {
        match fs.write(input.path.as_str(), content.as_str()) {
            Err(e) => {
                return Err(e);
            },
            Ok(_) => {},
        }
    }
    let r = ApplyPatchResult {
        change: FileChange {
            op: ChangeOp::Create,
            path: input.path.clone(),
            new_path: None,
            old_content: None,
            new_content: Some(content),
        },
        warnings: Vec::new(),
    };
    assert(r@.warnings =~= Seq::empty());
    Ok(r)
}

fn apply_delete<F: EditFs>(input: &PatchInput, fs: &mut F, options: ApplyPatchOptions) -> (r: Result<
    ApplyPatchResult,
    EditError,
>)
    ensures
        (outcome(r), final(fs).state()) == patch_delete::<F>(old(fs).state(), input@, options),
{
    match fs.file_exists(input.path.as_str()) {
        Err(e) => {
            return Err(e);
        },
        Ok(there) => {
            if !there {
                return Err(EditError::FileNotFound { path: input.path.clone() });
            }
        },
    }
    let content = match fs.read(input.path.as_str()) {
        Err(e) => {
            return Err(e);
        },
        Ok(c) => c,
    };
    if !options.dry_run {
        match fs.delete(input.path.as_str()) {
            Err(e) => {
                return Err(e);
            },
            Ok(_) => {},
        }
    }
    let r = ApplyPatchResult {
        change: FileChange {
            op: ChangeOp::Delete,
            path: input.path.clone(),
            new_path: None,
            old_content: Some(content),
            new_content: None,
        },
        warnings: Vec::new(),
    };
    assert(r@.warnings =~= Seq::empty());
    Ok(r)
}

/// Applies a diff to the text of a file, given as it was read.
fn apply_diff(raw: &str, input: &PatchInput, diff: &str, options: ApplyPatchOptions) -> (r: Result<
    (String, Vec<String>),
    EditError,
>)
    ensures
        text_outcome(r) == diff_applied(raw@, input@, diff@, options),
{
    let bom = strip_bom(raw);
    let normalized = normalize_to_lf(bom.text);
    let hunks = match parse_hunks(diff) {
        Err(e) => {
            return Err(e);
        },
        Ok(h) => h,
    };
    assert(hunk_views(hunks@).len() == hunks@.len());
    if hunks.len() == 0 {
        return Err(
            EditError::ParseError {
                message: "Diff contains no hunks".to_owned(),
                line_number: None,
            },
        );
    }
    let (content, warnings) = match apply_hunks_to_content(
        normalized.as_str(),
        input.path.as_str(),
        &hunks,
        options.fuzzy_threshold,
        options.allow_fuzzy,
        false,
    ) {
        Err(e) => {
            return Err(e);
        },
        Ok(x) => x,
    };
    if input.rename.is_none() && same(content.as_str(), normalized.as_str()) {
        return Err(
            EditError::NoChanges {
                file: input.path.clone(),
                detail: " The patch produced identical content.".to_owned(),
            },
        );
    }
    Ok((content, warnings))
}

/// Writes `text` with the byte order mark and the line endings of `raw`.
pub(crate) fn restyle(raw: &str, text: &str) -> (r: String)
    ensures
        r@ == in_style_of(raw@, text@),
{
    let bom = strip_bom(raw);
    let ending = detect_line_ending(bom.text);
    let mut r = bom.bom.to_owned();
    r.append(restore_line_endings(text, ending).as_str());
    r
}

/// Writes a file to a new path where one is given, and then deletes the old.
pub(crate) fn write_or_move<F: EditFs>(
    fs: &mut F,
    from: &str,
    to: Option<&str>,
    content: &str,
) -> (r: Result<(), EditError>)
    ensures
        (status(r), final(fs).state()) == moved_in::<F>(
            old(fs).state(),
            from@,
            opt_view(to),
            content@,
        ),
{
    match to {
        None => fs.write(from, content),
        Some(path) => {
            match fs.write(path, content) {
                Err(e) => Err(e),
                Ok(_) => fs.delete(from),
            }
        },
    }
}

fn apply_update<F: EditFs>(input: &PatchInput, fs: &mut F, options: ApplyPatchOptions) -> (r: Result<
    ApplyPatchResult,
    EditError,
>)
    ensures
        (outcome(r), final(fs).state()) == patch_update::<F>(old(fs).state(), input@, options),
{
    let diff = match &input.diff {
        Some(d) => d.as_str(),
        None => {
            return Err(
                EditError::InvalidInput { message: "update operation requires 'diff'".to_owned() },
            );
        },
    };
    match fs.file_exists(input.path.as_str()) {
        Err(e) => {
            return Err(e);
        },
        Ok(there) => {
            if !there {
                return Err(EditError::FileNotFound { path: input.path.clone() });
            }
        },
    }
    let raw = match fs.read(input.path.as_str()) {
        Err(e) => {
            return Err(e);
        },
        Ok(c) => c,
    };
    let (content, warnings) = match apply_diff(raw.as_str(), input, diff, options) {
        Err(e) => {
            return Err(e);
        },
        Ok(x) => x,
    };
    if !options.dry_run {
        let styled = restyle(raw.as_str(), content.as_str());
        let to: Option<&str> = match &input.rename {
            Some(p) => Some(p.as_str()),
            None => None,
        };
        match write_or_move(fs, input.path.as_str(), to, styled.as_str()) {
            Err(e) => {
                return Err(e);
            },
            Ok(_) => {},
        }
    }
    let bom = strip_bom(raw.as_str());
    Ok(
        ApplyPatchResult {
            change: FileChange {
                op: ChangeOp::Update,
                path: input.path.clone(),
                new_path: copy_opt(&input.rename),
                old_content: Some(normalize_to_lf(bom.text)),
                new_content: Some(content),
            },
            warnings,
        },
    )
}

/// Applies a patch operation to the provided filesystem.
pub fn apply_patch<F: EditFs>(input: &PatchInput, fs: &mut F, options: ApplyPatchOptions) -> (r:
    Result<ApplyPatchResult, EditError>)
    ensures
        (outcome(r), final(fs).state()) == patched::<F>(old(fs).state(), input@, options),
{
    match &input.rename {
        Some(p) => {
            if same(p.as_str(), input.path.as_str()) {
                return Err(EditError::SamePathRename);
            }
        },
        None => {},
    }
    match input.op {
        Operation::Create => apply_create(input, fs, options),
        Operation::Delete => apply_delete(input, fs, options),
        Operation::Update => apply_update(input, fs, options),
    }
}

/// Previews a patch without mutating the filesystem.
pub fn preview_patch<F: EditFs>(input: &PatchInput, fs: &mut F, options: ApplyPatchOptions) -> (r:
    Result<ApplyPatchResult, EditError>)
    ensures
        outcome(r) == patched::<F>(
            old(fs).state(),
            input@,
            ApplyPatchOptions { dry_run: true, ..options },
        ).0,
        final(fs).state() == old(fs).state(),
{
    let mut dry = options;
    dry.dry_run = true;
    apply_patch(input, fs, dry)
}

/// A dry run leaves the filesystem as it is, whatever it answers.
pub proof fn law_dry_run<F: EditFs>(state: F::State, input: InputView, options: ApplyPatchOptions)
    requires
        options.dry_run,
    ensures
        patched::<F>(state, input, options).1 == state,
{
}

/// A dry run answers what the patch answers, where that succeeds.
pub proof fn law_preview<F: EditFs>(state: F::State, input: InputView, options: ApplyPatchOptions)
    ensures
        patched::<F>(state, input, options).0 is Ok ==> patched::<F>(
            state,
            input,
            ApplyPatchOptions { dry_run: true, ..options },
        ).0 == patched::<F>(state, input, options).0,
{
}

/// A failed patch leaves the files as they were.
pub proof fn law_failed_patch(files: Files, input: InputView, options: ApplyPatchOptions)
    requires
        patched::<InMemoryFs>(files, input, options).0 is Err,
    ensures
        patched::<InMemoryFs>(files, input, options).1 == files,
{
}

/// What a patch created reads back as it was reported, and every other file is as
/// it was.
pub proof fn law_created(files: Files, input: InputView, options: ApplyPatchOptions, other: Seq<char>)
    requires
        input.op == Operation::Create,
        !options.dry_run,
    ensures
        ({
            let (r, after) = patched::<InMemoryFs>(files, input, options);
            r matches Ok(p) ==> {
                &&& !files.contains_key(input.path)
                &&& p.change.new_content == Some(after[input.path])
                &&& after.contains_key(input.path)
                &&& ends_line(after[input.path])
                &&& other != input.path ==> after.contains_key(other) == files.contains_key(other)
                    && after[other] == files[other]
            }
        }),
{
}

/// A file that a patch deleted is gone, and every other file is as it was.
pub proof fn law_deleted(files: Files, input: InputView, options: ApplyPatchOptions, other: Seq<char>)
    requires
        input.op == Operation::Delete,
        !options.dry_run,
    ensures
        ({
            let (r, after) = patched::<InMemoryFs>(files, input, options);
            r matches Ok(p) ==> {
                &&& p.change.old_content == Some(files[input.path])
                &&& !after.contains_key(input.path)
                &&& other != input.path ==> after.contains_key(other) == files.contains_key(other)
                    && after[other] == files[other]
            }
        }),
{
}

/// What a patch updated is at its new path in the style in which it was written,
/// with the content that was reported; a file that was moved is not at its old
/// path any more; and every other file is as it was.
pub proof fn law_updated(files: Files, input: InputView, options: ApplyPatchOptions, other: Seq<char>)
    requires
        input.op == Operation::Update,
        !options.dry_run,
    ensures
        ({
            let (r, after) = patched::<InMemoryFs>(files, input, options);
            let to = match input.rename {
                Some(path) => path,
                None => input.path,
            };
            r matches Ok(p) ==> {
                &&& p.change.new_content is Some
                &&& after.contains_key(to)
                &&& after[to] == in_style_of(files[input.path], p.change.new_content->0)
                &&& input.rename is Some ==> !after.contains_key(input.path)
                &&& other != input.path && other != to ==> after.contains_key(other)
                    == files.contains_key(other) && after[other] == files[other]
            }
        }),
{
}

/// A file that is written in the style of another reads as the text that was
/// written, once its mark is dropped and its line endings are normalized.
pub proof fn law_style_read_back(raw: Seq<char>, text: Seq<char>)
    requires
        !text.contains('\r'),
        has_bom(text) ==> has_bom(raw),
    ensures
        with_lf(without_bom(in_style_of(raw, text))) == text,
{
    let ending = line_ending(without_bom(raw));
    let body = with_ending(text, ending);
    law_ending_round_trip(text, ending);
    if has_bom(raw) {
        assert(in_style_of(raw, text).skip(1) =~= body);
    } else {
        assert(in_style_of(raw, text) =~= body);
        lemma_ending_mark(text, ending);
    }
}

/// Line endings do not bring a byte-order mark.
proof fn lemma_ending_mark(text: Seq<char>, ending: LineEnding)
    requires
        !has_bom(text),
    ensures
        !has_bom(with_ending(text, ending)),
{
    reveal_strlit("\n");
    reveal_strlit("\r\n");
    assert("\n"@ =~= seq!['\n']);
    lemma_index_from(text, "\n"@, 0);
    if ending == LineEnding::Crlf {
        if let Some(k) = index_from(text, "\n"@, 0) {
            let w = with_ending(text, ending);
            if k > 0 {
                assert(w[0] == text[0]);
            } else {
                assert(w[0] == '\r');
            }
        }
    }
}

/// A file whose lines all end alike is written again as it was.
pub proof fn law_style_kept(raw: Seq<char>, text: Seq<char>, ending: LineEnding)
    requires
        !text.contains('\r'),
        without_bom(raw) == with_ending(text, ending),
    ensures
        in_style_of(raw, with_lf(without_bom(raw))) == raw,
{
    law_ending_round_trip(text, ending);
    law_bom_split(raw);
    if text.contains('\n') {
        law_ending_detected(text, ending);
    } else {
        reveal_strlit("\n");
        lemma_replaced_absent(text, "\n"@, "\r\n"@);
    }
}

/// The lines of a file and its last line feed are the file.
pub proof fn law_file_lines(content: Seq<char>)
    ensures
        file_text(file_lines(content), ends_line(content), false) == content,
{
    reveal_strlit("\n");
    assert("\n"@ =~= seq!['\n']);
    law_join_pieces(content, '\n');
    lemma_pieces_nonempty(content, '\n');
    if ends_line(content) {
        let all = lines_of(content);
        assert(all.last() =~= Seq::<char>::empty());
        assert(all.drop_last().push(Seq::empty()) =~= all);
    }
}

/// A file that ended in a line feed ends in one after a patch, and so does any
/// file where that is asked for.
pub proof fn law_final_newline(
    content: Seq<char>,
    path: Seq<char>,
    hunks: Seq<HunkView>,
    threshold: u64,
    allow_fuzzy: bool,
    ensure: bool,
)
    requires
        ensure || ends_line(content),
    ensures
        hunks_applied(content, path, hunks, threshold, allow_fuzzy, ensure) matches Ok(t)
            ==> ends_line(t.content),
{
}

/// A single hunk without context, whose old lines occur once in a file, is
/// applied there, and nothing else changes but for the end of the file.
pub proof fn law_bare_hunk(
    content: Seq<char>,
    path: Seq<char>,
    hunk: HunkView,
    threshold: u64,
    allow_fuzzy: bool,
    ensure: bool,
    k: int,
)
    requires
        is_bare(hunk),
        hunk.old.len() > 0,
        !content.contains('\r'),
        !joined(hunk.old, "\n"@).contains('\r'),
        joined(hunk.old, "\n"@).len() > 0,
        0 <= k,
        occurs_at(content, joined(hunk.old, "\n"@), k),
        forall|j: int| 0 <= j && j != k ==> !occurs_at(content, joined(hunk.old, "\n"@), j),
    ensures
        hunks_applied(content, path, seq![hunk], threshold, allow_fuzzy, ensure) == Ok::<
            PatchedText,
            ErrorView,
        >(
            PatchedText {
                content: with_end(
                    content.take(k) + joined(hunk.new, "\n"@) + content.skip(
                        k + joined(hunk.old, "\n"@).len(),
                    ),
                    ends_line(content),
                    ensure,
                ),
                warnings: Seq::empty(),
            },
        ),
{
    let old = joined(hunk.old, "\n"@);
    let new = joined(hunk.new, "\n"@);
    law_lf_keeps(content);
    law_lf_keeps(old);
    law_single_occurrence(content, old, allow_fuzzy, threshold, new, k);
    assert(relaxed_found(content, old, allow_fuzzy, threshold) == found(
        content,
        old,
        allow_fuzzy,
        threshold,
    ));
    assert(adjusted(old, old, new) == new);
    let done = PatchedText {
        content: content.take(k) + new + content.skip(k + old.len()),
        warnings: Seq::empty(),
    };
    assert(character_patched(content, path, hunk, threshold, allow_fuzzy) == Ok::<
        PatchedText,
        ErrorView,
    >(done));
    let hunks = seq![hunk];
    assert(hunks[0] == hunk);
    assert(is_by_characters(hunks));
}

/// The first `m` lines of a file with the replacements made at once: each range
/// replaced, and what stands between the ranges kept.
pub open spec fn laced(lines: Seq<Seq<char>>, reps: Seq<ReplacementView>, m: int) -> Seq<Seq<char>>
    decreases reps.len(),
{
    if reps.len() == 0 {
        lines.take(m)
    } else {
        let r = reps.last();
        laced(lines, reps.drop_last(), r.start) + r.new + lines.subrange(r.end(), m)
    }
}

/// Replacements in turn do not disturb one another: made from the last to the
/// first, they give what they give at once.
pub proof fn law_made_at_once(lines: Seq<Seq<char>>, reps: Seq<ReplacementView>)
    requires
        in_turn(reps, lines.len() as int),
    ensures
        replaced_back(lines, reps) == Some(laced(lines, reps, lines.len() as int)),
{
    lemma_made_at_once(lines, lines, reps, lines.len() as int);
    assert(laced(lines, reps, lines.len() as int) + lines.skip(lines.len() as int) =~= laced(
        lines,
        reps,
        lines.len() as int,
    ));
}

/// The same for lines of which only the first `m` are those of the file.
proof fn lemma_made_at_once(
    lines: Seq<Seq<char>>,
    now: Seq<Seq<char>>,
    reps: Seq<ReplacementView>,
    m: int,
)
    requires
        in_turn(reps, lines.len() as int),
        0 <= m <= lines.len(),
        m <= now.len(),
        now.take(m) == lines.take(m),
        reps.len() > 0 ==> reps.last().end() <= m,
    ensures
        replaced_back(now, reps) == Some(laced(lines, reps, m) + now.skip(m)),
    decreases reps.len(),
{
    if reps.len() == 0 {
        assert(now =~= now.take(m) + now.skip(m));
    } else {
        let r = reps.last();
        let rest = reps.drop_last();
        assert forall|i: int| 0 <= i < m implies now[i] == lines[i] by {
            assert(now.take(m)[i] == lines.take(m)[i]);
        }
        assert(reps[reps.len() - 1] == r);
        assert(0 <= r.start <= r.end());
        let next = spliced(now, r.start, r.end(), r.new);
        assert(next.take(r.start) =~= lines.take(r.start));
        assert(forall|i: int| 0 <= i < rest.len() ==> #[trigger] rest[i] == reps[i]);
        lemma_made_at_once(lines, next, rest, r.start);
        assert(next.skip(r.start) =~= r.new + lines.subrange(r.end(), m) + now.skip(m));
        assert(laced(lines, reps, m) + now.skip(m) =~= laced(lines, rest, r.start) + next.skip(
            r.start,
        ));
    }
}

/// A hunk whose old lines stand in the file, from where the hunk before it ended
/// on, replaces them at the first such place, with its new lines as they are.
pub proof fn law_exact_hunk(
    lines: Seq<Seq<char>>,
    path: Seq<char>,
    hunk: HunkView,
    allow_fuzzy: bool,
    p: HunkProgress,
    i: int,
)
    requires
        hunk.context is None,
        hunk.has_context,
        !hunk.eof,
        hunk.old_start != Some(0nat),
        hunk.new_start != Some(0nat),
        hunk.old.len() > 0,
        0 <= p.line <= i,
        i + hunk.old.len() <= lines.len(),
        lines.subrange(i, i + hunk.old.len()) == hunk.old,
        forall|j: int|
            p.line <= j < i ==> #[trigger] lines.subrange(j, j + hunk.old.len()) != hunk.old,
    ensures
        hunk_step(lines, path, hunk, allow_fuzzy, p) == Ok::<HunkProgress, ErrorView>(
            HunkProgress {
                reps: if hunk.old == hunk.new {
                    p.reps
                } else {
                    p.reps.push(
                        ReplacementView { start: i, len: hunk.old.len() as int, new: hunk.new },
                    )
                },
                warnings: p.warnings,
                line: i + hunk.old.len(),
            },
        ),
{
    law_exact_lines(lines, hunk.old, p.line, allow_fuzzy, i);
    let at = Located { context: None, line: p.line };
    assert(located(lines, path, hunk, p.line, allow_fuzzy) == Ok::<Located, ErrorView>(at));
    assert(sought_near(
        lines,
        hunk.old,
        p.line,
        hunk_hint(hunk, p.line),
        false,
        allow_fuzzy,
    ) == immediate(i));
    let h = Hunt { pattern: hunk.old, new: hunk.new, result: immediate(i) };
    assert(hunted(lines, hunk, at, allow_fuzzy) == h);
    law_expected_lines(hunk.old, hunk.new);
}

/// So a patch of one hunk with context, whose old lines stand in the file,
/// replaces them at the first such place and leaves every other line as it is.
pub proof fn law_exact_patch(
    content: Seq<char>,
    path: Seq<char>,
    hunk: HunkView,
    threshold: u64,
    allow_fuzzy: bool,
    i: int,
)
    requires
        hunk.context is None,
        hunk.has_context,
        !hunk.eof,
        hunk.old_start != Some(0nat),
        hunk.new_start != Some(0nat),
        hunk.old.len() > 0,
        hunk.old != hunk.new,
        0 <= i,
        i + hunk.old.len() <= file_lines(content).len(),
        file_lines(content).subrange(i, i + hunk.old.len()) == hunk.old,
        forall|j: int|
            0 <= j < i ==> #[trigger] file_lines(content).subrange(j, j + hunk.old.len())
                != hunk.old,
    ensures
        hunks_applied(content, path, seq![hunk], threshold, allow_fuzzy, false) == Ok::<
            PatchedText,
            ErrorView,
        >(
            PatchedText {
                content: file_text(
                    spliced(file_lines(content), i, i + hunk.old.len(), hunk.new),
                    ends_line(content),
                    false,
                ),
                warnings: Seq::empty(),
            },
        ),
{
    let lines = file_lines(content);
    let hunks = seq![hunk];
    let start = HunkProgress { reps: Seq::empty(), warnings: Seq::empty(), line: 0 };
    law_exact_hunk(lines, path, hunk, allow_fuzzy, start, i);
    assert(hunks.drop_last() =~= Seq::<HunkView>::empty());
    assert(hunks.last() == hunk);
    assert(hunks_done(lines, path, hunks.drop_last(), allow_fuzzy) == Ok::<HunkProgress, ErrorView>(
        start,
    ));
    let r = ReplacementView { start: i, len: hunk.old.len() as int, new: hunk.new };
    let reps = Seq::<ReplacementView>::empty().push(r);
    assert(reps.drop_last() =~= Seq::<ReplacementView>::empty());
    assert(by_start(Seq::<ReplacementView>::empty()) =~= Seq::<ReplacementView>::empty());
    assert(by_start(reps) =~= reps);
    assert(first_overlap(reps, 0) is None);
    let made = spliced(lines, i, i + hunk.old.len(), hunk.new);
    assert(replaced_back(made, reps.drop_last()) == Some(made));
    assert(replaced_back(lines, reps) == Some(made));
    assert(hunks[0] == hunk);
    assert(!is_by_characters(hunks));
}

/// Whether the context of a hunk is a line of the file, and from `start` on no other.
pub open spec fn context_stands(
    lines: Seq<Seq<char>>,
    hunk: HunkView,
    start: int,
    c: int,
) -> bool {
    &&& hunk.context is Some
    &&& !(hunk.context->0).contains('\n')
    &&& 0 <= start <= c < lines.len()
    &&& lines[c] == hunk.context->0
    &&& forall|j: int|
        start <= j < lines.len() && j != c ==> #[trigger] lines[j] != hunk.context->0
}

/// A hunk without old lines, whose context is one line of the file, from where the
/// hunk before it ended on, puts its new lines right behind that line.
pub proof fn law_context_insertion(
    lines: Seq<Seq<char>>,
    path: Seq<char>,
    hunk: HunkView,
    allow_fuzzy: bool,
    p: HunkProgress,
    c: int,
)
    requires
        context_stands(lines, hunk, p.line, c),
        hunk.old.len() == 0,
        hunk.old_start != Some(0nat),
        hunk.new_start != Some(0nat),
    ensures
        hunk_step(lines, path, hunk, allow_fuzzy, p) == Ok::<HunkProgress, ErrorView>(
            HunkProgress {
                reps: p.reps.push(ReplacementView { start: c + 1, len: 0, new: hunk.new }),
                warnings: p.warnings,
                line: c + 1,
            },
        ),
{
    law_context_line(lines, hunk.context->0, p.line, hunk.old_start, allow_fuzzy, c);
}

/// What a patch of one hunk gives, where that is one replacement.
proof fn lemma_one_replacement(
    content: Seq<char>,
    path: Seq<char>,
    hunk: HunkView,
    threshold: u64,
    allow_fuzzy: bool,
    ensure: bool,
    r: ReplacementView,
    line: int,
)
    requires
        !is_by_characters(seq![hunk]),
        0 <= r.start,
        0 <= r.len,
        r.end() <= file_lines(content).len(),
        hunk_step(
            file_lines(content),
            path,
            hunk,
            allow_fuzzy,
            HunkProgress { reps: Seq::empty(), warnings: Seq::empty(), line: 0 },
        ) == Ok::<HunkProgress, ErrorView>(
            HunkProgress {
                reps: Seq::<ReplacementView>::empty().push(r),
                warnings: Seq::empty(),
                line,
            },
        ),
    ensures
        hunks_applied(content, path, seq![hunk], threshold, allow_fuzzy, ensure) == Ok::<
            PatchedText,
            ErrorView,
        >(
            PatchedText {
                content: file_text(
                    file_lines(content).take(r.start) + r.new + file_lines(content).skip(r.end()),
                    ends_line(content),
                    ensure,
                ),
                warnings: Seq::empty(),
            },
        ),
{
    let lines = file_lines(content);
    let hunks = seq![hunk];
    let start = HunkProgress { reps: Seq::empty(), warnings: Seq::empty(), line: 0 };
    assert(hunks.drop_last() =~= Seq::<HunkView>::empty());
    assert(hunks.last() == hunk);
    assert(hunks_done(lines, path, hunks.drop_last(), allow_fuzzy) == Ok::<HunkProgress, ErrorView>(
        start,
    ));
    let reps = Seq::<ReplacementView>::empty().push(r);
    lemma_by_start_in_order(reps);
    assert(reps.drop_last() =~= Seq::<ReplacementView>::empty());
    assert(first_overlap(reps, 0) is None);
    let made = spliced(lines, r.start, r.end(), r.new);
    assert(replaced_back(made, reps.drop_last()) == Some(made));
    assert(replaced_back(lines, reps) == Some(made));
}

/// So a patch of one hunk without old lines, under a context that is one line of the
/// file, leaves that line and those before it, has its new lines then, and behind
/// them the rest of the file.
pub proof fn law_context_insertion_patch(
    content: Seq<char>,
    path: Seq<char>,
    hunk: HunkView,
    threshold: u64,
    allow_fuzzy: bool,
    ensure: bool,
    c: int,
)
    requires
        context_stands(file_lines(content), hunk, 0, c),
        hunk.old.len() == 0,
        hunk.old_start != Some(0nat),
        hunk.new_start != Some(0nat),
    ensures
        hunks_applied(content, path, seq![hunk], threshold, allow_fuzzy, ensure) == Ok::<
            PatchedText,
            ErrorView,
        >(
            PatchedText {
                content: file_text(
                    file_lines(content).take(c + 1) + hunk.new + file_lines(content).skip(c + 1),
                    ends_line(content),
                    ensure,
                ),
                warnings: Seq::empty(),
            },
        ),
{
    let start = HunkProgress { reps: Seq::empty(), warnings: Seq::empty(), line: 0 };
    law_context_insertion(file_lines(content), path, hunk, allow_fuzzy, start, c);
    assert(seq![hunk][0] == hunk);
    lemma_one_replacement(
        content,
        path,
        hunk,
        threshold,
        allow_fuzzy,
        ensure,
        ReplacementView { start: c + 1, len: 0, new: hunk.new },
        c + 1,
    );
}

/// A hunk without context and without old lines puts its new lines where its line
/// hint says, before that line.
pub proof fn law_hinted_insertion(
    content: Seq<char>,
    path: Seq<char>,
    hunk: HunkView,
    threshold: u64,
    allow_fuzzy: bool,
    ensure: bool,
    n: nat,
)
    requires
        hunk.context is None,
        hunk.old.len() == 0,
        hunk.old_start == Some(n) || (hunk.old_start is None && hunk.new_start == Some(n)),
        hunk.new_start != Some(0nat),
        1 <= n <= file_lines(content).len() + 1,
    ensures
        hunks_applied(content, path, seq![hunk], threshold, allow_fuzzy, ensure) == Ok::<
            PatchedText,
            ErrorView,
        >(
            PatchedText {
                content: file_text(
                    file_lines(content).take(n - 1) + hunk.new + file_lines(content).skip(n - 1),
                    ends_line(content),
                    ensure,
                ),
                warnings: Seq::empty(),
            },
        ),
{
    let lines = file_lines(content);
    assert(seq![hunk][0] == hunk);
    lemma_one_replacement(
        content,
        path,
        hunk,
        threshold,
        allow_fuzzy,
        ensure,
        ReplacementView { start: n - 1, len: 0, new: hunk.new },
        search_line(lines, hunk, 0),
    );
}

/// A hunk with nothing to go by and without old lines puts its new lines at the end
/// of the file, before a last line that is empty.
pub proof fn law_insertion_at_end(
    content: Seq<char>,
    path: Seq<char>,
    hunk: HunkView,
    threshold: u64,
    allow_fuzzy: bool,
    ensure: bool,
)
    requires
        hunk.context is None,
        hunk.old.len() == 0,
        hunk.old_start is None,
        hunk.new_start is None,
    ensures
        ({
            let lines = file_lines(content);
            let n = if lines.len() > 0 && lines.last().len() == 0 {
                lines.len() - 1
            } else {
                lines.len() as int
            };
            hunks_applied(content, path, seq![hunk], threshold, allow_fuzzy, ensure) == Ok::<
                PatchedText,
                ErrorView,
            >(
                PatchedText {
                    content: file_text(
                        lines.take(n) + hunk.new + lines.skip(n),
                        ends_line(content),
                        ensure,
                    ),
                    warnings: Seq::empty(),
                },
            )
        }),
{
    let lines = file_lines(content);
    let n = if lines.len() > 0 && lines.last().len() == 0 {
        lines.len() - 1
    } else {
        lines.len() as int
    };
    assert(seq![hunk][0] == hunk);
    lemma_one_replacement(
        content,
        path,
        hunk,
        threshold,
        allow_fuzzy,
        ensure,
        ReplacementView { start: n, len: 0, new: hunk.new },
        0,
    );
}

/// Where a hunk is searched whose context is line `c`: from behind it, or from it
/// where the hunk begins with it.
pub open spec fn from_context(hunk: HunkView, c: int) -> int {
    if begins_at_context(hunk, hunk.context->0) {
        c
    } else {
        c + 1
    }
}

/// Whether the single old line of a hunk is told apart at line `i`: no other line is
/// like it, or it goes away and no line from the context to it is like it.
pub open spec fn is_told_apart(lines: Seq<Seq<char>>, hunk: HunkView, c: int, i: int) -> bool {
    let text = trimmed(hunk.old[0]);
    &&& hunk.old.len() == 1
    &&& {
        ||| forall|j: int|
            0 <= j < lines.len() && j != i ==> trimmed(#[trigger] lines[j]) != text
        ||| {
            &&& c < i
            &&& forall|j: int| c <= j < i ==> trimmed(#[trigger] lines[j]) != text
            &&& forall|j: int| 0 <= j < hunk.new.len() ==> trimmed(#[trigger] hunk.new[j]) != text
        }
    }
}

/// A hunk whose context is one line of the file, and whose old lines stand in the
/// file from there on, replaces them at the first such place, with its new lines as
/// they are. A single old line has to be told apart.
pub proof fn law_context_hunk(
    lines: Seq<Seq<char>>,
    path: Seq<char>,
    hunk: HunkView,
    allow_fuzzy: bool,
    p: HunkProgress,
    c: int,
    i: int,
)
    requires
        context_stands(lines, hunk, p.line, c),
        !hunk.eof,
        hunk.old_start != Some(0nat),
        hunk.new_start != Some(0nat),
        hunk.old.len() > 1 || is_told_apart(lines, hunk, c, i),
        from_context(hunk, c) <= i,
        i + hunk.old.len() <= lines.len(),
        lines.subrange(i, i + hunk.old.len()) == hunk.old,
        forall|j: int|
            from_context(hunk, c) <= j < i ==> #[trigger] lines.subrange(j, j + hunk.old.len())
                != hunk.old,
    ensures
        hunk_step(lines, path, hunk, allow_fuzzy, p) == Ok::<HunkProgress, ErrorView>(
            HunkProgress {
                reps: if hunk.old == hunk.new {
                    p.reps
                } else {
                    p.reps.push(
                        ReplacementView { start: i, len: hunk.old.len() as int, new: hunk.new },
                    )
                },
                warnings: p.warnings,
                line: i + hunk.old.len(),
            },
        ),
{
    law_context_line(lines, hunk.context->0, p.line, hunk.old_start, allow_fuzzy, c);
    let from = from_context(hunk, c);
    law_exact_lines(lines, hunk.old, from, allow_fuzzy, i);
    let at = Located { context: Some(c), line: from };
    assert(located(lines, path, hunk, p.line, allow_fuzzy) == Ok::<Located, ErrorView>(at));
    assert(sought_near(lines, hunk.old, from, hunk_hint(hunk, from), false, allow_fuzzy)
        == immediate(i));
    let h = Hunt { pattern: hunk.old, new: hunk.new, result: immediate(i) };
    if hunk.old.len() == 1 {
        let text = trimmed(hunk.old[0]);
        assert(lines.subrange(i, i + 1)[0] == lines[i]);
        if forall|j: int|
            0 <= j < lines.len() && j != i ==> trimmed(#[trigger] lines[j]) != text {
            lemma_single_like(lines, text, 0, i);
            lemma_single_like(lines, text, i + 1, i);
            assert(!stands_twice(lines, text));
        } else {
            lemma_next_like(lines, text, c + 1, i);
            assert(!keeps_text(hunk, text));
            assert(relative_place(lines, text, c, false) == Some(i));
        }
    }
    assert(moved_hunt(lines, hunk, Some(c), h) == h);
    assert(hunted(lines, hunk, at, allow_fuzzy) == h);
    law_expected_lines(hunk.old, hunk.new);
}

/// The first line from `i` on that is `text` when trimmed.
proof fn lemma_next_like(lines: Seq<Seq<char>>, text: Seq<char>, i: int, at: int)
    requires
        0 <= i <= at < lines.len(),
        trimmed(lines[at]) == text,
        forall|j: int| i <= j < at ==> trimmed(#[trigger] lines[j]) != text,
    ensures
        first_like(lines, text, i) == Some(at),
    decreases at - i,
{
    if i < at {
        lemma_next_like(lines, text, i + 1, at);
    }
}

/// The only line that is `text` when trimmed is the first from `i` on, where it is
/// not before.
proof fn lemma_single_like(lines: Seq<Seq<char>>, text: Seq<char>, i: int, at: int)
    requires
        0 <= i,
        0 <= at < lines.len(),
        forall|j: int| 0 <= j < lines.len() && j != at ==> trimmed(#[trigger] lines[j]) != text,
    ensures
        first_like(lines, text, i) == (if i <= at && trimmed(lines[at]) == text {
            Some(at)
        } else {
            None
        }),
    decreases lines.len() - i,
{
    if i < lines.len() {
        lemma_single_like(lines, text, i + 1, at);
    }
}

/// So a patch of one hunk under a context that is one line of the file replaces the
/// old lines at the first place from there on, wherever they stand before it, and
/// leaves every other line as it is.
pub proof fn law_context_patch(
    content: Seq<char>,
    path: Seq<char>,
    hunk: HunkView,
    threshold: u64,
    allow_fuzzy: bool,
    ensure: bool,
    c: int,
    i: int,
)
    requires
        context_stands(file_lines(content), hunk, 0, c),
        !hunk.eof,
        hunk.old_start != Some(0nat),
        hunk.new_start != Some(0nat),
        hunk.old != hunk.new,
        hunk.old.len() > 1 || is_told_apart(file_lines(content), hunk, c, i),
        from_context(hunk, c) <= i,
        i + hunk.old.len() <= file_lines(content).len(),
        file_lines(content).subrange(i, i + hunk.old.len()) == hunk.old,
        forall|j: int|
            from_context(hunk, c) <= j < i ==> #[trigger] file_lines(content).subrange(
                j,
                j + hunk.old.len(),
            ) != hunk.old,
    ensures
        hunks_applied(content, path, seq![hunk], threshold, allow_fuzzy, ensure) == Ok::<
            PatchedText,
            ErrorView,
        >(
            PatchedText {
                content: file_text(
                    file_lines(content).take(i) + hunk.new + file_lines(content).skip(
                        i + hunk.old.len(),
                    ),
                    ends_line(content),
                    ensure,
                ),
                warnings: Seq::empty(),
            },
        ),
{
    let start = HunkProgress { reps: Seq::empty(), warnings: Seq::empty(), line: 0 };
    law_context_hunk(file_lines(content), path, hunk, allow_fuzzy, start, c, i);
    assert(seq![hunk][0] == hunk);
    lemma_one_replacement(
        content,
        path,
        hunk,
        threshold,
        allow_fuzzy,
        ensure,
        ReplacementView { start: i, len: hunk.old.len() as int, new: hunk.new },
        i + hunk.old.len(),
    );
}

} // verus!
