//! Locating hunks in a file.
//!
//! A hunk is looked for by its lines, by a context that names the lines around
//! it, and by the line number that its header gives.

use crate::double::{Double, ONE};
use crate::fuzzy::{
    ContextLineResult, ContextMatchStrategy, LineRule, SearchView, SequenceMatchStrategy,
    SequenceSearchResult, agrees, context_found, find_context_line, hits, ints, lemma_hits, max,
    min, missed, opt_context, opt_int, pattern_at, preview, render_preview, seek_sequence, sought,
};
use crate::normalize::{lines_of, solid};
use crate::parser::{DiffHunk, HunkView};
use crate::text::{
    blank, capped, contains_char, decimal, join, joined, opt_nat, opt_view, push_text, same, show,
    split_on, split_whitespace, to_refs, trim, trimmed, views, words,
};
use crate::variants::{
    HunkVariant, VariantView, build_fallback_variants, filter_fallback_variants, usable_variants,
    variant_views,
};
use vstd::prelude::*;
use vstd::string::*;

verus! {

/// How far from a line hint an ambiguous match is accepted.
pub const AMBIGUITY_HINT_WINDOW: usize = 200;

/// Whether a search found more than one match.
pub open spec fn is_many<S>(r: SearchView<S>) -> bool {
    r.count matches Some(n) && n > 1
}

/// Whether a search found one match only.
pub open spec fn is_unique<S>(r: SearchView<S>) -> bool {
    r.index is Some && !is_many(r)
}

/// Whether a search found anything.
pub open spec fn is_found<S>(r: SearchView<S>) -> bool {
    r.index is Some || is_many(r)
}

/// A result with its match as the only one.
pub open spec fn alone<S>(r: SearchView<S>) -> SearchView<S> {
    SearchView {
        count: Some(1),
        indices: match r.index {
            Some(i) => seq![i],
            None => Seq::empty(),
        },
        ..r
    }
}

/// A result with its match withdrawn.
pub open spec fn undecided<S>(r: SearchView<S>) -> SearchView<S> {
    SearchView { index: None, ..r }
}

pub(crate) fn several(count: Option<usize>) -> (r: bool)
    ensures
        r == (count matches Some(n) && n > 1),
{
    match count {
        Some(n) => n > 1,
        None => false,
    }
}

/// The index of the line with number `n`, counted from one.
pub open spec fn index_of_line(n: nat) -> int {
    if n > 0 {
        n - 1
    } else {
        0
    }
}

/// The line at which the header of a hunk puts it, unless it lies before
/// `current`.
pub open spec fn hunk_hint(hunk: HunkView, current: int) -> Option<int> {
    match hunk.old_start {
        Some(n) => if index_of_line(n) >= current {
            Some(index_of_line(n))
        } else {
            None
        },
        None => None,
    }
}

/// Extracts a 0-indexed hint from the hunk's `old_start_line`, returning `None`
/// if the hint is behind `current_index`.
pub fn get_hunk_hint_index(hunk: &DiffHunk, current_index: usize) -> (r: Option<usize>)
    ensures
        opt_int(r) == hunk_hint(hunk@, current_index as int),
{
    match hunk.old_start_line {
        Some(n) => {
            let i: usize = n.saturating_sub(1);
            if i >= current_index {
                Some(i)
            } else {
                None
            }
        },
        None => None,
    }
}

/// Where `pattern` is found: from `current`, or from the hint where that is
/// ambiguous or fails, or else from the first line.
pub open spec fn sought_near(
    lines: Seq<Seq<char>>,
    pattern: Seq<Seq<char>>,
    current: int,
    hint: Option<int>,
    eof: bool,
    allow_fuzzy: bool,
) -> SearchView<SequenceMatchStrategy> {
    let primary = sought(lines, pattern, current, eof, allow_fuzzy);
    let other = hint is Some && hint->0 != current;
    let hinted = sought(lines, pattern, hint->0, eof, allow_fuzzy);
    let first = sought(lines, pattern, 0, eof, allow_fuzzy);
    if other && is_found(hinted) && (is_many(primary) || !is_found(primary)) {
        hinted
    } else if is_found(primary) {
        primary
    } else if current != 0 && is_found(first) {
        first
    } else {
        primary
    }
}

/// Finds a sequence with optional hint position, retrying from hint and from
/// the start of the file when the primary search fails.
pub fn find_sequence_with_hint(
    lines: &[&str],
    pattern: &[&str],
    current_index: usize,
    hint_index: Option<usize>,
    eof: bool,
    allow_fuzzy: bool,
) -> (r: SequenceSearchResult)
    ensures
        r@ == sought_near(
            views(lines@),
            views(pattern@),
            current_index as int,
            opt_int(hint_index),
            eof,
            allow_fuzzy,
        ),
        r.confidence.bits <= ONE,
{
    let primary = seek_sequence(lines, pattern, current_index, eof, allow_fuzzy);
    let many = several(primary.match_count);
    let some = primary.index.is_some();
    if many || !some {
        match hint_index {
            Some(hint) => {
                if hint != current_index {
                    let hinted = seek_sequence(lines, pattern, hint, eof, allow_fuzzy);
                    if hinted.index.is_some() || several(hinted.match_count) {
                        return hinted;
                    }
                }
            },
            None => {},
        }
    }
    if some || many {
        return primary;
    }
    if current_index != 0 {
        let first = seek_sequence(lines, pattern, 0, eof, allow_fuzzy);
        if first.index.is_some() || several(first.match_count) {
            return first;
        }
    }
    primary
}

/// The first of the variants, from `k` on, that has old lines and is found
/// once.
pub open spec fn fitting_variant(
    lines: Seq<Seq<char>>,
    variants: Seq<VariantView>,
    k: int,
    current: int,
    hint: Option<int>,
    eof: bool,
    allow_fuzzy: bool,
) -> Option<int>
    decreases variants.len() - k,
{
    if k < 0 || k >= variants.len() {
        None
    } else if variants[k].old.len() > 0 && is_unique(
        sought_near(lines, variants[k].old, current, hint, eof, allow_fuzzy),
    ) {
        Some(k)
    } else {
        fitting_variant(lines, variants, k + 1, current, hint, eof, allow_fuzzy)
    }
}

/// Finds the first variant that is found once, and where.
pub(crate) fn find_variant(
    lines: &[&str],
    variants: &[HunkVariant],
    current: usize,
    hint: Option<usize>,
    eof: bool,
    allow_fuzzy: bool,
) -> (r: Option<(usize, SequenceSearchResult)>)
    ensures
        ({
            let v = variant_views(variants@);
            let l = views(lines@);
            let h = opt_int(hint);
            match r {
                Some((k, x)) => {
                    &&& fitting_variant(l, v, 0, current as int, h, eof, allow_fuzzy) == Some(
                        k as int,
                    )
                    &&& k < variants@.len()
                    &&& x@ == sought_near(l, v[k as int].old, current as int, h, eof, allow_fuzzy)
                    &&& x.index is Some
                    &&& x.confidence.bits <= ONE
                },
                None => fitting_variant(l, v, 0, current as int, h, eof, allow_fuzzy) is None,
            }
        }),
{
    let ghost v = variant_views(variants@);
    let ghost l = views(lines@);
    let ghost h = opt_int(hint);
    let mut k: usize = 0;
    while k < variants.len()
        invariant
            v == variant_views(variants@),
            l == views(lines@),
            h == opt_int(hint),
            k <= variants@.len(),
            fitting_variant(l, v, 0, current as int, h, eof, allow_fuzzy) == fitting_variant(
                l,
                v,
                k as int,
                current as int,
                h,
                eof,
                allow_fuzzy,
            ),
        decreases variants@.len() - k,
    {
        assert(v[k as int] == variants@[k as int]@);
        assert(v[k as int].old.len() == variants@[k as int].old_lines@.len());
        if variants[k].old_lines.len() > 0 {
            let refs = to_refs(&variants[k].old_lines);
            let x = find_sequence_with_hint(lines, &refs, current, hint, eof, allow_fuzzy);
            if x.index.is_some() && !several(x.match_count) {
                return Some((k, x));
            }
        }
        k = k + 1;
    }
    None
}

/// Where the old lines of a hunk are found without its context: as they stand,
/// where no second place follows, or as the first variant that is found once.
pub open spec fn fallback_place(
    lines: Seq<Seq<char>>,
    hunk: HunkView,
    current: int,
    allow_fuzzy: bool,
    allow_aggressive: bool,
) -> Option<int> {
    let hint = match hunk_hint(hunk, current) {
        Some(h) => Some(h),
        None => match hunk.old_start {
            Some(n) => Some(n as int),
            None => None,
        },
    };
    let r = sought_near(lines, hunk.old, current, hint, false, allow_fuzzy);
    let next = capped(r.index->0 + 1) as int;
    let vs = usable_variants(hunk.old, hunk.new, allow_aggressive);
    let v = fitting_variant(lines, vs, 0, current, hint, false, allow_fuzzy);
    if hunk.old.len() == 0 {
        None
    } else if is_unique(r) {
        if next <= max(lines.len() - hunk.old.len(), 0) && sought(
            lines,
            hunk.old,
            next,
            false,
            allow_fuzzy,
        ).index is Some {
            None
        } else {
            r.index
        }
    } else if v is Some {
        sought_near(lines, vs[v->0].old, current, hint, false, allow_fuzzy).index
    } else {
        None
    }
}

/// Attempts to find the hunk's old lines via fallback variants when the primary
/// search and context matching both failed.
pub fn attempt_sequence_fallback(
    lines: &[&str],
    hunk: &DiffHunk,
    current_index: usize,
    allow_fuzzy: bool,
    allow_aggressive: bool,
) -> (r: Option<usize>)
    ensures
        opt_int(r) == fallback_place(
            views(lines@),
            hunk@,
            current_index as int,
            allow_fuzzy,
            allow_aggressive,
        ),
{
    assert(hunk@.old.len() == hunk.old_lines@.len());
    if hunk.old_lines.len() == 0 {
        return None;
    }
    let hint: Option<usize> = match get_hunk_hint_index(hunk, current_index) {
        Some(h) => Some(h),
        None => hunk.old_start_line,
    };
    let pattern = to_refs(&hunk.old_lines);
    let found = find_sequence_with_hint(
        lines,
        &pattern,
        current_index,
        hint,
        false,
        allow_fuzzy,
    );
    if !several(found.match_count) {
        match found.index {
            Some(i) => {
                let next: usize = i.saturating_add(1);
                if next <= lines.len().saturating_sub(hunk.old_lines.len()) {
                    let second = seek_sequence(lines, &pattern, next, false, allow_fuzzy);
                    if second.index.is_some() {
                        return None;
                    }
                }
                return Some(i);
            },
            None => {},
        }
    }
    let variants = filter_fallback_variants(
        build_fallback_variants(&hunk.old_lines, &hunk.new_lines),
        allow_aggressive,
    );
    match find_variant(lines, &variants, current_index, hint, false, allow_fuzzy) {
        Some((_, x)) => x.index,
        None => None,
    }
}

/// Where a single line of context is found.
pub open spec fn line_place(
    lines: Seq<Seq<char>>,
    context: Seq<char>,
    start: int,
    allow_fuzzy: bool,
) -> SearchView<ContextMatchStrategy> {
    context_found(lines, context, start, allow_fuzzy, true)
}

/// The lines of a context, trimmed, without those that hold nothing.
pub open spec fn context_parts(context: Seq<char>) -> Seq<Seq<char>> {
    solid(lines_of(context)).map_values(|l: Seq<char>| trimmed(l))
}

/// Where the parts of a context, from `i` on, are found one after another. A
/// hint decides on the last of them where it is ambiguous or not found.
pub open spec fn parts_place(
    lines: Seq<Seq<char>>,
    parts: Seq<Seq<char>>,
    i: int,
    start: int,
    hint: Option<nat>,
    allow_fuzzy: bool,
) -> SearchView<ContextMatchStrategy>
    decreases parts.len() - i,
{
    if i < 0 || i >= parts.len() {
        missed(0)
    } else {
        let r = line_place(lines, parts[i], start, allow_fuzzy);
        let last = i == parts.len() - 1;
        let hinted = line_place(lines, parts[i], max(index_of_line(hint->0), start), allow_fuzzy);
        if is_unique(r) {
            if last {
                r
            } else {
                parts_place(lines, parts, i + 1, r.index->0 + 1, hint, allow_fuzzy)
            }
        } else if last && hint is Some && hinted.index is Some {
            alone(hinted)
        } else if is_many(r) {
            undecided(r)
        } else {
            missed(r.confidence)
        }
    }
}

/// Whether a context has brackets, and so is taken for a signature.
pub open spec fn is_signature(context: Seq<char>) -> bool {
    context.contains('(') || context.contains(')') || context.contains('{') || context.contains('}')
        || context.contains('[') || context.contains(']')
}

/// Where the last word is found after a line with the words before it; none
/// where that decides nothing.
pub open spec fn inner_place(
    lines: Seq<Seq<char>>,
    words: Seq<Seq<char>>,
    start: int,
    allow_fuzzy: bool,
) -> Option<SearchView<ContextMatchStrategy>> {
    let outer = line_place(lines, joined(words.drop_last(), " "@), start, allow_fuzzy);
    let inner = line_place(lines, words.last(), outer.index->0 + 1, allow_fuzzy);
    if is_many(outer) {
        Some(undecided(outer))
    } else if outer.index is None {
        None
    } else if is_many(inner) {
        Some(alone(inner))
    } else if inner.index is Some {
        Some(inner)
    } else {
        None
    }
}

/// Where a context of one line is found. One of more than two words is taken
/// literally where one line only is it, and as an outer and an inner part
/// where that fails. Any is taken literally from `start`, from the hint, from
/// the first line; or else as an outer and an inner part.
pub open spec fn words_place(
    lines: Seq<Seq<char>>,
    context: Seq<char>,
    start: int,
    hint: Option<nat>,
    allow_fuzzy: bool,
) -> SearchView<ContextMatchStrategy> {
    let ws = words(context);
    let strict = line_place(lines, context, start, false);
    let inner = inner_place(lines, ws, start, allow_fuzzy);
    let outer = line_place(lines, joined(ws.drop_last(), " "@), start, allow_fuzzy);
    let r = line_place(lines, context, start, allow_fuzzy);
    let hinted = line_place(lines, context, index_of_line(hint->0), allow_fuzzy);
    let first = line_place(lines, context, 0, allow_fuzzy);
    let parted = !is_signature(context) && ws.len() > 2;
    if parted && is_unique(strict) {
        strict
    } else if parted && inner is Some && (is_many(outer) || (inner->0).index is Some) {
        inner->0
    } else if !is_unique(r) && hint is Some && hinted.index is Some {
        alone(hinted)
    } else if is_found(r) {
        r
    } else if start != 0 && is_found(first) {
        first
    } else if !is_signature(context) && ws.len() > 1 {
        if inner is Some {
            inner->0
        } else if outer.index is None {
            missed(outer.confidence)
        } else {
            r
        }
    } else {
        r
    }
}

/// Where a context is found.
pub open spec fn context_place(
    lines: Seq<Seq<char>>,
    context: Seq<char>,
    start: int,
    hint: Option<nat>,
    allow_fuzzy: bool,
) -> SearchView<ContextMatchStrategy> {
    if context.contains('\n') {
        parts_place(lines, context_parts(context), 0, start, hint, allow_fuzzy)
    } else {
        words_place(lines, context, start, hint, allow_fuzzy)
    }
}

fn keep_alone(r: ContextLineResult) -> (x: ContextLineResult)
    ensures
        x@ == alone(r@),
        x.index == r.index,
        x.confidence == r.confidence,
{
    let mut at: Vec<usize> = Vec::new();
    match r.index {
        Some(i) => {
            at.push(i);
        },
        None => {},
    }
    let x = ContextLineResult {
        index: r.index,
        confidence: r.confidence,
        match_count: Some(1),
        match_indices: at,
        strategy: r.strategy,
    };
    assert(x@ =~= alone(r@));
    x
}

fn withdraw(r: ContextLineResult) -> (x: ContextLineResult)
    ensures
        x@ == undecided(r@),
        x.index is None,
        x.confidence == r.confidence,
{
    ContextLineResult { index: None, ..r }
}

fn context_missed(confidence: Double) -> (r: ContextLineResult)
    ensures
        r@ == missed::<ContextMatchStrategy>(confidence.bits),
        r.index is None,
        r.confidence == confidence,
{
    let r = ContextLineResult {
        index: None,
        confidence,
        match_count: None,
        match_indices: Vec::new(),
        strategy: None,
    };
    assert(r@ =~= missed::<ContextMatchStrategy>(confidence.bits));
    r
}

fn split_parts(context: &str) -> (r: Vec<String>)
    ensures
        views(r@) == context_parts(context@),
        r@.len() == views(r@).len(),
{
    let pieces = split_on(context, '\n');
    let ghost all = lines_of(context@);
    let ghost f = |l: Seq<char>| trimmed(l);
    let mut out: Vec<String> = Vec::new();
    let mut i: usize = 0;
    assert(all.take(0) =~= Seq::empty());
    assert(views(out@) =~= solid(all.take(0)).map_values(f));
    while i < pieces.len()
        invariant
            views(pieces@) == all,
            f == (|l: Seq<char>| trimmed(l)),
            i <= pieces@.len(),
            views(out@) == solid(all.take(i as int)).map_values(f),
        decreases pieces@.len() - i,
    {
        let line = pieces[i].as_str();
        proof {
            assert(all.take(i + 1).drop_last() =~= all.take(i as int));
            assert(all.take(i + 1).last() == line@);
            let before = solid(all.take(i as int));
            assert(before.push(line@).map_values(f) =~= before.map_values(f).push(trimmed(line@)));
        }
        if !blank(line) {
            push_text(&mut out, trim(line));
        }
        i = i + 1;
    }
    assert(all.take(i as int) =~= all);
    out
}

fn find_parts(
    lines: &[&str],
    parts: &[String],
    start: usize,
    hint: Option<usize>,
    allow_fuzzy: bool,
) -> (r: ContextLineResult)
    ensures
        r@ == parts_place(
            views(lines@),
            views(parts@),
            0,
            start as int,
            opt_nat(hint),
            allow_fuzzy,
        ),
        r.confidence.bits <= ONE,
        r.index matches Some(i) ==> i < lines@.len(),
{
    let ghost l = views(lines@);
    let ghost p = views(parts@);
    let ghost goal = parts_place(l, p, 0, start as int, opt_nat(hint), allow_fuzzy);
    let total: usize = lines.len();
    let mut current: usize = start;
    let mut i: usize = 0;
    while i < parts.len()
        invariant
            total == lines@.len(),
            l == views(lines@),
            p == views(parts@),
            i <= parts@.len(),
            goal == parts_place(l, p, 0, start as int, opt_nat(hint), allow_fuzzy),
            goal == parts_place(l, p, i as int, current as int, opt_nat(hint), allow_fuzzy),
        decreases parts@.len() - i,
    {
        let part = parts[i].as_str();
        assert(p[i as int] == part@);
        let last = i == parts.len() - 1;
        let found = find_context_line(lines, part, current, allow_fuzzy);
        let many = several(found.match_count);
        match found.index {
            Some(k) => {
                if !many {
                    if last {
                        return found;
                    }
                    current = k + 1;
                    i = i + 1;
                    continue;
                }
            },
            None => {},
        }
        if last {
            match hint {
                Some(h) => {
                    let at: usize = h.saturating_sub(1);
                    let from: usize = if at >= current {
                        at
                    } else {
                        current
                    };
                    let hinted = find_context_line(lines, part, from, allow_fuzzy);
                    if hinted.index.is_some() {
                        return keep_alone(hinted);
                    }
                },
                None => {},
            }
        }
        if many {
            return withdraw(found);
        }
        return context_missed(found.confidence);
    }
    context_missed(Double::from_bits(0))
}

fn has_signature_chars(context: &str) -> (r: bool)
    ensures
        r == is_signature(context@),
{
    contains_char(context, '(') || contains_char(context, ')') || contains_char(context, '{')
        || contains_char(context, '}') || contains_char(context, '[') || contains_char(context, ']')
}

/// What a search by an outer and an inner part gives.
struct InnerSearch {
    /// The result, where it decides.
    result: Option<ContextLineResult>,
    /// Whether the outer part is ambiguous.
    outer_many: bool,
    /// Whether the outer part is found.
    outer_found: bool,
    /// The score of the outer part.
    outer_confidence: Double,
}

fn find_inner(lines: &[&str], parts: &[String], start: usize, allow_fuzzy: bool) -> (r: InnerSearch)
    requires
        parts@.len() > 1,
    ensures
        ({
            let l = views(lines@);
            let ws = views(parts@);
            let outer = line_place(l, joined(ws.drop_last(), " "@), start as int, allow_fuzzy);
            &&& opt_context(r.result) == inner_place(l, ws, start as int, allow_fuzzy)
            &&& r.outer_many == is_many(outer)
            &&& r.outer_found == (outer.index is Some)
            &&& r.outer_confidence.bits == outer.confidence
        }),
        r.outer_confidence.bits <= ONE,
        r.result matches Some(x) ==> x.confidence.bits <= ONE && (x.index matches Some(i) ==> i
            < lines@.len()),
{
    let ghost ws = views(parts@);
    let total: usize = lines.len();
    let n: usize = parts.len() - 1;
    let head = vstd::slice::slice_subrange(parts, 0, n);
    assert(views(head@) =~= ws.drop_last());
    assert(ws.last() == parts@[n as int]@);
    let text = join(head, " ");
    let outer = find_context_line(lines, text.as_str(), start, allow_fuzzy);
    let outer_many = several(outer.match_count);
    let outer_found = outer.index.is_some();
    let outer_confidence = outer.confidence;
    let result = if outer_many {
        Some(withdraw(outer))
    } else {
        match outer.index {
            None => None,
            Some(k) => {
                let inner = find_context_line(lines, parts[n].as_str(), k + 1, allow_fuzzy);
                if several(inner.match_count) {
                    Some(keep_alone(inner))
                } else if inner.index.is_some() {
                    Some(inner)
                } else {
                    None
                }
            },
        }
    };
    InnerSearch { result, outer_many, outer_found, outer_confidence }
}

fn find_words(
    lines: &[&str],
    context: &str,
    start: usize,
    hint: Option<usize>,
    allow_fuzzy: bool,
) -> (r: ContextLineResult)
    ensures
        r@ == words_place(views(lines@), context@, start as int, opt_nat(hint), allow_fuzzy),
        r.confidence.bits <= ONE,
        r.index matches Some(i) ==> i < lines@.len(),
{
    let parts = split_whitespace(context);
    assert(views(parts@).len() == parts@.len());
    let plain = !has_signature_chars(context);
    if plain && parts.len() > 2 {
        let strict = find_context_line(lines, context, start, false);
        if strict.index.is_some() && !several(strict.match_count) {
            return strict;
        }
        let inner = find_inner(lines, &parts, start, allow_fuzzy);
        match inner.result {
            Some(x) => {
                if inner.outer_many || x.index.is_some() {
                    return x;
                }
            },
            None => {},
        }
    }
    let found = find_context_line(lines, context, start, allow_fuzzy);
    let many = several(found.match_count);
    let some = found.index.is_some();
    if many || !some {
        match hint {
            Some(h) => {
                let hinted = find_context_line(lines, context, h.saturating_sub(1), allow_fuzzy);
                if hinted.index.is_some() {
                    return keep_alone(hinted);
                }
            },
            None => {},
        }
    }
    if many || some {
        return found;
    }
    if start != 0 {
        let first = find_context_line(lines, context, 0, allow_fuzzy);
        if first.index.is_some() || several(first.match_count) {
            return first;
        }
    }
    if plain && parts.len() > 1 {
        let inner = find_inner(lines, &parts, start, allow_fuzzy);
        match inner.result {
            Some(x) => {
                return x;
            },
            None => {},
        }
        if !inner.outer_found {
            return context_missed(inner.outer_confidence);
        }
    }
    found
}

/// Finds hierarchical context in file lines.
///
/// Handles three formats:
/// 1. Simple context: `"function foo"`: find this line.
/// 2. Hierarchical (newline): `"class Foo\nmethod"`: find class, then method
///    after it.
/// 3. Hierarchical (space): `"class Foo method"`: try literal first, then
///    split and search.
pub fn find_hierarchical_context(
    lines: &[&str],
    context: &str,
    start_from: usize,
    line_hint: Option<usize>,
    allow_fuzzy: bool,
) -> (r: ContextLineResult)
    ensures
        r@ == context_place(
            views(lines@),
            context@,
            start_from as int,
            opt_nat(line_hint),
            allow_fuzzy,
        ),
        r.confidence.bits <= ONE,
        r.index matches Some(i) ==> i < lines@.len(),
{
    if contains_char(context, '\n') {
        let parts = split_parts(context);
        find_parts(lines, &parts, start_from, line_hint, allow_fuzzy)
    } else {
        find_words(lines, context, start_from, line_hint, allow_fuzzy)
    }
}

/// The first line from `i` on that is `text` when trimmed.
pub open spec fn first_like(lines: Seq<Seq<char>>, text: Seq<char>, i: int) -> Option<int>
    decreases lines.len() - i,
{
    if i < 0 || i >= lines.len() {
        None
    } else if trimmed(lines[i]) == text {
        Some(i)
    } else {
        first_like(lines, text, i + 1)
    }
}

/// The last line before `i` that is `text` when trimmed.
pub open spec fn last_like(lines: Seq<Seq<char>>, text: Seq<char>, i: int) -> Option<int>
    decreases i,
{
    if i <= 0 {
        None
    } else if trimmed(lines[i - 1]) == text {
        Some(i - 1)
    } else {
        last_like(lines, text, i - 1)
    }
}

/// The line near `context` that is `text` when trimmed: the first after it, or
/// the second where that is preferred and there is one; else the last before
/// it.
pub open spec fn relative_place(
    lines: Seq<Seq<char>>,
    text: Seq<char>,
    context: int,
    prefer_second: bool,
) -> Option<int> {
    match first_like(lines, text, context + 1) {
        Some(a) => match first_like(lines, text, a + 1) {
            Some(b) if prefer_second => Some(b),
            _ => Some(a),
        },
        None => last_like(lines, text, context),
    }
}

pub(crate) fn next_like(lines: &[&str], text: &str, from: usize) -> (r: Option<usize>)
    ensures
        opt_int(r) == first_like(views(lines@), text@, from as int),
        r matches Some(i) ==> i < lines@.len(),
{
    let ghost l = views(lines@);
    let mut i: usize = from;
    while i < lines.len()
        invariant
            l == views(lines@),
            first_like(l, text@, from as int) == first_like(l, text@, i as int),
        decreases lines@.len() - i,
    {
        assert(l[i as int] == lines@[i as int]@);
        if same(trim(lines[i]), text) {
            return Some(i);
        }
        i = i + 1;
    }
    None
}

/// Finds a line near `context_index` by trimmed content comparison.
/// Prefers forward matches; falls back to searching backward.
pub fn find_context_relative_match(
    lines: &[&str],
    pattern_line: &str,
    context_index: usize,
    prefer_second_forward: bool,
) -> (r: Option<usize>)
    requires
        context_index <= lines@.len(),
    ensures
        opt_int(r) == relative_place(
            views(lines@),
            trimmed(pattern_line@),
            context_index as int,
            prefer_second_forward,
        ),
        r matches Some(i) ==> i < lines@.len(),
{
    let ghost l = views(lines@);
    let total: usize = lines.len();
    let text = trim(pattern_line);
    match next_like(lines, text, context_index.saturating_add(1)) {
        Some(a) => {
            if prefer_second_forward {
                match next_like(lines, text, a + 1) {
                    Some(b) => {
                        return Some(b);
                    },
                    None => {},
                }
            }
            return Some(a);
        },
        None => {},
    }
    let mut i: usize = context_index;
    while i > 0
        invariant
            l == views(lines@),
            i <= context_index <= lines@.len(),
            text@ == trimmed(pattern_line@),
            first_like(l, text@, context_index + 1) is None,
            last_like(l, text@, context_index as int) == last_like(l, text@, i as int),
        decreases i,
    {
        assert(l[i - 1] == lines@[i - 1]@);
        if same(trim(lines[i - 1]), text) {
            return Some(i - 1);
        }
        i = i - 1;
    }
    None
}

/// Whether two indices are at most `window` apart.
pub open spec fn within_window(i: int, hint: int, window: int) -> bool {
    -window <= i - hint <= window
}

/// The indices at most `window` from the hint.
pub open spec fn near_hint(indices: Seq<int>, hint: int, window: int) -> Seq<int>
    decreases indices.len(),
{
    if indices.len() == 0 {
        Seq::empty()
    } else {
        let before = near_hint(indices.drop_last(), hint, window);
        if within_window(indices.last(), hint, window) {
            before.push(indices.last())
        } else {
            before
        }
    }
}

/// The only index near the hint.
pub open spec fn hinted_place(indices: Seq<int>, hint: Option<int>, window: int) -> Option<int> {
    if hint is Some && near_hint(indices, hint->0, window).len() == 1 {
        Some(near_hint(indices, hint->0, window)[0])
    } else {
        None
    }
}

/// Chooses the match closest to `hint_index` within `window`, returning `Some`
/// only when exactly one candidate falls inside the window.
pub fn choose_hinted_match(
    match_indices: &[usize],
    hint_index: Option<usize>,
    window: usize,
) -> (r: Option<usize>)
    ensures
        opt_int(r) == hinted_place(ints(match_indices@), opt_int(hint_index), window as int),
{
    let hint: usize = match hint_index {
        Some(h) => h,
        None => {
            return None;
        },
    };
    let ghost all = ints(match_indices@);
    let mut out: Vec<usize> = Vec::new();
    let mut i: usize = 0;
    assert(all.take(0) =~= Seq::empty());
    assert(ints(out@) =~= Seq::empty());
    while i < match_indices.len()
        invariant
            all == ints(match_indices@),
            i <= match_indices@.len(),
            ints(out@) == near_hint(all.take(i as int), hint as int, window as int),
        decreases match_indices@.len() - i,
    {
        let k: usize = match_indices[i];
        proof {
            assert(all.take(i + 1).drop_last() =~= all.take(i as int));
            assert(all.take(i + 1).last() == k);
        }
        let gap: usize = if k < hint {
            hint - k
        } else {
            k - hint
        };
        if gap <= window {
            let ghost before = out@;
            out.push(k);
            assert(ints(out@) =~= ints(before).push(k as int));
        }
        i = i + 1;
    }
    proof {
        assert(all.take(i as int) =~= all);
        assert(ints(out@).len() == out@.len());
    }
    if out.len() == 1 {
        assert(ints(out@)[0] == out@[0]);
        Some(out[0])
    } else {
        None
    }
}

/// Context lines shown before and after a match in a preview.
pub const MATCH_PREVIEW_CONTEXT: usize = 2;

/// Maximum line length in a match preview.
pub const MATCH_PREVIEW_MAX_LEN: usize = 80;

/// The preview of a match at `i`.
pub open spec fn place_preview(lines: Seq<Seq<char>>, i: int) -> Seq<char> {
    let from = max(i - MATCH_PREVIEW_CONTEXT, 0);
    let to = min(i + MATCH_PREVIEW_CONTEXT + 1, lines.len() as int);
    if from <= to {
        preview(lines, from, to, MATCH_PREVIEW_MAX_LEN as nat)
    } else {
        Seq::empty()
    }
}

/// Formats a short preview of lines around `start_idx` for error messages.
pub fn format_sequence_match_preview(lines: &[&str], start_idx: usize) -> (r: String)
    ensures
        r@ == place_preview(views(lines@), start_idx as int),
{
    let n: usize = lines.len();
    let from: usize = start_idx.saturating_sub(MATCH_PREVIEW_CONTEXT);
    let end: usize = start_idx.saturating_add(MATCH_PREVIEW_CONTEXT + 1);
    let to: usize = if end <= n {
        end
    } else {
        n
    };
    if from <= to {
        render_preview(lines, from, to, MATCH_PREVIEW_MAX_LEN)
    } else {
        String::new()
    }
}

/// The previews of several matches.
pub open spec fn places_preview(
    lines: Seq<Seq<char>>,
    indices: Seq<int>,
    count: Option<nat>,
) -> Option<Seq<char>> {
    let shown = joined(indices.map_values(|i: int| place_preview(lines, i)), "\n\n"@);
    if indices.len() == 0 {
        None
    } else if count is Some && count->0 > indices.len() {
        Some(
            shown + " (showing first "@ + decimal(indices.len()) + " of "@ + decimal(count->0)
                + ")"@,
        )
    } else {
        Some(shown)
    }
}

/// Formats previews for multiple match locations.
pub fn format_sequence_match_previews(
    lines: &[&str],
    match_indices: &[usize],
    match_count: Option<usize>,
) -> (r: Option<String>)
    ensures
        opt_view(r) == places_preview(
            views(lines@),
            ints(match_indices@),
            opt_nat(match_count),
        ),
{
    let ghost l = views(lines@);
    let ghost target = ints(match_indices@).map_values(|i: int| place_preview(l, i));
    if match_indices.len() == 0 {
        return None;
    }
    let mut out: Vec<String> = Vec::new();
    let mut k: usize = 0;
    while k < match_indices.len()
        invariant
            l == views(lines@),
            target == ints(match_indices@).map_values(|i: int| place_preview(l, i)),
            k <= match_indices@.len(),
            views(out@) == target.take(k as int),
        decreases match_indices@.len() - k,
    {
        let text = format_sequence_match_preview(lines, match_indices[k]);
        push_text(&mut out, text.as_str());
        assert(target.take(k + 1) =~= target.take(k as int).push(target[k as int]));
        k = k + 1;
    }
    assert(target.take(k as int) =~= target);
    let mut r = join(&out, "\n\n");
    match match_count {
        Some(total) => {
            if total > match_indices.len() {
                r.append(" (showing first ");
                r.append(show(match_indices.len()).as_str());
                r.append(" of ");
                r.append(show(total).as_str());
                r.append(")");
            }
        },
        None => {},
    }
    Some(r)
}

/// A context that is a line of the file, and from `start` on no other, is found at
/// that line.
pub proof fn law_context_line(
    lines: Seq<Seq<char>>,
    context: Seq<char>,
    start: int,
    hint: Option<nat>,
    allow_fuzzy: bool,
    c: int,
)
    requires
        !context.contains('\n'),
        0 <= start <= c < lines.len(),
        lines[c] == context,
        forall|j: int| start <= j < lines.len() && j != c ==> #[trigger] lines[j] != context,
    ensures
        is_unique(context_place(lines, context, start, hint, allow_fuzzy)),
        context_place(lines, context, start, hint, allow_fuzzy).index == Some(c),
{
    reveal(context_found);
    let one = seq![context];
    let n = lines.len() as int;
    let h = hits(lines, one, LineRule::Exact, start, n);
    lemma_hits(lines, one, LineRule::Exact, start, n);
    assert(pattern_at(lines, one, LineRule::Exact, c)) by {
        assert(agrees(LineRule::Exact, lines[c + 0], one[0]));
    }
    assert(h.contains(c));
    assert forall|k: int| 0 <= k < h.len() implies #[trigger] h[k] == c by {
        assert(pattern_at(lines, one, LineRule::Exact, h[k]));
        assert(agrees(LineRule::Exact, lines[h[k] + 0], one[0]));
    }
    if h.len() >= 2 {
        assert(h[0] < h[1]);
    }
    assert(h =~= seq![c]);
    let r = context_found(lines, context, start, allow_fuzzy, true);
    let strict = context_found(lines, context, start, false, true);
    assert(r.index == Some(c) && r.count == Some(1nat));
    assert(strict.index == Some(c) && strict.count == Some(1nat));
}

/// Of several places, the one near the hint is chosen where it is the only one there;
/// where none is, or two are, none is chosen.
pub proof fn law_hinted_choice(indices: Seq<int>, hint: int, window: int, k: int)
    requires
        0 <= k < indices.len(),
    ensures
        hinted_place(indices, None, window) is None,
        -window <= indices[k] - hint <= window && (forall|j: int|
            0 <= j < indices.len() && j != k ==> !(-window <= #[trigger] indices[j] - hint
                <= window)) ==> hinted_place(indices, Some(hint), window) == Some(indices[k]),
        (forall|j: int|
            0 <= j < indices.len() ==> !(-window <= #[trigger] indices[j] - hint <= window))
            ==> hinted_place(indices, Some(hint), window) is None,
        -window <= indices[k] - hint <= window && (exists|j: int|
            0 <= j < indices.len() && j != k && -window <= #[trigger] indices[j] - hint <= window)
            ==> hinted_place(indices, Some(hint), window) is None,
{
    let near = near_hint(indices, hint, window);
    if forall|j: int| 0 <= j < indices.len() ==> !(-window <= #[trigger] indices[j] - hint <= window) {
        lemma_none_near(indices, hint, window);
    }
    if -window <= indices[k] - hint <= window {
        if forall|j: int|
            0 <= j < indices.len() && j != k ==> !(-window <= #[trigger] indices[j] - hint
                <= window) {
            lemma_one_near(indices, hint, window, k);
        }
        if exists|j: int|
            0 <= j < indices.len() && j != k && -window <= #[trigger] indices[j] - hint <= window {
            let j = choose|j: int|
                0 <= j < indices.len() && j != k && -window <= #[trigger] indices[j] - hint
                    <= window;
            if j < k {
                lemma_two_near(indices, hint, window, j, k);
            } else {
                lemma_two_near(indices, hint, window, k, j);
            }
        }
    }
}

proof fn lemma_none_near(indices: Seq<int>, hint: int, window: int)
    requires
        forall|j: int|
            0 <= j < indices.len() ==> !(-window <= #[trigger] indices[j] - hint <= window),
    ensures
        near_hint(indices, hint, window).len() == 0,
    decreases indices.len(),
{
    if indices.len() > 0 {
        let before = indices.drop_last();
        assert forall|j: int| 0 <= j < before.len() implies !(-window <= #[trigger] before[j] - hint
            <= window) by {
            assert(before[j] == indices[j]);
        }
        lemma_none_near(before, hint, window);
        assert(indices.last() == indices[indices.len() - 1]);
    }
}

proof fn lemma_one_near(indices: Seq<int>, hint: int, window: int, k: int)
    requires
        0 <= k < indices.len(),
        -window <= indices[k] - hint <= window,
        forall|j: int|
            0 <= j < indices.len() && j != k ==> !(-window <= #[trigger] indices[j] - hint
                <= window),
    ensures
        near_hint(indices, hint, window) == seq![indices[k]],
    decreases indices.len(),
{
    let before = indices.drop_last();
    assert(indices.last() == indices[indices.len() - 1]);
    assert forall|j: int| 0 <= j < before.len() && j != k implies !(-window
        <= #[trigger] before[j] - hint <= window) by {
        assert(before[j] == indices[j]);
    }
    if k == indices.len() - 1 {
        lemma_none_near(before, hint, window);
    } else {
        lemma_one_near(before, hint, window, k);
    }
    assert(near_hint(indices, hint, window) =~= seq![indices[k]]);
}

proof fn lemma_two_near(indices: Seq<int>, hint: int, window: int, a: int, b: int)
    requires
        0 <= a < b < indices.len(),
        -window <= indices[a] - hint <= window,
        -window <= indices[b] - hint <= window,
    ensures
        near_hint(indices, hint, window).len() >= 2,
    decreases indices.len(),
{
    let before = indices.drop_last();
    assert(indices.last() == indices[indices.len() - 1]);
    if b < indices.len() - 1 {
        lemma_two_near(before, hint, window, a, b);
    } else {
        lemma_some_near(before, hint, window, a);
    }
}

proof fn lemma_some_near(indices: Seq<int>, hint: int, window: int, a: int)
    requires
        0 <= a < indices.len(),
        -window <= indices[a] - hint <= window,
    ensures
        near_hint(indices, hint, window).len() >= 1,
    decreases indices.len(),
{
    if a < indices.len() - 1 {
        lemma_some_near(indices.drop_last(), hint, window, a);
    }
}

/// The line near a context holds the text. It is the nearest behind the context, or,
/// where the second is preferred and there is one, the next behind that; and where there
/// is none behind the context, the nearest before it. Where none is found, no other line
/// holds the text.
pub proof fn law_relative_place(
    lines: Seq<Seq<char>>,
    text: Seq<char>,
    context: int,
    prefer_second: bool,
)
    requires
        0 <= context < lines.len(),
    ensures
        match relative_place(lines, text, context, prefer_second) {
            Some(r) => {
                &&& 0 <= r < lines.len()
                &&& r != context
                &&& trimmed(lines[r]) == text
                &&& r < context ==> forall|j: int|
                    r < j < lines.len() && j != context ==> trimmed(#[trigger] lines[j]) != text
                &&& context < r && !prefer_second ==> forall|j: int|
                    context < j < r ==> trimmed(#[trigger] lines[j]) != text
                &&& context < r && prefer_second ==> {
                    ||| (forall|j: int|
                        context < j < lines.len() && j != r ==> trimmed(#[trigger] lines[j])
                            != text)
                    ||| exists|a: int|
                        context < a < r && trimmed(#[trigger] lines[a]) == text && forall|j: int|
                            context < j < r && j != a ==> trimmed(#[trigger] lines[j]) != text
                }
            },
            None => forall|j: int|
                0 <= j < lines.len() && j != context ==> trimmed(#[trigger] lines[j]) != text,
        },
{
    lemma_first_place(lines, text, context + 1);
    if let Some(a) = first_like(lines, text, context + 1) {
        lemma_first_place(lines, text, a + 1);
    } else {
        lemma_last_place(lines, text, context);
    }
}

proof fn lemma_first_place(lines: Seq<Seq<char>>, text: Seq<char>, i: int)
    requires
        0 <= i,
    ensures
        match first_like(lines, text, i) {
            Some(a) => i <= a < lines.len() && trimmed(lines[a]) == text && forall|j: int|
                i <= j < a ==> trimmed(#[trigger] lines[j]) != text,
            None => forall|j: int| i <= j < lines.len() ==> trimmed(#[trigger] lines[j]) != text,
        },
    decreases lines.len() - i,
{
    if i < lines.len() && trimmed(lines[i]) != text {
        lemma_first_place(lines, text, i + 1);
    }
}

proof fn lemma_last_place(lines: Seq<Seq<char>>, text: Seq<char>, i: int)
    requires
        0 <= i <= lines.len(),
    ensures
        match last_like(lines, text, i) {
            Some(a) => 0 <= a < i && trimmed(lines[a]) == text && forall|j: int|
                a < j < i ==> trimmed(#[trigger] lines[j]) != text,
            None => forall|j: int| 0 <= j < i ==> trimmed(#[trigger] lines[j]) != text,
        },
    decreases i,
{
    if i > 0 && trimmed(lines[i - 1]) != text {
        lemma_last_place(lines, text, i - 1);
    }
}

} // verus!
