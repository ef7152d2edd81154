//! Diff and patch parsing.
//!
//! Supports multiple input formats:
//! - Simple +/- diffs
//! - Unified diff format (`@@ -X,Y +A,B @@`)
//! - Codex-style wrapped patches (`*** Begin Patch` / `*** End Patch`)

use crate::double::{
    Double, LARGE, ceiling_of, lemma_product_bounded, lemma_whole_range, product, whole,
};
use crate::error::{EditError, ErrorView, outcome};
use crate::fuzzy::{max, nats};
use crate::normalize::{lines_of, solid};
use crate::text::{
    after_prefix, all_digits, begins, blank, capped, decimal, digits_value, ends, ends_with,
    find_chars, holds_text, index_from, is_blank, is_digit, is_white, join, joined,
    law_decimal_round_trip, law_join_pieces, law_pieces_clean, law_pieces_join, lemma_decimal,
    lemma_found_at, lemma_index_after, lemma_not_found, lemma_pieces_nonempty,
    lemma_trimmed_end_add, lemma_trimmed_lead, lemma_trimmed_spaced, lemma_two_words,
    lemma_untrimmed, lower, lowered, number, opt_nat, opt_view, parse, parted, push_text, same,
    show, split_on, split_once, split_whitespace, starts_with, strip_prefix, strip_suffix,
    to_ascii_lowercase, to_chars, to_refs, trim, trim_end, trim_start, trimmed, trimmed_end,
    trimmed_start, unsigned, views, words,
};
use vstd::prelude::*;
use vstd::string::*;

verus! {

/// A single hunk from a parsed diff.
#[derive(Debug, Clone)]
pub struct DiffHunk {
    /// Optional context string for locating this hunk (function name, class,
    /// etc.).
    pub change_context: Option<String>,
    /// 1-based starting line in the old file, if known.
    pub old_start_line: Option<usize>,
    /// 1-based starting line in the new file, if known.
    pub new_start_line: Option<usize>,
    /// Whether this hunk contains context (unchanged) lines.
    pub has_context_lines: bool,
    /// Lines from the old file (context + removals).
    pub old_lines: Vec<String>,
    /// Lines from the new file (context + additions).
    pub new_lines: Vec<String>,
    /// Whether `*** End of File` was encountered at the end of this hunk.
    pub is_end_of_file: bool,
}

/// A hunk, by its contents.
#[verifier::ext_equal]
pub ghost struct HunkView {
    /// The context for locating the hunk.
    pub context: Option<Seq<char>>,
    /// The first line in the old file.
    pub old_start: Option<nat>,
    /// The first line in the new file.
    pub new_start: Option<nat>,
    /// Whether it has context lines.
    pub has_context: bool,
    /// Its lines in the old file.
    pub old: Seq<Seq<char>>,
    /// Its lines in the new file.
    pub new: Seq<Seq<char>>,
    /// Whether it ends the file.
    pub eof: bool,
}

impl View for DiffHunk {
    type V = HunkView;

    open spec fn view(&self) -> HunkView {
        HunkView {
            context: opt_view(self.change_context),
            old_start: opt_nat(self.old_start_line),
            new_start: opt_nat(self.new_start_line),
            has_context: self.has_context_lines,
            old: views(self.old_lines@),
            new: views(self.new_lines@),
            eof: self.is_end_of_file,
        }
    }
}

/// The hunks, by their contents.
pub open spec fn hunk_views(hunks: Seq<DiffHunk>) -> Seq<HunkView> {
    Seq::new(hunks.len(), |i: int| hunks[i]@)
}

/// Whether a line is a context, added or removed line of a diff. The headers
/// `+++ ` and `--- ` are not.
pub open spec fn is_content(line: Seq<char>) -> bool {
    line.len() > 0 && (line[0] == ' ' || (line[0] == '+' && !begins(line, "+++ "@)) || (line[0]
        == '-' && !begins(line, "--- "@)))
}

/// Checks if a line is a diff content line (context, addition, or removal).
///
/// Lines starting with `+++ ` or `--- ` are metadata headers, not content.
pub fn is_diff_content_line(line: &str) -> (r: bool)
    ensures
        r == is_content(line@),
{
    if line.is_empty() {
        return false;
    }
    let c = line.get_char(0);
    c == ' ' || (c == '+' && !starts_with(line, "+++ ")) || (c == '-' && !starts_with(
        line,
        "--- ",
    ))
}

/// Whether a line is metadata of a unified diff.
pub open spec fn is_metadata(line: Seq<char>) -> bool {
    begins(line, "diff --git "@) || begins(line, "index "@) || begins(line, "--- "@) || begins(
        line,
        "+++ "@,
    ) || begins(line, "new file mode "@) || begins(line, "deleted file mode "@) || begins(
        line,
        "rename from "@,
    ) || begins(line, "rename to "@) || begins(line, "similarity index "@) || begins(
        line,
        "dissimilarity index "@,
    ) || begins(line, "old mode "@) || begins(line, "new mode "@)
}

/// Checks if a line is unified diff metadata.
fn is_unified_diff_metadata_line(line: &str) -> (r: bool)
    ensures
        r == is_metadata(line@),
{
    starts_with(line, "diff --git ") || starts_with(line, "index ") || starts_with(line, "--- ")
        || starts_with(line, "+++ ") || starts_with(line, "new file mode ") || starts_with(
        line,
        "deleted file mode ",
    ) || starts_with(line, "rename from ") || starts_with(line, "rename to ") || starts_with(
        line,
        "similarity index ",
    ) || starts_with(line, "dissimilarity index ") || starts_with(line, "old mode ")
        || starts_with(line, "new mode ")
}

/// Whether a trimmed line names a file that a patch is about.
pub open spec fn is_file_marker(line: Seq<char>) -> bool {
    begins(line, "*** Update File:"@) || begins(line, "*** Add File:"@) || begins(
        line,
        "*** Delete File:"@,
    )
}

fn is_codex_file_marker(line: &str) -> (r: bool)
    ensures
        r == is_file_marker(line@),
{
    starts_with(line, "*** Update File:") || starts_with(line, "*** Add File:") || starts_with(
        line,
        "*** Delete File:",
    )
}

/// The lines without the empty ones at the end. A line of white space that is
/// diff content stays.
pub open spec fn without_tail(lines: Seq<Seq<char>>) -> Seq<Seq<char>>
    decreases lines.len(),
{
    if lines.len() > 0 && (lines.last().len() == 0 || (is_blank(lines.last()) && !is_content(
        lines.last(),
    ))) {
        without_tail(lines.drop_last())
    } else {
        lines
    }
}

/// The lines without the first, if it begins a patch.
pub open spec fn without_begin(lines: Seq<Seq<char>>) -> Seq<Seq<char>> {
    if lines.len() > 0 && begins(trimmed(lines[0]), "*** Begin Patch"@) {
        lines.skip(1)
    } else {
        lines
    }
}

/// The lines without the first, if it is a bare `***`.
pub open spec fn without_first_stars(lines: Seq<Seq<char>>) -> Seq<Seq<char>> {
    if lines.len() > 0 && trimmed(lines[0]) == "***"@ {
        lines.skip(1)
    } else {
        lines
    }
}

/// The lines without the last, if it ends a patch.
pub open spec fn without_end(lines: Seq<Seq<char>>) -> Seq<Seq<char>> {
    if lines.len() > 0 && begins(trimmed(lines.last()), "*** End Patch"@) {
        lines.drop_last()
    } else {
        lines
    }
}

/// The lines without the last, if it is a bare `***`.
pub open spec fn without_last_stars(lines: Seq<Seq<char>>) -> Seq<Seq<char>> {
    if lines.len() > 0 && trimmed(lines.last()) == "***"@ {
        lines.drop_last()
    } else {
        lines
    }
}

/// Whether a line stays: diff content does, file markers and metadata do not.
pub open spec fn stays(line: Seq<char>) -> bool {
    is_content(line) || !(is_file_marker(trimmed(line)) || is_metadata(trimmed(line)))
}

/// The lines that stay.
pub open spec fn staying(lines: Seq<Seq<char>>) -> Seq<Seq<char>>
    decreases lines.len(),
{
    if lines.len() == 0 {
        Seq::empty()
    } else {
        let before = staying(lines.drop_last());
        if stays(lines.last()) {
            before.push(lines.last())
        } else {
            before
        }
    }
}

/// The lines between the wrappers of a patch.
pub open spec fn unwrapped(lines: Seq<Seq<char>>) -> Seq<Seq<char>> {
    without_last_stars(without_end(without_first_stars(without_begin(without_tail(lines)))))
}

/// A diff without wrappers and metadata.
pub open spec fn bare_diff(diff: Seq<char>) -> Seq<char> {
    joined(staying(unwrapped(lines_of(diff))), "\n"@)
}

/// Where the lines without the empty ones at the end end.
fn tail_start(lines: &[String]) -> (b: usize)
    ensures
        b <= lines@.len(),
        views(lines@).take(b as int) == without_tail(views(lines@)),
{
    let ghost all = views(lines@);
    let mut b: usize = lines.len();
    assert(all.take(b as int) =~= all);
    let mut more = true;
    while more
        invariant
            views(lines@) == all,
            b <= lines@.len(),
            more ==> without_tail(all.take(b as int)) == without_tail(all),
            !more ==> all.take(b as int) == without_tail(all),
        decreases b, (if more { 1int } else { 0int }),
    {
        if b == 0 {
            more = false;
        } else {
            let last = lines[b - 1].as_str();
            proof {
                assert(all.take(b as int).last() == last@);
                assert(all.take(b as int).drop_last() =~= all.take(b - 1));
            }
            if last.is_empty() || (blank(last) && !is_diff_content_line(last)) {
                b = b - 1;
            } else {
                more = false;
            }
        }
    }
    b
}

/// Where the lines between the wrappers of a patch begin and end.
fn unwrap_lines(lines: &[String]) -> (r: (usize, usize))
    ensures
        r.0 <= r.1 <= lines@.len(),
        views(lines@).subrange(r.0 as int, r.1 as int) == unwrapped(views(lines@)),
{
    let ghost all = views(lines@);
    let mut a: usize = 0;
    let mut b: usize = tail_start(lines);
    let ghost s0 = without_tail(all);
    assert(s0 =~= all.subrange(a as int, b as int));
    if a < b && starts_with(trim(lines[a].as_str()), "*** Begin Patch") {
        a = a + 1;
    }
    let ghost s1 = without_begin(s0);
    assert(s1 =~= all.subrange(a as int, b as int));
    if a < b && same(trim(lines[a].as_str()), "***") {
        a = a + 1;
    }
    let ghost s2 = without_first_stars(s1);
    assert(s2 =~= all.subrange(a as int, b as int));
    if a < b && starts_with(trim(lines[b - 1].as_str()), "*** End Patch") {
        b = b - 1;
    }
    let ghost s3 = without_end(s2);
    assert(s3 =~= all.subrange(a as int, b as int));
    if a < b && same(trim(lines[b - 1].as_str()), "***") {
        b = b - 1;
    }
    assert(without_last_stars(s3) =~= all.subrange(a as int, b as int));
    (a, b)
}

fn keeps(line: &str) -> (r: bool)
    ensures
        r == stays(line@),
{
    is_diff_content_line(line) || !(is_codex_file_marker(trim(line))
        || is_unified_diff_metadata_line(trim(line)))
}

/// Normalizes a diff by stripping wrapper formats and metadata.
///
/// Handles:
/// - `*** Begin Patch` / `*** End Patch` markers (partial or complete)
/// - Codex file markers: `*** Update File:`, `*** Add File:`, `*** Delete
///   File:`
/// - Unified diff metadata: `diff --git`, `index`, `---`, `+++`, mode changes,
///   rename markers
pub fn normalize_diff(diff: &str) -> (r: String)
    ensures
        r@ == bare_diff(diff@),
{
    let lines = split_on(diff, '\n');
    let ghost all = lines_of(diff@);
    let (a, b) = unwrap_lines(&lines);
    let ghost s = unwrapped(all);
    let mut out: Vec<String> = Vec::new();
    let mut i: usize = a;
    assert(s.take(0).len() == 0);
    assert(views(out@) =~= staying(s.take(0)));
    while i < b
        invariant
            a <= i <= b <= lines@.len(),
            views(lines@) == all,
            s == all.subrange(a as int, b as int),
            views(out@) == staying(s.take(i - a)),
        decreases b - i,
    {
        let line = lines[i].as_str();
        proof {
            assert(s.take(i - a + 1).drop_last() =~= s.take(i - a));
            assert(s.take(i - a + 1).last() == line@);
        }
        if keeps(line) {
            push_text(&mut out, line);
        }
        i = i + 1;
    }
    assert(s.take(b - a) =~= s);
    join(&out, "\n")
}

/// Whether every line that is not empty begins with `+`, and there is one.
pub open spec fn all_added(lines: Seq<Seq<char>>) -> bool {
    &&& exists|i: int| 0 <= i < lines.len() && (#[trigger] lines[i]).len() > 0
    &&& forall|i: int|
        0 <= i < lines.len() && (#[trigger] lines[i]).len() > 0 ==> lines[i][0] == '+'
}

/// A line without its leading `+`, and without one space after it.
pub open spec fn without_plus(line: Seq<char>) -> Seq<char> {
    if begins(line, "+ "@) {
        line.skip(2)
    } else if begins(line, "+"@) {
        line.skip(1)
    } else {
        line
    }
}

/// The content of a file that is given as added lines.
pub open spec fn created_content(content: Seq<char>) -> Seq<char> {
    if all_added(lines_of(content)) {
        joined(lines_of(content).map_values(|l: Seq<char>| without_plus(l)), "\n"@)
    } else {
        content
    }
}

fn strip_plus(line: &str) -> (r: String)
    ensures
        r@ == without_plus(line@),
{
    proof {
        reveal_strlit("+ ");
        reveal_strlit("+");
    }
    match strip_prefix(line, "+ ") {
        Some(rest) => rest.to_owned(),
        None => match strip_prefix(line, "+") {
            Some(rest) => rest.to_owned(),
            None => line.to_owned(),
        },
    }
}

/// Strips the `+` prefix from file creation content if all non-empty lines have
/// it.
///
/// This handles diffs where file content is formatted as additions.
pub fn normalize_create_content(content: &str) -> (r: String)
    ensures
        r@ == created_content(content@),
{
    let lines = split_on(content, '\n');
    let ghost all = lines_of(content@);
    let mut seen = false;
    let mut i: usize = 0;
    while i < lines.len()
        invariant
            views(lines@) == all,
            all == lines_of(content@),
            i <= lines@.len(),
            seen ==> exists|k: int| 0 <= k < all.len() && (#[trigger] all[k]).len() > 0,
            !seen ==> forall|k: int| 0 <= k < i ==> (#[trigger] all[k]).len() == 0,
            forall|k: int| 0 <= k < i && (#[trigger] all[k]).len() > 0 ==> all[k][0] == '+',
        decreases lines@.len() - i,
    {
        let line = lines[i].as_str();
        assert(all[i as int] == line@);
        if !line.is_empty() {
            if line.get_char(0) != '+' {
                return content.to_owned();
            }
            seen = true;
        }
        i = i + 1;
    }
    if !seen {
        return content.to_owned();
    }
    let ghost target = all.map_values(|l: Seq<char>| without_plus(l));
    let mut out: Vec<String> = Vec::new();
    i = 0;
    while i < lines.len()
        invariant
            views(lines@) == all,
            i <= lines@.len(),
            target == all.map_values(|l: Seq<char>| without_plus(l)),
            views(out@) == target.take(i as int),
        decreases lines@.len() - i,
    {
        let l = strip_plus(lines[i].as_str());
        let ghost lv = l@;
        let ghost out0 = out@;
        assert(all[i as int] == lines@[i as int]@);
        out.push(l);
        proof {
            assert(views(out@) =~= views(out0).push(lv));
            assert(target.take(i + 1) =~= target.take(i as int).push(target[i as int]));
        }
        i = i + 1;
    }
    assert(target.take(i as int) =~= target);
    join(&out, "\n")
}

/// Parsed unified diff hunk header (`@@ -old,count +new,count @@ context`).
#[derive(Debug)]
pub struct UnifiedHunkHeader {
    /// First line in the old file.
    pub old_start_line: usize,
    /// Number of lines in the old file.
    pub old_line_count: usize,
    /// First line in the new file.
    pub new_start_line: usize,
    /// Number of lines in the new file.
    pub new_line_count: usize,
    /// The text after the closing marker.
    pub change_context: Option<String>,
}

/// A unified hunk header, by its contents.
pub ghost struct HeaderView {
    /// First line and number of lines in the old file.
    pub old: (nat, nat),
    /// First line and number of lines in the new file.
    pub new: (nat, nat),
    /// The text after the closing marker.
    pub context: Option<Seq<char>>,
}

impl View for UnifiedHunkHeader {
    type V = HeaderView;

    open spec fn view(&self) -> HeaderView {
        HeaderView {
            old: (self.old_start_line as nat, self.old_line_count as nat),
            new: (self.new_start_line as nat, self.new_line_count as nat),
            context: opt_view(self.change_context),
        }
    }
}

/// The range that `N` or `N,M` writes: the start, and the count, one where it is
/// absent.
pub open spec fn range_spec(s: Seq<char>) -> Option<(nat, nat)> {
    match parted(s, ',') {
        Some((a, b)) => match (number(a), number(b)) {
            (Some(x), Some(y)) => Some((x, y)),
            _ => None,
        },
        None => match number(s) {
            Some(x) => Some((x, 1)),
            None => None,
        },
    }
}

/// Parses "N" or "N,M" into (start, count). The count is 1 when absent.
fn parse_range_spec(s: &str) -> (r: Option<(usize, usize)>)
    ensures
        match r {
            Some((x, y)) => range_spec(s@) == Some((x as nat, y as nat)),
            None => range_spec(s@) is None,
        },
{
    match split_once(s, ',') {
        Some((a, b)) => match (parse(a), parse(b)) {
            (Some(x), Some(y)) => Some((x, y)),
            _ => None,
        },
        None => match parse(s) {
            Some(x) => Some((x, 1)),
            None => None,
        },
    }
}

/// The range of a word that begins with `sign`.
pub open spec fn signed_range(word: Seq<char>, sign: char) -> Option<(nat, nat)> {
    if word.len() > 0 && word[0] == sign {
        range_spec(word.skip(1))
    } else {
        None
    }
}

fn parse_signed_range(word: &str, sign: char) -> (r: Option<(usize, usize)>)
    ensures
        match r {
            Some((x, y)) => signed_range(word@, sign) == Some((x as nat, y as nat)),
            None => signed_range(word@, sign) is None,
        },
{
    if word.is_empty() || word.get_char(0) != sign {
        return None;
    }
    let rest = word.substring_char(1, word.unicode_len());
    assert(rest@ == word@.skip(1));
    parse_range_spec(rest)
}

/// The header that a line writes: `@@`, two words with the ranges, `@@`, and a
/// context.
pub open spec fn unified_header(line: Seq<char>) -> Option<HeaderView> {
    let t = trimmed_end(line);
    if !begins(t, "@@"@) {
        None
    } else {
        match index_from(t, "@@"@, 2) {
            None => None,
            Some(k) => {
                let w = words(trimmed(t.subrange(2, k)));
                let rest = trimmed(t.skip(k + 2));
                if w.len() != 2 {
                    None
                } else {
                    match (signed_range(w[0], '-'), signed_range(w[1], '+')) {
                        (Some(old), Some(new)) => Some(
                            HeaderView {
                                old,
                                new,
                                context: if rest.len() == 0 {
                                    None
                                } else {
                                    Some(rest)
                                },
                            },
                        ),
                        _ => None,
                    }
                }
            },
        }
    }
}

/// The view of an optional header.
pub open spec fn opt_header(h: Option<UnifiedHunkHeader>) -> Option<HeaderView> {
    match h {
        Some(x) => Some(x@),
        None => None,
    }
}

/// Parses a unified hunk header: `@@ -OLD,COUNT +NEW,COUNT @@ optional-context`
///
/// Returns `None` if the line does not match the unified header pattern.
pub fn parse_unified_hunk_header(line: &str) -> (r: Option<UnifiedHunkHeader>)
    ensures
        opt_header(r) == unified_header(line@),
{
    proof {
        reveal_strlit("@@");
    }
    let t = trim_end(line);
    if !starts_with(t, "@@") {
        return None;
    }
    let v = to_chars(t);
    let p = to_chars("@@");
    let n: usize = v.len();
    assert(p@.len() == 2);
    match find_chars(&v, &p, 2) {
        None => None,
        Some(k) => {
            let inner = t.substring_char(2, k);
            let after = t.substring_char(k + 2, n);
            assert(after@ == t@.skip(k + 2));
            let w = split_whitespace(trim(inner));
            let rest = trim(after);
            if w.len() != 2 {
                return None;
            }
            proof {
                assert(views(w@)[0] == w@[0]@ && views(w@)[1] == w@[1]@);
            }
            match (
                parse_signed_range(w[0].as_str(), '-'),
                parse_signed_range(w[1].as_str(), '+'),
            ) {
                (Some((a, b)), Some((c, d))) => Some(
                    UnifiedHunkHeader {
                        old_start_line: a,
                        old_line_count: b,
                        new_start_line: c,
                        new_line_count: d,
                        change_context: if rest.is_empty() {
                            None
                        } else {
                            Some(rest.to_owned())
                        },
                    },
                ),
                _ => None,
            }
        },
    }
}

/// The number that a line hint gives: `line N`, `lines N` or `lines N-M`, in any
/// case, with `@@` after it or not.
pub open spec fn line_hint(s: Seq<char>) -> Option<nat> {
    let l = lowered(s);
    let rest = if begins(l, "lines "@) {
        Some(l.skip("lines "@.len() as int))
    } else {
        after_prefix(l, "line "@)
    };
    match rest {
        None => None,
        Some(x) => {
            let y = trimmed(
                if ends(x, "@@"@) {
                    x.take(x.len() - 2)
                } else {
                    x
                },
            );
            match parted(y, '-') {
                Some((n, _)) => number(trimmed(n)),
                None => number(y),
            }
        },
    }
}

/// Checks if a string matches the `line N` / `lines N` / `lines N-M` hint
/// pattern (case-insensitive). Returns the line number on match.
pub fn parse_line_hint(s: &str) -> (r: Option<usize>)
    ensures
        opt_nat(r) == line_hint(s@),
{
    proof {
        reveal_strlit("@@");
    }
    let l = to_ascii_lowercase(s);
    let first = strip_prefix(l.as_str(), "lines ");
    let rest = match first {
        Some(x) => Some(x),
        None => strip_prefix(l.as_str(), "line "),
    };
    match rest {
        None => None,
        Some(x) => {
            let y = match strip_suffix(x, "@@") {
                Some(z) => trim(z),
                None => trim(x),
            };
            match split_once(y, '-') {
                Some((n, _)) => parse(trim(n)),
                None => parse(y),
            }
        },
    }
}

/// Whether a text says "top/start/beginning of file", in any case.
pub open spec fn is_top_hint(s: Seq<char>) -> bool {
    lowered(s) == "top of file"@ || lowered(s) == "start of file"@ || lowered(s)
        == "beginning of file"@
}

/// Checks if a string matches "top/start/beginning of file" (case-insensitive).
fn is_top_of_file_hint(s: &str) -> (r: bool)
    ensures
        r == is_top_hint(s@),
{
    let l = to_ascii_lowercase(s);
    same(l.as_str(), "top of file") || same(l.as_str(), "start of file") || same(
        l.as_str(),
        "beginning of file",
    )
}

/// Whether a line is `@@`, or two of them with nothing but white space between.
pub open spec fn is_empty_marker(line: Seq<char>) -> bool {
    let t = trimmed_end(line);
    t == "@@"@ || (begins(t, "@@"@) && ends(t, "@@"@) && t.len() >= 4 && is_blank(
        t.subrange(2, t.len() - 2),
    ))
}

/// Checks if a line is an empty context marker (`@@`, possibly with white space
/// before a closing `@@`).
fn is_empty_context_marker(line: &str) -> (r: bool)
    ensures
        r == is_empty_marker(line@),
{
    let t = trim_end(line);
    if same(t, "@@") {
        return true;
    }
    let n = t.unicode_len();
    if starts_with(t, "@@") && ends_with(t, "@@") && n >= 4 {
        return blank(t.substring_char(2, n - 2));
    }
    false
}

/// What the first line of a hunk says.
#[verifier::ext_equal]
pub ghost struct HeadView {
    /// The contexts that it gives.
    pub contexts: Seq<Seq<char>>,
    /// The first line in the old and in the new file.
    pub start: Option<nat>,
    /// The first line in the new file.
    pub new_start: Option<nat>,
    /// Whether it is a header, and no line of the hunk itself.
    pub is_header: bool,
}

/// A head that gives nothing.
pub open spec fn plain_head() -> HeadView {
    HeadView { contexts: Seq::empty(), start: None, new_start: None, is_header: true }
}

/// A head that gives a line.
pub open spec fn line_head(n: nat) -> HeadView {
    HeadView { start: Some(n), new_start: Some(n), ..plain_head() }
}

/// A head that gives a context.
pub open spec fn context_head(context: Seq<char>) -> HeadView {
    HeadView { contexts: seq![context], ..plain_head() }
}

/// An error at a line of the diff.
pub open spec fn parse_failure(message: Seq<char>, line: int) -> ErrorView {
    ErrorView::ParseError { message, line_number: Some(capped(line)) }
}

/// What a header `@@ context` says: a line, the top of the file, or a context.
pub open spec fn context_header(context: Seq<char>, n: int) -> Result<HeadView, ErrorView> {
    let t = trimmed(context);
    let hint = if begins(t, "@@"@) {
        trimmed_start(t.skip(2))
    } else {
        t
    };
    match line_hint(hint) {
        Some(k) => if k < 1 {
            Err(parse_failure("Line hint must be >= 1"@, n))
        } else {
            Ok(line_head(k))
        },
        None => if is_top_hint(hint) {
            Ok(line_head(1))
        } else if t.len() > 0 {
            Ok(context_head(context))
        } else {
            Ok(plain_head())
        },
    }
}

/// What the first line of a hunk, line `n` of the diff, says.
pub open spec fn hunk_head(line: Seq<char>, n: int, allow_missing: bool) -> Result<
    HeadView,
    ErrorView,
> {
    let t = trimmed_end(line);
    if !begins(line, "@@"@) {
        if allow_missing {
            Ok(HeadView { is_header: false, ..plain_head() })
        } else {
            Err(
                parse_failure(
                    "Expected hunk to start with @@ context marker, got: '"@ + line + "'"@,
                    n,
                ),
            )
        }
    } else if is_empty_marker(t) {
        Ok(plain_head())
    } else {
        match unified_header(t) {
            Some(h) => if h.old.0 < 1 || h.new.0 < 1 {
                Err(parse_failure("Line numbers in @@ header must be >= 1"@, n))
            } else {
                Ok(
                    HeadView {
                        contexts: match h.context {
                            Some(c) => seq![c],
                            None => Seq::empty(),
                        },
                        start: Some(h.old.0),
                        new_start: Some(h.new.0),
                        is_header: true,
                    },
                )
            },
            None => if begins(t, "@@ "@) {
                context_header(t.skip(3), n)
            } else {
                let c = trimmed(t.skip(2));
                if c.len() > 0 {
                    Ok(context_head(c))
                } else {
                    Ok(plain_head())
                }
            },
        }
    }
}

struct Head {
    contexts: Vec<String>,
    start: Option<usize>,
    new_start: Option<usize>,
    is_header: bool,
}

impl View for Head {
    type V = HeadView;

    closed spec fn view(&self) -> HeadView {
        HeadView {
            contexts: views(self.contexts@),
            start: opt_nat(self.start),
            new_start: opt_nat(self.new_start),
            is_header: self.is_header,
        }
    }
}

fn parse_failed(message: &str, line: usize) -> (r: EditError)
    ensures
        r@ == parse_failure(message@, line as int),
{
    EditError::ParseError { message: message.to_owned(), line_number: Some(line) }
}

fn make_plain_head(is_header: bool) -> (r: Head)
    ensures
        r@ == (HeadView { is_header, ..plain_head() }),
{
    let r = Head { contexts: Vec::new(), start: None, new_start: None, is_header };
    assert(r@ =~= (HeadView { is_header, ..plain_head() }));
    r
}

fn make_line_head(n: usize) -> (r: Head)
    ensures
        r@ == line_head(n as nat),
{
    let r = Head { contexts: Vec::new(), start: Some(n), new_start: Some(n), is_header: true };
    assert(r@ =~= line_head(n as nat));
    r
}

fn make_context_head(context: &str) -> (r: Head)
    ensures
        r@ == context_head(context@),
{
    let contexts: Vec<String> = vec![context.to_owned()];
    let r = Head { contexts, start: None, new_start: None, is_header: true };
    assert(r@ =~= context_head(context@));
    r
}

fn parse_context_header(context: &str, n: usize) -> (r: Result<Head, EditError>)
    ensures
        outcome(r) == context_header(context@, n as int),
{
    proof {
        reveal_strlit("@@");
    }
    let t = trim(context);
    let hint = match strip_prefix(t, "@@") {
        Some(rest) => trim_start(rest),
        None => t,
    };
    match parse_line_hint(hint) {
        Some(k) => {
            if k < 1 {
                return Err(parse_failed("Line hint must be >= 1", n));
            }
            Ok(make_line_head(k))
        },
        None => {
            if is_top_of_file_hint(hint) {
                return Ok(make_line_head(1));
            }
            if !t.is_empty() {
                return Ok(make_context_head(context));
            }
            Ok(make_plain_head(true))
        },
    }
}

fn parse_hunk_head(line: &str, n: usize, allow_missing: bool) -> (r: Result<Head, EditError>)
    ensures
        outcome(r) == hunk_head(line@, n as int, allow_missing),
{
    proof {
        reveal_strlit("@@");
        reveal_strlit("@@ ");
    }
    let t = trim_end(line);
    if !starts_with(line, "@@") {
        if allow_missing {
            return Ok(make_plain_head(false));
        }
        let mut message = "Expected hunk to start with @@ context marker, got: '".to_owned();
        message.append(line);
        message.append("'");
        return Err(parse_failed(message.as_str(), n));
    }
    if is_empty_context_marker(t) {
        return Ok(make_plain_head(true));
    }
    proof {
        lemma_trimmed_end_keeps(line@, "@@"@);
    }
    match parse_unified_hunk_header(t) {
        Some(h) => {
            if h.old_start_line < 1 || h.new_start_line < 1 {
                return Err(parse_failed("Line numbers in @@ header must be >= 1", n));
            }
            let ghost hv = h@;
            let contexts: Vec<String> = match h.change_context {
                Some(c) => vec![c],
                None => Vec::new(),
            };
            assert(views(contexts@) =~= (match hv.context {
                Some(c) => seq![c],
                None => Seq::empty(),
            }));
            let r = Head {
                contexts,
                start: Some(h.old_start_line),
                new_start: Some(h.new_start_line),
                is_header: true,
            };
            Ok(r)
        },
        None => {
            match strip_prefix(t, "@@ ") {
                Some(context) => parse_context_header(context, n),
                None => {
                    let rest = t.substring_char(2, t.unicode_len());
                    assert(rest@ == t@.skip(2));
                    let c = trim(rest);
                    if !c.is_empty() {
                        return Ok(make_context_head(c));
                    }
                    Ok(make_plain_head(true))
                },
            }
        },
    }
}

/// A prefix without white space survives the trimming of the end.
proof fn lemma_trimmed_end_keeps(s: Seq<char>, p: Seq<char>)
    requires
        begins(s, p),
        forall|i: int| 0 <= i < p.len() ==> !is_white(#[trigger] p[i]),
    ensures
        begins(trimmed_end(s), p),
        trimmed_end(s).len() >= p.len(),
    decreases s.len(),
{
    if s.len() > 0 && is_white(s.last()) {
        if s.len() == p.len() {
            assert(s.subrange(0, p.len() as int)[s.len() - 1] == p[s.len() - 1]);
            assert(false);
        }
        assert(s.drop_last().subrange(0, p.len() as int) == s.subrange(0, p.len() as int));
        lemma_trimmed_end_keeps(s.drop_last(), p);
    }
}

/// The contexts that further `@@` lines from `i` on give, and the first line
/// after them.
pub open spec fn nested(lines: Seq<Seq<char>>, i: int, contexts: Seq<Seq<char>>) -> (
    int,
    Seq<Seq<char>>,
)
    decreases lines.len() - i,
{
    if i < 0 || i >= lines.len() || !begins(lines[i], "@@"@) {
        (i, contexts)
    } else {
        let t = trimmed_end(lines[i]);
        if begins(t, "@@ "@) {
            let c = t.skip(3);
            nested(
                lines,
                i + 1,
                if is_blank(c) {
                    contexts
                } else {
                    contexts.push(c)
                },
            )
        } else if t == "@@"@ {
            nested(lines, i + 1, contexts)
        } else {
            (i, contexts)
        }
    }
}

fn skip_nested(lines: &[&str], start: usize, contexts: Vec<String>) -> (r: (usize, Vec<String>))
    requires
        start <= lines@.len(),
    ensures
        nested(views(lines@), start as int, views(contexts@)) == (r.0 as int, views(r.1@)),
        start <= r.0 <= lines@.len(),
{
    let ghost l = views(lines@);
    let ghost first = views(contexts@);
    let mut out = contexts;
    let mut i: usize = start;
    let mut more = true;
    proof {
        reveal_strlit("@@ ");
    }
    while more && i < lines.len()
        invariant
            l == views(lines@),
            start <= i <= lines@.len(),
            "@@ "@.len() == 3,
            more ==> nested(l, i as int, views(out@)) == nested(l, start as int, first),
            !more ==> nested(l, start as int, first) == (i as int, views(out@)),
        decreases lines@.len() - i, (if more { 1int } else { 0int }),
    {
        let line = lines[i];
        assert(l[i as int] == line@);
        if !starts_with(line, "@@") {
            more = false;
        } else {
            let t = trim_end(line);
            match strip_prefix(t, "@@ ") {
                Some(c) => {
                    if !blank(c) {
                        let ghost out0 = out@;
                        out.push(c.to_owned());
                        assert(views(out@) =~= views(out0).push(c@));
                    }
                    i = i + 1;
                },
                None => {
                    if same(t, "@@") {
                        i = i + 1;
                    } else {
                        more = false;
                    }
                },
            }
        }
    }
    (i, out)
}

/// The lines of a hunk that have been read.
#[verifier::ext_equal]
pub ghost struct BodyView {
    /// Whether there are context lines.
    pub has_context: bool,
    /// The lines of the old file.
    pub old: Seq<Seq<char>>,
    /// The lines of the new file.
    pub new: Seq<Seq<char>>,
    /// Whether the end of the file was marked.
    pub eof: bool,
    /// How many lines were read.
    pub parsed: nat,
}

/// A context line.
pub open spec fn with_context(b: BodyView, line: Seq<char>) -> BodyView {
    BodyView {
        has_context: true,
        old: b.old.push(line),
        new: b.new.push(line),
        parsed: b.parsed + 1,
        ..b
    }
}

/// What one more line does to a hunk.
pub ghost enum Step {
    /// The line belongs to the hunk.
    More(BodyView),
    /// The hunk ends, before or with the line.
    Done(BodyView),
    /// The line cannot stand there.
    Bad(ErrorView),
}

/// The message for a hunk without lines.
pub open spec fn no_lines() -> Seq<char> {
    "Hunk does not contain any lines"@
}

/// What line `i` does to a hunk that begins on line `n` of the diff.
pub open spec fn body_step(lines: Seq<Seq<char>>, i: int, b: BodyView, n: int) -> Step {
    let line = lines[i];
    if line.len() == 0 && b.parsed > 0 && i + 1 < lines.len() && begins(
        trimmed_start(lines[i + 1]),
        "@@"@,
    ) {
        Step::Done(b)
    } else if !is_content(line) && trimmed_end(line) == "*** End of File"@ && begins(
        line,
        "*** End of File"@,
    ) {
        if b.parsed == 0 {
            Step::Bad(parse_failure(no_lines(), n + 1))
        } else {
            Step::Done(BodyView { eof: true, parsed: b.parsed + 1, ..b })
        }
    } else if trimmed(line) == "..."@ || trimmed(line) == "…"@ {
        Step::More(BodyView { has_context: true, parsed: b.parsed + 1, ..b })
    } else if line.len() == 0 {
        Step::More(with_context(b, line))
    } else if line[0] == ' ' {
        Step::More(with_context(b, line.skip(1)))
    } else if line[0] == '+' {
        Step::More(BodyView { new: b.new.push(line.skip(1)), parsed: b.parsed + 1, ..b })
    } else if line[0] == '-' {
        Step::More(BodyView { old: b.old.push(line.skip(1)), parsed: b.parsed + 1, ..b })
    } else if !begins(line, "@@"@) {
        Step::More(with_context(b, line))
    } else if b.parsed == 0 {
        Step::Bad(
            parse_failure(
                "Unexpected line in hunk: '"@ + line
                    + "'. Lines must start with ' ' (context), '+' (add), or '-' (remove)"@,
                n + 1,
            ),
        )
    } else {
        Step::Done(b)
    }
}

/// The lines of a hunk from line `i` on.
pub open spec fn hunk_body(lines: Seq<Seq<char>>, i: int, b: BodyView, n: int) -> Result<
    BodyView,
    ErrorView,
>
    decreases lines.len() - i,
{
    if i >= lines.len() {
        Ok(b)
    } else {
        match body_step(lines, i, b, n) {
            Step::More(x) => hunk_body(lines, i + 1, x, n),
            Step::Done(x) => Ok(x),
            Step::Bad(e) => Err(e),
        }
    }
}

/// A hunk of which no line has been read.
pub open spec fn no_body() -> BodyView {
    BodyView {
        has_context: false,
        old: Seq::empty(),
        new: Seq::empty(),
        eof: false,
        parsed: 0,
    }
}

struct Body {
    has_context: bool,
    old: Vec<String>,
    new: Vec<String>,
    eof: bool,
    parsed: usize,
}

impl View for Body {
    type V = BodyView;

    closed spec fn view(&self) -> BodyView {
        BodyView {
            has_context: self.has_context,
            old: views(self.old@),
            new: views(self.new@),
            eof: self.eof,
            parsed: self.parsed as nat,
        }
    }
}

fn push_context(body: Body, line: &str) -> (r: Body)
    requires
        body.parsed < usize::MAX,
    ensures
        r@ == with_context(body@, line@),
{
    let mut r = body;
    r.has_context = true;
    push_text(&mut r.old, line);
    push_text(&mut r.new, line);
    r.parsed = r.parsed + 1;
    r
}

/// The rest of a line after its first character.
fn after_first(line: &str) -> (r: &str)
    requires
        line@.len() > 0,
    ensures
        r@ == line@.skip(1),
{
    let r = line.substring_char(1, line.unicode_len());
    assert(r@ == line@.skip(1));
    r
}

fn parse_body(lines: &[&str], start: usize, n: usize) -> (r: Result<Body, EditError>)
    requires
        start <= lines@.len(),
    ensures
        outcome(r) == hunk_body(views(lines@), start as int, no_body(), n as int),
        r matches Ok(b) ==> b.parsed <= lines@.len() - start,
{
    let ghost l = views(lines@);
    let mut b = Body {
        has_context: false,
        old: Vec::new(),
        new: Vec::new(),
        eof: false,
        parsed: 0,
    };
    assert(b@ =~= no_body());
    let mut i: usize = start;
    while i < lines.len()
        invariant
            l == views(lines@),
            start <= i <= lines@.len(),
            b.parsed == i - start,
            hunk_body(l, i as int, b@, n as int) == hunk_body(
                l,
                start as int,
                no_body(),
                n as int,
            ),
        decreases lines@.len() - i,
    {
        let line = lines[i];
        assert(l[i as int] == line@);
        let ghost b0 = b@;
        if line.is_empty() && b.parsed > 0 && i < lines.len() - 1 {
            assert(l[i + 1] == lines@[i + 1]@);
            if starts_with(trim_start(lines[i + 1]), "@@") {
                return Ok(b);
            }
        }
        if !is_diff_content_line(line) && same(trim_end(line), "*** End of File") && starts_with(
            line,
            "*** End of File",
        ) {
            if b.parsed == 0 {
                return Err(parse_failed("Hunk does not contain any lines", n.saturating_add(1)));
            }
            b.eof = true;
            b.parsed = b.parsed + 1;
            assert(b@ =~= (BodyView { eof: true, parsed: b0.parsed + 1, ..b0 }));
            return Ok(b);
        }
        if same(trim(line), "...") || same(trim(line), "…") {
            b.has_context = true;
            b.parsed = b.parsed + 1;
            assert(b@ =~= (BodyView { has_context: true, parsed: b0.parsed + 1, ..b0 }));
        } else if line.is_empty() {
            b = push_context(b, line);
        } else {
            let c = line.get_char(0);
            if c == ' ' {
                b = push_context(b, after_first(line));
            } else if c == '+' {
                push_text(&mut b.new, after_first(line));
                b.parsed = b.parsed + 1;
                assert(b@ =~= (BodyView {
                    new: b0.new.push(line@.skip(1)),
                    parsed: b0.parsed + 1,
                    ..b0
                }));
            } else if c == '-' {
                push_text(&mut b.old, after_first(line));
                b.parsed = b.parsed + 1;
                assert(b@ =~= (BodyView {
                    old: b0.old.push(line@.skip(1)),
                    parsed: b0.parsed + 1,
                    ..b0
                }));
            } else if !starts_with(line, "@@") {
                b = push_context(b, line);
            } else {
                if b.parsed == 0 {
                    let mut message = "Unexpected line in hunk: '".to_owned();
                    message.append(line);
                    message.append(
                        "'. Lines must start with ' ' (context), '+' (add), or '-' (remove)",
                    );
                    return Err(parse_failed(message.as_str(), n.saturating_add(1)));
                }
                return Ok(b);
            }
        }
        i = i + 1;
    }
    Ok(b)
}

/// What follows a leading number of up to six digits and white space in a line,
/// and the number.
pub open spec fn numbered(line: Seq<char>) -> Option<(nat, Seq<char>)> {
    let t = trimmed_start(line);
    let k = digit_run(t, 6);
    let rest = t.skip(k as int);
    if k == 0 || rest.len() == 0 || !is_ascii_white(rest[0]) || trimmed_start(rest).len() == 0 {
        None
    } else {
        Some((digits_value(t.take(k as int)), trimmed_start(rest)))
    }
}

/// The number of leading digits, `n` at most.
pub open spec fn digit_run(s: Seq<char>, n: nat) -> nat
    decreases n,
{
    if n > 0 && s.len() > 0 && is_digit(s[0]) {
        1 + digit_run(s.skip(1), (n - 1) as nat)
    } else {
        0
    }
}

/// Whether `c` is one of the ASCII characters of white space.
pub open spec fn is_ascii_white(c: char) -> bool {
    c == ' ' || c == '\t' || c == '\n' || c == '\u{C}' || c == '\r'
}

/// The digits of a run are digits.
proof fn lemma_digit_run(s: Seq<char>, n: nat)
    ensures
        digit_run(s, n) <= n,
        digit_run(s, n) <= s.len(),
        all_digits(s.take(digit_run(s, n) as int)),
    decreases n,
{
    if n > 0 && s.len() > 0 && is_digit(s[0]) {
        let t = s.skip(1);
        lemma_digit_run(t, (n - 1) as nat);
        let k = digit_run(s, n);
        assert forall|i: int| 0 <= i < k implies is_digit(#[trigger] s.take(k as int)[i]) by {
            if i > 0 {
                assert(s.take(k as int)[i] == t.take(k - 1)[i - 1]);
            }
        }
    }
}

/// A number of `n` digits is less than ten to the power of `n`.
proof fn lemma_digits_small(s: Seq<char>)
    requires
        all_digits(s),
        s.len() <= 6,
    ensures
        digits_value(s) < 1000000,
{
    reveal_with_fuel(digits_value, 7);
    if s.len() > 0 {
        let a = s.drop_last();
        assert(is_digit(s[s.len() - 1]));
        if a.len() > 0 {
            let b = a.drop_last();
            assert(is_digit(s[s.len() - 2]));
            if b.len() > 0 {
                let c = b.drop_last();
                assert(is_digit(s[s.len() - 3]));
                if c.len() > 0 {
                    let d = c.drop_last();
                    assert(is_digit(s[s.len() - 4]));
                    if d.len() > 0 {
                        let e = d.drop_last();
                        assert(is_digit(s[s.len() - 5]));
                        if e.len() > 0 {
                            assert(is_digit(s[s.len() - 6]));
                        }
                    }
                }
            }
        }
    }
}

/// Tries to read a number of up to six digits and white space at the start of a
/// line, returning the number and the rest.
fn parse_line_number_prefix(line: &str) -> (r: Option<(usize, &str)>)
    ensures
        match r {
            Some((n, rest)) => numbered(line@) == Some((n as nat, rest@)) && n < 1000000,
            None => numbered(line@) is None,
        },
{
    let t = trim_start(line);
    let v = to_chars(t);
    let mut k: usize = 0;
    assert(t@.skip(0) == t@);
    while k < 6 && k < v.len() && '0' <= v[k] && v[k] <= '9'
        invariant
            v@ == t@,
            k <= 6,
            k <= v@.len(),
            k + digit_run(t@.skip(k as int), (6 - k) as nat) == digit_run(t@, 6),
        decreases 6 - k,
    {
        assert(t@.skip(k as int).skip(1) == t@.skip(k + 1));
        k = k + 1;
    }
    proof {
        lemma_digit_run(t@, 6);
        lemma_digits_small(t@.take(digit_run(t@, 6) as int));
    }
    assert(k == digit_run(t@, 6));
    if k == 0 || k >= v.len() {
        return None;
    }
    let c = v[k];
    if !(c == ' ' || c == '\t' || c == '\n' || c == '\u{C}' || c == '\r') {
        return None;
    }
    let rest = t.substring_char(k, v.len());
    assert(rest@ == t@.skip(k as int));
    let rest = trim_start(rest);
    if rest.is_empty() {
        return None;
    }
    let digits = t.substring_char(0, k);
    proof {
        assert(digits@ == t@.take(k as int));
        assert(is_digit(digits@[0]));
        assert(unsigned(digits@) == digits@);
    }
    match parse(digits) {
        Some(n) => Some((n, rest)),
        None => None,
    }
}

/// The lines of a hunk that hold more than white space, first those of the old
/// file.
pub open spec fn hunk_texts(h: HunkView) -> Seq<Seq<char>> {
    solid(h.old + h.new)
}

/// The numbers at the start of those lines that have one.
pub open spec fn leading_numbers(lines: Seq<Seq<char>>) -> Seq<nat>
    decreases lines.len(),
{
    if lines.len() == 0 {
        Seq::empty()
    } else {
        let before = leading_numbers(lines.drop_last());
        match numbered(lines.last()) {
            Some((n, _)) => before.push(n),
            None => before,
        }
    }
}

/// How often a number is one more than the number before it.
pub open spec fn successors(ns: Seq<nat>) -> nat
    decreases ns.len(),
{
    if ns.len() < 2 {
        0
    } else {
        successors(ns.drop_last()) + if ns.last() == ns[ns.len() - 2] + 1 {
            1nat
        } else {
            0nat
        }
    }
}

/// The bits of `0.6`.
pub const NUMBERED_SHARE: u64 = 0x3FE3_3333_3333_3333;

/// How many of `n` lines have to be numbered: three in five, and two at least.
pub open spec fn numbered_enough(n: nat) -> int {
    max(2, capped(ceiling_of(product(whole(n), NUMBERED_SHARE))) as int)
}

/// Whether the lines of a hunk carry line numbers that do not belong to them:
/// enough of them have one, and where there are three or more, all but one
/// follow each other.
pub open spec fn carries_numbers(h: HunkView) -> bool {
    let texts = hunk_texts(h);
    let ns = leading_numbers(texts);
    texts.len() >= 2 && ns.len() >= numbered_enough(texts.len()) && (ns.len() < 3 || successors(ns)
        >= max(1, ns.len() - 2))
}

/// A line without its leading number.
pub open spec fn unnumbered(line: Seq<char>) -> Seq<char> {
    match numbered(line) {
        Some((_, rest)) => rest,
        None => line,
    }
}

/// A hunk without line numbers.
pub open spec fn without_numbers(h: HunkView) -> HunkView {
    if carries_numbers(h) {
        HunkView {
            old: h.old.map_values(|l: Seq<char>| unnumbered(l)),
            new: h.new.map_values(|l: Seq<char>| unnumbered(l)),
            ..h
        }
    } else {
        h
    }
}

fn strip_numbers(lines: &[String]) -> (r: Vec<String>)
    ensures
        views(r@) == views(lines@).map_values(|l: Seq<char>| unnumbered(l)),
{
    let ghost target = views(lines@).map_values(|l: Seq<char>| unnumbered(l));
    let mut out: Vec<String> = Vec::new();
    let mut i: usize = 0;
    while i < lines.len()
        invariant
            i <= lines@.len(),
            target == views(lines@).map_values(|l: Seq<char>| unnumbered(l)),
            views(out@) == target.take(i as int),
        decreases lines@.len() - i,
    {
        let line = lines[i].as_str();
        assert(views(lines@)[i as int] == line@);
        match parse_line_number_prefix(line) {
            Some((_, rest)) => {
                push_text(&mut out, rest);
            },
            None => {
                push_text(&mut out, line);
            },
        }
        assert(target.take(i + 1) =~= target.take(i as int).push(target[i as int]));
        i = i + 1;
    }
    assert(target.take(i as int) =~= target);
    out
}

/// How many lines have to be numbered.
fn enough_numbered(n: u128) -> (r: usize)
    requires
        0 < n <= LARGE,
    ensures
        r == numbered_enough(n as nat),
{
    let x = Double::from_u128(n);
    proof {
        lemma_whole_range(x.bits, n as nat);
    }
    let y = x.times(Double::from_bits(NUMBERED_SHARE));
    proof {
        lemma_product_bounded(y.bits, x.bits, NUMBERED_SHARE);
    }
    let c: u128 = y.ceiling();
    let k: usize = if c <= usize::MAX as u128 {
        c as usize
    } else {
        usize::MAX
    };
    if k >= 2 {
        k
    } else {
        2
    }
}

/// Strips spurious line-number prefixes from hunk lines.
///
/// Some models prepend line numbers like `  42  actual code`. If at least 60%
/// of the non-empty lines have such a prefix and the numbers are roughly
/// sequential, the prefix is stripped from every line.
pub fn strip_line_number_prefixes(hunk: &mut DiffHunk)
    ensures
        final(hunk)@ == without_numbers(old(hunk)@),
{
    let ghost h0 = hunk@;
    let ghost all = h0.old + h0.new;
    let first: usize = hunk.old_lines.len();
    let second: usize = hunk.new_lines.len();
    let mut count: u128 = 0;
    let mut numbers: Vec<usize> = Vec::new();
    let mut half: usize = 0;
    let ghost mut at: int = 0;
    assert(all.take(0).len() == 0);
    while half < 2
        invariant
            half <= 2,
            *hunk == *old(hunk),
            h0 == hunk@,
            all == h0.old + h0.new,
            first == h0.old.len(),
            second == h0.new.len(),
            at == (if half == 0 {
                0int
            } else if half == 1 {
                h0.old.len() as int
            } else {
                all.len() as int
            }),
            count == solid(all.take(at)).len(),
            count <= at,
            nats(numbers@) == leading_numbers(solid(all.take(at))),
            forall|k: int| 0 <= k < numbers@.len() ==> #[trigger] numbers@[k] < 1000000,
        decreases 2 - half,
    {
        let lines: &Vec<String> = if half == 0 {
            &hunk.old_lines
        } else {
            &hunk.new_lines
        };
        let mut i: usize = 0;
        let ghost base = at;
        assert(h0.old.len() == hunk.old_lines@.len() && h0.new.len() == hunk.new_lines@.len());
        while i < lines.len()
            invariant
                half < 2,
                *hunk == *old(hunk),
                h0 == hunk@,
                all == h0.old + h0.new,
                i <= lines@.len(),
                *lines == (if half == 0 {
                    hunk.old_lines
                } else {
                    hunk.new_lines
                }),
                base == (if half == 0 {
                    0int
                } else {
                    h0.old.len() as int
                }),
                count == solid(all.take(base + i)).len(),
                count <= base + i,
                base <= first,
                nats(numbers@) == leading_numbers(solid(all.take(base + i))),
                forall|k: int| 0 <= k < numbers@.len() ==> #[trigger] numbers@[k] < 1000000,
            decreases lines@.len() - i,
        {
            let line = lines[i].as_str();
            proof {
                assert(all.take(base + i + 1).drop_last() =~= all.take(base + i));
                assert(all.take(base + i + 1).last() == line@);
            }
            if !blank(line) {
                let ghost before = solid(all.take(base + i));
                assert(before.push(line@).drop_last() =~= before);
                match parse_line_number_prefix(line) {
                    Some((n, _)) => {
                        let ghost n0 = numbers@;
                        numbers.push(n);
                        assert(nats(numbers@) =~= nats(n0).push(n as nat));
                    },
                    None => {},
                }
                count = count + 1;
            }
            i = i + 1;
        }
        proof {
            at = base + lines@.len();
        }
        half = half + 1;
    }
    assert(all.take(at) =~= all);
    assert(nats(numbers@).len() == numbers@.len());
    assert(all.len() == first + second);
    if count < 2 {
        return;
    }
    if numbers.len() < enough_numbered(count) {
        return;
    }
    let mut sequential: usize = 0;
    let mut i: usize = 1;
    let ghost ns = nats(numbers@);
    assert(successors(ns.take(1)) == 0);
    while i < numbers.len()
        invariant
            ns == nats(numbers@),
            numbers@.len() >= 1,
            1 <= i <= numbers@.len(),
            sequential < i,
            sequential == successors(ns.take(i as int)),
            forall|k: int| 0 <= k < numbers@.len() ==> #[trigger] numbers@[k] < 1000000,
        decreases numbers@.len() - i,
    {
        proof {
            assert(ns.take(i + 1).drop_last() =~= ns.take(i as int));
            assert(ns.take(i + 1).last() == numbers@[i as int]);
            assert(ns.take(i + 1)[i - 1] == numbers@[i - 1]);
            assert(numbers@[i - 1] < 1000000);
        }
        if numbers[i] == numbers[i - 1] + 1 {
            sequential = sequential + 1;
        }
        i = i + 1;
    }
    assert(ns.take(i as int) =~= ns);
    if numbers.len() >= 3 {
        let need: usize = if numbers.len() - 2 >= 1 {
            numbers.len() - 2
        } else {
            1
        };
        if sequential < need {
            return;
        }
    }
    let a = strip_numbers(&hunk.old_lines);
    let b = strip_numbers(&hunk.new_lines);
    hunk.old_lines = a;
    hunk.new_lines = b;
    assert(hunk@ =~= without_numbers(h0));
}

/// A hunk and the number of lines that it takes.
pub open spec fn one_hunk(lines: Seq<Seq<char>>, n: int, allow_missing: bool) -> Result<
    (HunkView, nat),
    ErrorView,
> {
    if lines.len() == 0 {
        Err(parse_failure("Diff does not contain any lines"@, n))
    } else {
        match hunk_head(lines[0], n, allow_missing) {
            Err(e) => Err(e),
            Ok(h) => {
                let first = if h.is_header {
                    1int
                } else {
                    0int
                };
                let (si, contexts) = nested(lines, first, h.contexts);
                if si >= lines.len() {
                    Err(parse_failure(no_lines(), n + 1))
                } else {
                    match hunk_body(lines, si, no_body(), n) {
                        Err(e) => Err(e),
                        Ok(b) => if b.parsed == 0 {
                            Err(parse_failure(no_lines(), n + si))
                        } else {
                            Ok(
                                (
                                    without_numbers(
                                        HunkView {
                                            context: if contexts.len() == 0 {
                                                None
                                            } else {
                                                Some(joined(contexts, "\n"@))
                                            },
                                            old_start: h.start,
                                            new_start: h.new_start,
                                            has_context: b.has_context,
                                            old: b.old,
                                            new: b.new,
                                            eof: b.eof,
                                        },
                                    ),
                                    (b.parsed + si) as nat,
                                ),
                            )
                        },
                    }
                }
            },
        }
    }
}

/// A hunk and the number of lines that it takes.
struct ParseHunkResult {
    hunk: DiffHunk,
    lines_consumed: usize,
}

impl View for ParseHunkResult {
    type V = (HunkView, nat);

    closed spec fn view(&self) -> (HunkView, nat) {
        (self.hunk@, self.lines_consumed as nat)
    }
}

/// Parses a single hunk from the start of `lines`.
///
/// `line_number` is the 1-based line number in the diff (for error messages).
/// `allow_missing_context` allows the hunk to start without an `@@` header.
fn parse_one_hunk(lines: &[&str], line_number: usize, allow_missing_context: bool) -> (r: Result<
    ParseHunkResult,
    EditError,
>)
    ensures
        outcome(r) == one_hunk(views(lines@), line_number as int, allow_missing_context),
        r matches Ok(x) ==> 1 <= x.lines_consumed <= lines@.len(),
{
    if lines.len() == 0 {
        return Err(parse_failed("Diff does not contain any lines", line_number));
    }
    let ghost l = views(lines@);
    assert(l[0] == lines@[0]@);
    let head = match parse_hunk_head(lines[0], line_number, allow_missing_context) {
        Ok(h) => h,
        Err(e) => {
            return Err(e);
        },
    };
    let ghost hv = head@;
    let first: usize = if head.is_header {
        1
    } else {
        0
    };
    let start = head.start;
    let new_start = head.new_start;
    let (si, contexts) = skip_nested(lines, first, head.contexts);
    if si >= lines.len() {
        return Err(parse_failed("Hunk does not contain any lines", line_number.saturating_add(1)));
    }
    let body = match parse_body(lines, si, line_number) {
        Ok(b) => b,
        Err(e) => {
            return Err(e);
        },
    };
    if body.parsed == 0 {
        return Err(
            parse_failed("Hunk does not contain any lines", line_number.saturating_add(si)),
        );
    }
    let ghost bv = body@;
    let parsed = body.parsed;
    assert(views(contexts@).len() == contexts@.len());
    let mut hunk = DiffHunk {
        change_context: if contexts.len() == 0 {
            None
        } else {
            Some(join(&contexts, "\n"))
        },
        old_start_line: start,
        new_start_line: new_start,
        has_context_lines: body.has_context,
        old_lines: body.old,
        new_lines: body.new,
        is_end_of_file: body.eof,
    };
    strip_line_number_prefixes(&mut hunk);
    Ok(ParseHunkResult { hunk, lines_consumed: parsed + si })
}

/// The file that a marker names.
pub open spec fn marker_path(line: Seq<char>) -> Option<Seq<char>> {
    if begins(line, "diff --git "@) {
        let w = words(line.skip("diff --git "@.len() as int));
        if w.len() == 0 {
            None
        } else {
            let c = if w.len() > 1 {
                w[1]
            } else {
                w[0]
            };
            if begins(c, "a/"@) || begins(c, "b/"@) {
                Some(c.skip(2))
            } else {
                Some(c)
            }
        }
    } else if begins(line, "*** Update File:"@) {
        Some(trimmed(line.skip("*** Update File:"@.len() as int)))
    } else if begins(line, "*** Add File:"@) {
        Some(trimmed(line.skip("*** Add File:"@.len() as int)))
    } else if begins(line, "*** Delete File:"@) {
        Some(trimmed(line.skip("*** Delete File:"@.len() as int)))
    } else {
        None
    }
}

/// The files that the markers among `lines` name, each once.
pub open spec fn marked_files(lines: Seq<Seq<char>>) -> Seq<Seq<char>>
    decreases lines.len(),
{
    if lines.len() == 0 {
        Seq::empty()
    } else {
        let before = marked_files(lines.drop_last());
        let line = lines.last();
        if is_content(line) {
            before
        } else {
            match marker_path(trimmed(line)) {
                Some(p) => if before.contains(p) {
                    before
                } else {
                    before.push(p)
                },
                None => before,
            }
        }
    }
}

/// Extracts a file path from a marker line.
fn extract_marker_path(line: &str) -> (r: Option<String>)
    ensures
        opt_view(r) == marker_path(line@),
{
    proof {
        reveal_strlit("a/");
        reveal_strlit("b/");
    }
    match strip_prefix(line, "diff --git ") {
        Some(rest) => {
            let w = split_whitespace(rest);
            if w.len() == 0 {
                return None;
            }
            let c = if w.len() > 1 {
                w[1].as_str()
            } else {
                w[0].as_str()
            };
            proof {
                assert(views(w@)[0] == w@[0]@);
                if w@.len() > 1 {
                    assert(views(w@)[1] == w@[1]@);
                }
            }
            match strip_prefix(c, "a/") {
                Some(p) => {
                    return Some(p.to_owned());
                },
                None => {},
            }
            match strip_prefix(c, "b/") {
                Some(p) => {
                    return Some(p.to_owned());
                },
                None => {},
            }
            return Some(c.to_owned());
        },
        None => {},
    }
    match strip_prefix(line, "*** Update File:") {
        Some(rest) => {
            return Some(trim(rest).to_owned());
        },
        None => {},
    }
    match strip_prefix(line, "*** Add File:") {
        Some(rest) => {
            return Some(trim(rest).to_owned());
        },
        None => {},
    }
    match strip_prefix(line, "*** Delete File:") {
        Some(rest) => {
            return Some(trim(rest).to_owned());
        },
        None => {},
    }
    None
}

/// Counts the files that the markers in a diff name.
fn count_multi_file_markers(diff: &str) -> (r: usize)
    ensures
        r == marked_files(lines_of(diff@)).len(),
{
    let lines = split_on(diff, '\n');
    let ghost all = lines_of(diff@);
    let mut paths: Vec<String> = Vec::new();
    let mut i: usize = 0;
    assert(all.take(0).len() == 0);
    assert(views(paths@) =~= marked_files(all.take(0)));
    while i < lines.len()
        invariant
            views(lines@) == all,
            i <= lines@.len(),
            views(paths@) == marked_files(all.take(i as int)),
        decreases lines@.len() - i,
    {
        let line = lines[i].as_str();
        proof {
            assert(all.take(i + 1).drop_last() =~= all.take(i as int));
            assert(all.take(i + 1).last() == line@);
        }
        if !is_diff_content_line(line) {
            match extract_marker_path(trim(line)) {
                Some(p) => {
                    if !holds_text(&paths, p.as_str()) {
                        push_text(&mut paths, p.as_str());
                    }
                },
                None => {},
            }
        }
        i = i + 1;
    }
    assert(all.take(i as int) =~= all);
    assert(views(paths@).len() == paths@.len());
    paths.len()
}

/// Whether all lines from `i` on are blank.
pub open spec fn blank_from(lines: Seq<Seq<char>>, i: int) -> bool {
    forall|k: int| i <= k < lines.len() ==> is_blank(#[trigger] lines[k])
}

fn all_blank_from(lines: &[&str], i: usize) -> (r: bool)
    requires
        i <= lines@.len(),
    ensures
        r == blank_from(views(lines@), i as int),
{
    let mut k: usize = i;
    while k < lines.len()
        invariant
            i <= k <= lines@.len(),
            forall|j: int| i <= j < k ==> is_blank(#[trigger] views(lines@)[j]),
        decreases lines@.len() - k,
    {
        if !blank(lines[k]) {
            assert(!is_blank(views(lines@)[k as int]));
            return false;
        }
        k = k + 1;
    }
    true
}

/// Whether a line between hunks is skipped: a blank one, or metadata.
pub open spec fn is_skipped(line: Seq<char>) -> bool {
    is_blank(line) || (line[0] != ' ' && line[0] != '+' && line[0] != '-' && is_metadata(
        trimmed(line),
    ))
}

/// The hunks from line `i` on, after those that are `done`.
pub open spec fn hunks_from(lines: Seq<Seq<char>>, i: int, done: Seq<HunkView>) -> Result<
    Seq<HunkView>,
    ErrorView,
>
    decreases lines.len() - i,
{
    if i < 0 || i >= lines.len() {
        Ok(done)
    } else if is_skipped(lines[i]) {
        hunks_from(lines, i + 1, done)
    } else if begins(trimmed(lines[i]), "@@"@) && blank_from(lines, i + 1) {
        Ok(done)
    } else {
        match one_hunk(lines.skip(i), i + 1, true) {
            Err(e) => Err(e),
            Ok((hunk, n)) => if 1 <= n <= lines.len() - i {
                hunks_from(lines, i + n, done.push(hunk))
            } else {
                Ok(done)
            },
        }
    }
}

/// The hunks of a diff for a single file.
pub open spec fn hunks_of(diff: Seq<char>) -> Result<Seq<HunkView>, ErrorView> {
    let n = marked_files(lines_of(diff)).len();
    if n > 1 {
        Err(
            ErrorView::ApplyError {
                message: "Diff contains "@ + decimal(n)
                    + " file markers. Single-file patches cannot contain multi-file markers."@,
            },
        )
    } else {
        hunks_from(lines_of(bare_diff(diff)), 0, Seq::empty())
    }
}

/// A result with hunks, by its contents.
pub open spec fn hunks_outcome(r: Result<Vec<DiffHunk>, EditError>) -> Result<
    Seq<HunkView>,
    ErrorView,
> {
    match r {
        Ok(v) => Ok(hunk_views(v@)),
        Err(e) => Err(e@),
    }
}

/// A line that is not blank is not empty.
pub proof fn lemma_blank_empty(s: Seq<char>)
    ensures
        s.len() == 0 ==> is_blank(s),
{
}

/// Parses all diff hunks from a diff string.
///
/// Returns [`EditError::ParseError`] on malformed input. Returns an empty `Vec`
/// for an empty diff. Rejects multi-file patches (more than one file marker).
pub fn parse_hunks(diff: &str) -> (r: Result<Vec<DiffHunk>, EditError>)
    ensures
        hunks_outcome(r) == hunks_of(diff@),
{
    let count = count_multi_file_markers(diff);
    if count > 1 {
        let mut message = "Diff contains ".to_owned();
        message.append(show(count).as_str());
        message.append(" file markers. Single-file patches cannot contain multi-file markers.");
        return Err(EditError::ApplyError { message });
    }
    let bare = normalize_diff(diff);
    let owned = split_on(bare.as_str(), '\n');
    let lines = to_refs(&owned);
    let ghost l = lines_of(bare@);
    let ghost goal = hunks_from(l, 0, Seq::empty());
    let mut hunks: Vec<DiffHunk> = Vec::new();
    let mut i: usize = 0;
    assert(hunk_views(hunks@) =~= Seq::empty());
    while i < lines.len()
        invariant
            views(lines@) == l,
            l == lines_of(bare_diff(diff@)),
            marked_files(lines_of(diff@)).len() <= 1,
            i <= lines@.len(),
            goal == hunks_from(l, 0, Seq::empty()),
            hunks_from(l, i as int, hunk_views(hunks@)) == goal,
        decreases lines@.len() - i,
    {
        let line = lines[i];
        assert(l[i as int] == line@);
        let skipped = if blank(line) {
            true
        } else {
            proof {
                lemma_blank_empty(line@);
            }
            let c = line.get_char(0);
            c != ' ' && c != '+' && c != '-' && is_unified_diff_metadata_line(trim(line))
        };
        if skipped {
            i = i + 1;
        } else if starts_with(trim(line), "@@") && all_blank_from(&lines, i + 1) {
            return Ok(hunks);
        } else {
            let rest = vstd::slice::slice_subrange(lines.as_slice(), i, lines.len());
            assert(views(rest@) =~= l.skip(i as int));
            match parse_one_hunk(rest, i + 1, true) {
                Err(e) => {
                    return Err(e);
                },
                Ok(x) => {
                    let ghost h0 = hunks@;
                    let ghost hv = x.hunk@;
                    let n = x.lines_consumed;
                    hunks.push(x.hunk);
                    assert(hunk_views(hunks@) =~= hunk_views(h0).push(hv));
                    i = i + n;
                },
            }
        }
    }
    Ok(hunks)
}

/// The lines from `i` on that are context or carry the mark, without what marks
/// them.
pub open spec fn side(lines: Seq<Seq<char>>, i: int, mark: char) -> Seq<Seq<char>>
    decreases lines.len() - i,
{
    if i >= lines.len() {
        Seq::empty()
    } else if lines[i][0] == ' ' || lines[i][0] == mark {
        seq![lines[i].skip(1)] + side(lines, i + 1, mark)
    } else {
        side(lines, i + 1, mark)
    }
}

/// Whether a line is context, added or removed; three dots for lines that are
/// left out are not.
pub open spec fn is_marked(line: Seq<char>) -> bool {
    line.len() > 0 && (line[0] == '+' || line[0] == '-' || (line[0] == ' ' && trimmed(line)
        != "..."@ && trimmed(line) != "…"@))
}

/// In a hunk of marked lines every line counts: the old lines are the context and
/// what is removed, the new lines are the context and what is added, in their
/// order.
pub proof fn law_hunk_sides(lines: Seq<Seq<char>>, i: int, b: BodyView, n: int)
    requires
        0 <= i <= lines.len(),
        forall|k: int| i <= k < lines.len() ==> is_marked(#[trigger] lines[k]),
    ensures
        hunk_body(lines, i, b, n) matches Ok(x) && {
            &&& x.old == b.old + side(lines, i, '-')
            &&& x.new == b.new + side(lines, i, '+')
            &&& x.parsed == b.parsed + (lines.len() - i)
            &&& x.eof == b.eof
        },
    decreases lines.len() - i,
{
    if i < lines.len() {
        let line = lines[i];
        assert(is_marked(line));
        reveal_strlit("...");
        reveal_strlit("…");
        reveal_strlit("*** End of File");
        lemma_trimmed_keeps(line);
        let step = body_step(lines, i, b, n);
        assert(step is More);
        let next = step->More_0;
        if line[0] == ' ' {
            assert(next == with_context(b, line.skip(1)));
        } else {
            assert(!is_white(line[0]));
            assert(trimmed(line)[0] == line[0]);
            assert("..."@[0] == '.');
            assert("…"@[0] == '…');
        }
        law_hunk_sides(lines, i + 1, next, n);
        assert(b.old.push(line.skip(1)) + side(lines, i + 1, '-') =~= b.old + (seq![line.skip(1)]
            + side(lines, i + 1, '-')));
        assert(b.new.push(line.skip(1)) + side(lines, i + 1, '+') =~= b.new + (seq![line.skip(1)]
            + side(lines, i + 1, '+')));
    }
}

/// A line that does not begin with white space begins with the same character
/// when trimmed.
proof fn lemma_trimmed_keeps(line: Seq<char>)
    requires
        line.len() > 0,
    ensures
        !is_white(line[0]) ==> trimmed(line).len() > 0 && trimmed(line)[0] == line[0],
    decreases line.len(),
{
    if !is_white(line[0]) && is_white(line.last()) {
        let shorter = line.drop_last();
        assert(shorter.len() > 0);
        lemma_trimmed_keeps(shorter);
    }
}

/// A file that is given as added lines is created with those lines.
pub proof fn law_created_content(content: Seq<char>)
    ensures
        created_content(
            joined(lines_of(content).map_values(|l: Seq<char>| "+ "@ + l), "\n"@),
        ) == content,
{
    reveal_strlit("\n");
    reveal_strlit("+ ");
    reveal_strlit("+");
    assert("\n"@ =~= seq!['\n']);
    let lines = lines_of(content);
    let given = lines.map_values(|l: Seq<char>| "+ "@ + l);
    lemma_pieces_nonempty(content, '\n');
    law_pieces_clean(content, '\n');
    law_join_pieces(content, '\n');
    assert forall|i: int| 0 <= i < given.len() implies !(#[trigger] given[i]).contains('\n') by {
        assert(!lines[i].contains('\n'));
        if given[i].contains('\n') {
            let j = choose|j: int| 0 <= j < given[i].len() && given[i][j] == '\n';
            assert(lines[i][j - 2] == '\n');
        }
    }
    law_pieces_join(given, '\n');
    assert(given[0].len() > 0);
    assert(all_added(given));
    let back = given.map_values(|l: Seq<char>| without_plus(l));
    assert forall|i: int| 0 <= i < lines.len() implies #[trigger] back[i] == lines[i] by {
        assert(given[i].take(2) =~= "+ "@);
        assert(begins(given[i], "+ "@));
        assert(given[i].skip(2) =~= lines[i]);
    }
    assert(back =~= lines);
}

/// The sides of lines from `i` on are those of the lines without the first `i`.
pub proof fn lemma_side_skip(lines: Seq<Seq<char>>, i: int, j: int, mark: char)
    requires
        0 <= i,
        0 <= j,
        i + j <= lines.len(),
    ensures
        side(lines, i + j, mark) == side(lines.skip(i), j, mark),
    decreases lines.len() - i - j,
{
    if i + j < lines.len() {
        assert(lines.skip(i)[j] == lines[i + j]);
        lemma_side_skip(lines, i, j + 1, mark);
    }
}

/// A range as a header writes it: the start and the count.
pub open spec fn range_text(range: (nat, nat)) -> Seq<char> {
    decimal(range.0) + ","@ + decimal(range.1)
}

proof fn lemma_range_text(range: (nat, nat))
    requires
        range.0 <= usize::MAX,
        range.1 <= usize::MAX,
    ensures
        range_spec(range_text(range)) == Some(range),
        range_spec(decimal(range.0)) == Some((range.0, 1nat)),
        forall|i: int|
            0 <= i < range_text(range).len() ==> (is_digit(#[trigger] range_text(range)[i])
                || range_text(range)[i] == ','),
{
    reveal_strlit(",");
    let a = decimal(range.0);
    let b = decimal(range.1);
    let t = range_text(range);
    lemma_decimal(range.0);
    lemma_decimal(range.1);
    law_decimal_round_trip(range.0);
    law_decimal_round_trip(range.1);
    let k = a.len() as int;
    assert(","@ =~= seq![',']);
    assert(t.subrange(k, k + 1) =~= seq![',']);
    assert forall|j: int| 0 <= j < k implies #[trigger] t[j] != ',' by {
        assert(t[j] == a[j]);
        assert(is_digit(a[j]));
    }
    lemma_found_at(t, seq![','], 0, k);
    assert(t.take(k) =~= a);
    assert(t.skip(k + 1) =~= b);
    assert forall|j: int| 0 <= j < a.len() implies #[trigger] a[j] != ',' by {
        assert(is_digit(a[j]));
    }
    lemma_not_found(a, seq![','], 0);
    assert forall|i: int| 0 <= i < t.len() implies (is_digit(#[trigger] t[i]) || t[i] == ',') by {
        if i < k {
            assert(t[i] == a[i]);
        } else if i > k {
            assert(t[i] == b[i - k - 1]);
        }
    }
}

/// A header with two ranges, as a unified diff writes it, and maybe a context behind it.
pub open spec fn header_text(old: (nat, nat), new: (nat, nat), context: Option<Seq<char>>) -> Seq<
    char,
> {
    let ranges = "@@ -"@ + range_text(old) + " +"@ + range_text(new) + " @@"@;
    match context {
        Some(c) => ranges + " "@ + c,
        None => ranges,
    }
}

/// Whether a text neither begins nor ends with white space, and holds something.
pub open spec fn is_trim(s: Seq<char>) -> bool {
    s.len() > 0 && !is_white(s[0]) && !is_white(s.last())
}

/// A header of a unified diff reads as what was written: the two ranges, and the context
/// behind them.
#[verifier::rlimit(50)]
#[verifier::spinoff_prover]
pub proof fn law_unified_header(old: (nat, nat), new: (nat, nat), context: Option<Seq<char>>)
    requires
        old.0 <= usize::MAX && old.1 <= usize::MAX,
        new.0 <= usize::MAX && new.1 <= usize::MAX,
        context matches Some(c) ==> is_trim(c),
    ensures
        unified_header(header_text(old, new, context)) == Some(HeaderView { old, new, context }),
{
    reveal_strlit("@@ -");
    reveal_strlit(" +");
    reveal_strlit(" @@");
    reveal_strlit(" ");
    reveal_strlit("@@");
    let a = range_text(old);
    let b = range_text(new);
    lemma_range_text(old);
    lemma_range_text(new);
    lemma_decimal(old.0);
    lemma_decimal(new.0);
    let ranges = "@@ -"@ + a + " +"@ + b + " @@"@;
    let t = header_text(old, new, context);
    let k = ranges.len() - 2;
    assert(t.last() == match context {
        Some(c) => c.last(),
        None => '@',
    });
    assert(trimmed_end(t) == t);
    assert(t.subrange(0, 2) =~= "@@"@);
    assert(t.subrange(k, k + 2) =~= "@@"@);
    assert forall|j: int| 2 <= j < k implies #[trigger] t[j] != '@' by {
        let m = a.len() as int;
        if 4 <= j < 4 + m {
            assert(t[j] == a[j - 4]);
        } else if 6 + m <= j < 6 + m + b.len() {
            assert(t[j] == b[j - 6 - m]);
        }
    }
    lemma_found_at(t, "@@"@, 2, k);
    let minus = seq!['-'] + a;
    let plus = seq!['+'] + b;
    let inside = t.subrange(2, k);
    let middle = minus + seq![' '] + plus;
    assert(inside =~= seq![' '] + middle + seq![' ']);
    assert(middle[0] == '-');
    assert(middle.last() == b[b.len() - 1]);
    lemma_trimmed_spaced(middle);
    assert forall|i: int| 0 <= i < minus.len() implies !is_white(#[trigger] minus[i]) by {
        if i > 0 {
            assert(minus[i] == a[i - 1]);
        }
    }
    assert forall|i: int| 0 <= i < plus.len() implies !is_white(#[trigger] plus[i]) by {
        if i > 0 {
            assert(plus[i] == b[i - 1]);
        }
    }
    lemma_two_words(minus, plus);
    assert(minus.skip(1) =~= a);
    assert(plus.skip(1) =~= b);
    match context {
        Some(c) => {
            assert(t.skip(k + 2) =~= seq![' '] + c);
            lemma_trimmed_lead(' ', c);
            lemma_untrimmed(c);
        },
        None => {
            assert(t.skip(k + 2) =~= Seq::<char>::empty());
        },
    }
}

/// What a header with two ranges says of a hunk: its first line in the old and in the new
/// file, and its context. A range that begins before the first line is refused.
#[verifier::rlimit(40)]
#[verifier::spinoff_prover]
pub proof fn law_ranges_head(
    old: (nat, nat),
    new: (nat, nat),
    context: Option<Seq<char>>,
    n: int,
    allow_missing: bool,
)
    requires
        old.0 <= usize::MAX && old.1 <= usize::MAX,
        new.0 <= usize::MAX && new.1 <= usize::MAX,
        context matches Some(c) ==> is_trim(c),
    ensures
        old.0 >= 1 && new.0 >= 1 ==> hunk_head(header_text(old, new, context), n, allow_missing)
            == Ok::<HeadView, ErrorView>(
            HeadView {
                contexts: match context {
                    Some(c) => seq![c],
                    None => Seq::empty(),
                },
                start: Some(old.0),
                new_start: Some(new.0),
                is_header: true,
            },
        ),
        old.0 == 0 || new.0 == 0 ==> hunk_head(header_text(old, new, context), n, allow_missing)
            is Err,
{
    law_unified_header(old, new, context);
    reveal_strlit("@@ -");
    reveal_strlit(" +");
    reveal_strlit(" @@");
    reveal_strlit(" ");
    reveal_strlit("@@");
    let t = header_text(old, new, context);
    assert(t.last() == match context {
        Some(c) => c.last(),
        None => '@',
    });
    assert(trimmed_end(t) == t);
    assert(t.subrange(0, 2) =~= "@@"@);
    assert(t[3] == '-');
    let inside = t.subrange(2, t.len() - 2);
    assert(!is_empty_marker(t)) by {
        assert(inside[1] == '-');
        lemma_solid_char(inside, 1);
    }
}

/// A text with a character that is no white space is not blank.
proof fn lemma_solid_char(s: Seq<char>, k: int)
    requires
        0 <= k < s.len(),
        !is_white(s[k]),
    ensures
        !is_blank(s),
    decreases s.len(),
{
    if is_white(s.last()) {
        lemma_solid_char(s.drop_last(), k);
    } else {
        lemma_solid_start(s, k);
    }
}

proof fn lemma_solid_start(s: Seq<char>, k: int)
    requires
        0 <= k < s.len(),
        !is_white(s[k]),
    ensures
        trimmed_start(s).len() > 0,
    decreases s.len(),
{
    if is_white(s[0]) {
        lemma_solid_start(s.skip(1), k - 1);
    }
}

/// Whether a line can stand in the body of a hunk as it is: it is context, added or
/// removed, and what it holds does not begin with a digit.
pub open spec fn is_body_line(line: Seq<char>) -> bool {
    let text = trimmed_start(line.skip(1));
    is_content(line) && is_marked(line) && !line.contains('\n') && (text.len() == 0 || !is_digit(
        text[0],
    ))
}

/// Whether the lines can be the body of a hunk: one of them is added or removed, and the
/// last does not look like the end of a patch.
pub open spec fn is_body(body: Seq<Seq<char>>) -> bool {
    &&& forall|k: int| 0 <= k < body.len() ==> is_body_line(#[trigger] body[k])
    &&& exists|k: int| 0 <= k < body.len() && (#[trigger] body[k])[0] != ' '
    &&& !begins(trimmed(body.last()), "***"@)
}

/// The hunk that a body gives under the header that says `h`.
pub open spec fn hunk_under(h: HeadView, body: Seq<Seq<char>>) -> HunkView {
    HunkView {
        context: if h.contexts.len() == 0 {
            None
        } else {
            Some(joined(h.contexts, "\n"@))
        },
        old_start: h.start,
        new_start: h.new_start,
        has_context: exists|k: int| 0 <= k < body.len() && (#[trigger] body[k])[0] == ' ',
        old: side(body, 0, '-'),
        new: side(body, 0, '+'),
        eof: false,
    }
}

/// A line that begins with `@` is neither metadata nor names a file.
proof fn lemma_at_sign(line: Seq<char>)
    requires
        line.len() > 0,
        line[0] == '@',
    ensures
        !is_metadata(line),
        !is_file_marker(line),
        marker_path(line) is None,
        !begins(line, "*** Begin Patch"@),
        line != "***"@,
{
    reveal_strlit("diff --git ");
    reveal_strlit("index ");
    reveal_strlit("--- ");
    reveal_strlit("+++ ");
    reveal_strlit("new file mode ");
    reveal_strlit("deleted file mode ");
    reveal_strlit("rename from ");
    reveal_strlit("rename to ");
    reveal_strlit("similarity index ");
    reveal_strlit("dissimilarity index ");
    reveal_strlit("old mode ");
    reveal_strlit("new mode ");
    reveal_strlit("*** Update File:");
    reveal_strlit("*** Add File:");
    reveal_strlit("*** Delete File:");
    reveal_strlit("*** Begin Patch");
    reveal_strlit("***");
    assert forall|p: Seq<char>| p.len() > 0 && p[0] != '@' implies !#[trigger] begins(line, p) by {
        if begins(line, p) {
            assert(line.subrange(0, p.len() as int)[0] == line[0]);
        }
    }
}

/// Lines that all stay are all there.
proof fn lemma_staying_all(lines: Seq<Seq<char>>)
    requires
        forall|k: int| 0 <= k < lines.len() ==> stays(#[trigger] lines[k]),
    ensures
        staying(lines) == lines,
    decreases lines.len(),
{
    if lines.len() > 0 {
        let before = lines.drop_last();
        assert forall|k: int| 0 <= k < before.len() implies stays(#[trigger] before[k]) by {
            assert(before[k] == lines[k]);
        }
        lemma_staying_all(before);
        assert(lines.last() == lines[lines.len() - 1]);
        assert(before.push(lines.last()) =~= lines);
    } else {
        assert(staying(lines) =~= lines);
    }
}

/// Lines that name no file name none together.
proof fn lemma_no_files(lines: Seq<Seq<char>>)
    requires
        forall|k: int|
            0 <= k < lines.len() ==> is_content(#[trigger] lines[k]) || marker_path(
                trimmed(lines[k]),
            ) is None,
    ensures
        marked_files(lines).len() == 0,
    decreases lines.len(),
{
    if lines.len() > 0 {
        let before = lines.drop_last();
        assert forall|k: int| 0 <= k < before.len() implies is_content(#[trigger] before[k])
            || marker_path(trimmed(before[k])) is None by {
            assert(before[k] == lines[k]);
        }
        lemma_no_files(before);
        assert(lines.last() == lines[lines.len() - 1]);
    }
}

/// Whether context lines are among those of a body.
proof fn lemma_has_context(lines: Seq<Seq<char>>, i: int, b: BodyView, n: int)
    requires
        0 <= i <= lines.len(),
        forall|k: int| i <= k < lines.len() ==> is_marked(#[trigger] lines[k]),
    ensures
        hunk_body(lines, i, b, n) matches Ok(x) && x.has_context == (b.has_context || exists|k: int|
            i <= k < lines.len() && (#[trigger] lines[k])[0] == ' '),
    decreases lines.len() - i,
{
    if i < lines.len() {
        let line = lines[i];
        assert(is_marked(line));
        reveal_strlit("...");
        reveal_strlit("…");
        reveal_strlit("*** End of File");
        lemma_trimmed_keeps(line);
        let step = body_step(lines, i, b, n);
        if line[0] != ' ' {
            assert(!is_white(line[0]));
            assert(trimmed(line)[0] == line[0]);
            assert("..."@[0] == '.');
            assert("…"@[0] == '…');
        }
        assert(step is More);
        let next = step->More_0;
        assert(next.has_context == (b.has_context || line[0] == ' '));
        lemma_has_context(lines, i + 1, next, n);
        let later = exists|k: int| i + 1 <= k < lines.len() && (#[trigger] lines[k])[0] == ' ';
        let any = exists|k: int| i <= k < lines.len() && (#[trigger] lines[k])[0] == ' ';
        if any && line[0] != ' ' {
            let k = choose|k: int| i <= k < lines.len() && (#[trigger] lines[k])[0] == ' ';
            assert(i + 1 <= k && lines[k][0] == ' ');
        }
    }
}

/// The lines of one side come from the body.
proof fn lemma_side_from(body: Seq<Seq<char>>, i: int, mark: char)
    requires
        0 <= i <= body.len(),
        forall|k: int| 0 <= k < body.len() ==> is_body_line(#[trigger] body[k]),
    ensures
        forall|j: int|
            0 <= j < side(body, i, mark).len() ==> numbered(#[trigger] side(body, i, mark)[j])
                is None,
    decreases body.len() - i,
{
    if i < body.len() {
        lemma_side_from(body, i + 1, mark);
        assert(is_body_line(body[i]));
        let text = body[i].skip(1);
        let t = trimmed_start(text);
        assert(digit_run(t, 6) == 0);
        assert(numbered(text) is None);
        let s = side(body, i, mark);
        let rest = side(body, i + 1, mark);
        assert forall|j: int| 0 <= j < s.len() implies numbered(#[trigger] s[j]) is None by {
            if body[i][0] == ' ' || body[i][0] == mark {
                if j > 0 {
                    assert(s[j] == rest[j - 1]);
                }
            } else {
                assert(s[j] == rest[j]);
            }
        }
    }
}

/// Lines without a number give none.
proof fn lemma_no_numbers(lines: Seq<Seq<char>>)
    requires
        forall|j: int| 0 <= j < lines.len() ==> numbered(#[trigger] lines[j]) is None,
    ensures
        leading_numbers(solid(lines)).len() == 0,
    decreases lines.len(),
{
    if lines.len() > 0 {
        let before = lines.drop_last();
        assert forall|j: int| 0 <= j < before.len() implies numbered(#[trigger] before[j])
            is None by {
            assert(before[j] == lines[j]);
        }
        lemma_no_numbers(before);
        assert(numbered(lines[lines.len() - 1]) is None);
        if !is_blank(lines.last()) {
            let s = solid(lines);
            assert(s.drop_last() =~= solid(before));
        }
    }
}

/// What a diff of a header and a body gives.
#[verifier::rlimit(40)]
#[verifier::spinoff_prover]
proof fn lemma_hunk_text(header: Seq<char>, h: HeadView, body: Seq<Seq<char>>)
    requires
        begins(header, "@@"@),
        !header.contains('\n'),
        hunk_head(header, 1, true) == Ok::<HeadView, ErrorView>(h),
        h.is_header,
        is_body(body),
    ensures
        hunks_of(joined(seq![header] + body, "\n"@)) == Ok::<Seq<HunkView>, ErrorView>(
            seq![hunk_under(h, body)],
        ),
{
    reveal_strlit("@@");
    reveal_strlit("\n");
    reveal_strlit("***");
    reveal_strlit("*** End Patch");
    assert("\n"@ =~= seq!['\n']);
    let lines = seq![header] + body;
    let diff = joined(lines, "\n"@);
    let n = lines.len() as int;
    let changed = choose|k: int| 0 <= k < body.len() && (#[trigger] body[k])[0] != ' ';
    assert(header.subrange(0, 2)[0] == header[0]);
    assert(header[0] == '@');
    assert forall|k: int| 0 < k < n implies is_body_line(#[trigger] lines[k]) && lines[k]
        == body[k - 1] by {
        assert(is_body_line(body[k - 1]));
    }
    assert forall|k: int| 0 <= k < n implies !(#[trigger] lines[k]).contains('\n') by {
        if k > 0 {
            assert(is_body_line(lines[k]));
        }
    }
    law_pieces_join(lines, '\n');
    lemma_trimmed_keeps(header);
    let th = trimmed(header);
    assert(th[0] == '@');
    lemma_at_sign(th);
    assert(!is_content(header));
    assert forall|k: int| 0 <= k < n implies stays(#[trigger] lines[k]) && (is_content(lines[k])
        || marker_path(trimmed(lines[k])) is None) by {
        if k > 0 {
            assert(is_body_line(lines[k]));
        }
    }
    lemma_no_files(lines);
    let last = lines.last();
    assert(last == body.last());
    assert(is_body_line(lines[n - 1]));
    assert(without_tail(lines) == lines);
    assert(!begins(trimmed(last), "*** End Patch"@)) by {
        if begins(trimmed(last), "*** End Patch"@) {
            let t = trimmed(last);
            assert(t.subrange(0, 3) =~= t.subrange(0, 13).subrange(0, 3));
            assert("*** End Patch"@.subrange(0, 3) =~= "***"@);
        }
    }
    assert(trimmed(last) != "***"@) by {
        if trimmed(last) == "***"@ {
            assert("***"@.subrange(0, 3) =~= "***"@);
        }
    }
    assert(unwrapped(lines) == lines);
    lemma_staying_all(lines);
    assert(bare_diff(diff) == diff);
    lemma_trimmed_end_keeps(header, "@@"@);
    assert(!is_skipped(header));
    assert(!blank_from(lines, 1)) by {
        assert(lines[changed + 1] == body[changed]);
        lemma_trimmed_keeps(body[changed]);
        assert(is_body_line(body[changed]));
        assert(!is_blank(lines[changed + 1]));
    }
    assert(lines.skip(0) =~= lines);
    assert(!begins(lines[1], "@@"@)) by {
        assert(is_body_line(lines[1]));
        if begins(lines[1], "@@"@) {
            assert(lines[1].subrange(0, 2)[0] == lines[1][0]);
        }
    }
    assert(nested(lines, 1, h.contexts) == (1int, h.contexts));
    law_hunk_sides(lines, 1, no_body(), 1);
    lemma_has_context(lines, 1, no_body(), 1);
    lemma_side_skip(lines, 1, 0, '-');
    lemma_side_skip(lines, 1, 0, '+');
    assert(lines.skip(1) =~= body);
    let b = hunk_body(lines, 1, no_body(), 1)->Ok_0;
    assert(b.old =~= side(body, 0, '-'));
    assert(b.new =~= side(body, 0, '+'));
    assert(b.has_context == (exists|k: int| 0 <= k < body.len() && (#[trigger] body[k])[0] == ' '))
        by {
        if exists|k: int| 0 <= k < body.len() && (#[trigger] body[k])[0] == ' ' {
            let k = choose|k: int| 0 <= k < body.len() && (#[trigger] body[k])[0] == ' ';
            assert(lines[k + 1][0] == ' ');
        }
        if exists|k: int| 1 <= k < lines.len() && (#[trigger] lines[k])[0] == ' ' {
            let k = choose|k: int| 1 <= k < lines.len() && (#[trigger] lines[k])[0] == ' ';
            assert(body[k - 1][0] == ' ');
        }
    }
    let hunk = hunk_under(h, body);
    lemma_side_from(body, 0, '-');
    lemma_side_from(body, 0, '+');
    let both = hunk.old + hunk.new;
    assert forall|j: int| 0 <= j < both.len() implies numbered(#[trigger] both[j]) is None by {
        if j < hunk.old.len() {
            assert(both[j] == hunk.old[j]);
        } else {
            assert(both[j] == hunk.new[j - hunk.old.len()]);
        }
    }
    lemma_no_numbers(both);
    assert(without_numbers(hunk) == hunk);
    assert(one_hunk(lines, 1, true) == Ok::<(HunkView, nat), ErrorView>((hunk, n as nat)));
    let found = Seq::<HunkView>::empty().push(hunk);
    assert(found =~= seq![hunk]);
    assert(hunks_from(lines, n, found) == Ok::<Seq<HunkView>, ErrorView>(found));
    assert(lines_of(bare_diff(diff)) == lines);
}

/// A diff of a header with two ranges and a body reads as one hunk: it begins where the
/// header says, its old lines are those marked with a space or `-`, and its new lines
/// those marked with a space or `+`.
#[verifier::rlimit(40)]
#[verifier::spinoff_prover]
pub proof fn law_ranges_diff(
    old: (nat, nat),
    new: (nat, nat),
    context: Option<Seq<char>>,
    body: Seq<Seq<char>>,
)
    requires
        1 <= old.0 <= usize::MAX && old.1 <= usize::MAX,
        1 <= new.0 <= usize::MAX && new.1 <= usize::MAX,
        context matches Some(c) ==> is_trim(c) && !c.contains('\n'),
        is_body(body),
    ensures
        hunks_of(joined(seq![header_text(old, new, context)] + body, "\n"@)) == Ok::<
            Seq<HunkView>,
            ErrorView,
        >(
            seq![
                HunkView {
                    context,
                    old_start: Some(old.0),
                    new_start: Some(new.0),
                    has_context: exists|k: int|
                        0 <= k < body.len() && (#[trigger] body[k])[0] == ' ',
                    old: side(body, 0, '-'),
                    new: side(body, 0, '+'),
                    eof: false,
                },
            ],
        ),
{
    law_ranges_head(old, new, context, 1, true);
    let header = header_text(old, new, context);
    let h = hunk_head(header, 1, true)->Ok_0;
    lemma_header_line(old, new, context);
    lemma_hunk_text(header, h, body);
    match context {
        Some(c) => {
            assert(h.contexts =~= seq![c]);
            lemma_joined_one(c);
        },
        None => {},
    }
}

/// A header with two ranges is one line, and begins as headers do.
#[verifier::rlimit(50)]
#[verifier::spinoff_prover]
proof fn lemma_header_line(old: (nat, nat), new: (nat, nat), context: Option<Seq<char>>)
    requires
        old.0 <= usize::MAX && old.1 <= usize::MAX,
        new.0 <= usize::MAX && new.1 <= usize::MAX,
        context matches Some(c) ==> !c.contains('\n'),
    ensures
        begins(header_text(old, new, context), "@@"@),
        !header_text(old, new, context).contains('\n'),
{
    let header = header_text(old, new, context);
    reveal_strlit("@@ -");
    reveal_strlit(" +");
    reveal_strlit(" @@");
    reveal_strlit(" ");
    reveal_strlit("@@");
    let a = range_text(old);
    let b = range_text(new);
    lemma_range_text(old);
    lemma_range_text(new);
    assert(header.subrange(0, 2) =~= "@@"@);
    assert forall|j: int| 0 <= j < header.len() implies header[j] != '\n' by {
        let m = a.len() as int;
        let e = 6 + m + b.len();
        if 4 <= j < 4 + m {
            assert(header[j] == a[j - 4]);
        } else if 6 + m <= j < e {
            assert(header[j] == b[j - 6 - m]);
        } else if j >= e + 4 {
            let c = context->0;
            assert(header[j] == c[j - e - 4]);
            assert(c.contains(c[j - e - 4]));
        }
    }
}

/// One text joined is that text.
proof fn lemma_joined_one(c: Seq<char>)
    ensures
        joined(seq![c], "\n"@) == c,
{
    assert(seq![c].drop_last() =~= Seq::<Seq<char>>::empty());
}

/// Whether a text behind `@@` is a context: it is neither a line hint, nor speaks of the
/// top of the file.
pub open spec fn is_plain_context(c: Seq<char>) -> bool {
    &&& is_trim(c)
    &&& !c.contains('\n')
    &&& !c.contains('@')
    &&& !begins(lowered(c), "line "@)
    &&& !begins(lowered(c), "lines "@)
    &&& lowered(c) != "top of file"@
    &&& lowered(c) != "start of file"@
    &&& lowered(c) != "beginning of file"@
}

/// A diff of a header with a context and a body reads as one hunk under that context,
/// which says nothing of where it begins. With a bare `@@` it has no context.
#[verifier::rlimit(40)]
#[verifier::spinoff_prover]
pub proof fn law_context_diff(context: Option<Seq<char>>, body: Seq<Seq<char>>)
    requires
        context matches Some(c) ==> is_plain_context(c),
        is_body(body),
    ensures
        ({
            let header = match context {
                Some(c) => "@@ "@ + c,
                None => "@@"@,
            };
            hunks_of(joined(seq![header] + body, "\n"@)) == Ok::<Seq<HunkView>, ErrorView>(
                seq![
                    HunkView {
                        context,
                        old_start: None,
                        new_start: None,
                        has_context: exists|k: int|
                            0 <= k < body.len() && (#[trigger] body[k])[0] == ' ',
                        old: side(body, 0, '-'),
                        new: side(body, 0, '+'),
                        eof: false,
                    },
                ],
            )
        }),
{
    reveal_strlit("@@ ");
    reveal_strlit("@@");
    let header = match context {
        Some(c) => "@@ "@ + c,
        None => "@@"@,
    };
    assert(header.subrange(0, 2) =~= "@@"@);
    assert(trimmed_end(header) == header) by {
        assert(header.last() == match context {
            Some(c) => c.last(),
            None => '@',
        });
    }
    assert forall|j: int| 0 <= j < header.len() implies header[j] != '\n' by {
        if j >= 3 {
            let c = context->0;
            assert(header[j] == c[j - 3]);
            assert(c.contains(c[j - 3]));
        }
    }
    match context {
        Some(c) => {
            assert forall|j: int| 2 <= j < header.len() implies #[trigger] header[j] != '@' by {
                if j >= 3 {
                    assert(header[j] == c[j - 3]);
                    assert(c.contains(c[j - 3]));
                }
            }
            lemma_not_found(header, "@@"@, 2);
            assert(!ends(header, "@@"@)) by {
                if ends(header, "@@"@) {
                    let m = header.len() as int;
                    assert(header.subrange(m - 2, m)[1] == header[m - 1]);
                }
            }
            assert(header.subrange(0, 3) =~= "@@ "@);
            assert(header.skip(3) =~= c);
            lemma_untrimmed(c);
            assert(!begins(c, "@@"@)) by {
                if begins(c, "@@"@) {
                    assert(c.subrange(0, 2)[0] == c[0]);
                    assert(c.contains(c[0]));
                }
            }
            assert(hunk_head(header, 1, true) == Ok::<HeadView, ErrorView>(context_head(c)));
            lemma_joined_one(c);
        },
        None => {
            assert(hunk_head(header, 1, true) == Ok::<HeadView, ErrorView>(plain_head()));
        },
    }
    lemma_hunk_text(header, hunk_head(header, 1, true)->Ok_0, body);
}

/// A hint of a line, or of a range of lines, gives the line, or the first of them.
#[verifier::rlimit(40)]
#[verifier::spinoff_prover]
pub proof fn law_line_hint(n: nat, m: nat)
    requires
        n <= usize::MAX,
    ensures
        line_hint("line "@ + decimal(n)) == Some(n),
        line_hint("lines "@ + decimal(n)) == Some(n),
        line_hint("lines "@ + decimal(n) + "-"@ + decimal(m)) == Some(n),
        line_hint("Line "@ + decimal(n) + " @@"@) == Some(n),
{
    reveal_strlit("line ");
    reveal_strlit("lines ");
    reveal_strlit("Line ");
    reveal_strlit("-");
    reveal_strlit(" @@");
    reveal_strlit("@@");
    let a = decimal(n);
    let b = decimal(m);
    lemma_decimal(n);
    lemma_decimal(m);
    law_decimal_round_trip(n);
    assert forall|j: int| 0 <= j < a.len() implies #[trigger] a[j] != '-' && !is_white(a[j])
        && lower(a[j]) == a[j] && a[j] != '@' by {
        assert(is_digit(a[j]));
    }
    assert forall|j: int| 0 <= j < b.len() implies #[trigger] b[j] != '@' && lower(b[j]) == b[j]
        && !is_white(b[j]) by {
        assert(is_digit(b[j]));
    }
    lemma_untrimmed(a);
    lemma_not_found(a, seq!['-'], 0);
    assert(!ends(a, "@@"@)) by {
        if ends(a, "@@"@) {
            assert(a.subrange(a.len() - 2, a.len() as int)[1] == a[a.len() - 1]);
        }
    }
    let s1 = "line "@ + a;
    assert(lowered(s1) =~= s1);
    assert(s1.subrange(0, 5) =~= "line "@);
    assert(s1.skip(5) =~= a);
    assert(!begins(s1, "lines "@)) by {
        if begins(s1, "lines "@) {
            assert(s1.subrange(0, 6)[4] == s1[4]);
        }
    }
    let s2 = "lines "@ + a;
    assert(lowered(s2) =~= s2);
    assert(s2.subrange(0, 6) =~= "lines "@);
    assert(s2.skip(6) =~= a);
    let s3 = "lines "@ + a + "-"@ + b;
    let r3 = a + seq!['-'] + b;
    assert(lowered(s3) =~= s3);
    assert(s3.subrange(0, 6) =~= "lines "@);
    assert(s3.skip(6) =~= r3);
    assert(r3.last() == b[b.len() - 1]);
    assert(r3[0] == a[0]);
    lemma_untrimmed(r3);
    assert(!ends(r3, "@@"@)) by {
        if ends(r3, "@@"@) {
            assert(r3.subrange(r3.len() - 2, r3.len() as int)[1] == r3[r3.len() - 1]);
        }
    }
    assert(!a.contains('-'));
    lemma_index_after(a, seq!['-'], b);
    assert(r3.take(a.len() as int) =~= a);
    let s4 = "Line "@ + a + " @@"@;
    let r4 = a + " @@"@;
    let l4 = "line "@ + r4;
    assert(lowered(s4) =~= l4);
    assert(l4.subrange(0, 5) =~= "line "@);
    assert(l4.skip(5) =~= r4);
    assert(!begins(l4, "lines "@)) by {
        if begins(l4, "lines "@) {
            assert(l4.subrange(0, 6)[4] == l4[4]);
        }
    }
    assert(r4.subrange(r4.len() - 2, r4.len() as int) =~= "@@"@);
    let t4 = r4.take(r4.len() - 2);
    assert(t4 =~= a + seq![' ']);
    lemma_trimmed_end_add(a, seq![' ']);
    assert(trimmed(t4) == a);
}

/// A file that a marker names is among those that are named.
proof fn lemma_named(lines: Seq<Seq<char>>, i: int, path: Seq<char>)
    requires
        0 <= i < lines.len(),
        !is_content(lines[i]),
        marker_path(trimmed(lines[i])) == Some(path),
    ensures
        marked_files(lines).contains(path),
    decreases lines.len(),
{
    let before = marked_files(lines.drop_last());
    let all = marked_files(lines);
    if i < lines.len() - 1 {
        lemma_named(lines.drop_last(), i, path);
        let k = choose|k: int| 0 <= k < before.len() && before[k] == path;
        assert(all[k] == path);
    } else if !before.contains(path) {
        assert(all[all.len() - 1] == path);
    }
}

/// A diff that names two files is refused.
pub proof fn law_two_files_refused(lines: Seq<Seq<char>>, i: int, j: int, a: Seq<char>, b: Seq<char>)
    requires
        0 <= i < lines.len(),
        0 <= j < lines.len(),
        forall|k: int| 0 <= k < lines.len() ==> !(#[trigger] lines[k]).contains('\n'),
        is_trim(a),
        is_trim(b),
        a != b,
        lines[i] == "*** Update File: "@ + a,
        lines[j] == "*** Update File: "@ + b,
    ensures
        hunks_of(joined(lines, "\n"@)) matches Err(ErrorView::ApplyError { message: _ }),
{
    reveal_strlit("\n");
    assert("\n"@ =~= seq!['\n']);
    law_pieces_join(lines, '\n');
    lemma_update_marker(a);
    lemma_update_marker(b);
    lemma_named(lines, i, a);
    lemma_named(lines, j, b);
    let all = marked_files(lines);
    let x = choose|x: int| 0 <= x < all.len() && all[x] == a;
    let y = choose|y: int| 0 <= y < all.len() && all[y] == b;
    assert(all[x] == a && all[y] == b);
    assert(all.len() > 1);
}

/// A marker for an update names its file.
proof fn lemma_update_marker(path: Seq<char>)
    requires
        is_trim(path),
    ensures
        ({
            let line = "*** Update File: "@ + path;
            &&& !is_content(line)
            &&& trimmed(line) == line
            &&& marker_path(line) == Some(path)
            &&& is_file_marker(line)
        }),
{
    reveal_strlit("*** Update File: ");
    reveal_strlit("*** Update File:");
    reveal_strlit("diff --git ");
    let line = "*** Update File: "@ + path;
    assert(line[0] == '*');
    assert(line.last() == path.last());
    lemma_untrimmed(line);
    if begins(line, "diff --git "@) {
        assert(line.subrange(0, "diff --git "@.len() as int)[0] == line[0]);
    }
    assert(line.subrange(0, 16) =~= "*** Update File:"@);
    assert(line.skip(16) =~= seq![' '] + path);
    lemma_trimmed_lead(' ', path);
    lemma_untrimmed(path);
}

/// The lines around a diff for one file that begin and end a patch, and the one that names
/// the file, do not count: the hunks are those of the lines between them.
#[verifier::rlimit(40)]
#[verifier::spinoff_prover]
pub proof fn law_wrapped_diff(path: Seq<char>, inner: Seq<Seq<char>>)
    requires
        is_trim(path),
        !path.contains('\n'),
        inner.len() > 0,
        inner[0].len() > 0 && inner[0][0] == '@',
        forall|k: int| 0 <= k < inner.len() ==> !(#[trigger] inner[k]).contains('\n'),
        forall|k: int| 1 <= k < inner.len() ==> is_content(#[trigger] inner[k]),
        !begins(trimmed(inner.last()), "***"@),
    ensures
        ({
            let wrapped = seq!["*** Begin Patch"@, "*** Update File: "@ + path] + inner
                + seq!["*** End Patch"@];
            hunks_of(joined(wrapped, "\n"@)) == hunks_of(joined(inner, "\n"@))
        }),
{
    reveal_strlit("\n");
    reveal_strlit("***");
    reveal_strlit("*** Begin Patch");
    reveal_strlit("*** End Patch");
    reveal_strlit("*** Update File: ");
    assert("\n"@ =~= seq!['\n']);
    let begin = "*** Begin Patch"@;
    let end = "*** End Patch"@;
    let marker = "*** Update File: "@ + path;
    let wrapped = seq![begin, marker] + inner + seq![end];
    let n = wrapped.len() as int;
    lemma_update_marker(path);
    lemma_untrimmed(begin);
    lemma_untrimmed(end);
    lemma_trimmed_keeps(inner[0]);
    lemma_at_sign(trimmed(inner[0]));
    assert forall|k: int| 0 <= k < n implies !(#[trigger] wrapped[k]).contains('\n') by {
        if k == 1 {
            assert forall|j: int| 0 <= j < marker.len() implies marker[j] != '\n' by {
                if j >= 17 {
                    assert(marker[j] == path[j - 17]);
                    assert(path.contains(path[j - 17]));
                }
            }
        } else if 2 <= k < n - 1 {
            assert(wrapped[k] == inner[k - 2]);
        }
    }
    law_pieces_join(wrapped, '\n');
    law_pieces_join(inner, '\n');
    // The files that are named.
    assert forall|k: int| 0 <= k < inner.len() implies is_content(#[trigger] inner[k])
        || marker_path(trimmed(inner[k])) is None by {}
    lemma_no_files(inner);
    let p = path;
    assert forall|k: int| 0 <= k < n implies #[trigger] names_at_most(wrapped[k], p) by {
        if 2 <= k < n - 1 {
            assert(wrapped[k] == inner[k - 2]);
        } else if k == 0 {
            lemma_patch_marker(begin);
        } else if k == n - 1 {
            lemma_patch_marker(end);
        }
    }
    lemma_one_file(wrapped, p);
    // The lines that stay.
    assert forall|k: int| 0 <= k < inner.len() implies stays(#[trigger] inner[k]) by {}
    lemma_staying_all(inner);
    assert(!begins(trimmed(inner.last()), end)) by {
        let t = trimmed(inner.last());
        if begins(t, end) {
            assert(t.subrange(0, 3) =~= t.subrange(0, 13).subrange(0, 3));
            assert(end.subrange(0, 3) =~= "***"@);
        }
    }
    assert(trimmed(inner.last()) != "***"@) by {
        if trimmed(inner.last()) == "***"@ {
            assert("***"@.subrange(0, 3) =~= "***"@);
        }
    }
    let last = inner.last();
    assert(!(last.len() == 0 || (is_blank(last) && !is_content(last)))) by {
        if inner.len() == 1 {
            assert(trimmed(last).len() > 0);
        } else {
            assert(is_content(inner[inner.len() - 1]));
        }
    }
    assert(without_tail(inner) == inner);
    assert(unwrapped(inner) == inner);
    assert(without_tail(wrapped) == wrapped);
    assert(begin.subrange(0, 15) =~= begin);
    assert(end.subrange(0, 13) =~= end);
    let rest = wrapped.skip(1);
    assert(rest[0] == marker);
    assert(marker != "***"@);
    assert(rest.last() == end);
    let kept = rest.drop_last();
    assert(kept =~= seq![marker] + inner);
    assert(kept.last() == last);
    assert(unwrapped(wrapped) == kept);
    lemma_first_gone(marker, inner);
}

/// Whether a line names the file, or none.
spec fn names_at_most(line: Seq<char>, path: Seq<char>) -> bool {
    is_content(line) || marker_path(trimmed(line)) is None || marker_path(trimmed(line)) == Some(
        path,
    )
}

/// The lines that begin and end a patch name no file.
proof fn lemma_patch_marker(line: Seq<char>)
    requires
        line == "*** Begin Patch"@ || line == "*** End Patch"@,
    ensures
        marker_path(trimmed(line)) is None,
{
    reveal_strlit("*** Begin Patch");
    reveal_strlit("*** End Patch");
    reveal_strlit("*** Update File:");
    reveal_strlit("*** Add File:");
    reveal_strlit("*** Delete File:");
    reveal_strlit("diff --git ");
    lemma_untrimmed(line);
    assert forall|p: Seq<char>| p.len() > 4 && p[4] != line[4] implies !#[trigger] begins(
        line,
        p,
    ) by {
        if begins(line, p) {
            assert(line.subrange(0, p.len() as int)[4] == line[4]);
        }
    }
}

/// Lines that name one file at most name no two.
proof fn lemma_one_file(lines: Seq<Seq<char>>, path: Seq<char>)
    requires
        forall|k: int| 0 <= k < lines.len() ==> #[trigger] names_at_most(lines[k], path),
    ensures
        marked_files(lines).len() <= 1,
        marked_files(lines).len() == 1 ==> marked_files(lines)[0] == path,
    decreases lines.len(),
{
    if lines.len() > 0 {
        let before = lines.drop_last();
        assert forall|k: int| 0 <= k < before.len() implies #[trigger] names_at_most(
            before[k],
            path,
        ) by {
            assert(names_at_most(lines[k], path));
        }
        lemma_one_file(before, path);
        assert(names_at_most(lines[lines.len() - 1], path));
        let m = marked_files(before);
        if m.len() == 1 {
            assert(m.contains(m[0]));
        }
    }
}

/// A first line that does not stay is not there.
proof fn lemma_first_gone(first: Seq<char>, lines: Seq<Seq<char>>)
    requires
        !stays(first),
    ensures
        staying(seq![first] + lines) == staying(lines),
    decreases lines.len(),
{
    let all = seq![first] + lines;
    if lines.len() == 0 {
        assert(all.drop_last() =~= Seq::<Seq<char>>::empty());
        assert(staying(all.drop_last()) =~= Seq::<Seq<char>>::empty());
        assert(all.last() == first);
        assert(staying(lines) =~= staying(all));
    } else {
        lemma_first_gone(first, lines.drop_last());
        assert(all.drop_last() =~= seq![first] + lines.drop_last());
        assert(all.last() == lines.last());
    }
}

/// A hunk whose marked lines are followed by the mark for the end of the file ends the
/// file, and has no other lines.
pub proof fn law_end_of_file(lines: Seq<Seq<char>>, i: int, b: BodyView, n: int)
    requires
        0 <= i < lines.len(),
        b.parsed > 0 || i < lines.len() - 1,
        forall|k: int| i <= k < lines.len() - 1 ==> is_marked(#[trigger] lines[k]),
        lines.last() == "*** End of File"@,
    ensures
        hunk_body(lines, i, b, n) matches Ok(x) && {
            &&& x.eof
            &&& x.old == b.old + side(lines.drop_last(), i, '-')
            &&& x.new == b.new + side(lines.drop_last(), i, '+')
            &&& x.parsed == b.parsed + (lines.len() - i)
        },
    decreases lines.len() - i,
{
    reveal_strlit("...");
    reveal_strlit("…");
    reveal_strlit("*** End of File");
    let body = lines.drop_last();
    let line = lines[i];
    if i == lines.len() - 1 {
        let mark = "*** End of File"@;
        assert(mark.subrange(0, mark.len() as int) =~= mark);
        lemma_untrimmed(mark);
        assert(!is_content(mark));
        assert(b.old + side(body, i, '-') =~= b.old);
        assert(b.new + side(body, i, '+') =~= b.new);
    } else {
        assert(is_marked(line));
        assert(body[i] == line);
        lemma_trimmed_keeps(line);
        if line[0] != ' ' {
            assert(!is_white(line[0]));
            assert(trimmed(line)[0] == line[0]);
            assert("..."@[0] == '.');
            assert("…"@[0] == '…');
        }
        let step = body_step(lines, i, b, n);
        assert(step is More);
        let next = step->More_0;
        law_end_of_file(lines, i + 1, next, n);
        let rest = line.skip(1);
        assert(b.old.push(rest) + side(body, i + 1, '-') =~= b.old + (seq![rest] + side(
            body,
            i + 1,
            '-',
        )));
        assert(b.new.push(rest) + side(body, i + 1, '+') =~= b.new + (seq![rest] + side(
            body,
            i + 1,
            '+',
        )));
    }
}

} // verus!
