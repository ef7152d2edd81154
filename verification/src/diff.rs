//! Diff generation and replace-mode utilities.
//!
//! Provides diff string generation (numbered and unified) and the replace-mode
//! edit logic used when not in patch mode.

use similar::{ChangeTag, DiffTag, TextDiff};
use crate::double::{Double, FRACTION, ONE, at_least};
use crate::error::{EditError, ErrorView, outcome};
use crate::fuzzy::{
    DEFAULT_FUZZY_THRESHOLD, FuzzyMatch, MatchOutcome, MatchView, OutcomeView, count_matches,
    find_match, find_match_among, fit, found, found_among, indented, ints, law_found_indented,
    law_lines_replaced, law_several_occurrences, law_single_occurrence, law_whole_lines,
    lemma_found_nowhere, lemma_tally_joined, max, nats, opt_match, replace_match, tally,
    threshold_or_default, window, window_score, with_match_replaced,
};
use crate::normalize::{
    adjust_indentation, adjusted, has_solid, is_indented_by, law_lf_keeps, law_moved_right,
    lemma_indented_line, lemma_lf_nonempty, lines_of, normalize_to_lf, push_times, same_but_indent,
    spaces, times, with_lf,
};
use crate::text::{
    before_suffix, capped, decimal, index_from, is_blank, join, joined, law_join_pieces,
    law_pieces_clean, law_pieces_join, lemma_index_after, lemma_joined_add, lemma_not_found,
    lemma_pieces_nonempty, occurs_at, opt_nat, push_text, replace, replaced, same, show, splice,
    spliced, split_on, strip_suffix, to_chars, trim_end, trimmed_end, views,
};
use vstd::prelude::*;
use vstd::string::*;

verus! {

/// What is done with a line.
#[derive(Debug, Clone, Copy, PartialEq, Eq, Structural)]
pub enum LineTag {
    /// The line stays.
    Equal,
    /// The line is removed.
    Delete,
    /// The line is added.
    Insert,
}

/// What is done with a range of lines.
#[derive(Debug, Clone, Copy, PartialEq, Eq, Structural)]
pub enum SpanTag {
    /// The lines stay.
    Equal,
    /// The lines are removed.
    Delete,
    /// The lines are added.
    Insert,
    /// Lines are removed, and others added.
    Replace,
}

/// A line of a diff.
#[derive(Debug)]
pub struct DiffLine {
    /// What is done with it.
    pub tag: LineTag,
    /// Its index in the old text.
    pub old_index: Option<usize>,
    /// Its index in the new text.
    pub new_index: Option<usize>,
    /// The line, with its line feed.
    pub text: String,
}

/// A line of a diff, by its contents.
pub ghost struct DiffLineView {
    /// What is done with it.
    pub tag: LineTag,
    /// Its index in the old text.
    pub old_index: Option<nat>,
    /// Its index in the new text.
    pub new_index: Option<nat>,
    /// The line, with its line feed.
    pub text: Seq<char>,
}

impl View for DiffLine {
    type V = DiffLineView;

    open spec fn view(&self) -> DiffLineView {
        DiffLineView {
            tag: self.tag,
            old_index: opt_nat(self.old_index),
            new_index: opt_nat(self.new_index),
            text: self.text@,
        }
    }
}

/// The lines, by their contents.
pub open spec fn diff_line_views(v: Seq<DiffLine>) -> Seq<DiffLineView> {
    Seq::new(v.len(), |i: int| v[i]@)
}

/// A line of a range.
#[derive(Debug)]
pub struct SpanLine {
    /// What is done with it.
    pub tag: LineTag,
    /// The line, with its line feed.
    pub text: String,
}

/// A line of a range, by its contents.
pub ghost struct SpanLineView {
    /// What is done with it.
    pub tag: LineTag,
    /// The line, with its line feed.
    pub text: Seq<char>,
}

impl View for SpanLine {
    type V = SpanLineView;

    open spec fn view(&self) -> SpanLineView {
        SpanLineView { tag: self.tag, text: self.text@ }
    }
}

/// A range of lines of a diff.
#[derive(Debug)]
pub struct DiffSpan {
    /// What is done with it.
    pub tag: SpanTag,
    /// Its lines in the old text.
    pub old: std::ops::Range<usize>,
    /// Its lines in the new text.
    pub new: std::ops::Range<usize>,
    /// Its lines.
    pub lines: Vec<SpanLine>,
}

/// A range of lines of a diff, by its contents.
#[verifier::ext_equal]
pub ghost struct SpanView {
    /// What is done with it.
    pub tag: SpanTag,
    /// Where it begins in the old text.
    pub old_start: nat,
    /// Where it ends in the old text.
    pub old_end: nat,
    /// Where it begins in the new text.
    pub new_start: nat,
    /// Where it ends in the new text.
    pub new_end: nat,
    /// Its lines.
    pub lines: Seq<SpanLineView>,
}

impl View for DiffSpan {
    type V = SpanView;

    open spec fn view(&self) -> SpanView {
        SpanView {
            tag: self.tag,
            old_start: self.old.start as nat,
            old_end: self.old.end as nat,
            new_start: self.new.start as nat,
            new_end: self.new.end as nat,
            lines: Seq::new(self.lines@.len(), |i: int| self.lines@[i]@),
        }
    }
}

/// The ranges, by their contents.
pub open spec fn span_views(v: Seq<DiffSpan>) -> Seq<SpanView> {
    Seq::new(v.len(), |i: int| v[i]@)
}

/// Groups of ranges, by their contents.
pub open spec fn group_views(v: Seq<Vec<DiffSpan>>) -> Seq<Seq<SpanView>> {
    Seq::new(v.len(), |i: int| span_views(v[i]@))
}

/// A hunk of a unified diff.
#[derive(Debug)]
pub struct UnifiedHunk {
    /// Its header.
    pub header: String,
    /// The index in the new text where it begins.
    pub new_start: usize,
    /// Its lines.
    pub lines: Vec<DiffLine>,
}

/// A hunk of a unified diff, by its contents.
#[verifier::ext_equal]
pub ghost struct UnifiedView {
    /// Its header.
    pub header: Seq<char>,
    /// The index in the new text where it begins.
    pub new_start: nat,
    /// Its lines.
    pub lines: Seq<DiffLineView>,
}

impl View for UnifiedHunk {
    type V = UnifiedView;

    open spec fn view(&self) -> UnifiedView {
        UnifiedView {
            header: self.header@,
            new_start: self.new_start as nat,
            lines: diff_line_views(self.lines@),
        }
    }
}

/// The hunks, by their contents.
pub open spec fn unified_views(v: Seq<UnifiedHunk>) -> Seq<UnifiedView> {
    Seq::new(v.len(), |i: int| v[i]@)
}

/// What `similar::TextDiff::grouped_ops` gives for the line diff of two texts,
/// each operation with its changes.
pub uninterp spec fn grouped_spans(old: Seq<char>, new: Seq<char>, context: nat) -> Seq<
    Seq<SpanView>,
>;

/// The line diff of two texts by `similar::TextDiff::from_lines`, its operations
/// as `TextDiff::grouped_ops` groups them, and the changes of each from
/// `TextDiff::iter_changes`. It depends on the texts and the number of context
/// lines alone, and for equal texts there is no group. `grouped_ops` doubles
/// the number of context lines. `from_lines` numbers the distinct lines of long
/// texts with `u32`; that no two texts hold more of them is taken for granted.
#[verifier::external_body]
fn group_spans(old: &str, new: &str, context: usize) -> (r: Vec<Vec<DiffSpan>>)
    requires
        context <= usize::MAX / 2,
    ensures
        group_views(r@) == grouped_spans(old@, new@, context as nat),
        old@ == new@ ==> group_views(r@).len() == 0,
{
    let diff = TextDiff::from_lines(old, new);
    diff.grouped_ops(context).iter().map(|group| group.iter().map(|op| DiffSpan {
        tag: match op.tag() {
            DiffTag::Equal => SpanTag::Equal,
            DiffTag::Delete => SpanTag::Delete,
            DiffTag::Insert => SpanTag::Insert,
            DiffTag::Replace => SpanTag::Replace,
        }, old: op.old_range(), new: op.new_range(),
        lines: diff.iter_changes(op).map(|c| SpanLine { tag: match c.tag() {
            ChangeTag::Equal => LineTag::Equal,
            ChangeTag::Delete => LineTag::Delete,
            ChangeTag::Insert => LineTag::Insert,
        }, text: c.value().to_owned() }).collect(),
    }).collect()).collect()
}

/// What the hunks of `similar::TextDiff::unified_diff` are for the line diff of
/// two texts.
pub uninterp spec fn unified_hunks(old: Seq<char>, new: Seq<char>, context: nat) -> Seq<UnifiedView>;

/// The hunks, by `UnifiedDiff::iter_hunks` with `context_radius`, of the line
/// diff of two texts by `similar::TextDiff::from_lines`: the header of each as
/// it is displayed, the index where its first operation begins in the new
/// text, and its changes. They depend on the texts and the number of context
/// lines alone, and for equal texts there is none. A hunk holds an operation.
/// Grouping the changes doubles the number of context lines. The limit on
/// distinct lines is that of [`group_spans`].
#[verifier::external_body]
fn split_unified(old: &str, new: &str, context: usize) -> (r: Vec<UnifiedHunk>)
    requires
        context <= usize::MAX / 2,
    ensures
        unified_views(r@) == unified_hunks(old@, new@, context as nat),
        old@ == new@ ==> unified_views(r@).len() == 0,
{
    TextDiff::from_lines(old, new).unified_diff().context_radius(context).iter_hunks()
        .map(|h| UnifiedHunk { header: h.header().to_string(),
            new_start: h.ops()[0].new_range().start, lines: h.iter_changes()
            .map(|c| DiffLine { tag: match c.tag() {
                ChangeTag::Equal => LineTag::Equal,
                ChangeTag::Delete => LineTag::Delete,
                ChangeTag::Insert => LineTag::Insert,
            }, old_index: c.old_index(), new_index: c.new_index(), text: c.value().to_owned() })
            .collect() })
        .collect()
}

/// Result of a diff generation operation.
#[derive(Debug, Clone)]
pub struct DiffResult {
    /// The formatted diff string.
    pub diff: String,
    /// 1-indexed line number of the first change in the new file, if any.
    pub first_changed_line: Option<usize>,
}

/// The result of a diff generation, by its contents.
pub ghost struct DiffView {
    /// The formatted diff.
    pub diff: Seq<char>,
    /// The first changed line in the new file.
    pub first: Option<nat>,
}

impl View for DiffResult {
    type V = DiffView;

    open spec fn view(&self) -> DiffView {
        DiffView { diff: self.diff@, first: opt_nat(self.first_changed_line) }
    }
}

/// The number of lines of a text: an empty one behind a last line feed does not
/// count.
pub open spec fn content_lines(content: Seq<char>) -> nat {
    let lines = lines_of(content);
    if lines.len() > 1 && lines.last().len() == 0 {
        (lines.len() - 1) as nat
    } else {
        lines.len()
    }
}

/// Counts the number of meaningful content lines in `content`.
///
/// Splits on `\n` and drops a trailing empty element (from a final newline),
/// returning at least 1.
fn count_content_lines(content: &str) -> (r: usize)
    ensures
        r == content_lines(content@),
{
    let lines = split_on(content, '\n');
    let n: usize = lines.len();
    assert(lines_of(content@).len() == n);
    if n > 1 {
        assert(lines_of(content@).last() == lines@[n - 1]@);
        if lines[n - 1].as_str().is_empty() {
            return n - 1;
        }
    }
    n
}

/// A text with spaces before it, up to a width.
pub open spec fn padded(s: Seq<char>, width: nat) -> Seq<char> {
    if s.len() < width {
        spaces((width - s.len()) as nat) + s
    } else {
        s
    }
}

/// A numbered line of a diff.
pub open spec fn numbered_diff_line(
    prefix: char,
    number: nat,
    width: nat,
    content: Seq<char>,
) -> Seq<char> {
    seq![prefix] + padded(decimal(number), width) + "|"@ + content
}

/// Formats a single diff line with a sign prefix and right-aligned line number.
fn format_numbered_diff_line(prefix: char, line_num: usize, width: usize, content: &str) -> (r:
    String)
    ensures
        r@ == numbered_diff_line(prefix, line_num as nat, width as nat, content@),
{
    let number = show(line_num);
    let n: usize = number.as_str().unicode_len();
    let mut r: String = String::new();
    r.push(prefix);
    assert(r@ =~= seq![prefix]);
    let ghost head = r@;
    if n < width {
        push_times(&mut r, ' ', width - n);
        assert(r@ =~= head + spaces((width - n) as nat));
    }
    r.append(number.as_str());
    assert(r@ =~= head + padded(decimal(line_num as nat), width as nat));
    r.append("|");
    r.append(content);
    r
}

/// The width of the greatest line number of two texts.
pub open spec fn number_width(old: Seq<char>, new: Seq<char>) -> nat {
    decimal(max(content_lines(old) as int, content_lines(new) as int) as nat).len()
}

fn find_number_width(old: &str, new: &str) -> (r: usize)
    ensures
        r == number_width(old@, new@),
{
    let a = count_content_lines(old);
    let b = count_content_lines(new);
    let most: usize = if a <= b {
        b
    } else {
        a
    };
    show(most).as_str().unicode_len()
}

/// A line without its line feed.
pub open spec fn bare_line(text: Seq<char>) -> Seq<char> {
    match before_suffix(text, "\n"@) {
        Some(s) => s,
        None => text,
    }
}

pub(crate) fn strip_line_feed(text: &str) -> (r: &str)
    ensures
        r@ == bare_line(text@),
{
    match strip_suffix(text, "\n") {
        Some(s) => s,
        None => text,
    }
}

/// Line `i` of a range, as a numbered diff shows it. Lines that stay or are
/// removed have their number in the old text, and lines that are added that in
/// the new one.
pub open spec fn span_line(s: SpanView, i: int, width: nat) -> Seq<char> {
    let l = s.lines[i];
    let old_number = capped(s.old_start + i + 1);
    let text = bare_line(l.text);
    match s.tag {
        SpanTag::Equal => numbered_diff_line(' ', old_number, width, text),
        SpanTag::Delete => numbered_diff_line('-', old_number, width, text),
        SpanTag::Insert => numbered_diff_line('+', capped(s.new_start + i + 1), width, text),
        SpanTag::Replace => match l.tag {
            LineTag::Equal => numbered_diff_line(' ', old_number, width, text),
            LineTag::Delete => numbered_diff_line('-', old_number, width, text),
            LineTag::Insert => numbered_diff_line(
                '+',
                capped(s.new_start + max(i - max(s.old_end - s.old_start, 0), 0) + 1),
                width,
                text,
            ),
        },
    }
}

/// The lines of the first `n` ranges of a group.
pub open spec fn group_lines(group: Seq<SpanView>, n: int, width: nat) -> Seq<Seq<char>>
    decreases n,
{
    if n <= 0 {
        Seq::empty()
    } else {
        let s = group[n - 1];
        group_lines(group, n - 1, width) + Seq::new(
            s.lines.len(),
            |i: int| span_line(s, i, width),
        )
    }
}

/// Where the last range of the groups ends in the old text.
pub open spec fn groups_end(groups: Seq<Seq<SpanView>>) -> Option<nat>
    decreases groups.len(),
{
    if groups.len() == 0 {
        None
    } else if groups.last().len() > 0 {
        Some(groups.last().last().old_end)
    } else {
        groups_end(groups.drop_last())
    }
}

/// The line that stands for the lines left out before a group.
pub open spec fn gap_line(end: Option<nat>, group: Seq<SpanView>, width: nat) -> Seq<Seq<char>> {
    let start = if group.len() > 0 {
        group[0].old_start
    } else {
        0
    };
    if end is Some && start > end->0 {
        seq![numbered_diff_line(' ', capped(end->0 + 1int), width, "..."@)]
    } else {
        Seq::empty()
    }
}

/// The lines of the groups, with `...` where lines are left out between them.
pub open spec fn groups_lines(groups: Seq<Seq<SpanView>>, width: nat) -> Seq<Seq<char>>
    decreases groups.len(),
{
    if groups.len() == 0 {
        Seq::empty()
    } else {
        let before = groups.drop_last();
        let group = groups.last();
        groups_lines(before, width) + gap_line(groups_end(before), group, width) + group_lines(
            group,
            group.len() as int,
            width,
        )
    }
}

/// The line in the new text of the first change among the first `n` ranges.
pub open spec fn group_first(group: Seq<SpanView>, n: int) -> Option<nat>
    decreases n,
{
    if n <= 0 {
        None
    } else {
        match group_first(group, n - 1) {
            Some(f) => Some(f),
            None => if group[n - 1].tag == SpanTag::Equal {
                None
            } else {
                Some(capped(group[n - 1].new_start + 1int))
            },
        }
    }
}

/// The line in the new text of the first change.
pub open spec fn groups_first(groups: Seq<Seq<SpanView>>) -> Option<nat>
    decreases groups.len(),
{
    if groups.len() == 0 {
        None
    } else {
        match groups_first(groups.drop_last()) {
            Some(f) => Some(f),
            None => group_first(groups.last(), groups.last().len() as int),
        }
    }
}

/// A numbered diff, from its groups.
pub open spec fn numbered_diff(groups: Seq<Seq<SpanView>>, width: nat) -> DiffView {
    DiffView { diff: joined(groups_lines(groups, width), "\n"@), first: groups_first(groups) }
}

fn show_span_line(s: &DiffSpan, i: usize, width: usize) -> (r: String)
    requires
        i < s.lines@.len(),
    ensures
        r@ == span_line(s@, i as int, width as nat),
{
    let l = &s.lines[i];
    assert(s@.lines[i as int] == l@);
    let text = strip_line_feed(l.text.as_str());
    let old_number: usize = s.old.start.saturating_add(i).saturating_add(1);
    match s.tag {
        SpanTag::Equal => format_numbered_diff_line(' ', old_number, width, text),
        SpanTag::Delete => format_numbered_diff_line('-', old_number, width, text),
        SpanTag::Insert => {
            let number: usize = s.new.start.saturating_add(i).saturating_add(1);
            format_numbered_diff_line('+', number, width, text)
        },
        SpanTag::Replace => match l.tag {
            LineTag::Equal => format_numbered_diff_line(' ', old_number, width, text),
            LineTag::Delete => format_numbered_diff_line('-', old_number, width, text),
            LineTag::Insert => {
                let removed: usize = s.old.end.saturating_sub(s.old.start);
                let k: usize = i.saturating_sub(removed);
                let number: usize = s.new.start.saturating_add(k).saturating_add(1);
                format_numbered_diff_line('+', number, width, text)
            },
        },
    }
}

fn push_span(out: &mut Vec<String>, s: &DiffSpan, width: usize)
    ensures
        views(final(out)@) == views(old(out)@) + Seq::new(
            s@.lines.len(),
            |i: int| span_line(s@, i, width as nat),
        ),
{
    let ghost start = views(out@);
    let ghost target = Seq::new(s@.lines.len(), |i: int| span_line(s@, i, width as nat));
    let mut i: usize = 0;
    assert(start + target.take(0) =~= start);
    while i < s.lines.len()
        invariant
            i <= s.lines@.len(),
            target == Seq::new(s@.lines.len(), |i: int| span_line(s@, i, width as nat)),
            views(out@) == start + target.take(i as int),
        decreases s.lines@.len() - i,
    {
        let l = show_span_line(s, i, width);
        push_text(out, l.as_str());
        assert(start + target.take(i + 1) =~= (start + target.take(i as int)).push(
            target[i as int],
        ));
        i = i + 1;
    }
    assert(target.take(i as int) =~= target);
}

fn push_group(out: &mut Vec<String>, group: &[DiffSpan], width: usize)
    ensures
        views(final(out)@) == views(old(out)@) + group_lines(
            span_views(group@),
            group@.len() as int,
            width as nat,
        ),
{
    let ghost start = views(out@);
    let ghost g = span_views(group@);
    let mut i: usize = 0;
    assert(start + group_lines(g, 0, width as nat) =~= start);
    while i < group.len()
        invariant
            g == span_views(group@),
            i <= group@.len(),
            views(out@) == start + group_lines(g, i as int, width as nat),
        decreases group@.len() - i,
    {
        assert(g[i as int] == group@[i as int]@);
        let ghost before = views(out@);
        push_span(out, &group[i], width);
        assert(views(out@) =~= start + group_lines(g, i + 1, width as nat));
        i = i + 1;
    }
}

fn find_group_first(group: &[DiffSpan]) -> (r: Option<usize>)
    ensures
        opt_nat(r) == group_first(span_views(group@), group@.len() as int),
{
    let ghost g = span_views(group@);
    let mut first: Option<usize> = None;
    let mut i: usize = 0;
    while i < group.len()
        invariant
            g == span_views(group@),
            i <= group@.len(),
            opt_nat(first) == group_first(g, i as int),
        decreases group@.len() - i,
    {
        assert(g[i as int] == group@[i as int]@);
        if first.is_none() && group[i].tag != SpanTag::Equal {
            first = Some(group[i].new.start.saturating_add(1));
        }
        i = i + 1;
    }
    first
}

/// Renders the groups of a diff as a numbered diff.
pub fn render_numbered_diff(groups: &[Vec<DiffSpan>], width: usize) -> (r: DiffResult)
    ensures
        r@ == numbered_diff(group_views(groups@), width as nat),
{
    let ghost gs = group_views(groups@);
    let mut out: Vec<String> = Vec::new();
    let mut first: Option<usize> = None;
    let mut end: Option<usize> = None;
    let mut i: usize = 0;
    proof {
        assert(gs.take(0) =~= Seq::empty());
        assert(views(out@) =~= groups_lines(gs.take(0), width as nat));
    }
    while i < groups.len()
        invariant
            gs == group_views(groups@),
            i <= groups@.len(),
            views(out@) == groups_lines(gs.take(i as int), width as nat),
            opt_nat(first) == groups_first(gs.take(i as int)),
            opt_nat(end) == groups_end(gs.take(i as int)),
        decreases groups@.len() - i,
    {
        let group = &groups[i];
        let ghost g = span_views(group@);
        let ghost before = views(out@);
        proof {
            assert(gs.take(i + 1).drop_last() =~= gs.take(i as int));
            assert(gs.take(i + 1).last() == g);
            assert(g.len() == group@.len());
            if g.len() > 0 {
                assert(g[0] == group@[0]@);
                assert(g.last() == group@[group@.len() - 1]@);
            }
        }
        let start: usize = if group.len() > 0 {
            group[0].old.start
        } else {
            0
        };
        let gap = match end {
            Some(e) => start > e,
            None => false,
        };
        if gap {
            let e: usize = match end {
                Some(e) => e,
                None => 0,
            };
            let l = format_numbered_diff_line(' ', e.saturating_add(1), width, "...");
            push_text(&mut out, l.as_str());
            assert(views(out@) =~= before + gap_line(
                groups_end(gs.take(i as int)),
                g,
                width as nat,
            ));
        } else {
            assert(views(out@) =~= before + gap_line(
                groups_end(gs.take(i as int)),
                g,
                width as nat,
            ));
        }
        push_group(&mut out, group, width);
        if first.is_none() {
            first = find_group_first(group);
        }
        if group.len() > 0 {
            end = Some(group[group.len() - 1].old.end);
        }
        i = i + 1;
    }
    assert(gs.take(i as int) =~= gs);
    DiffResult { diff: join(&out, "\n"), first_changed_line: first }
}

/// Generates a diff string with line numbers and context.
///
/// Context lines are shown around changes; skipped regions are indicated with
/// `...` ellipsis lines.
pub fn generate_diff_string(old_content: &str, new_content: &str, context_lines: usize) -> (r:
    DiffResult)
    requires
        context_lines <= usize::MAX / 2,
    ensures
        r@ == numbered_diff(
            grouped_spans(old_content@, new_content@, context_lines as nat),
            number_width(old_content@, new_content@),
        ),
        old_content@ == new_content@ ==> r@.diff.len() == 0 && r@.first is None,
{
    let groups = group_spans(old_content, new_content, context_lines);
    let width = find_number_width(old_content, new_content);
    render_numbered_diff(&groups, width)
}

/// The sign of a line in a unified diff.
pub open spec fn line_sign(tag: LineTag) -> char {
    match tag {
        LineTag::Equal => ' ',
        LineTag::Delete => '-',
        LineTag::Insert => '+',
    }
}

/// The number of a line in a unified diff: that in the new text where it is
/// added, and else that in the old text.
pub open spec fn unified_number(l: DiffLineView) -> nat {
    let index = match l.tag {
        LineTag::Insert => l.new_index,
        _ => l.old_index,
    };
    match index {
        Some(i) => capped(i + 1int),
        None => 0,
    }
}

/// A line as a unified diff shows it.
pub open spec fn unified_line(l: DiffLineView, width: nat) -> Seq<char> {
    numbered_diff_line(line_sign(l.tag), unified_number(l), width, bare_line(l.text))
}

/// The lines of the hunks, each with its header before it.
pub open spec fn hunks_lines(hunks: Seq<UnifiedView>, width: nat) -> Seq<Seq<char>>
    decreases hunks.len(),
{
    if hunks.len() == 0 {
        Seq::empty()
    } else {
        let h = hunks.last();
        hunks_lines(hunks.drop_last(), width).push(trimmed_end(h.header)) + Seq::new(
            h.lines.len(),
            |i: int| unified_line(h.lines[i], width),
        )
    }
}

/// The first line from `i` on that is removed or added.
pub open spec fn first_change(lines: Seq<DiffLineView>, i: int) -> Option<int>
    decreases lines.len() - i,
{
    if i < 0 || i >= lines.len() {
        None
    } else if lines[i].tag != LineTag::Equal {
        Some(i)
    } else {
        first_change(lines, i + 1)
    }
}

/// The line in the new text of the first change of a hunk. The lines before it
/// stay, so it is as far from the hunk's beginning in the new text as it is
/// in the hunk.
pub open spec fn hunk_first(h: UnifiedView) -> Option<nat> {
    match first_change(h.lines, 0) {
        Some(k) => Some(capped(h.new_start + k + 1)),
        None => None,
    }
}

/// The line in the new text of the first change.
pub open spec fn hunks_first(hunks: Seq<UnifiedView>) -> Option<nat>
    decreases hunks.len(),
{
    if hunks.len() == 0 {
        None
    } else {
        match hunks_first(hunks.drop_last()) {
            Some(f) => Some(f),
            None => hunk_first(hunks.last()),
        }
    }
}

/// A unified diff, from its hunks.
pub open spec fn unified_diff(hunks: Seq<UnifiedView>, width: nat) -> DiffView {
    DiffView { diff: joined(hunks_lines(hunks, width), "\n"@), first: hunks_first(hunks) }
}

fn next_number(index: Option<usize>) -> (r: usize)
    ensures
        r == (match opt_nat(index) {
            Some(i) => capped(i + 1int),
            None => 0,
        }),
{
    match index {
        Some(i) => i.saturating_add(1),
        None => 0,
    }
}

fn show_unified_line(l: &DiffLine, width: usize) -> (r: String)
    ensures
        r@ == unified_line(l@, width as nat),
{
    let text = strip_line_feed(l.text.as_str());
    match l.tag {
        LineTag::Equal => format_numbered_diff_line(' ', next_number(l.old_index), width, text),
        LineTag::Delete => format_numbered_diff_line('-', next_number(l.old_index), width, text),
        LineTag::Insert => format_numbered_diff_line('+', next_number(l.new_index), width, text),
    }
}

fn push_hunk(out: &mut Vec<String>, lines: &[DiffLine], width: usize)
    ensures
        views(final(out)@) == views(old(out)@) + Seq::new(
            lines@.len(),
            |i: int| unified_line(diff_line_views(lines@)[i], width as nat),
        ),
{
    let ghost start = views(out@);
    let ghost ls = diff_line_views(lines@);
    let ghost target = Seq::new(lines@.len(), |i: int| unified_line(ls[i], width as nat));
    let mut i: usize = 0;
    assert(start + target.take(0) =~= start);
    while i < lines.len()
        invariant
            i <= lines@.len(),
            ls == diff_line_views(lines@),
            target == Seq::new(lines@.len(), |i: int| unified_line(ls[i], width as nat)),
            views(out@) == start + target.take(i as int),
        decreases lines@.len() - i,
    {
        assert(ls[i as int] == lines@[i as int]@);
        let l = show_unified_line(&lines[i], width);
        push_text(out, l.as_str());
        assert(start + target.take(i + 1) =~= (start + target.take(i as int)).push(
            target[i as int],
        ));
        i = i + 1;
    }
    assert(target.take(i as int) =~= target);
}

fn find_hunk_first(h: &UnifiedHunk) -> (r: Option<usize>)
    ensures
        opt_nat(r) == hunk_first(h@),
{
    let ghost ls = diff_line_views(h.lines@);
    let mut i: usize = 0;
    while i < h.lines.len()
        invariant
            ls == diff_line_views(h.lines@),
            i <= h.lines@.len(),
            first_change(ls, 0) == first_change(ls, i as int),
        decreases h.lines@.len() - i,
    {
        assert(ls[i as int] == h.lines@[i as int]@);
        if h.lines[i].tag != LineTag::Equal {
            return Some(h.new_start.saturating_add(i).saturating_add(1));
        }
        i = i + 1;
    }
    None
}

/// Renders the hunks of a unified diff.
pub fn render_unified_diff(hunks: &[UnifiedHunk], width: usize) -> (r: DiffResult)
    ensures
        r@ == unified_diff(unified_views(hunks@), width as nat),
{
    let ghost hs = unified_views(hunks@);
    let mut out: Vec<String> = Vec::new();
    let mut first: Option<usize> = None;
    let mut i: usize = 0;
    proof {
        assert(hs.take(0) =~= Seq::empty());
        assert(views(out@) =~= hunks_lines(hs.take(0), width as nat));
    }
    while i < hunks.len()
        invariant
            hs == unified_views(hunks@),
            i <= hunks@.len(),
            views(out@) == hunks_lines(hs.take(i as int), width as nat),
            opt_nat(first) == hunks_first(hs.take(i as int)),
        decreases hunks@.len() - i,
    {
        let h = &hunks[i];
        proof {
            assert(hs.take(i + 1).drop_last() =~= hs.take(i as int));
            assert(hs.take(i + 1).last() == h@);
        }
        push_text(&mut out, trim_end(h.header.as_str()));
        let ghost before = views(out@);
        push_hunk(&mut out, &h.lines, width);
        assert(views(out@) =~= hunks_lines(hs.take(i + 1), width as nat));
        if first.is_none() {
            first = find_hunk_first(h);
        }
        i = i + 1;
    }
    assert(hs.take(i as int) =~= hs);
    DiffResult { diff: join(&out, "\n"), first_changed_line: first }
}

/// Generates a unified diff string with `@@ -N,M +N,M @@` hunk headers.
pub fn generate_unified_diff_string(
    old_content: &str,
    new_content: &str,
    context_lines: usize,
) -> (r: DiffResult)
    requires
        context_lines <= usize::MAX / 2,
    ensures
        r@ == unified_diff(
            unified_hunks(old_content@, new_content@, context_lines as nat),
            number_width(old_content@, new_content@),
        ),
        old_content@ == new_content@ ==> r@.diff.len() == 0 && r@.first is None,
{
    let hunks = split_unified(old_content, new_content, context_lines);
    let width = find_number_width(old_content, new_content);
    render_unified_diff(&hunks, width)
}

/// Options for [`replace_text`].
#[derive(Debug, Clone)]
pub struct ReplaceOptions {
    /// Allow fuzzy matching when exact match fails.
    pub fuzzy: bool,
    /// Replace all occurrences instead of just the first.
    pub all: bool,
    /// Similarity threshold for fuzzy matching.
    pub threshold: Option<Double>,
}

/// Result of a [`replace_text`] operation.
#[derive(Debug, Clone)]
pub struct ReplaceResult {
    /// The content after replacements.
    pub content: String,
    /// Number of replacements made.
    pub count: usize,
}

/// The result of a replacement, by its contents.
pub ghost struct ReplaceView {
    /// The content after replacements.
    pub content: Seq<char>,
    /// Number of replacements made.
    pub count: nat,
}

impl View for ReplaceResult {
    type V = ReplaceView;

    open spec fn view(&self) -> ReplaceView {
        ReplaceView { content: self.content@, count: self.count as nat }
    }
}

/// The error for several exact occurrences where one is to be replaced.
pub open spec fn several_occurrences(count: nat, lines: Seq<nat>) -> ErrorView {
    let showing = if count > 5 {
        " (showing first 5 of "@ + decimal(count) + ")"@
    } else {
        Seq::empty()
    };
    ErrorView::ValidationError {
        message: "Found "@ + decimal(count) + " occurrences"@ + showing + ":\n"@ + joined(
            lines.map_values(|n: nat| "  line "@ + decimal(n)),
            "\n"@,
        ) + "\n\nAdd more context lines to disambiguate."@,
    }
}

/// What becomes of a text when the only place of `old` in it is replaced.
pub open spec fn replaced_once(
    content: Seq<char>,
    old: Seq<char>,
    new: Seq<char>,
    allow_fuzzy: bool,
    threshold: u64,
) -> Result<ReplaceView, ErrorView> {
    let o = found(content, old, allow_fuzzy, threshold);
    if o.occurrences is Some && o.occurrences->0 > 1 {
        Err(several_occurrences(o.occurrences->0, o.lines))
    } else {
        match o.matched {
            None => Ok(ReplaceView { content, count: 0 }),
            Some(m) => Ok(
                ReplaceView {
                    content: with_match_replaced(content, m, adjusted(old, m.text, new)),
                    count: 1,
                },
            ),
        }
    }
}

/// The match that is replaced next: the accepted one, or the closest where it
/// reaches the threshold and no other does.
pub open spec fn next_match(o: OutcomeView, allow_fuzzy: bool, threshold: u64) -> Option<MatchView> {
    if o.matched is Some {
        o.matched
    } else if allow_fuzzy && o.closest is Some && at_least(o.closest->0.confidence, threshold) && (
    o.fuzzy_matches is None || o.fuzzy_matches->0 <= 1) {
        o.closest
    } else {
        None
    }
}

/// Whether the `n` lines from `i` on are there, and none of them was written.
pub open spec fn is_untouched(written: Seq<bool>, i: int, n: int) -> bool {
    &&& 0 <= i
    &&& i + n <= written.len()
    &&& forall|k: int| i <= k < i + n ==> !#[trigger] written[k]
}

/// Where, before line `k`, windows of `n` lines begin of which none was written.
pub open spec fn untouched_places(written: Seq<bool>, n: int, k: int) -> Seq<int>
    decreases k,
{
    if k <= 0 {
        Seq::empty()
    } else {
        let before = untouched_places(written, n, k - 1);
        if is_untouched(written, k - 1, n) {
            before.push(k - 1)
        } else {
            before
        }
    }
}

/// The number of lines that were not written.
pub open spec fn untouched_count(written: Seq<bool>) -> nat
    decreases written.len(),
{
    if written.len() == 0 {
        0
    } else if written.last() {
        untouched_count(written.drop_last())
    } else {
        untouched_count(written.drop_last()) + 1
    }
}

/// The marks of lines, those from `a` to `b`, the last not counted, replaced by
/// `n` that were written.
pub open spec fn marked(written: Seq<bool>, a: int, b: int, n: nat) -> Seq<bool> {
    written.take(a) + Seq::new(n, |k: int| true) + written.skip(b)
}

/// The lines that were not written add up.
proof fn lemma_untouched_add(a: Seq<bool>, b: Seq<bool>)
    ensures
        untouched_count(a + b) == untouched_count(a) + untouched_count(b),
    decreases b.len(),
{
    if b.len() == 0 {
        assert(a + b =~= a);
    } else {
        assert((a + b).drop_last() =~= a + b.drop_last());
        lemma_untouched_add(a, b.drop_last());
    }
}

/// Where lines are replaced that were not written, fewer such lines are left.
pub proof fn lemma_fewer_untouched(written: Seq<bool>, i: int, n: int, m: nat)
    requires
        is_untouched(written, i, n),
        n > 0,
    ensures
        untouched_count(marked(written, i, i + n, m)) < untouched_count(written),
{
    let head = written.take(i);
    let part = written.subrange(i, i + n);
    let tail = written.skip(i + n);
    let put = Seq::new(m, |k: int| true);
    assert(written =~= head + part + tail);
    lemma_untouched_add(head + part, tail);
    lemma_untouched_add(head, part);
    lemma_untouched_add(head + put, tail);
    lemma_untouched_add(head, put);
    assert(part.last() == written[i + n - 1]);
    lemma_all_written(put);
}

/// No line is left where all were written.
proof fn lemma_all_written(written: Seq<bool>)
    requires
        forall|k: int| 0 <= k < written.len() ==> #[trigger] written[k],
    ensures
        untouched_count(written) == 0,
    decreases written.len(),
{
    if written.len() > 0 {
        lemma_all_written(written.drop_last());
    }
}

/// The next match: in the text as it stands, or where `apart`, among the lines
/// that were not written.
pub open spec fn next_found(
    lines: Seq<Seq<char>>,
    written: Seq<bool>,
    old: Seq<char>,
    allow_fuzzy: bool,
    threshold: u64,
    apart: bool,
) -> Option<MatchView> {
    let content = joined(lines, "\n"@);
    let at = untouched_places(written, lines_of(old).len() as int, written.len() as int);
    let o = if apart {
        found_among(content, old, at, allow_fuzzy, threshold)
    } else {
        found(content, old, allow_fuzzy, threshold)
    };
    next_match(o, allow_fuzzy, threshold)
}

/// Lines with one match after the other replaced, and the number of
/// replacements, after `count` were made. `written` marks the lines that they
/// wrote.
///
/// The text is searched as it stands. What was written may make a match
/// ambiguous, and is the end where it is the next match and would stay as it is.
/// But it is not replaced again: once the next match touches lines that were
/// written and would change them, only the other lines are searched on.
pub open spec fn replaced_in_turn(
    lines: Seq<Seq<char>>,
    written: Seq<bool>,
    old: Seq<char>,
    new: Seq<char>,
    allow_fuzzy: bool,
    threshold: u64,
    apart: bool,
    count: nat,
) -> (Seq<Seq<char>>, nat)
    decreases
            untouched_count(written),
            (if apart {
                0int
            } else {
                1int
            }),
{
    let n = lines_of(old).len() as int;
    match next_found(lines, written, old, allow_fuzzy, threshold, apart) {
        None => (lines, count),
        Some(m) => {
            let text = adjusted(old, m.text, new);
            let put = lines_of(text);
            let i = m.line - 1;
            if text == m.text {
                (lines, count)
            } else if n > 0 && is_untouched(written, i, n) && m.text == joined(
                window(lines, i, n),
                "\n"@,
            ) {
                proof {
                    lemma_fewer_untouched(written, i, n, put.len());
                }
                replaced_in_turn(
                    spliced(lines, i, i + n, put),
                    marked(written, i, i + n, put.len()),
                    old,
                    new,
                    allow_fuzzy,
                    threshold,
                    apart,
                    count + 1,
                )
            } else if !apart {
                replaced_in_turn(lines, written, old, new, allow_fuzzy, threshold, true, count)
            } else {
                (lines, count)
            }
        },
    }
}

/// Marks for lines none of which was written.
pub open spec fn unmarked(n: nat) -> Seq<bool> {
    Seq::new(n, |k: int| false)
}

/// What becomes of a text when every place of `old` in it is replaced: all
/// exact occurrences, or else similar places in turn.
pub open spec fn replaced_all(
    content: Seq<char>,
    old: Seq<char>,
    new: Seq<char>,
    allow_fuzzy: bool,
    threshold: u64,
) -> ReplaceView {
    if tally(content, old, 0) > 0 {
        ReplaceView { content: replaced(content, old, new), count: tally(content, old, 0) }
    } else {
        let lines = lines_of(content);
        let r = replaced_in_turn(
            lines,
            unmarked(lines.len()),
            old,
            new,
            allow_fuzzy,
            threshold,
            false,
            0,
        );
        ReplaceView { content: joined(r.0, "\n"@), count: r.1 }
    }
}

/// What [`replace_text`] answers.
pub open spec fn text_replaced(
    content: Seq<char>,
    old: Seq<char>,
    new: Seq<char>,
    options: ReplaceOptions,
) -> Result<ReplaceView, ErrorView> {
    let threshold = threshold_or_default(options.threshold);
    if old.len() == 0 {
        Err(ErrorView::ValidationError { message: "oldText must not be empty."@ })
    } else if options.all {
        Ok(replaced_all(with_lf(content), with_lf(old), with_lf(new), options.fuzzy, threshold))
    } else {
        replaced_once(with_lf(content), with_lf(old), with_lf(new), options.fuzzy, threshold)
    }
}

fn report_several_occurrences(count: usize, lines: &[usize]) -> (e: EditError)
    ensures
        e@ == several_occurrences(count as nat, nats(lines@)),
{
    let ghost f = |n: nat| "  line "@ + decimal(n);
    let ghost target = nats(lines@).map_values(f);
    let mut rows: Vec<String> = Vec::new();
    let mut i: usize = 0;
    while i < lines.len()
        invariant
            f == (|n: nat| "  line "@ + decimal(n)),
            target == nats(lines@).map_values(f),
            i <= lines@.len(),
            views(rows@) == target.take(i as int),
        decreases lines@.len() - i,
    {
        let mut row = "  line ".to_owned();
        row.append(show(lines[i]).as_str());
        push_text(&mut rows, row.as_str());
        assert(target.take(i + 1) =~= target.take(i as int).push(target[i as int]));
        i = i + 1;
    }
    assert(target.take(i as int) =~= target);
    let mut message = "Found ".to_owned();
    message.append(show(count).as_str());
    message.append(" occurrences");
    let ghost head = message@;
    if count > 5 {
        message.append(" (showing first 5 of ");
        message.append(show(count).as_str());
        message.append(")");
        assert(message@ =~= head + (" (showing first 5 of "@ + decimal(count as nat) + ")"@));
    } else {
        assert(message@ =~= head + Seq::empty());
    }
    message.append(":\n");
    message.append(join(&rows, "\n").as_str());
    message.append("\n\nAdd more context lines to disambiguate.");
    EditError::ValidationError { message }
}

fn replace_once(
    content: String,
    old: &str,
    new: &str,
    allow_fuzzy: bool,
    threshold: Double,
) -> (r: Result<ReplaceResult, EditError>)
    ensures
        outcome(r) == replaced_once(content@, old@, new@, allow_fuzzy, threshold.bits),
{
    let o = find_match(content.as_str(), old, allow_fuzzy, Some(threshold));
    match o.occurrences {
        Some(n) => {
            if n > 1 {
                return Err(report_several_occurrences(n, &o.occurrence_lines));
            }
        },
        None => {},
    }
    match &o.matched {
        None => Ok(ReplaceResult { content, count: 0 }),
        Some(m) => {
            let text = adjust_indentation(old, m.actual_text.as_str(), new);
            Ok(
                ReplaceResult {
                    content: replace_match(content.as_str(), m, text.as_str()),
                    count: 1,
                },
            )
        },
    }
}

fn choose_next(o: MatchOutcome, allow_fuzzy: bool, threshold: Double) -> (r: Option<FuzzyMatch>)
    ensures
        opt_match(r) == next_match(o@, allow_fuzzy, threshold.bits),
{
    if o.matched.is_some() {
        return o.matched;
    }
    let single = match o.fuzzy_matches {
        Some(n) => n <= 1,
        None => true,
    };
    match o.closest {
        Some(c) => {
            if allow_fuzzy && single && c.confidence.ge(threshold) {
                Some(c)
            } else {
                None
            }
        },
        None => None,
    }
}

/// Whether the `n` lines from `i` on are there, and none of them was written.
fn check_untouched(written: &[bool], i: usize, n: usize) -> (r: bool)
    ensures
        r == is_untouched(written@, i as int, n as int),
{
    let total: usize = written.len();
    if n > total || i > total - n {
        return false;
    }
    let mut k: usize = i;
    while k < i + n
        invariant
            i + n <= total,
            total == written@.len(),
            i <= k <= i + n,
            forall|j: int| i <= j < k ==> !#[trigger] written@[j],
        decreases i + n - k,
    {
        if written[k] {
            return false;
        }
        k = k + 1;
    }
    true
}

/// Where windows of `n` lines begin of which none was written.
fn list_untouched(written: &[bool], n: usize) -> (r: Vec<usize>)
    ensures
        ints(r@) == untouched_places(written@, n as int, written@.len() as int),
        fit(ints(r@), n as int, written@.len() as int),
{
    let mut at: Vec<usize> = Vec::new();
    let mut k: usize = 0;
    assert(ints(at@) =~= Seq::<int>::empty());
    while k < written.len()
        invariant
            k <= written@.len(),
            ints(at@) == untouched_places(written@, n as int, k as int),
            fit(ints(at@), n as int, written@.len() as int),
        decreases written@.len() - k,
    {
        if check_untouched(written, k, n) {
            let ghost before = at@;
            at.push(k);
            assert(ints(at@) =~= ints(before).push(k as int));
        }
        k = k + 1;
    }
    at
}

/// Marks lines as written in place of those from `a` to `b`, the last not counted.
fn mark(written: &[bool], a: usize, b: usize, n: usize) -> (r: Vec<bool>)
    requires
        a <= b <= written@.len(),
    ensures
        r@ == marked(written@, a as int, b as int, n as nat),
{
    let mut out: Vec<bool> = Vec::new();
    let mut k: usize = 0;
    while k < a
        invariant
            k <= a <= written@.len(),
            out@ == written@.take(k as int),
        decreases a - k,
    {
        out.push(written[k]);
        assert(written@.take(k + 1) =~= written@.take(k as int).push(written@[k as int]));
        k = k + 1;
    }
    k = 0;
    assert(out@ =~= written@.take(a as int) + Seq::new(0, |j: int| true));
    while k < n
        invariant
            k <= n,
            out@ == written@.take(a as int) + Seq::new(k as nat, |j: int| true),
        decreases n - k,
    {
        let ghost before = out@;
        out.push(true);
        assert(out@ =~= written@.take(a as int) + Seq::new((k + 1) as nat, |j: int| true));
        k = k + 1;
    }
    k = b;
    let ghost head = out@;
    while k < written.len()
        invariant
            b <= k <= written@.len(),
            out@ == head + written@.subrange(b as int, k as int),
        decreases written@.len() - k,
    {
        out.push(written[k]);
        assert(written@.subrange(b as int, k + 1) =~= written@.subrange(b as int, k as int).push(
            written@[k as int],
        ));
        assert(out@ =~= head + written@.subrange(b as int, k + 1));
        k = k + 1;
    }
    assert(written@.subrange(b as int, written@.len() as int) =~= written@.skip(b as int));
    out
}

/// Marks `n` lines as not written.
fn unmark(n: usize) -> (r: Vec<bool>)
    ensures
        r@ == unmarked(n as nat),
{
    let mut out: Vec<bool> = Vec::new();
    let mut k: usize = 0;
    while k < n
        invariant
            k <= n,
            out@ == unmarked(k as nat),
        decreases n - k,
    {
        out.push(false);
        assert(out@ =~= unmarked((k + 1) as nat));
        k = k + 1;
    }
    out
}

/// No more lines are left than there are.
proof fn lemma_untouched_most(written: Seq<bool>)
    ensures
        untouched_count(written) <= written.len(),
    decreases written.len(),
{
    if written.len() > 0 {
        lemma_untouched_most(written.drop_last());
    }
}

/// Whether no line holds a line feed.
spec fn are_lines(lines: Seq<Seq<char>>) -> bool {
    lines.len() > 0 && forall|i: int| 0 <= i < lines.len() ==> !(#[trigger] lines[i]).contains('\n')
}

/// Lines put in place of others are lines.
proof fn lemma_spliced_lines(lines: Seq<Seq<char>>, a: int, b: int, text: Seq<char>)
    requires
        are_lines(lines),
        0 <= a <= b <= lines.len(),
    ensures
        are_lines(spliced(lines, a, b, lines_of(text))),
{
    lemma_pieces_nonempty(text, '\n');
    law_pieces_clean(text, '\n');
    let put = lines_of(text);
    let all = spliced(lines, a, b, put);
    assert forall|i: int| 0 <= i < all.len() implies !(#[trigger] all[i]).contains('\n') by {
        if i < a {
            assert(all[i] == lines[i]);
        } else if i < a + put.len() {
            assert(all[i] == put[i - a]);
        } else {
            assert(all[i] == lines[b + (i - a - put.len())]);
        }
    }
}

/// Finds the next match.
fn find_next(
    lines: &[String],
    written: &[bool],
    old: &str,
    allow_fuzzy: bool,
    threshold: Double,
    apart: bool,
) -> (r: Option<FuzzyMatch>)
    requires
        are_lines(views(lines@)),
        written@.len() == lines@.len(),
    ensures
        opt_match(r) == next_found(
            views(lines@),
            written@,
            old@,
            allow_fuzzy,
            threshold.bits,
            apart,
        ),
{
    let content = join(lines, "\n");
    let n: usize = split_on(old, '\n').len();
    let o = if apart {
        let at = list_untouched(written, n);
        proof {
            reveal_strlit("\n");
            assert("\n"@ =~= seq!['\n']);
            law_pieces_join(views(lines@), '\n');
            assert(views(lines@).len() == lines@.len());
        }
        if n > lines.len() {
            proof {
                assert(ints(at@) =~= Seq::<int>::empty()) by {
                    if ints(at@).len() > 0 {
                        assert(ints(at@)[0] >= 0);
                    }
                }
                lemma_found_nowhere(content@, old@, ints(at@), allow_fuzzy, threshold.bits);
            }
            MatchOutcome::default()
        } else {
            find_match_among(content.as_str(), old, &at, allow_fuzzy, threshold)
        }
    } else {
        find_match(content.as_str(), old, allow_fuzzy, Some(threshold))
    };
    choose_next(o, allow_fuzzy, threshold)
}

/// Whether a text is that of the `n` lines from `i` on.
fn check_window(lines: &[String], i: usize, n: usize, text: &str) -> (r: bool)
    requires
        i + n <= lines@.len(),
    ensures
        r == (text@ == joined(window(views(lines@), i as int, n as int), "\n"@)),
{
    let total: usize = lines.len();
    assert(i + n <= total);
    let part = vstd::slice::slice_subrange(lines, i, i + n);
    assert(views(part@) =~= window(views(lines@), i as int, n as int));
    same(text, join(part, "\n").as_str())
}

/// Replaces all occurrences: exact first, then fuzzy fallback.
fn replace_all(
    content: String,
    old: &str,
    new: &str,
    allow_fuzzy: bool,
    threshold: Double,
) -> (r: ReplaceResult)
    requires
        old@.len() > 0,
    ensures
        r@ == replaced_all(content@, old@, new@, allow_fuzzy, threshold.bits),
{
    let exact = count_matches(&to_chars(content.as_str()), &to_chars(old));
    if exact > 0 {
        return ReplaceResult { content: replace(content.as_str(), old, new), count: exact };
    }
    let mut lines = split_on(content.as_str(), '\n');
    let n: usize = split_on(old, '\n').len();
    let total: usize = lines.len();
    let mut written: Vec<bool> = unmark(total);
    let mut apart = false;
    let mut count: usize = 0;
    let ghost goal = replaced_in_turn(
        views(lines@),
        written@,
        old@,
        new@,
        allow_fuzzy,
        threshold.bits,
        false,
        0,
    );
    proof {
        lemma_pieces_nonempty(old@, '\n');
        lemma_pieces_nonempty(content@, '\n');
        law_pieces_clean(content@, '\n');
        lemma_untouched_most(written@);
    }
    loop
        invariant
            n == lines_of(old@).len(),
            n > 0,
            are_lines(views(lines@)),
            written@.len() == lines@.len(),
            count + untouched_count(written@) <= total,
            goal == replaced_in_turn(
                views(lines@),
                written@,
                old@,
                new@,
                allow_fuzzy,
                threshold.bits,
                apart,
                count as nat,
            ),
            goal == replaced_in_turn(
                lines_of(content@),
                unmarked(lines_of(content@).len()),
                old@,
                new@,
                allow_fuzzy,
                threshold.bits,
                false,
                0,
            ),
            tally(content@, old@, 0) == 0,
        decreases
                untouched_count(written@),
                (if apart {
                    0int
                } else {
                    1int
                }),
    {
        let m = match find_next(&lines, &written, old, allow_fuzzy, threshold, apart) {
            Some(m) => m,
            None => {
                return ReplaceResult { content: join(&lines, "\n"), count };
            },
        };
        let text = adjust_indentation(old, m.actual_text.as_str(), new);
        if same(text.as_str(), m.actual_text.as_str()) {
            return ReplaceResult { content: join(&lines, "\n"), count };
        }
        let fresh = m.start_line > 0 && check_untouched(&written, m.start_line - 1, n)
            && check_window(&lines, m.start_line - 1, n, m.actual_text.as_str());
        if fresh {
            let i: usize = m.start_line - 1;
            let now: usize = written.len();
            assert(i + n <= now);
            let put = split_on(text.as_str(), '\n');
            proof {
                lemma_fewer_untouched(written@, i as int, n as int, put@.len());
                lemma_spliced_lines(views(lines@), i as int, i + n, text@);
                assert(views(put@).len() == put@.len());
            }
            written = mark(&written, i, i + n, put.len());
            let next = splice(&lines, i, i + n, &put);
            assert(views(next@).len() == next@.len());
            lines = next;
            count = count + 1;
        } else if apart {
            return ReplaceResult { content: join(&lines, "\n"), count };
        } else {
            apart = true;
        }
    }
}

/// Finds and replaces text in `content`, with optional fuzzy matching.
///
/// When `options.all` is set, replaces every occurrence. Otherwise, replaces
/// exactly one, with an error if there are multiple exact matches (ambiguity).
///
/// Uses [`find_match`] for fuzzy matching and [`adjust_indentation`] to preserve
/// indentation style. What replaces a similar place is not replaced again.
pub fn replace_text(content: &str, old_text: &str, new_text: &str, options: &ReplaceOptions) -> (r:
    Result<ReplaceResult, EditError>)
    ensures
        outcome(r) == text_replaced(content@, old_text@, new_text@, *options),
{
    if old_text.is_empty() {
        return Err(
            EditError::ValidationError { message: "oldText must not be empty.".to_owned() },
        );
    }
    proof {
        lemma_lf_nonempty(old_text@);
    }
    let threshold = match options.threshold {
        Some(t) => t,
        None => Double::from_bits(DEFAULT_FUZZY_THRESHOLD),
    };
    let text = normalize_to_lf(content);
    let old = normalize_to_lf(old_text);
    let new = normalize_to_lf(new_text);
    if options.all {
        return Ok(replace_all(text, old.as_str(), new.as_str(), options.fuzzy, threshold));
    }
    replace_once(text, old.as_str(), new.as_str(), options.fuzzy, threshold)
}

/// Replacements in turn count up from where they began, and leave the lines as
/// they were where there was none.
proof fn lemma_in_turn_counts(
    lines: Seq<Seq<char>>,
    written: Seq<bool>,
    old: Seq<char>,
    new: Seq<char>,
    allow_fuzzy: bool,
    threshold: u64,
    apart: bool,
    count: nat,
)
    ensures
        ({
            let r = replaced_in_turn(
                lines,
                written,
                old,
                new,
                allow_fuzzy,
                threshold,
                apart,
                count,
            );
            &&& count <= r.1
            &&& r.1 == count ==> r.0 == lines
        }),
    decreases
            untouched_count(written),
            (if apart {
                0int
            } else {
                1int
            }),
{
    let n = lines_of(old).len() as int;
    if let Some(m) = next_found(lines, written, old, allow_fuzzy, threshold, apart) {
        let text = adjusted(old, m.text, new);
        let put = lines_of(text);
        let i = m.line - 1;
        if text == m.text {
        } else if n > 0 && is_untouched(written, i, n) && m.text == joined(
            window(lines, i, n),
            "\n"@,
        ) {
            lemma_fewer_untouched(written, i, n, put.len());
            lemma_in_turn_counts(
                spliced(lines, i, i + n, put),
                marked(written, i, i + n, put.len()),
                old,
                new,
                allow_fuzzy,
                threshold,
                apart,
                count + 1,
            );
        } else if !apart {
            lemma_in_turn_counts(lines, written, old, new, allow_fuzzy, threshold, true, count);
        }
    }
}

/// Where nothing is replaced, the text is as it was but for its line endings.
pub proof fn law_nothing_replaced(
    content: Seq<char>,
    old: Seq<char>,
    new: Seq<char>,
    options: ReplaceOptions,
)
    ensures
        text_replaced(content, old, new, options) matches Ok(r) ==> r.count == 0 ==> r.content
            == with_lf(content),
{
    let lines = lines_of(with_lf(content));
    law_join_pieces(with_lf(content), '\n');
    reveal_strlit("\n");
    assert("\n"@ =~= seq!['\n']);
    lemma_in_turn_counts(
        lines,
        unmarked(lines.len()),
        with_lf(old),
        with_lf(new),
        options.fuzzy,
        threshold_or_default(options.threshold),
        false,
        0,
    );
}

/// A text that occurs once is replaced where it occurs, as it is given, and
/// nothing else changes.
pub proof fn law_single_replaced(
    content: Seq<char>,
    old: Seq<char>,
    new: Seq<char>,
    options: ReplaceOptions,
    k: int,
)
    requires
        old.len() > 0,
        !options.all,
        0 <= k,
        occurs_at(with_lf(content), with_lf(old), k),
        forall|j: int| 0 <= j && j != k ==> !occurs_at(with_lf(content), with_lf(old), j),
    ensures
        text_replaced(content, old, new, options) == Ok::<ReplaceView, ErrorView>(
            ReplaceView {
                content: with_lf(content).take(k) + with_lf(new) + with_lf(content).skip(
                    k + with_lf(old).len(),
                ),
                count: 1,
            },
        ),
{
    lemma_lf_nonempty(old);
    law_single_occurrence(
        with_lf(content),
        with_lf(old),
        options.fuzzy,
        threshold_or_default(options.threshold),
        with_lf(new),
        k,
    );
}

/// Lines that were all written stay as they are.
proof fn lemma_written_stays(
    lines: Seq<Seq<char>>,
    written: Seq<bool>,
    old: Seq<char>,
    new: Seq<char>,
    allow_fuzzy: bool,
    threshold: u64,
    apart: bool,
    count: nat,
)
    requires
        forall|k: int| 0 <= k < written.len() ==> #[trigger] written[k],
    ensures
        replaced_in_turn(lines, written, old, new, allow_fuzzy, threshold, apart, count) == (
            lines,
            count,
        ),
    decreases
            (if apart {
                0int
            } else {
                1int
            }),
{
    let n = lines_of(old).len() as int;
    lemma_pieces_nonempty(old, '\n');
    lemma_no_places(written, n, written.len() as int);
    if apart {
        lemma_found_nowhere(
            joined(lines, "\n"@),
            old,
            untouched_places(written, n, written.len() as int),
            allow_fuzzy,
            threshold,
        );
    } else {
        lemma_written_stays(lines, written, old, new, allow_fuzzy, threshold, true, count);
        if let Some(m) = next_found(lines, written, old, allow_fuzzy, threshold, false) {
            let i = m.line - 1;
            if is_untouched(written, i, n) {
                assert(written[i]);
            }
        }
    }
}

/// Where all lines were written, no window is left.
proof fn lemma_no_places(written: Seq<bool>, n: int, k: int)
    requires
        n > 0,
        k <= written.len(),
        forall|i: int| 0 <= i < written.len() ==> #[trigger] written[i],
    ensures
        untouched_places(written, n, k).len() == 0,
    decreases k,
{
    if k > 0 {
        lemma_no_places(written, n, k - 1);
        assert(written[k - 1]);
    }
}

/// A text that is like `old` as a whole, and does not hold it, is replaced once.
pub proof fn law_like_replaced(
    content: Seq<char>,
    old: Seq<char>,
    new: Seq<char>,
    options: ReplaceOptions,
)
    requires
        old.len() > 0,
        options.all,
        index_from(with_lf(content), with_lf(old), 0) is None,
        lines_of(with_lf(content)).len() == lines_of(with_lf(old)).len(),
    ensures
        ({
            let threshold = threshold_or_default(options.threshold);
            let o = found(with_lf(content), with_lf(old), options.fuzzy, threshold);
            let text = adjusted(with_lf(old), with_lf(content), with_lf(new));
            next_match(o, options.fuzzy, threshold) is Some && text != with_lf(content)
                ==> text_replaced(content, old, new, options) == Ok::<ReplaceView, ErrorView>(
                ReplaceView { content: text, count: 1 },
            )
        }),
{
    let threshold = threshold_or_default(options.threshold);
    let c = with_lf(content);
    let p = with_lf(old);
    let q = with_lf(new);
    let lines = lines_of(c);
    let o = found(c, p, options.fuzzy, threshold);
    law_join_pieces(c, '\n');
    reveal_strlit("\n");
    assert("\n"@ =~= seq!['\n']);
    law_whole_lines(c, p, options.fuzzy, threshold);
    lemma_pieces_nonempty(c, '\n');
    if let Some(m) = next_match(o, options.fuzzy, threshold) {
        assert(window(lines, 0, lines.len() as int) =~= lines);
        assert(m.line == 1);
        assert(m.text == c);
        let text = adjusted(p, c, q);
        if text != c {
            let n = lines.len();
            let put = lines_of(text);
            let marks = marked(unmarked(n), 0, n as int, put.len());
            assert(is_untouched(unmarked(n), 0, n as int));
            assert(spliced(lines, 0, n as int, put) =~= put);
            lemma_written_stays(put, marks, p, q, options.fuzzy, threshold, false, 1);
            law_join_pieces(text, '\n');
        }
    }
}

/// Whether a row of a diff shows a line: its sign, its number, at the right end of
/// a column of the given width, and behind a bar its text without the line feed.
pub open spec fn shows_line(row: Seq<char>, sign: char, number: int, width: nat, text: Seq<char>) -> bool {
    let figures = decimal(number as nat);
    let bare = if text.len() > 0 && text.last() == '\n' {
        text.drop_last()
    } else {
        text
    };
    exists|pad: nat|
        #![trigger spaces(pad)]
        row == seq![sign] + spaces(pad) + figures + seq!['|'] + bare && (pad == 0 || pad
            + figures.len() == width) && pad + figures.len() >= width
}

/// Whether there is such a line: line `k` of range `s` of group `g`.
pub open spec fn is_line_of(groups: Seq<Seq<SpanView>>, g: int, s: int, k: int) -> bool {
    0 <= g < groups.len() && 0 <= s < groups[g].len() && 0 <= k < groups[g][s].lines.len()
}

/// Whether the lines of a range are those that its tag and its ends tell of.
pub open spec fn is_sound_span(s: SpanView) -> bool {
    let removed = s.old_end - s.old_start;
    let added = s.new_end - s.new_start;
    &&& 0 <= removed
    &&& 0 <= added
    &&& s.old_end <= usize::MAX
    &&& s.new_end <= usize::MAX
    &&& match s.tag {
        SpanTag::Equal => s.lines.len() == removed && forall|k: int|
            0 <= k < s.lines.len() ==> (#[trigger] s.lines[k]).tag == LineTag::Equal,
        SpanTag::Delete => s.lines.len() == removed && forall|k: int|
            0 <= k < s.lines.len() ==> (#[trigger] s.lines[k]).tag == LineTag::Delete,
        SpanTag::Insert => s.lines.len() == added && forall|k: int|
            0 <= k < s.lines.len() ==> (#[trigger] s.lines[k]).tag == LineTag::Insert,
        SpanTag::Replace => s.lines.len() == removed + added && forall|k: int|
            0 <= k < s.lines.len() ==> (#[trigger] s.lines[k]).tag == (if k < removed {
                LineTag::Delete
            } else {
                LineTag::Insert
            }),
    }
}

/// The number that a line of a sound range has: an added one that in the new text,
/// any other that in the old text.
pub open spec fn number_of_line(s: SpanView, k: int) -> int {
    if s.lines[k].tag == LineTag::Insert {
        let removed = if s.tag == SpanTag::Replace {
            s.old_end - s.old_start
        } else {
            0
        };
        s.new_start + (k - removed) + 1
    } else {
        s.old_start + k + 1
    }
}

/// Whether a row shows line `k` of a range.
pub open spec fn shows_span_line(row: Seq<char>, s: SpanView, k: int, width: nat) -> bool {
    let sign = match s.lines[k].tag {
        LineTag::Equal => ' ',
        LineTag::Delete => '-',
        LineTag::Insert => '+',
    };
    shows_line(row, sign, number_of_line(s, k), width, s.lines[k].text)
}

/// A numbered line is shown as it should be.
proof fn lemma_numbered_shows(sign: char, number: nat, width: nat, text: Seq<char>)
    ensures
        shows_line(
            numbered_diff_line(sign, number, width, bare_line(text)),
            sign,
            number as int,
            width,
            text,
        ),
{
    reveal_strlit("|");
    reveal_strlit("\n");
    assert("|"@ =~= seq!['|']);
    assert("\n"@ =~= seq!['\n']);
    let figures = decimal(number);
    let pad: nat = if figures.len() < width {
        (width - figures.len()) as nat
    } else {
        0
    };
    let bare = if text.len() > 0 && text.last() == '\n' {
        text.drop_last()
    } else {
        text
    };
    assert(bare_line(text) =~= bare) by {
        if text.len() > 0 {
            assert(text.subrange(text.len() - 1, text.len() as int) =~= seq![text.last()]);
            assert(seq![text.last()][0] == text.last() && "\n"@[0] == '\n');
            assert(occurs_at(text, "\n"@, text.len() - 1) == (text.last() == '\n'));
        }
    }
    assert(spaces(0) =~= Seq::<char>::empty());
    assert(padded(figures, width) =~= spaces(pad) + figures);
    let row = numbered_diff_line(sign, number, width, bare);
    assert(row =~= seq![sign] + spaces(pad) + figures + seq!['|'] + bare);
}

/// A line of a sound range is shown as it should be.
proof fn lemma_span_shown(s: SpanView, k: int, width: nat)
    requires
        is_sound_span(s),
        0 <= k < s.lines.len(),
    ensures
        shows_span_line(span_line(s, k, width), s, k, width),
{
    let l = s.lines[k];
    lemma_numbered_shows('-', number_of_line(s, k) as nat, width, l.text);
    lemma_numbered_shows('+', number_of_line(s, k) as nat, width, l.text);
    lemma_numbered_shows(' ', number_of_line(s, k) as nat, width, l.text);
}

/// Whether there is such a line: line `k` of range `s`, one of the first `n`.
pub open spec fn is_line_in(group: Seq<SpanView>, n: int, s: int, k: int) -> bool {
    0 <= s < n && 0 <= k < group[s].lines.len()
}

/// Whether a line of the first `n` ranges stands at row `r`.
spec fn stands_at(group: Seq<SpanView>, n: int, at: spec_fn(int, int) -> int, r: int) -> bool {
    exists|s: int, k: int| #[trigger] is_line_in(group, n, s, k) && at(s, k) == r
}

/// Where the lines of a group stand among the rows of its first `n` ranges: one
/// behind the other, in the order of the ranges.
proof fn lemma_group_rows(group: Seq<SpanView>, n: int, width: nat) -> (at: spec_fn(int, int) -> int)
    requires
        0 <= n <= group.len(),
    ensures
        forall|s: int, k: int|
            0 <= s < n && 0 <= k < group[s].lines.len() ==> {
                &&& 0 <= #[trigger] at(s, k) < group_lines(group, n, width).len()
                &&& group_lines(group, n, width)[at(s, k)] == span_line(group[s], k, width)
            },
        forall|s: int, k: int, t: int, m: int|
            0 <= s < n && 0 <= t < n && 0 <= k < group[s].lines.len() && 0 <= m
                < group[t].lines.len() && (s < t || (s == t && k < m)) ==> #[trigger] at(s, k)
                < #[trigger] at(t, m),
        forall|r: int|
            0 <= r < group_lines(group, n, width).len() ==> #[trigger] stands_at(group, n, at, r),
    decreases n,
{
    if n == 0 {
        |s: int, k: int| 0int
    } else {
        let before = lemma_group_rows(group, n - 1, width);
        let base = group_lines(group, n - 1, width);
        let all = group_lines(group, n, width);
        let at = |s: int, k: int|
            if s < n - 1 {
                before(s, k)
            } else {
                base.len() + k
            };
        assert forall|s: int, k: int|
            0 <= s < n && 0 <= k < group[s].lines.len() implies 0 <= #[trigger] at(s, k) < all.len()
            && all[at(s, k)] == span_line(group[s], k, width) by {
            if s < n - 1 {
                assert(0 <= before(s, k) < base.len());
            }
        }
        assert forall|s: int, k: int, t: int, m: int|
            0 <= s < n && 0 <= t < n && 0 <= k < group[s].lines.len() && 0 <= m
                < group[t].lines.len() && (s < t || (s == t && k < m)) implies #[trigger] at(s, k)
            < #[trigger] at(t, m) by {
            if s < n - 1 {
                assert(before(s, k) < base.len());
                if t < n - 1 {
                    assert(before(s, k) < before(t, m));
                }
            }
        }
        assert forall|r: int| 0 <= r < all.len() implies #[trigger] stands_at(group, n, at, r) by {
            if r < base.len() {
                assert(stands_at(group, n - 1, before, r));
                let (s, k) = choose|s: int, k: int|
                    #[trigger] is_line_in(group, n - 1, s, k) && before(s, k) == r;
                assert(is_line_in(group, n, s, k) && at(s, k) == r);
            } else {
                let k = r - base.len();
                assert(is_line_in(group, n, n - 1, k) && at(n - 1, k) == r);
            }
        }
        at
    }
}

/// Whether lines of the old text are left out between group `g` and the one before.
pub open spec fn leaves_out(groups: Seq<Seq<SpanView>>, g: int) -> bool {
    groups[g][0].old_start > groups[g - 1].last().old_end
}

/// Where the lines stand among the rows of a diff of groups.
proof fn lemma_groups_rows(groups: Seq<Seq<SpanView>>, width: nat) -> (at: spec_fn(
    int,
    int,
    int,
) -> int)
    requires
        forall|g: int| 0 <= g < groups.len() ==> (#[trigger] groups[g]).len() > 0,
    ensures
        forall|g: int, s: int, k: int|
            is_line_of(groups, g, s, k) ==> {
                &&& 0 <= #[trigger] at(g, s, k) < groups_lines(groups, width).len()
                &&& groups_lines(groups, width)[at(g, s, k)] == span_line(groups[g][s], k, width)
            },
        forall|g: int, s: int, k: int, h: int, t: int, m: int|
            is_line_of(groups, g, s, k) && is_line_of(groups, h, t, m) && (g < h || (g == h && (s
                < t || (s == t && k < m)))) ==> #[trigger] at(g, s, k) < #[trigger] at(h, t, m),
        forall|r: int|
            #![trigger groups_lines(groups, width)[r]]
            0 <= r < groups_lines(groups, width).len() ==> (exists|g: int, s: int, k: int|
                #[trigger] is_line_of(groups, g, s, k) && at(g, s, k) == r) || (exists|g: int|
                0 < g < groups.len() && #[trigger] leaves_out(groups, g) && groups_lines(
                    groups,
                    width,
                )[r] == numbered_diff_line(
                    ' ',
                    capped(groups[g - 1].last().old_end + 1int),
                    width,
                    "..."@,
                )),
        forall|g: int, s: int, k: int, t: int, m: int|
            is_line_of(groups, g - 1, s, k) && is_line_of(groups, g, t, m) && leaves_out(groups, g)
                ==> #[trigger] at(g - 1, s, k) + 1 < #[trigger] at(g, t, m),
    decreases groups.len(),
{
    if groups.len() == 0 {
        |g: int, s: int, k: int| 0int
    } else {
        let rest = groups.drop_last();
        let last = groups.len() - 1;
        let group = groups.last();
        assert forall|g: int| 0 <= g < rest.len() implies (#[trigger] rest[g]).len() > 0 by {
            assert(rest[g] == groups[g]);
        }
        let before = lemma_groups_rows(rest, width);
        let inner = lemma_group_rows(group, group.len() as int, width);
        let base = groups_lines(rest, width);
        let gap = gap_line(groups_end(rest), group, width);
        let mine = group_lines(group, group.len() as int, width);
        let all = groups_lines(groups, width);
        assert(all == base + gap + mine);
        if last > 0 {
            assert(rest.last() == groups[last - 1]);
        }
        assert(gap.len() == (if last > 0 && leaves_out(groups, last) {
            1int
        } else {
            0int
        }));
        let at = |g: int, s: int, k: int|
            if g < last {
                before(g, s, k)
            } else {
                base.len() + gap.len() + inner(s, k)
            };
        assert forall|g: int, s: int, k: int| is_line_of(groups, g, s, k) implies 0
            <= #[trigger] at(g, s, k) < all.len() && all[at(g, s, k)] == span_line(
            groups[g][s],
            k,
            width,
        ) by {
            if g < last {
                assert(is_line_of(rest, g, s, k));
                assert(0 <= before(g, s, k) < base.len());
            } else {
                assert(0 <= inner(s, k) < mine.len());
                assert(all[at(g, s, k)] == mine[inner(s, k)]);
            }
        }
        assert forall|g: int, s: int, k: int, h: int, t: int, m: int|
            is_line_of(groups, g, s, k) && is_line_of(groups, h, t, m) && (g < h || (g == h && (s
                < t || (s == t && k < m)))) implies #[trigger] at(g, s, k) < #[trigger] at(
            h,
            t,
            m,
        ) by {
            if g < last {
                assert(is_line_of(rest, g, s, k));
                assert(before(g, s, k) < base.len());
                if h < last {
                    assert(is_line_of(rest, h, t, m));
                    assert(before(g, s, k) < before(h, t, m));
                } else {
                    assert(0 <= inner(t, m));
                }
            } else {
                assert(inner(s, k) < inner(t, m));
            }
        }
        assert forall|r: int|
            #![trigger all[r]]
            0 <= r < all.len() implies (exists|g: int, s: int, k: int|
            #[trigger] is_line_of(groups, g, s, k) && at(g, s, k) == r) || (exists|g: int|
            0 < g < groups.len() && #[trigger] leaves_out(groups, g) && all[r]
                == numbered_diff_line(
                ' ',
                capped(groups[g - 1].last().old_end + 1int),
                width,
                "..."@,
            )) by {
            if r < base.len() {
                assert(base[r] == all[r]);
                if exists|g: int, s: int, k: int|
                    #[trigger] is_line_of(rest, g, s, k) && before(g, s, k) == r {
                    let (g, s, k) = choose|g: int, s: int, k: int|
                        #[trigger] is_line_of(rest, g, s, k) && before(g, s, k) == r;
                    assert(is_line_of(groups, g, s, k) && at(g, s, k) == r);
                } else {
                    let g = choose|g: int|
                        0 < g < rest.len() && #[trigger] leaves_out(rest, g) && base[r]
                            == numbered_diff_line(
                            ' ',
                            capped(rest[g - 1].last().old_end + 1int),
                            width,
                            "..."@,
                        );
                    assert(leaves_out(groups, g));
                }
            } else if r < base.len() + gap.len() {
                assert(all[r] == gap[0]);
                assert(leaves_out(groups, last));
            } else {
                let q = r - base.len() - gap.len();
                assert(stands_at(group, group.len() as int, inner, q));
                let (s, k) = choose|s: int, k: int|
                    #[trigger] is_line_in(group, group.len() as int, s, k) && inner(s, k) == q;
                assert(is_line_of(groups, last, s, k) && at(last, s, k) == r);
            }
        }
        assert forall|g: int, s: int, k: int, t: int, m: int|
            is_line_of(groups, g - 1, s, k) && is_line_of(groups, g, t, m) && leaves_out(groups, g)
            implies #[trigger] at(g - 1, s, k) + 1 < #[trigger] at(g, t, m) by {
            assert(is_line_of(rest, g - 1, s, k));
            assert(before(g - 1, s, k) < base.len());
            if g < last {
                assert(is_line_of(rest, g, t, m));
                assert(leaves_out(rest, g));
                assert(before(g - 1, s, k) + 1 < before(g, t, m));
            } else {
                assert(0 <= inner(t, m));
            }
        }
        at
    }
}

/// Whether a line stands at row `q`.
pub open spec fn is_line_row(
    groups: Seq<Seq<SpanView>>,
    at: spec_fn(int, int, int) -> int,
    q: int,
) -> bool {
    exists|g: int, s: int, k: int| #[trigger] is_line_of(groups, g, s, k) && at(g, s, k) == q
}

/// Whether a row is three dots, with the number of the first line that is left out
/// between two groups.
pub open spec fn is_gap_row(groups: Seq<Seq<SpanView>>, width: nat, row: Seq<char>) -> bool {
    exists|g: int|
        0 < g < groups.len() && #[trigger] leaves_out(groups, g) && shows_line(
            row,
            ' ',
            groups[g - 1].last().old_end + 1int,
            width,
            seq!['.', '.', '.'],
        )
}

/// A numbered diff shows every line of every group, in their order, each with its
/// sign, its number and its text. Where lines of the old text are left out between
/// two groups, a row of three dots stands between them, with the number of the
/// first of them, and there is no other row. So the rows with `-` and `+` are all
/// removed and all added lines.
pub proof fn law_diff_rows(groups: Seq<Seq<SpanView>>, width: nat) -> (r: (
    Seq<Seq<char>>,
    spec_fn(int, int, int) -> int,
))
    requires
        forall|g: int| 0 <= g < groups.len() ==> (#[trigger] groups[g]).len() > 0,
        forall|g: int, s: int|
            0 <= g < groups.len() && 0 <= s < groups[g].len() ==> is_sound_span(
                #[trigger] groups[g][s],
            ),
    ensures
        numbered_diff(groups, width).diff == joined(r.0, "\n"@),
        forall|g: int, s: int, k: int|
            is_line_of(groups, g, s, k) ==> {
                &&& 0 <= #[trigger] r.1(g, s, k) < r.0.len()
                &&& shows_span_line(r.0[r.1(g, s, k)], groups[g][s], k, width)
            },
        forall|g: int, s: int, k: int, h: int, t: int, m: int|
            is_line_of(groups, g, s, k) && is_line_of(groups, h, t, m) && (g < h || (g == h && (s
                < t || (s == t && k < m)))) ==> #[trigger] r.1(g, s, k) < #[trigger] r.1(h, t, m),
        forall|q: int|
            0 <= q < r.0.len() ==> #[trigger] is_line_row(groups, r.1, q) || is_gap_row(
                groups,
                width,
                r.0[q],
            ),
        forall|g: int, s: int, k: int, t: int, m: int|
            is_line_of(groups, g - 1, s, k) && is_line_of(groups, g, t, m) && leaves_out(groups, g)
                ==> #[trigger] r.1(g - 1, s, k) + 1 < #[trigger] r.1(g, t, m),
{
    let rows = groups_lines(groups, width);
    let at = lemma_groups_rows(groups, width);
    reveal_strlit("...");
    assert("..."@ =~= seq!['.', '.', '.']);
    assert forall|g: int, s: int, k: int| is_line_of(groups, g, s, k) implies 0
        <= #[trigger] at(g, s, k) < rows.len() && shows_span_line(
        rows[at(g, s, k)],
        groups[g][s],
        k,
        width,
    ) by {
        lemma_span_shown(groups[g][s], k, width);
    }
    assert forall|q: int| 0 <= q < rows.len() implies #[trigger] is_line_row(groups, at, q)
        || is_gap_row(groups, width, rows[q]) by {
        assert(rows[q] == groups_lines(groups, width)[q]);
        if !is_line_row(groups, at, q) {
            let g = choose|g: int|
                0 < g < groups.len() && #[trigger] leaves_out(groups, g) && rows[q]
                    == numbered_diff_line(
                    ' ',
                    capped(groups[g - 1].last().old_end + 1int),
                    width,
                    "..."@,
                );
            let last = groups[g - 1].last();
            let next = groups[g][0];
            assert(groups[g - 1][groups[g - 1].len() - 1] == last);
            assert(is_sound_span(next) && next.old_start <= usize::MAX);
            lemma_numbered_shows(' ', last.old_end + 1, width, seq!['.', '.', '.']);
            assert(bare_line(seq!['.', '.', '.']) == seq!['.', '.', '.']) by {
                reveal_strlit("\n");
                assert(seq!['.', '.', '.'].subrange(2, 3) =~= seq!['.']);
                assert(seq!['.'][0] != seq!['\n'][0]);
                assert("\n"@ =~= seq!['\n']);
            }
        }
    }
    (rows, at)
}

/// Whether a row shows a line of a unified diff: an added one with its number in
/// the new text, any other with that in the old text.
pub open spec fn shows_unified_line(row: Seq<char>, l: DiffLineView, width: nat) -> bool {
    match l.tag {
        LineTag::Equal => l.old_index matches Some(i) ==> shows_line(
            row,
            ' ',
            i + 1int,
            width,
            l.text,
        ),
        LineTag::Delete => l.old_index matches Some(i) ==> shows_line(
            row,
            '-',
            i + 1int,
            width,
            l.text,
        ),
        LineTag::Insert => l.new_index matches Some(i) ==> shows_line(
            row,
            '+',
            i + 1int,
            width,
            l.text,
        ),
    }
}

/// Whether the indices of a line leave room for its number.
pub open spec fn is_numbered(l: DiffLineView) -> bool {
    &&& l.old_index matches Some(i) ==> i < usize::MAX
    &&& l.new_index matches Some(i) ==> i < usize::MAX
}

/// Whether the rows from `start` to `end`, the last not counted, are one for the
/// header of a hunk, without white space at the end, and one for each of its lines.
pub open spec fn is_headed(h: UnifiedView, rows: Seq<Seq<char>>, start: int, end: int) -> bool {
    &&& 0 <= start
    &&& end == start + 1 + h.lines.len()
    &&& end <= rows.len()
    &&& rows[start] == trimmed_end(h.header)
}

/// Where the hunks stand among the rows of a unified diff.
proof fn lemma_unified_rows(hunks: Seq<UnifiedView>, width: nat) -> (r: (
    Seq<Seq<char>>,
    spec_fn(int) -> int,
))
    requires
        forall|h: int, k: int|
            0 <= h < hunks.len() && 0 <= k < hunks[h].lines.len() ==> is_numbered(
                #[trigger] hunks[h].lines[k],
            ),
    ensures
        r.0 == hunks_lines(hunks, width),
        r.1(0) == 0,
        r.1(hunks.len() as int) == r.0.len(),
        forall|h: int|
            0 <= h < hunks.len() ==> #[trigger] is_headed(hunks[h], r.0, r.1(h), r.1(h + 1)),
        forall|h: int, k: int|
            0 <= h < hunks.len() && 0 <= k < hunks[h].lines.len() ==> shows_unified_line(
                r.0[r.1(h) + 1 + k],
                #[trigger] hunks[h].lines[k],
                width,
            ),
    decreases hunks.len(),
{
    let rows = hunks_lines(hunks, width);
    if hunks.len() == 0 {
        (rows, |h: int| 0int)
    } else {
        let rest = hunks.drop_last();
        let last = hunks.len() - 1;
        assert forall|h: int, k: int|
            0 <= h < rest.len() && 0 <= k < rest[h].lines.len() implies is_numbered(
            #[trigger] rest[h].lines[k],
        ) by {
            assert(rest[h].lines[k] == hunks[h].lines[k]);
        }
        let (before, at) = lemma_unified_rows(rest, width);
        let start = |h: int|
            if h <= last {
                at(h)
            } else {
                rows.len() as int
            };
        assert(before == hunks_lines(rest, width));
        assert(at(last) == before.len());
        assert forall|h: int| 0 <= h < hunks.len() implies #[trigger] is_headed(
            hunks[h],
            rows,
            start(h),
            start(h + 1),
        ) by {
            if h < last {
                assert(hunks[h] == rest[h]);
                assert(is_headed(rest[h], before, at(h), at(h + 1)));
                assert(rows[at(h)] == before[at(h)]);
            }
        }
        assert forall|h: int, k: int|
            0 <= h < hunks.len() && 0 <= k < hunks[h].lines.len() implies shows_unified_line(
            rows[start(h) + 1 + k],
            #[trigger] hunks[h].lines[k],
            width,
        ) by {
            assert(is_headed(hunks[h], rows, start(h), start(h + 1)));
            if h < last {
                assert(hunks[h] == rest[h]);
                assert(is_headed(rest[h], before, at(h), at(h + 1)));
                assert(hunks[h].lines[k] == rest[h].lines[k]);
                assert(at(h) + 1 + k < at(h + 1));
                assert(rows[at(h) + 1 + k] == before[at(h) + 1 + k]);
            } else {
                let l = hunks[h].lines[k];
                assert(rows[start(h) + 1 + k] == unified_line(l, width));
                lemma_numbered_shows(line_sign(l.tag), unified_number(l), width, l.text);
            }
        }
        (rows, start)
    }
}

/// A unified diff shows the hunks one behind the other: of each its header, without
/// white space at the end, and then all its lines in their order, each with its
/// sign, its number and its text.
pub proof fn law_unified_rows(hunks: Seq<UnifiedView>, width: nat) -> (r: (
    Seq<Seq<char>>,
    spec_fn(int) -> int,
))
    requires
        forall|h: int, k: int|
            0 <= h < hunks.len() && 0 <= k < hunks[h].lines.len() ==> is_numbered(
                #[trigger] hunks[h].lines[k],
            ),
    ensures
        unified_diff(hunks, width).diff == joined(r.0, "\n"@),
        r.1(0) == 0,
        r.1(hunks.len() as int) == r.0.len(),
        forall|h: int|
            0 <= h < hunks.len() ==> #[trigger] is_headed(hunks[h], r.0, r.1(h), r.1(h + 1)),
        forall|h: int, k: int|
            0 <= h < hunks.len() && 0 <= k < hunks[h].lines.len() ==> shows_unified_line(
                r.0[r.1(h) + 1 + k],
                #[trigger] hunks[h].lines[k],
                width,
            ),
{
    lemma_unified_rows(hunks, width)
}

/// A numbered diff begins at the first range, in the order of the groups, that does
/// not stay: in the new text that is where it begins. Without such a range there is
/// no first changed line.
pub proof fn law_diff_first(groups: Seq<Seq<SpanView>>, width: nat, g: int, s: int)
    requires
        0 <= g <= groups.len(),
        g < groups.len() ==> 0 <= s < groups[g].len(),
        forall|h: int, t: int|
            0 <= h < groups.len() && 0 <= t < groups[h].len() && (h < g || (h == g && t < s))
                ==> (#[trigger] groups[h][t]).tag == SpanTag::Equal,
        g < groups.len() ==> groups[g][s].tag != SpanTag::Equal && groups[g][s].new_start
            < usize::MAX,
    ensures
        numbered_diff(groups, width).first == (if g < groups.len() {
            Some((groups[g][s].new_start + 1) as nat)
        } else {
            None
        }),
    decreases groups.len(),
{
    if groups.len() > 0 {
        let rest = groups.drop_last();
        let last = groups.len() - 1;
        if g < last {
            assert forall|h: int, t: int|
                0 <= h < rest.len() && 0 <= t < rest[h].len() && (h < g || (h == g && t < s))
                implies (#[trigger] rest[h][t]).tag == SpanTag::Equal by {
                assert(rest[h][t] == groups[h][t]);
            }
            law_diff_first(rest, width, g, s);
        } else {
            assert forall|h: int, t: int| 0 <= h < rest.len() && 0 <= t < rest[h].len() implies (
            #[trigger] rest[h][t]).tag == SpanTag::Equal by {
                assert(rest[h][t] == groups[h][t]);
            }
            law_diff_first(rest, width, last, 0);
            let group = groups.last();
            if g == last {
                lemma_group_first(group, group.len() as int, s);
            } else {
                assert forall|t: int| 0 <= t < group.len() implies (#[trigger] group[t]).tag
                    == SpanTag::Equal by {
                    assert(groups[last][t].tag == SpanTag::Equal);
                }
                lemma_group_first(group, group.len() as int, group.len() as int);
            }
        }
    }
}

/// The first change among the first `n` ranges is range `s`, or there is none.
proof fn lemma_group_first(group: Seq<SpanView>, n: int, s: int)
    requires
        0 <= n <= group.len(),
        0 <= s,
        forall|t: int|
            0 <= t < s && t < group.len() ==> (#[trigger] group[t]).tag == SpanTag::Equal,
        s < group.len() ==> group[s].tag != SpanTag::Equal && group[s].new_start < usize::MAX,
    ensures
        group_first(group, n) == (if s < n {
            Some((group[s].new_start + 1) as nat)
        } else {
            None
        }),
    decreases n,
{
    if n > 0 {
        lemma_group_first(group, n - 1, s);
    }
}

/// The first changed line of a unified diff is that of the first line, in the order
/// of the hunks, that is removed or added: as far behind the place where its hunk
/// begins in the new text as there are lines before it in the hunk.
pub proof fn law_unified_first(hunks: Seq<UnifiedView>, width: nat, h: int, k: int)
    requires
        0 <= h <= hunks.len(),
        h < hunks.len() ==> 0 <= k < hunks[h].lines.len(),
        forall|i: int, j: int|
            0 <= i < hunks.len() && 0 <= j < hunks[i].lines.len() && (i < h || (i == h && j < k))
                ==> (#[trigger] hunks[i].lines[j]).tag == LineTag::Equal,
        h < hunks.len() ==> hunks[h].lines[k].tag != LineTag::Equal && hunks[h].new_start + k
            < usize::MAX,
    ensures
        unified_diff(hunks, width).first == (if h < hunks.len() {
            Some((hunks[h].new_start + k + 1) as nat)
        } else {
            None
        }),
    decreases hunks.len(),
{
    if hunks.len() > 0 {
        let rest = hunks.drop_last();
        let last = hunks.len() - 1;
        assert forall|i: int, j: int|
            0 <= i < rest.len() && 0 <= j < rest[i].lines.len() && (i < h || (i == h && j < k))
            implies (#[trigger] rest[i].lines[j]).tag == LineTag::Equal by {
            assert(rest[i].lines[j] == hunks[i].lines[j]);
        }
        if h < last {
            law_unified_first(rest, width, h, k);
        } else {
            law_unified_first(rest, width, last, 0);
            let ls = hunks.last().lines;
            assert forall|j: int| 0 <= j < ls.len() && (h > last || j < k) implies (
            #[trigger] ls[j]).tag == LineTag::Equal by {
                assert(hunks[last].lines[j].tag == LineTag::Equal);
            }
            lemma_first_change(
                ls,
                0,
                if h == last {
                    k
                } else {
                    ls.len() as int
                },
            );
        }
    }
}

/// The first change from `i` on is line `k`, or there is none.
proof fn lemma_first_change(lines: Seq<DiffLineView>, i: int, k: int)
    requires
        0 <= i <= k <= lines.len(),
        forall|j: int| i <= j < k ==> (#[trigger] lines[j]).tag == LineTag::Equal,
        k < lines.len() ==> lines[k].tag != LineTag::Equal,
    ensures
        first_change(lines, i) == (if k < lines.len() {
            Some(k)
        } else {
            None
        }),
    decreases k - i,
{
    if i < k {
        lemma_first_change(lines, i + 1, k);
    }
}

/// The lines with `k` more spaces before each that holds something.
pub open spec fn shifted_right(lines: Seq<Seq<char>>, k: nat) -> Seq<Seq<char>> {
    Seq::new(
        lines.len(),
        |i: int|
            if is_blank(lines[i]) {
                lines[i]
            } else {
                spaces(k) + lines[i]
            },
    )
}

/// A new text for lines that stand with `k` more spaces before each gets as many.
pub proof fn law_new_text_indented(old: Seq<char>, new: Seq<char>, k: nat)
    requires
        k > 0,
        is_indented_by(lines_of(old), ' '),
        is_indented_by(lines_of(new), ' '),
        has_solid(lines_of(old)),
        has_solid(lines_of(new)),
        !same_but_indent(lines_of(old), lines_of(new)),
    ensures
        lines_of(adjusted(old, joined(indented(lines_of(old), k), "\n"@), new)) == shifted_right(
            lines_of(new),
            k,
        ),
{
    let rows = lines_of(old);
    let parts = indented(rows, k);
    let actual = joined(parts, "\n"@);
    reveal_strlit("\n");
    assert("\n"@ =~= seq!['\n']);
    lemma_pieces_nonempty(old, '\n');
    law_pieces_clean(old, '\n');
    assert(spaces(k) =~= times(' ', k));
    assert forall|j: int| 0 <= j < parts.len() implies !(#[trigger] parts[j]).contains('\n') by {
        assert(parts[j] == spaces(k) + rows[j]);
        if parts[j].contains('\n') {
            let x = choose|x: int| 0 <= x < parts[j].len() && parts[j][x] == '\n';
            assert(x >= k);
            assert(rows[j][x - k] == '\n');
            assert(rows[j].contains('\n'));
        }
    }
    law_pieces_join(parts, '\n');
    assert forall|j: int| 0 <= j < rows.len() implies if is_blank(#[trigger] rows[j]) {
        is_blank(parts[j])
    } else {
        parts[j] == times(' ', k) + rows[j]
    } by {
        lemma_indented_line(rows[j], ' ', k);
        assert(parts[j] == times(' ', k) + rows[j]);
    }
    law_moved_right(old, actual, new, ' ', k);
    assert(lines_of(adjusted(old, actual, new)) =~= shifted_right(lines_of(new), k));
}

/// A text that does not stand in the content, but does with every line indented by `k`
/// more spaces, is replaced there, and each line of the new text that holds something
/// is written with `k` more spaces than given. All other lines are as they were.
pub proof fn law_indented_replaced(
    content: Seq<char>,
    old: Seq<char>,
    new: Seq<char>,
    options: ReplaceOptions,
    k: nat,
    i: int,
)
    requires
        old.len() > 0,
        !options.all,
        options.fuzzy,
        k > 0,
        ({
            let lines = lines_of(with_lf(content));
            let rows = lines_of(with_lf(old));
            let put = lines_of(with_lf(new));
            let threshold = threshold_or_default(options.threshold);
            &&& index_from(with_lf(content), with_lf(old), 0) is None
            &&& 0 <= i
            &&& i + rows.len() <= lines.len()
            &&& rows.len() <= 2 * FRACTION
            &&& window(lines, i, rows.len() as int) == indented(rows, k)
            &&& at_least(ONE, threshold)
            &&& forall|j: int|
                0 <= j <= lines.len() - rows.len() && j != i ==> !at_least(
                    #[trigger] window_score(lines, rows, j, true),
                    threshold,
                )
            &&& is_indented_by(rows, ' ')
            &&& is_indented_by(put, ' ')
            &&& has_solid(rows)
            &&& has_solid(put)
            &&& !same_but_indent(rows, put)
        }),
    ensures
        ({
            let lines = lines_of(with_lf(content));
            let rows = lines_of(with_lf(old));
            let put = lines_of(with_lf(new));
            text_replaced(content, old, new, options) == Ok::<ReplaceView, ErrorView>(
                ReplaceView {
                    content: joined(
                        lines.take(i) + shifted_right(put, k) + lines.skip(i + rows.len()),
                        "\n"@,
                    ),
                    count: 1,
                },
            )
        }),
{
    let c = with_lf(content);
    let p = with_lf(old);
    let q = with_lf(new);
    let threshold = threshold_or_default(options.threshold);
    lemma_lf_nonempty(old);
    lemma_pieces_nonempty(p, '\n');
    law_found_indented(c, p, threshold, k, i);
    law_new_text_indented(p, q, k);
    let m = found(c, p, true, threshold).matched->0;
    law_lines_replaced(c, m, adjusted(p, m.text, q), i, lines_of(p).len() as int);
}

/// Every occurrence between parts that do not hold the first character is replaced.
proof fn lemma_replaced_joined(parts: Seq<Seq<char>>, from: Seq<char>, to: Seq<char>)
    requires
        parts.len() > 0,
        from.len() > 0,
        forall|k: int| 0 <= k < parts.len() ==> !(#[trigger] parts[k]).contains(from[0]),
    ensures
        replaced(joined(parts, from), from, to) == joined(parts, to),
    decreases parts.len(),
{
    let s = joined(parts, from);
    let head = parts[0];
    if parts.len() == 1 {
        assert forall|j: int| 0 <= j < s.len() implies #[trigger] s[j] != from[0] by {
            assert(head.contains(s[j]));
        }
        lemma_not_found(s, from, 0);
    } else {
        let rest = parts.skip(1);
        assert forall|k: int| 0 <= k < rest.len() implies !(#[trigger] rest[k]).contains(
            from[0],
        ) by {
            assert(rest[k] == parts[k + 1]);
        }
        lemma_replaced_joined(rest, from, to);
        assert(parts =~= seq![head] + rest);
        lemma_joined_add(seq![head], rest, from);
        lemma_joined_add(seq![head], rest, to);
        let end = (head.len() + from.len()) as int;
        assert(s =~= head + from + joined(rest, from));
        lemma_index_after(head, from, joined(rest, from));
        assert(s.take(head.len() as int) =~= head);
        assert(s.skip(end) =~= joined(rest, from));
        assert(joined(parts, to) =~= head + to + joined(rest, to));
    }
}

/// A text that occurs between parts that do not hold its first character is replaced in
/// every place where all are asked for, and the parts stay as they are. Where one is
/// asked for and there are several, the replacement is refused.
pub proof fn law_every_replaced(
    parts: Seq<Seq<char>>,
    old: Seq<char>,
    new: Seq<char>,
    options: ReplaceOptions,
)
    requires
        parts.len() >= 2,
        old.len() > 0,
        forall|k: int| 0 <= k < parts.len() ==> !(#[trigger] parts[k]).contains(old[0]),
        !joined(parts, old).contains('\r'),
        !old.contains('\r'),
        !new.contains('\r'),
    ensures
        options.all ==> text_replaced(joined(parts, old), old, new, options) == Ok::<
            ReplaceView,
            ErrorView,
        >(ReplaceView { content: joined(parts, new), count: (parts.len() - 1) as nat }),
        !options.all && parts.len() > 2 ==> text_replaced(joined(parts, old), old, new, options)
            is Err,
{
    let content = joined(parts, old);
    law_lf_keeps(content);
    law_lf_keeps(old);
    law_lf_keeps(new);
    lemma_tally_joined(parts, old);
    lemma_replaced_joined(parts, old, new);
    if !options.all && parts.len() > 2 {
        law_several_occurrences(
            content,
            old,
            options.fuzzy,
            threshold_or_default(options.threshold),
        );
    }
}

} // verus!
