//! Moving replacement lines to the indentation of the lines they replace.

use crate::normalize::{
    base_of, common_shift, convert_leading_tabs_to_spaces, count_leading_whitespace,
    get_leading_whitespace, has_solid, indent_len, indent_of, is_indent, is_moved, lead_char,
    leading_char, least_of, lemma_common_shift, lemma_indent_len, lemma_indented_line, lines_of,
    same_but_indent, same_trimmed, shift_line, shifted_line, spaces, tabs_consistent, tabs_match,
    times, uniform_shift, untabbed, untabbed_line,
};
use crate::text::{
    blank, contains_char, copy_texts, holds_text, is_blank, is_white, join, joined,
    law_pieces_join, opt_nat, push_text, same, same_lines, split_on, trim, trimmed, trimmed_start,
    views,
};
use vstd::prelude::*;
use vstd::string::*;

verus! {

/// Whether no indentation of a line that holds more than white space has the
/// character `c`.
pub open spec fn indents_without(lines: Seq<Seq<char>>, c: char) -> bool {
    forall|i: int|
        0 <= i < lines.len() && !is_blank(#[trigger] lines[i]) ==> !indent_of(lines[i]).contains(c)
}

/// Whether line `i` of both holds more than white space.
pub open spec fn is_pair(pattern: Seq<Seq<char>>, actual: Seq<Seq<char>>, i: int) -> bool {
    0 <= i < pattern.len() && i < actual.len() && !is_blank(pattern[i]) && !is_blank(actual[i])
}

/// Whether some line that both have is indented in `pattern`.
pub open spec fn has_indented(pattern: Seq<Seq<char>>, actual: Seq<Seq<char>>) -> bool {
    exists|i: int| #[trigger] is_pair(pattern, actual, i) && indent_len(pattern[i]) > 0
}

/// The number of spaces that, in `actual`, stand for each tab of `pattern`.
pub open spec fn tab_ratio(pattern: Seq<Seq<char>>, actual: Seq<Seq<char>>) -> Option<nat> {
    if has_indented(pattern, actual) && exists|n: nat|
        n > 0 && #[trigger] tabs_match(pattern, actual, n) {
        Some(choose|n: nat| n > 0 && #[trigger] tabs_match(pattern, actual, n))
    } else {
        None
    }
}

/// Whether line `i` tells how the spaces of `pattern` relate to the tabs of
/// `actual`.
pub open spec fn is_sample(pattern: Seq<Seq<char>>, actual: Seq<Seq<char>>, i: int) -> bool {
    is_pair(pattern, actual, i) && indent_len(actual[i]) > 0
}

/// Whether each sample has `width` spaces for each tab, and `offset` more.
pub open spec fn samples_fit(
    pattern: Seq<Seq<char>>,
    actual: Seq<Seq<char>>,
    width: int,
    offset: int,
) -> bool {
    forall|i: int| #[trigger]
        is_sample(pattern, actual, i) ==> indent_len(pattern[i]) == indent_len(actual[i]) * width
            + offset
}

/// Whether two samples differ in their number of tabs.
pub open spec fn samples_differ(pattern: Seq<Seq<char>>, actual: Seq<Seq<char>>) -> bool {
    exists|i: int, j: int| #[trigger]
        is_sample(pattern, actual, i) && #[trigger] is_sample(pattern, actual, j) && indent_len(
            actual[i],
        ) != indent_len(actual[j])
}

/// Whether there is a sample.
pub open spec fn has_sample(pattern: Seq<Seq<char>>, actual: Seq<Seq<char>>) -> bool {
    exists|i: int| #[trigger] is_sample(pattern, actual, i)
}

/// How many spaces stand for a number of tabs.
pub ghost struct TabRule {
    /// The number of spaces for each tab.
    pub width: int,
    /// How many more there are.
    pub offset: int,
}

/// The rule that holds of all samples. Where all
/// have the same number of tabs, there are no more spaces.
pub open spec fn tab_rule(pattern: Seq<Seq<char>>, actual: Seq<Seq<char>>) -> Option<TabRule> {
    if samples_differ(pattern, actual) {
        if exists|w: int, b: int| w > 0 && #[trigger] samples_fit(pattern, actual, w, b) {
            let (w, b) = choose|w: int, b: int|
                w > 0 && #[trigger] samples_fit(pattern, actual, w, b);
            Some(TabRule { width: w, offset: b })
        } else {
            None
        }
    } else if has_sample(pattern, actual) && exists|w: int|
        w > 0 && #[trigger] samples_fit(pattern, actual, w, 0) {
        let w = choose|w: int| w > 0 && #[trigger] samples_fit(pattern, actual, w, 0);
        Some(TabRule { width: w, offset: 0 })
    } else {
        None
    }
}

/// A line with `width` spaces of its indentation, less `offset`, made a tab.
pub open spec fn tabbed_line(line: Seq<char>, width: int, offset: int) -> Seq<char> {
    let n = indent_len(line) - offset;
    if is_blank(line) || indent_len(line) == 0 || n < 0 {
        line
    } else {
        Seq::new((n / width) as nat, |i: int| '\t') + spaces((n % width) as nat) + line.skip(
            indent_len(line) as int,
        )
    }
}

/// The lines that hold more than white space and are `text` when trimmed.
pub open spec fn twins(lines: Seq<Seq<char>>, text: Seq<char>) -> Seq<Seq<char>>
    decreases lines.len(),
{
    if lines.len() == 0 {
        Seq::empty()
    } else {
        let before = twins(lines.drop_last(), text);
        if !is_blank(lines.last()) && trimmed(lines.last()) == text {
            before.push(lines.last())
        } else {
            before
        }
    }
}

/// How many lines are `text` when trimmed, but are none of `among`.
pub open spec fn strays(lines: Seq<Seq<char>>, text: Seq<char>, among: Seq<Seq<char>>) -> nat
    decreases lines.len(),
{
    if lines.len() == 0 {
        0
    } else {
        let before = strays(lines.drop_last(), text, among);
        if trimmed(lines.last()) == text && !among.contains(lines.last()) {
            before + 1
        } else {
            before
        }
    }
}

/// Line `k` of `new`, as it stands in the place of `actual`: the line of
/// `actual` with the same text, each in turn where there are several and none
/// is the line itself; else moved as all lines are, where it is indented least.
pub open spec fn settled_line(
    pattern: Seq<Seq<char>>,
    actual: Seq<Seq<char>>,
    new: Seq<Seq<char>>,
    k: int,
) -> Seq<char> {
    let line = new[k];
    let same = twins(actual, trimmed(line));
    let turn = strays(new.take(k), trimmed(line), same) as int;
    let shift = common_shift(pattern, actual);
    if is_blank(line) {
        line
    } else if same.len() == 1 {
        same[0]
    } else if same.contains(line) {
        line
    } else if turn < same.len() {
        same[turn]
    } else if shift is Some && shift->0 != 0 && indent_len(line) == base_of(pattern) {
        shifted_line(line, shift->0, lead_char(actual))
    } else {
        line
    }
}

/// The lines of `new`, indented as `actual` is where `pattern` was expected.
pub open spec fn reindented(
    pattern: Seq<Seq<char>>,
    actual: Seq<Seq<char>>,
    new: Seq<Seq<char>>,
) -> Seq<Seq<char>> {
    let ratio = tab_ratio(pattern, actual);
    let rule = tab_rule(pattern, actual);
    if pattern.len() == 0 || actual.len() == 0 || new.len() == 0 || pattern == actual
        || same_but_indent(pattern, new) {
        new
    } else if indents_without(pattern, ' ') && indents_without(actual, '\t') && ratio is Some {
        lines_of(untabbed(joined(new, "\n"@), ratio->0))
    } else if indents_without(pattern, '\t') && indents_without(actual, ' ') && rule is Some {
        new.map_values(|l: Seq<char>| tabbed_line(l, (rule->0).width, (rule->0).offset))
    } else {
        Seq::new(new.len(), |k: int| settled_line(pattern, actual, new, k))
    }
}

fn avoids(lines: &[String], c: char) -> (r: bool)
    ensures
        r == indents_without(views(lines@), c),
{
    let ghost l = views(lines@);
    let mut i: usize = 0;
    while i < lines.len()
        invariant
            l == views(lines@),
            i <= lines@.len(),
            forall|k: int|
                0 <= k < i && !is_blank(#[trigger] l[k]) ==> !indent_of(l[k]).contains(c),
        decreases lines@.len() - i,
    {
        let line = lines[i].as_str();
        assert(l[i as int] == line@);
        if !blank(line) && contains_char(get_leading_whitespace(line), c) {
            return false;
        }
        i = i + 1;
    }
    true
}

fn paired(pattern: &[String], actual: &[String], i: usize) -> (r: bool)
    requires
        i < pattern@.len(),
        i < actual@.len(),
    ensures
        r == is_pair(views(pattern@), views(actual@), i as int),
{
    !blank(pattern[i].as_str()) && !blank(actual[i].as_str())
}

/// Finds the number of spaces in `actual` for each tab of `pattern`.
fn find_ratio(pattern: &[String], actual: &[String]) -> (r: Option<usize>)
    ensures
        opt_nat(r) == tab_ratio(views(pattern@), views(actual@)),
{
    let ghost p = views(pattern@);
    let ghost a = views(actual@);
    let mut i: usize = 0;
    while i < pattern.len() && i < actual.len()
        invariant
            p == views(pattern@),
            a == views(actual@),
            i <= pattern@.len(),
            i <= actual@.len(),
            forall|k: int| #[trigger] is_pair(p, a, k) && k < i ==> indent_len(p[k]) == 0,
        decreases pattern@.len() - i,
    {
        let here = paired(pattern, actual, i);
        let n = count_leading_whitespace(pattern[i].as_str());
        let m = count_leading_whitespace(actual[i].as_str());
        assert(p[i as int] == pattern@[i as int]@ && a[i as int] == actual@[i as int]@);
        if here && n > 0 {
            let q: usize = m / n;
            proof {
                assert(is_pair(p, a, i as int));
                assert forall|x: nat| #[trigger] tabs_match(p, a, x) implies x == q by {
                    assert(!is_blank(p[i as int]));
                    assert(m == n * x);
                    assert(q == x) by (nonlinear_arith)
                        requires
                            m == n * x,
                            n > 0,
                            q == m / n,
                    ;
                }
            }
            if q > 0 && tabs_consistent(pattern, actual, q) {
                assert(tabs_match(p, a, q as nat));
                return Some(q);
            }
            return None;
        }
        i = i + 1;
    }
    assert(!has_indented(p, a));
    None
}

/// A rule by one of its samples.
struct Sample {
    /// The number of spaces for each tab.
    width: usize,
    /// The tabs of the sample.
    tabs: usize,
    /// Its spaces.
    spaces: usize,
}

impl Sample {
    spec fn rule(&self) -> TabRule {
        TabRule { width: self.width as int, offset: self.spaces - self.tabs * self.width }
    }
}

/// The product of two lengths, and one more length, fit.
proof fn lemma_fits(a: usize, b: usize, c: usize)
    ensures
        0 <= a * b + c <= u128::MAX,
        0 <= a * b <= u128::MAX,
{
    assert(0 <= a * b <= 0xFFFF_FFFF_FFFF_FFFF * 0xFFFF_FFFF_FFFF_FFFF) by (nonlinear_arith)
        requires
            0 <= a <= 0xFFFF_FFFF_FFFF_FFFF,
            0 <= b <= 0xFFFF_FFFF_FFFF_FFFF,
    ;
}

/// Whether every sample has the rule of the given one.
fn sample_holds(pattern: &[String], actual: &[String], q: &Sample) -> (r: bool)
    ensures
        r == samples_fit(views(pattern@), views(actual@), q.rule().width, q.rule().offset),
{
    let ghost p = views(pattern@);
    let ghost a = views(actual@);
    proof {
        lemma_fits(q.tabs, q.width, usize::MAX);
    }
    let base: u128 = (q.tabs as u128) * (q.width as u128);
    let mut i: usize = 0;
    while i < pattern.len() && i < actual.len()
        invariant
            p == views(pattern@),
            a == views(actual@),
            i <= pattern@.len(),
            i <= actual@.len(),
            base == q.tabs * q.width,
            base + usize::MAX <= u128::MAX,
            forall|k: int| #[trigger]
                is_sample(p, a, k) && k < i ==> indent_len(p[k]) == indent_len(a[k])
                    * q.rule().width + q.rule().offset,
        decreases pattern@.len() - i,
    {
        let n = count_leading_whitespace(pattern[i].as_str());
        let m = count_leading_whitespace(actual[i].as_str());
        assert(p[i as int] == pattern@[i as int]@ && a[i as int] == actual@[i as int]@);
        if paired(pattern, actual, i) && m > 0 {
            assert(is_sample(p, a, i as int));
            proof {
                lemma_fits(m, q.width, q.spaces);
            }
            if n as u128 + base != (m as u128) * (q.width as u128) + q.spaces as u128 {
                return false;
            }
        }
        i = i + 1;
    }
    true
}

/// Two samples with different numbers of tabs have at most one rule.
proof fn lemma_one_rule(t1: int, s1: int, t2: int, s2: int, w: int, b: int)
    by (nonlinear_arith)
    requires
        s1 == t1 * w + b,
        s2 == t2 * w + b,
        t1 < t2,
        w > 0,
    ensures
        s2 > s1,
        (s2 - s1) % (t2 - t1) == 0,
        w == (s2 - s1) / (t2 - t1),
        b == s1 - t1 * w,
{
    assert(s2 - s1 == (t2 - t1) * w);
    assert((t2 - t1) * w / (t2 - t1) == w);
    assert(((t2 - t1) * w) % (t2 - t1) == 0);
}

/// Finds a rule from two samples with different numbers of tabs.
fn rule_of_two(
    pattern: &[String],
    actual: &[String],
    i: usize,
    j: usize,
) -> (r: Option<Sample>)
    requires
        is_sample(views(pattern@), views(actual@), i as int),
        is_sample(views(pattern@), views(actual@), j as int),
        indent_len(views(actual@)[i as int]) < indent_len(views(actual@)[j as int]),
    ensures
        match r {
            Some(q) => tab_rule(views(pattern@), views(actual@)) == Some(q.rule()) && q.width > 0,
            None => tab_rule(views(pattern@), views(actual@)) is None,
        },
{
    let ghost p = views(pattern@);
    let ghost a = views(actual@);
    assert(p[i as int] == pattern@[i as int]@ && a[i as int] == actual@[i as int]@);
    assert(p[j as int] == pattern@[j as int]@ && a[j as int] == actual@[j as int]@);
    let s1 = count_leading_whitespace(pattern[i].as_str());
    let t1 = count_leading_whitespace(actual[i].as_str());
    let s2 = count_leading_whitespace(pattern[j].as_str());
    let t2 = count_leading_whitespace(actual[j].as_str());
    proof {
        assert(samples_differ(p, a));
        assert forall|w: int, b: int| w > 0 && #[trigger] samples_fit(p, a, w, b) implies s2 > s1
            && (s2 - s1) % (t2 - t1) == 0 && w == (s2 - s1) / (t2 - t1) && b == s1 - t1 * w by {
            lemma_one_rule(t1 as int, s1 as int, t2 as int, s2 as int, w, b);
        }
    }
    if s2 <= s1 {
        return None;
    }
    let rise: usize = s2 - s1;
    let run: usize = t2 - t1;
    if rise % run != 0 {
        return None;
    }
    let q = Sample { width: rise / run, tabs: t1, spaces: s1 };
    if q.width > 0 && sample_holds(pattern, actual, &q) {
        assert(samples_fit(p, a, q.rule().width, q.rule().offset));
        return Some(q);
    }
    proof {
        assert forall|w: int, b: int| !(w > 0 && #[trigger] samples_fit(p, a, w, b)) by {
            if w > 0 && samples_fit(p, a, w, b) {
                assert(w == q.rule().width && b == q.rule().offset);
            }
        }
    }
    None
}

/// Finds a rule where all samples have the tabs of sample `i`.
fn rule_of_one(pattern: &[String], actual: &[String], i: usize) -> (r: Option<Sample>)
    requires
        is_sample(views(pattern@), views(actual@), i as int),
        !samples_differ(views(pattern@), views(actual@)),
    ensures
        match r {
            Some(q) => tab_rule(views(pattern@), views(actual@)) == Some(q.rule()) && q.width > 0,
            None => tab_rule(views(pattern@), views(actual@)) is None,
        },
{
    let ghost p = views(pattern@);
    let ghost a = views(actual@);
    assert(p[i as int] == pattern@[i as int]@ && a[i as int] == actual@[i as int]@);
    let s = count_leading_whitespace(pattern[i].as_str());
    let t = count_leading_whitespace(actual[i].as_str());
    let w: usize = s / t;
    proof {
        assert forall|x: int| #[trigger] samples_fit(p, a, x, 0) implies x == w && s == t * w by {
            assert(s == t * x);
            assert(x == s / t) by (nonlinear_arith)
                requires
                    s == t * x,
                    t > 0,
            ;
        }
    }
    if s % t != 0 {
        proof {
            assert forall|x: int| !(#[trigger] samples_fit(p, a, x, 0)) by {
                if samples_fit(p, a, x, 0) {
                    assert((t * w) % (t as int) == 0) by (nonlinear_arith)
                        requires
                            t > 0,
                    ;
                }
            }
        }
        return None;
    }
    let q = Sample { width: w, tabs: t, spaces: s };
    proof {
        assert(s == t * w) by (nonlinear_arith)
            requires
                s % t == 0,
                w == s / t,
                t > 0,
        ;
        assert(q.rule() == TabRule { width: w as int, offset: 0 });
    }
    if w > 0 && sample_holds(pattern, actual, &q) {
        assert(samples_fit(p, a, w as int, 0));
        return Some(q);
    }
    None
}

/// Finds how the spaces of `pattern` relate to the tabs of `actual`.
fn find_rule(pattern: &[String], actual: &[String]) -> (r: Option<Sample>)
    ensures
        match r {
            Some(q) => tab_rule(views(pattern@), views(actual@)) == Some(q.rule()) && q.width > 0,
            None => tab_rule(views(pattern@), views(actual@)) is None,
        },
{
    let ghost p = views(pattern@);
    let ghost a = views(actual@);
    let mut first: Option<usize> = None;
    let mut i: usize = 0;
    while i < pattern.len() && i < actual.len()
        invariant
            p == views(pattern@),
            a == views(actual@),
            i <= pattern@.len(),
            i <= actual@.len(),
            match first {
                Some(f) => f < i && is_sample(p, a, f as int) && forall|k: int| #[trigger]
                    is_sample(p, a, k) && k < i ==> indent_len(a[k]) == indent_len(a[f as int]),
                None => forall|k: int| #[trigger] is_sample(p, a, k) ==> k >= i,
            },
        decreases pattern@.len() - i,
    {
        let m = count_leading_whitespace(actual[i].as_str());
        assert(a[i as int] == actual@[i as int]@);
        if paired(pattern, actual, i) && m > 0 {
            assert(is_sample(p, a, i as int));
            match first {
                None => {
                    first = Some(i);
                },
                Some(f) => {
                    let n = count_leading_whitespace(actual[f].as_str());
                    assert(a[f as int] == actual@[f as int]@);
                    if n < m {
                        return rule_of_two(pattern, actual, f, i);
                    }
                    if m < n {
                        return rule_of_two(pattern, actual, i, f);
                    }
                },
            }
        }
        i = i + 1;
    }
    match first {
        Some(f) => {
            assert(!samples_differ(p, a));
            rule_of_one(pattern, actual, f)
        },
        None => {
            assert(!has_sample(p, a));
            None
        },
    }
}

/// Appends `n` times `c`.
fn push_many(s: &mut String, c: char, n: u128)
    ensures
        final(s)@ == old(s)@ + Seq::new(n as nat, |i: int| c),
{
    let ghost start = s@;
    let mut i: u128 = 0;
    assert(start + Seq::new(0, |i: int| c) == start);
    while i < n
        invariant
            i <= n,
            s@ == start + Seq::new(i as nat, |i: int| c),
        decreases n - i,
    {
        s.push(c);
        assert(s@ == start + Seq::new((i + 1) as nat, |i: int| c));
        i = i + 1;
    }
}

fn tab_line(line: &str, q: &Sample) -> (r: String)
    requires
        q.width > 0,
    ensures
        r@ == tabbed_line(line@, q.rule().width, q.rule().offset),
{
    let n = count_leading_whitespace(line);
    if blank(line) || n == 0 {
        return line.to_owned();
    }
    proof {
        lemma_fits(q.tabs, q.width, n);
    }
    let total: u128 = (q.tabs as u128) * (q.width as u128) + n as u128;
    if total < q.spaces as u128 {
        return line.to_owned();
    }
    let m: u128 = total - q.spaces as u128;
    let w: u128 = q.width as u128;
    let mut r: String = String::new();
    push_many(&mut r, '\t', m / w);
    push_many(&mut r, ' ', m % w);
    let rest = line.substring_char(n, line.unicode_len());
    assert(rest@ == line@.skip(n as int));
    r.append(rest);
    proof {
        assert(m == n - q.rule().offset);
        assert(r@ =~= tabbed_line(line@, q.rule().width, q.rule().offset));
    }
    r
}

fn tab_lines(lines: &[String], q: &Sample) -> (r: Vec<String>)
    requires
        q.width > 0,
    ensures
        views(r@) == views(lines@).map_values(
            |l: Seq<char>| tabbed_line(l, q.rule().width, q.rule().offset),
        ),
{
    let ghost target = views(lines@).map_values(
        |l: Seq<char>| tabbed_line(l, q.rule().width, q.rule().offset),
    );
    let mut out: Vec<String> = Vec::new();
    let mut i: usize = 0;
    while i < lines.len()
        invariant
            i <= lines@.len(),
            q.width > 0,
            target == views(lines@).map_values(
                |l: Seq<char>| tabbed_line(l, q.rule().width, q.rule().offset),
            ),
            views(out@) == target.take(i as int),
        decreases lines@.len() - i,
    {
        let l = tab_line(lines[i].as_str(), q);
        push_text(&mut out, l.as_str());
        proof {
            assert(views(lines@)[i as int] == lines@[i as int]@);
            assert(target.take(i + 1) =~= target.take(i as int).push(target[i as int]));
        }
        i = i + 1;
    }
    assert(target.take(i as int) =~= target);
    out
}

fn collect_twins(lines: &[String], text: &str) -> (r: Vec<String>)
    ensures
        views(r@) == twins(views(lines@), text@),
        r@.len() == views(r@).len(),
{
    let ghost l = views(lines@);
    let mut out: Vec<String> = Vec::new();
    let mut i: usize = 0;
    assert(l.take(0) =~= Seq::empty());
    assert(views(out@) =~= Seq::empty());
    while i < lines.len()
        invariant
            l == views(lines@),
            i <= lines@.len(),
            views(out@) == twins(l.take(i as int), text@),
        decreases lines@.len() - i,
    {
        let line = lines[i].as_str();
        proof {
            assert(l.take(i + 1).drop_last() =~= l.take(i as int));
            assert(l.take(i + 1).last() == line@);
        }
        if !blank(line) && same(trim(line), text) {
            push_text(&mut out, line);
        }
        i = i + 1;
    }
    assert(l.take(i as int) =~= l);
    out
}

fn count_strays(lines: &[String], n: usize, text: &str, among: &[String]) -> (r: usize)
    requires
        n <= lines@.len(),
    ensures
        r == strays(views(lines@).take(n as int), text@, views(among@)),
{
    let ghost l = views(lines@);
    let mut r: usize = 0;
    let mut i: usize = 0;
    assert(l.take(0) =~= Seq::empty());
    while i < n
        invariant
            l == views(lines@),
            i <= n <= lines@.len(),
            r <= i,
            r == strays(l.take(i as int), text@, views(among@)),
        decreases n - i,
    {
        let line = lines[i].as_str();
        proof {
            assert(l.take(i + 1).drop_last() =~= l.take(i as int));
            assert(l.take(i + 1).last() == line@);
        }
        if same(trim(line), text) && !holds_text(among, line) {
            r = r + 1;
        }
        i = i + 1;
    }
    r
}

fn settle_line(pattern: &[String], actual: &[String], new: &[String], k: usize) -> (r: String)
    requires
        k < new@.len(),
    ensures
        r@ == settled_line(views(pattern@), views(actual@), views(new@), k as int),
{
    let line = new[k].as_str();
    assert(views(new@)[k as int] == line@);
    if blank(line) {
        return line.to_owned();
    }
    let text = trim(line);
    let found = collect_twins(actual, text);
    if found.len() == 1 {
        assert(views(found@)[0] == found@[0]@);
        return found[0].clone();
    }
    if holds_text(&found, line) {
        return line.to_owned();
    }
    let turn = count_strays(new, k, text, &found);
    if turn < found.len() {
        assert(views(found@)[turn as int] == found@[turn as int]@);
        return found[turn].clone();
    }
    match uniform_shift(pattern, actual) {
        Some(d) => {
            if d != 0 && count_leading_whitespace(line) == least_of(pattern) {
                return shift_line(line, d, leading_char(actual));
            }
        },
        None => {},
    }
    line.to_owned()
}

fn settle_lines(pattern: &[String], actual: &[String], new: &[String]) -> (r: Vec<String>)
    ensures
        views(r@) == Seq::new(
            new@.len(),
            |k: int| settled_line(views(pattern@), views(actual@), views(new@), k),
        ),
{
    let ghost target = Seq::new(
        new@.len(),
        |k: int| settled_line(views(pattern@), views(actual@), views(new@), k),
    );
    let mut out: Vec<String> = Vec::new();
    let mut k: usize = 0;
    while k < new.len()
        invariant
            k <= new@.len(),
            target == Seq::new(
                new@.len(),
                |k: int| settled_line(views(pattern@), views(actual@), views(new@), k),
            ),
            views(out@) == target.take(k as int),
        decreases new@.len() - k,
    {
        let l = settle_line(pattern, actual, new, k);
        push_text(&mut out, l.as_str());
        assert(target.take(k + 1) =~= target.take(k as int).push(target[k as int]));
        k = k + 1;
    }
    assert(target.take(k as int) =~= target);
    out
}

/// Adjusts the indentation of `new` to the difference between `pattern` and
/// `actual`.
///
/// - preserves exact/context line indentation when possible
/// - handles tab and space conversion patterns
/// - applies a safe uniform shift only for minimally-indented new lines
pub fn adjust_lines_indentation(pattern: &[String], actual: &[String], new: &[String]) -> (r: Vec<
    String,
>)
    ensures
        views(r@) == reindented(views(pattern@), views(actual@), views(new@)),
{
    if pattern.len() == 0 || actual.len() == 0 || new.len() == 0 {
        return copy_texts(new);
    }
    if same_lines(pattern, actual) {
        return copy_texts(new);
    }
    if same_trimmed(pattern, new) {
        return copy_texts(new);
    }
    if avoids(pattern, ' ') && avoids(actual, '\t') {
        match find_ratio(pattern, actual) {
            Some(n) => {
                let text = join(new, "\n");
                let converted = convert_leading_tabs_to_spaces(text.as_str(), n);
                return split_on(converted.as_str(), '\n');
            },
            None => {},
        }
    }
    if avoids(pattern, '\t') && avoids(actual, ' ') {
        match find_rule(pattern, actual) {
            Some(q) => {
                return tab_lines(new, &q);
            },
            None => {},
        }
    }
    settle_lines(pattern, actual, new)
}

/// Where the lines are as they were expected, nothing is reindented.
pub proof fn law_expected_lines(lines: Seq<Seq<char>>, new: Seq<Seq<char>>)
    ensures
        reindented(lines, lines, new) == new,
{
}

/// Whether a text is the rest of a line behind its indentation.
pub open spec fn is_unindented(text: Seq<char>) -> bool {
    text.len() > 0 && !is_white(text[0]) && !text.contains('\n')
}

/// A text behind an indentation of `c` alone is indented by that much.
proof fn lemma_led(c: char, k: nat, text: Seq<char>)
    requires
        is_indent(c),
        is_unindented(text),
    ensures
        indent_len(times(c, k) + text) == k,
        indent_of(times(c, k) + text) == times(c, k),
        !is_blank(times(c, k) + text),
        trimmed_start(times(c, k) + text) == text,
        !(times(c, k) + text).contains('\n'),
    decreases k,
{
    let line = times(c, k) + text;
    lemma_indented_line(text, c, k);
    assert(indent_len(text) == 0);
    assert(times(c, k) + indent_of(text) =~= times(c, k));
    lemma_blank_not(text);
    if k > 0 {
        let less = (k - 1) as nat;
        lemma_led(c, less, text);
        assert(line.skip(1) =~= times(c, less) + text);
    } else {
        assert(line =~= text);
    }
    assert forall|j: int| 0 <= j < line.len() implies line[j] != '\n' by {
        if j >= k {
            assert(line[j] == text[j - k]);
            assert(text.contains(text[j - k]));
        }
    }
}

/// A text that begins with something else than white space is not blank.
proof fn lemma_blank_not(s: Seq<char>)
    requires
        s.len() > 0,
        !is_white(s[0]),
    ensures
        !is_blank(s),
    decreases s.len(),
{
    if is_white(s.last()) {
        lemma_blank_not(s.drop_last());
    }
}

/// The lines with the given texts, each behind its number of `c`, `width` times over.
pub open spec fn led(c: char, depths: Seq<nat>, width: nat, texts: Seq<Seq<char>>) -> Seq<Seq<char>> {
    Seq::new(texts.len(), |i: int| times(c, depths[i] * width) + texts[i])
}

proof fn lemma_led_lines(c: char, depths: Seq<nat>, width: nat, texts: Seq<Seq<char>>)
    requires
        is_indent(c),
        depths.len() == texts.len(),
        forall|i: int| 0 <= i < texts.len() ==> is_unindented(#[trigger] texts[i]),
    ensures
        ({
            let lines = led(c, depths, width, texts);
            &&& forall|i: int|
                0 <= i < lines.len() ==> !is_blank(#[trigger] lines[i]) && indent_len(lines[i])
                    == depths[i] * width && indent_of(lines[i]) == times(c, depths[i] * width)
                    && trimmed_start(lines[i]) == texts[i] && !lines[i].contains('\n')
            &&& forall|d: char| d != c ==> #[trigger] indents_without(lines, d)
        }),
{
    let lines = led(c, depths, width, texts);
    assert forall|i: int| 0 <= i < lines.len() implies !is_blank(#[trigger] lines[i])
        && indent_len(lines[i]) == depths[i] * width && indent_of(lines[i]) == times(
        c,
        depths[i] * width,
    ) && trimmed_start(lines[i]) == texts[i] && !lines[i].contains('\n') by {
        assert(is_unindented(texts[i]));
        lemma_led(c, depths[i] * width, texts[i]);
    }
    assert forall|d: char| d != c implies #[trigger] indents_without(lines, d) by {
        assert forall|i: int|
            0 <= i < lines.len() && !is_blank(#[trigger] lines[i]) implies !indent_of(
            lines[i],
        ).contains(d) by {
            assert(indent_of(lines[i]) == times(c, depths[i] * width));
        }
    }
}

/// A hunk that is indented with tabs, and whose old lines stand in the file with `width`
/// spaces for each tab, gets `width` spaces for each tab in its new lines.
pub proof fn law_tabs_to_spaces(
    depths: Seq<nat>,
    texts: Seq<Seq<char>>,
    new_depths: Seq<nat>,
    new_texts: Seq<Seq<char>>,
    width: nat,
    k: int,
)
    requires
        width > 0,
        depths.len() == texts.len(),
        new_depths.len() == new_texts.len(),
        new_texts.len() > 0,
        0 <= k < depths.len(),
        depths[k] > 0,
        forall|i: int| 0 <= i < texts.len() ==> is_unindented(#[trigger] texts[i]),
        forall|i: int| 0 <= i < new_texts.len() ==> is_unindented(#[trigger] new_texts[i]),
        !same_but_indent(led('\t', depths, 1, texts), led('\t', new_depths, 1, new_texts)),
    ensures
        reindented(
            led('\t', depths, 1, texts),
            led(' ', depths, width, texts),
            led('\t', new_depths, 1, new_texts),
        ) == led(' ', new_depths, width, new_texts),
{
    let pattern = led('\t', depths, 1, texts);
    let actual = led(' ', depths, width, texts);
    let new = led('\t', new_depths, 1, new_texts);
    let made = led(' ', new_depths, width, new_texts);
    lemma_led_lines('\t', depths, 1, texts);
    lemma_led_lines(' ', depths, width, texts);
    lemma_led_lines('\t', new_depths, 1, new_texts);
    lemma_led_lines(' ', new_depths, width, new_texts);
    assert(!is_blank(pattern[k]) && !is_blank(actual[k]));
    assert(depths[k] * width > 0) by (nonlinear_arith)
        requires
            depths[k] > 0,
            width > 0,
    ;
    assert(pattern[k][0] == '\t');
    assert(actual[k][0] == ' ');
    assert(pattern != actual);
    assert(indents_without(pattern, ' '));
    assert(indents_without(actual, '\t'));
    assert(is_pair(pattern, actual, k));
    assert(has_indented(pattern, actual));
    assert(tabs_match(pattern, actual, width));
    let ratio = tab_ratio(pattern, actual);
    let n = ratio->0;
    assert(n == width) by {
        assert(tabs_match(pattern, actual, n));
        assert(indent_len(actual[k]) == indent_len(pattern[k]) * n);
        let d = depths[k];
        assert(d * width == (d * 1) * n);
        assert(n == width) by (nonlinear_arith)
            requires
                d > 0,
                d * width == (d * 1) * n,
        ;
    }
    reveal_strlit("\n");
    assert("\n"@ =~= seq!['\n']);
    assert forall|i: int| 0 <= i < new.len() implies !(#[trigger] new[i]).contains('\n') by {}
    law_pieces_join(new, '\n');
    let put = new.map_values(|l: Seq<char>| untabbed_line(l, width));
    assert forall|i: int| 0 <= i < new.len() implies #[trigger] put[i] == made[i] by {
        let lead = indent_of(new[i]);
        let d = new_depths[i];
        assert(lead == times('\t', d * 1));
        assert(new_texts[i].len() > 0) by {
            assert(is_unindented(new_texts[i]));
        }
        if d == 0 {
            assert(!lead.contains('\t'));
            assert(d * width == 0) by (nonlinear_arith)
                requires
                    d == 0,
            ;
            assert(new[i] =~= new_texts[i]);
            assert(made[i] =~= new_texts[i]);
        } else {
            assert(lead[0] == '\t');
            assert(lead.len() * width == d * width);
            assert(spaces(d * width) =~= times(' ', d * width));
        }
    }
    assert(put =~= made);
    assert forall|i: int| 0 <= i < made.len() implies !(#[trigger] made[i]).contains('\n') by {}
    law_pieces_join(made, '\n');
}

/// A hunk that is indented with `width` spaces for each step, and whose old lines stand in
/// the file with a tab for each, gets a tab for each step in its new lines.
pub proof fn law_spaces_to_tabs(
    depths: Seq<nat>,
    texts: Seq<Seq<char>>,
    new_depths: Seq<nat>,
    new_texts: Seq<Seq<char>>,
    width: nat,
    k: int,
)
    requires
        width > 0,
        depths.len() == texts.len(),
        new_depths.len() == new_texts.len(),
        new_texts.len() > 0,
        0 <= k < depths.len(),
        depths[k] > 0,
        forall|i: int| 0 <= i < texts.len() ==> is_unindented(#[trigger] texts[i]),
        forall|i: int| 0 <= i < new_texts.len() ==> is_unindented(#[trigger] new_texts[i]),
        !same_but_indent(led(' ', depths, width, texts), led(' ', new_depths, width, new_texts)),
    ensures
        reindented(
            led(' ', depths, width, texts),
            led('\t', depths, 1, texts),
            led(' ', new_depths, width, new_texts),
        ) == led('\t', new_depths, 1, new_texts),
{
    let pattern = led(' ', depths, width, texts);
    let actual = led('\t', depths, 1, texts);
    let new = led(' ', new_depths, width, new_texts);
    let made = led('\t', new_depths, 1, new_texts);
    lemma_led_lines(' ', depths, width, texts);
    lemma_led_lines('\t', depths, 1, texts);
    lemma_led_lines(' ', new_depths, width, new_texts);
    assert(!is_blank(pattern[k]) && !is_blank(actual[k]));
    assert(depths[k] * width > 0) by (nonlinear_arith)
        requires
            depths[k] > 0,
            width > 0,
    ;
    assert(pattern[k][0] == ' ');
    assert(actual[k][0] == '\t');
    assert(pattern != actual);
    assert(indents_without(pattern, '\t'));
    assert(indents_without(actual, ' '));
    assert(!indents_without(pattern, ' ')) by {
        assert(indent_of(pattern[k])[0] == ' ');
    }
    let w = width as int;
    assert(samples_fit(pattern, actual, w, 0)) by {
        assert forall|i: int| #[trigger] is_sample(pattern, actual, i) implies indent_len(pattern[i])
            == indent_len(actual[i]) * w + 0 by {
            assert(!is_blank(pattern[i]) && !is_blank(actual[i]));
        }
    }
    assert(is_sample(pattern, actual, k));
    let rule = tab_rule(pattern, actual);
    assert(rule is Some);
    let x = (rule->0).width;
    let b = (rule->0).offset;
    assert(x == w && b == 0) by {
        if samples_differ(pattern, actual) {
            let (i, j) = choose|i: int, j: int| #[trigger]
                is_sample(pattern, actual, i) && #[trigger] is_sample(pattern, actual, j)
                    && indent_len(actual[i]) != indent_len(actual[j]);
            assert(is_sample(pattern, actual, i) && is_sample(pattern, actual, j));
            assert(samples_fit(pattern, actual, x, b));
            let p = indent_len(actual[i]) as int;
            let q = indent_len(actual[j]) as int;
            assert(p * w == p * x + b && q * w == q * x + b);
            assert(w == x && b == 0) by (nonlinear_arith)
                requires
                    p != q,
                    p * w == p * x + b,
                    q * w == q * x + b,
            ;
        } else {
            assert(has_sample(pattern, actual));
            assert(samples_fit(pattern, actual, x, 0));
            let p = indent_len(actual[k]) as int;
            assert(p * w == p * x);
            assert(w == x) by (nonlinear_arith)
                requires
                    p > 0,
                    p * w == p * x,
            ;
        }
    }
    let put = new.map_values(|l: Seq<char>| tabbed_line(l, x, b));
    assert forall|i: int| 0 <= i < new.len() implies #[trigger] put[i] == made[i] by {
        let d = new_depths[i];
        assert(indent_len(new[i]) == d * width);
        assert(d * 1 == d);
        if d == 0 {
            assert(d * width == 0) by (nonlinear_arith)
                requires
                    d == 0,
            ;
            assert(new[i] =~= made[i]);
        } else {
            assert(d * width > 0) by (nonlinear_arith)
                requires
                    d > 0,
                    width > 0,
            ;
            let n = d * width;
            vstd::arithmetic::div_mod::lemma_div_multiples_vanish(d as int, w);
            vstd::arithmetic::div_mod::lemma_mod_multiples_basic(d as int, w);
            vstd::arithmetic::mul::lemma_mul_is_commutative(d as int, w);
            assert(n as int / w == d);
            assert(n as int % w == 0);
            assert(new[i].skip(n as int) =~= new_texts[i]);
            assert(put[i] =~= made[i]);
        }
    }
    assert(put =~= made);
}

/// Among lines of which one holds the text, that one is its only twin; among lines of
/// which none does, there is no twin.
proof fn lemma_twins(lines: Seq<Seq<char>>, text: Seq<char>, i: int)
    ensures
        0 <= i < lines.len() && !is_blank(lines[i]) && trimmed(lines[i]) == text && (forall|j: int|
            0 <= j < lines.len() && j != i ==> trimmed(#[trigger] lines[j]) != text) ==> twins(
            lines,
            text,
        ) == seq![lines[i]],
        (forall|j: int| 0 <= j < lines.len() ==> trimmed(#[trigger] lines[j]) != text) ==> twins(
            lines,
            text,
        ).len() == 0,
    decreases lines.len(),
{
    if lines.len() > 0 {
        let before = lines.drop_last();
        lemma_twins(before, text, i);
        assert(lines.last() == lines[lines.len() - 1]);
        if forall|j: int| 0 <= j < lines.len() ==> trimmed(#[trigger] lines[j]) != text {
            assert forall|j: int| 0 <= j < before.len() implies trimmed(#[trigger] before[j])
                != text by {
                assert(before[j] == lines[j]);
            }
        }
        if 0 <= i < lines.len() && !is_blank(lines[i]) && trimmed(lines[i]) == text && (forall|
            j: int,
        |
            0 <= j < lines.len() && j != i ==> trimmed(#[trigger] lines[j]) != text) {
            assert forall|j: int| 0 <= j < before.len() && j != i implies trimmed(
                #[trigger] before[j],
            ) != text by {
                assert(before[j] == lines[j]);
            }
            if i == lines.len() - 1 {
                assert(Seq::<Seq<char>>::empty().push(lines[i]) =~= seq![lines[i]]);
                assert(twins(before, text) =~= Seq::<Seq<char>>::empty());
            }
        }
    }
}

/// In a file that is indented with spaces, as the hunk is: a new line with the text of one
/// line of the file that it replaces is written as that line stands there; another new
/// line is moved as the old lines are, where it is indented as little as the least of
/// them, and is written as given where it is indented more.
pub proof fn law_new_line_settled(
    pattern: Seq<Seq<char>>,
    actual: Seq<Seq<char>>,
    new: Seq<Seq<char>>,
    shift: nat,
    k: int,
    i: int,
)
    requires
        pattern.len() == actual.len(),
        0 < pattern.len(),
        pattern != actual,
        !same_but_indent(pattern, new),
        indents_without(pattern, '\t'),
        indents_without(actual, '\t'),
        0 <= k < new.len(),
        !is_blank(new[k]),
    ensures
        0 <= i < actual.len() && !is_blank(actual[i]) && trimmed(actual[i]) == trimmed(new[k]) && (
        forall|j: int| 0 <= j < actual.len() && j != i ==> trimmed(#[trigger] actual[j])
            != trimmed(new[k])) ==> reindented(pattern, actual, new)[k] == actual[i],
        ({
            &&& shift > 0
            &&& has_solid(pattern)
            &&& is_moved(pattern, actual, ' ', shift)
            &&& forall|j: int|
                0 <= j < actual.len() && (#[trigger] actual[j]).len() > 0 ==> actual[j][0] != '\t'
            &&& forall|j: int| 0 <= j < actual.len() ==> trimmed(#[trigger] actual[j]) != trimmed(
                new[k],
            )
        }) ==> reindented(pattern, actual, new)[k] == (if indent_len(new[k]) == base_of(pattern) {
            times(' ', shift) + new[k]
        } else {
            new[k]
        }),
        reindented(pattern, actual, new).len() == new.len(),
{
    let ratio = tab_ratio(pattern, actual);
    let rule = tab_rule(pattern, actual);
    if indents_without(pattern, ' ') {
        if has_indented(pattern, actual) {
            let j = choose|j: int| #[trigger]
                is_pair(pattern, actual, j) && indent_len(pattern[j]) > 0;
            assert(is_pair(pattern, actual, j) && indent_len(pattern[j]) > 0);
            lemma_lead_char(pattern[j]);
            assert(indent_of(pattern[j]).contains(pattern[j][0]));
        }
        assert(ratio is None);
    }
    if indents_without(actual, ' ') {
        assert forall|j: int| !#[trigger] is_sample(pattern, actual, j) by {
            if is_sample(pattern, actual, j) {
                assert(is_pair(pattern, actual, j));
                lemma_lead_char(actual[j]);
                assert(indent_of(actual[j]).contains(actual[j][0]));
            }
        }
        assert(!samples_differ(pattern, actual));
        assert(!has_sample(pattern, actual));
        assert(rule is None);
    }
    let text = trimmed(new[k]);
    lemma_twins(actual, text, i);
    assert(reindented(pattern, actual, new)[k] == settled_line(pattern, actual, new, k));
    if 0 <= i < actual.len() && !is_blank(actual[i]) && trimmed(actual[i]) == text && (forall|
        j: int,
    |
        0 <= j < actual.len() && j != i ==> trimmed(#[trigger] actual[j]) != text) {
        assert(twins(actual, text) == seq![actual[i]]);
    }
    if shift > 0 && has_solid(pattern) && is_moved(pattern, actual, ' ', shift) && (forall|j: int|
        0 <= j < actual.len() && (#[trigger] actual[j]).len() > 0 ==> actual[j][0] != '\t') && (forall|j: int|
        0 <= j < actual.len() ==> trimmed(#[trigger] actual[j]) != text) {
        assert(twins(actual, text).len() == 0);
        lemma_shift_right(pattern, actual, shift);
        lemma_space_lead(actual);
        assert(Seq::new(shift, |q: int| ' ') =~= times(' ', shift));
    }
}

/// The first character of an indentation is part of it.
proof fn lemma_lead_char(line: Seq<char>)
    requires
        indent_len(line) > 0,
    ensures
        line.len() > 0,
        indent_of(line).len() > 0,
        indent_of(line)[0] == line[0],
        line[0] == ' ' || line[0] == '\t',
        indent_of(line).contains(line[0]),
{
    lemma_indent_len(line);
    assert(indent_of(line)[0] == line[0]);
}

/// Lines moved to the right have that shift in common.
proof fn lemma_shift_right(pattern: Seq<Seq<char>>, actual: Seq<Seq<char>>, shift: nat)
    requires
        has_solid(pattern),
        is_moved(pattern, actual, ' ', shift),
    ensures
        common_shift(pattern, actual) == Some(shift as int),
{
    assert forall|j: int| 0 <= j < pattern.len() implies if is_blank(#[trigger] pattern[j]) {
        is_blank(actual[j])
    } else {
        !is_blank(actual[j]) && indent_len(actual[j]) - indent_len(pattern[j]) == shift
    } by {
        lemma_indented_line(pattern[j], ' ', shift);
    }
    lemma_common_shift(pattern, actual, shift as int);
}

/// Lines of which none begins with a tab are indented with spaces.
proof fn lemma_space_lead(lines: Seq<Seq<char>>)
    requires
        forall|j: int| 0 <= j < lines.len() && (#[trigger] lines[j]).len() > 0 ==> lines[j][0] != '\t',
    ensures
        lead_char(lines) == ' ',
    decreases lines.len(),
{
    if lines.len() > 0 {
        let before = lines.drop_last();
        assert forall|j: int| 0 <= j < before.len() && (#[trigger] before[j]).len() > 0 implies
            before[j][0] != '\t' by {
            assert(before[j] == lines[j]);
        }
        lemma_space_lead(before);
        assert(lines.last() == lines[lines.len() - 1]);
        if indent_len(lines.last()) > 0 {
            lemma_lead_char(lines.last());
        }
    }
}

} // verus!
