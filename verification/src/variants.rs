//! Fallback variants of a hunk.
//!
//! A hunk whose lines are not found as they stand is looked for in smaller
//! forms: without the lines that the old and the new side share at both ends,
//! with repetitions collapsed, or as the single line that changes.

use crate::text::{copy_range, copy_texts, holds_text, join, joined, push_text, same, views};
use vstd::prelude::*;
use vstd::string::*;

verus! {

/// Kind of fallback transformation applied to a hunk.
#[derive(Debug, Clone, Copy, PartialEq, Eq, Structural)]
pub enum HunkVariantKind {
    /// Common lines at both ends are left out.
    TrimCommon,
    /// Repeated shared lines are collapsed.
    DedupeShared,
    /// Repeated blocks of shared lines are collapsed.
    CollapseRepeated,
    /// The single changed line is left.
    SingleLine,
}

/// A smaller form of a hunk.
#[derive(Debug)]
pub struct HunkVariant {
    /// Lines of the old file.
    pub old_lines: Vec<String>,
    /// Lines of the new file.
    pub new_lines: Vec<String>,
    /// How it was made.
    pub kind: HunkVariantKind,
}

/// A smaller form of a hunk, by its contents.
#[verifier::ext_equal]
pub ghost struct VariantView {
    /// Lines of the old file.
    pub old: Seq<Seq<char>>,
    /// Lines of the new file.
    pub new: Seq<Seq<char>>,
    /// How it was made.
    pub kind: HunkVariantKind,
}

impl View for HunkVariant {
    type V = VariantView;

    open spec fn view(&self) -> VariantView {
        VariantView {
            old: views(self.old_lines@),
            new: views(self.new_lines@),
            kind: self.kind,
        }
    }
}

/// The view of an optional variant.
pub open spec fn opt_variant(v: Option<HunkVariant>) -> Option<VariantView> {
    match v {
        Some(x) => Some(x@),
        None => None,
    }
}

/// The variants, by their contents.
pub open spec fn variant_views(v: Seq<HunkVariant>) -> Seq<VariantView> {
    Seq::new(v.len(), |i: int| v[i]@)
}

/// How many lines two sequences share at the beginning.
pub open spec fn common_prefix(a: Seq<Seq<char>>, b: Seq<Seq<char>>) -> nat
    decreases a.len(),
{
    if a.len() > 0 && b.len() > 0 && a[0] == b[0] {
        1 + common_prefix(a.skip(1), b.skip(1))
    } else {
        0
    }
}

/// How many lines two sequences share at the end.
pub open spec fn common_suffix(a: Seq<Seq<char>>, b: Seq<Seq<char>>) -> nat
    decreases a.len(),
{
    if a.len() > 0 && b.len() > 0 && a.last() == b.last() {
        1 + common_suffix(a.drop_last(), b.drop_last())
    } else {
        0
    }
}

/// The old and the new lines without those that they share at the beginning
/// and, of the rest, at the end.
pub open spec fn trimmed_common(old: Seq<Seq<char>>, new: Seq<Seq<char>>) -> Option<VariantView> {
    let p = common_prefix(old, new) as int;
    let s = common_suffix(old.skip(p), new.skip(p)) as int;
    let a = old.subrange(p, old.len() - s);
    let b = new.subrange(p, new.len() - s);
    if (p == 0 && s == 0) || (a.len() == 0 && b.len() == 0) {
        None
    } else {
        Some(VariantView { old: a, new: b, kind: HunkVariantKind::TrimCommon })
    }
}

/// Trims common prefix/suffix context from old/new lines.
pub fn trim_common_context(old: &[String], new: &[String]) -> (r: Option<HunkVariant>)
    ensures
        opt_variant(r) == trimmed_common(views(old@), views(new@)),
{
    let ghost o = views(old@);
    let ghost n = views(new@);
    let mut start: usize = 0;
    assert(o.skip(0) =~= o && n.skip(0) =~= n);
    while start < old.len() && start < new.len() && same(old[start].as_str(), new[start].as_str())
        invariant
            o == views(old@),
            n == views(new@),
            start <= old@.len(),
            start <= new@.len(),
            start + common_prefix(o.skip(start as int), n.skip(start as int)) == common_prefix(
                o,
                n,
            ),
        decreases old@.len() - start,
    {
        proof {
            assert(o.skip(start as int)[0] == old@[start as int]@);
            assert(n.skip(start as int)[0] == new@[start as int]@);
            assert(o.skip(start as int).skip(1) =~= o.skip(start + 1));
            assert(n.skip(start as int).skip(1) =~= n.skip(start + 1));
        }
        start = start + 1;
    }
    proof {
        if start < old@.len() && start < new@.len() {
            assert(o.skip(start as int)[0] == old@[start as int]@);
            assert(n.skip(start as int)[0] == new@[start as int]@);
        }
        assert(start == common_prefix(o, n));
    }
    let mut end_old: usize = old.len();
    let mut end_new: usize = new.len();
    let ghost a = o.skip(start as int);
    let ghost b = n.skip(start as int);
    let ghost mut k: int = 0;
    assert(a.take(a.len() as int) =~= a && b.take(b.len() as int) =~= b);
    while end_old > start && end_new > start && same(
        old[end_old - 1].as_str(),
        new[end_new - 1].as_str(),
    )
        invariant
            o == views(old@),
            n == views(new@),
            a == o.skip(start as int),
            b == n.skip(start as int),
            start <= end_old <= old@.len(),
            start <= end_new <= new@.len(),
            k == old@.len() - end_old,
            k == new@.len() - end_new,
            k + common_suffix(a.take(a.len() - k), b.take(b.len() - k)) == common_suffix(a, b),
        decreases end_old,
    {
        proof {
            let x = a.take(a.len() - k);
            let y = b.take(b.len() - k);
            assert(x.last() == old@[end_old - 1]@);
            assert(y.last() == new@[end_new - 1]@);
            assert(x.drop_last() =~= a.take(a.len() - k - 1));
            assert(y.drop_last() =~= b.take(b.len() - k - 1));
            k = k + 1;
        }
        end_old = end_old - 1;
        end_new = end_new - 1;
    }
    proof {
        let x = a.take(a.len() - k);
        let y = b.take(b.len() - k);
        if end_old > start && end_new > start {
            assert(x.last() == old@[end_old - 1]@);
            assert(y.last() == new@[end_new - 1]@);
        }
        assert(k == common_suffix(a, b));
    }
    if start == 0 && end_old == old.len() && end_new == new.len() {
        return None;
    }
    if end_old == start && end_new == start {
        return None;
    }
    let r = HunkVariant {
        old_lines: copy_range(old, start, end_old),
        new_lines: copy_range(new, start, end_new),
        kind: HunkVariantKind::TrimCommon,
    };
    assert(Some(r@) == trimmed_common(o, n));
    Some(r)
}

/// Whether a line is among the old and among the new lines.
pub open spec fn is_shared(line: Seq<char>, old: Seq<Seq<char>>, new: Seq<Seq<char>>) -> bool {
    old.contains(line) && new.contains(line)
}

/// The lines without those that repeat the line before them and are shared.
pub open spec fn without_repeats(
    lines: Seq<Seq<char>>,
    old: Seq<Seq<char>>,
    new: Seq<Seq<char>>,
) -> Seq<Seq<char>>
    decreases lines.len(),
{
    if lines.len() == 0 {
        Seq::empty()
    } else {
        let before = without_repeats(lines.drop_last(), old, new);
        if lines.len() > 1 && lines.last() == lines[lines.len() - 2] && is_shared(
            lines.last(),
            old,
            new,
        ) {
            before
        } else {
            before.push(lines.last())
        }
    }
}

/// A variant, unless both sides have the length that they had.
pub open spec fn shorter_variant(
    old: Seq<Seq<char>>,
    new: Seq<Seq<char>>,
    a: Seq<Seq<char>>,
    b: Seq<Seq<char>>,
    kind: HunkVariantKind,
) -> Option<VariantView> {
    if a.len() == old.len() && b.len() == new.len() {
        None
    } else {
        Some(VariantView { old: a, new: b, kind })
    }
}

/// The old and the new lines with repeated shared lines collapsed.
pub open spec fn deduped_shared(old: Seq<Seq<char>>, new: Seq<Seq<char>>) -> Option<VariantView> {
    shorter_variant(
        old,
        new,
        without_repeats(old, old, new),
        without_repeats(new, old, new),
        HunkVariantKind::DedupeShared,
    )
}

fn line_shared(line: &str, old: &[String], new: &[String]) -> (r: bool)
    ensures
        r == is_shared(line@, views(old@), views(new@)),
{
    holds_text(old, line) && holds_text(new, line)
}

fn drop_repeats(lines: &[String], old: &[String], new: &[String]) -> (r: Vec<String>)
    ensures
        views(r@) == without_repeats(views(lines@), views(old@), views(new@)),
        r@.len() == views(r@).len(),
{
    let ghost l = views(lines@);
    let ghost o = views(old@);
    let ghost n = views(new@);
    let mut out: Vec<String> = Vec::new();
    let mut i: usize = 0;
    assert(l.take(0).len() == 0);
    assert(views(out@) =~= without_repeats(l.take(0), o, n));
    while i < lines.len()
        invariant
            l == views(lines@),
            o == views(old@),
            n == views(new@),
            i <= lines@.len(),
            views(out@) == without_repeats(l.take(i as int), o, n),
        decreases lines@.len() - i,
    {
        let line = lines[i].as_str();
        proof {
            let t = l.take(i + 1);
            assert(t.drop_last() =~= l.take(i as int));
            assert(t.last() == line@);
            if i > 0 {
                assert(t[t.len() - 2] == lines@[i - 1]@);
            }
        }
        let repeated = if i > 0 {
            same(line, lines[i - 1].as_str()) && line_shared(line, old, new)
        } else {
            false
        };
        if !repeated {
            push_text(&mut out, line);
        }
        i = i + 1;
    }
    assert(l.take(i as int) =~= l);
    out
}

/// Collapses consecutive duplicate shared lines.
fn collapse_consecutive_shared_lines(old: &[String], new: &[String]) -> (r: Option<HunkVariant>)
    ensures
        opt_variant(r) == deduped_shared(views(old@), views(new@)),
{
    let a = drop_repeats(old, old, new);
    let b = drop_repeats(new, old, new);
    if a.len() == old.len() && b.len() == new.len() {
        return None;
    }
    Some(HunkVariant { old_lines: a, new_lines: b, kind: HunkVariantKind::DedupeShared })
}

/// Whether the `size` lines at `i` are shared and stand there twice in a row.
pub open spec fn repeats_block(
    lines: Seq<Seq<char>>,
    i: int,
    size: int,
    old: Seq<Seq<char>>,
    new: Seq<Seq<char>>,
) -> bool {
    i + 2 * size <= lines.len() && forall|k: int|
        i <= k < i + size ==> #[trigger] lines[k] == lines[k + size] && is_shared(
            lines[k],
            old,
            new,
        )
}

/// The greatest size, from `size` down to two, of a block at `i` that stands
/// there twice; zero where there is none.
pub open spec fn block_size(
    lines: Seq<Seq<char>>,
    i: int,
    size: int,
    old: Seq<Seq<char>>,
    new: Seq<Seq<char>>,
) -> int
    decreases size,
{
    if size < 2 {
        0
    } else if repeats_block(lines, i, size, old, new) {
        size
    } else {
        block_size(lines, i, size - 1, old, new)
    }
}

/// The lines with repeated blocks of shared lines, from `i` on, collapsed.
pub open spec fn collapsed_blocks(
    lines: Seq<Seq<char>>,
    i: int,
    old: Seq<Seq<char>>,
    new: Seq<Seq<char>>,
) -> Seq<Seq<char>>
    decreases lines.len() - i,
{
    if i < 0 || i >= lines.len() {
        lines
    } else {
        let size = block_size(lines, i, (lines.len() - i) / 2, old, new);
        if 2 <= size && i + 2 * size <= lines.len() {
            collapsed_blocks(lines.take(i + size) + lines.skip(i + 2 * size), i, old, new)
        } else {
            collapsed_blocks(lines, i + 1, old, new)
        }
    }
}

/// The old and the new lines with repeated blocks collapsed.
pub open spec fn deduped_blocks(old: Seq<Seq<char>>, new: Seq<Seq<char>>) -> Option<VariantView> {
    shorter_variant(
        old,
        new,
        collapsed_blocks(old, 0, old, new),
        collapsed_blocks(new, 0, old, new),
        HunkVariantKind::CollapseRepeated,
    )
}

fn block_repeats(lines: &Vec<String>, i: usize, size: usize, old: &[String], new: &[String]) -> (r:
    bool)
    requires
        i + 2 * size <= lines@.len(),
    ensures
        r == repeats_block(views(lines@), i as int, size as int, views(old@), views(new@)),
{
    let ghost l = views(lines@);
    let n: usize = lines.len();
    let mut k: usize = 0;
    while k < size
        invariant
            l == views(lines@),
            n == lines@.len(),
            k <= size,
            i + 2 * size <= lines@.len(),
            forall|j: int|
                i <= j < i + k ==> #[trigger] l[j] == l[j + size] && is_shared(
                    l[j],
                    views(old@),
                    views(new@),
                ),
        decreases size - k,
    {
        let a = lines[i + k].as_str();
        let b = lines[i + k + size].as_str();
        assert(l[i + k] == a@ && l[(i + k) + size] == b@);
        if !same(a, b) || !line_shared(a, old, new) {
            return false;
        }
        k = k + 1;
    }
    true
}

fn collapse_blocks(lines: &[String], old: &[String], new: &[String]) -> (r: Vec<String>)
    ensures
        views(r@) == collapsed_blocks(views(lines@), 0, views(old@), views(new@)),
        r@.len() == views(r@).len(),
{
    let ghost o = views(old@);
    let ghost n = views(new@);
    let mut out = copy_texts(lines);
    let mut i: usize = 0;
    while i < out.len()
        invariant
            o == views(old@),
            n == views(new@),
            i <= out@.len(),
            collapsed_blocks(views(out@), i as int, o, n) == collapsed_blocks(
                views(lines@),
                0,
                o,
                n,
            ),
        decreases out@.len() - i,
    {
        let ghost l = views(out@);
        let top: usize = (out.len() - i) / 2;
        let mut size: usize = top;
        let mut found = false;
        while size >= 2 && !found
            invariant
                l == views(out@),
                o == views(old@),
                n == views(new@),
                i < out@.len(),
                top == (out@.len() - i) / 2,
                size <= top,
                !found ==> block_size(l, i as int, size as int, o, n) == block_size(
                    l,
                    i as int,
                    top as int,
                    o,
                    n,
                ),
                found ==> block_size(l, i as int, top as int, o, n) == size && size >= 2,
            decreases size, (if found { 0int } else { 1int }),
        {
            if block_repeats(&out, i, size, old, new) {
                found = true;
            } else {
                size = size - 1;
            }
        }
        if found {
            let total: usize = out.len();
            let mut next = copy_range(&out, 0, i + size);
            let rest = copy_range(&out, i + 2 * size, total);
            let ghost a = views(next@);
            let ghost b = views(rest@);
            let mut k: usize = 0;
            assert(a + b.take(0) =~= a);
            while k < rest.len()
                invariant
                    k <= rest@.len(),
                    b == views(rest@),
                    views(next@) == a + b.take(k as int),
                decreases rest@.len() - k,
            {
                push_text(&mut next, rest[k].as_str());
                assert(a + b.take(k + 1) =~= (a + b.take(k as int)).push(b[k as int]));
                k = k + 1;
            }
            proof {
                assert(b.take(k as int) =~= b);
                assert(a =~= l.take(i + size));
                assert(b =~= l.skip(i + 2 * size));
                assert(views(next@).len() == next@.len());
            }
            out = next;
        } else {
            i = i + 1;
        }
    }
    assert(views(out@).len() == out@.len());
    out
}

/// Collapses repeated blocks of shared lines.
fn collapse_repeated_blocks(old: &[String], new: &[String]) -> (r: Option<HunkVariant>)
    ensures
        opt_variant(r) == deduped_blocks(views(old@), views(new@)),
{
    let a = collapse_blocks(old, old, new);
    let b = collapse_blocks(new, old, new);
    if a.len() == old.len() && b.len() == new.len() {
        return None;
    }
    Some(HunkVariant { old_lines: a, new_lines: b, kind: HunkVariantKind::CollapseRepeated })
}

/// Whether line `i` is the only one in which the two differ.
pub open spec fn only_change(old: Seq<Seq<char>>, new: Seq<Seq<char>>, i: int) -> bool {
    0 <= i < old.len() && old[i] != new[i] && forall|k: int|
        0 <= k < old.len() && k != i ==> #[trigger] old[k] == new[k]
}

/// The single line in which two sequences of one length differ.
pub open spec fn single_change(old: Seq<Seq<char>>, new: Seq<Seq<char>>) -> Option<VariantView> {
    if old.len() == new.len() && exists|i: int| only_change(old, new, i) {
        let i = choose|i: int| only_change(old, new, i);
        Some(
            VariantView {
                old: seq![old[i]],
                new: seq![new[i]],
                kind: HunkVariantKind::SingleLine,
            },
        )
    } else {
        None
    }
}

/// Reduces to a single changed line when exactly one line differs.
pub fn reduce_to_single_line_change(old: &[String], new: &[String]) -> (r: Option<HunkVariant>)
    ensures
        opt_variant(r) == single_change(views(old@), views(new@)),
{
    let ghost o = views(old@);
    let ghost n = views(new@);
    if old.len() != new.len() {
        return None;
    }
    let mut changed: Option<usize> = None;
    let mut i: usize = 0;
    while i < old.len()
        invariant
            o == views(old@),
            n == views(new@),
            old@.len() == new@.len(),
            i <= old@.len(),
            match changed {
                Some(c) => c < i && o[c as int] != n[c as int] && forall|k: int|
                    0 <= k < i && k != c ==> #[trigger] o[k] == n[k],
                None => forall|k: int| 0 <= k < i ==> #[trigger] o[k] == n[k],
            },
        decreases old@.len() - i,
    {
        assert(o[i as int] == old@[i as int]@ && n[i as int] == new@[i as int]@);
        if !same(old[i].as_str(), new[i].as_str()) {
            match changed {
                Some(c) => {
                    proof {
                        assert forall|k: int| !only_change(o, n, k) by {
                            if only_change(o, n, k) {
                                if k == c {
                                    assert(o[i as int] == n[i as int]);
                                } else {
                                    assert(o[c as int] == n[c as int]);
                                }
                            }
                        }
                    }
                    return None;
                },
                None => {
                    changed = Some(i);
                },
            }
        }
        i = i + 1;
    }
    match changed {
        None => {
            proof {
                assert forall|k: int| !only_change(o, n, k) by {
                    if only_change(o, n, k) {
                        assert(o[k] == n[k]);
                    }
                }
            }
            None
        },
        Some(c) => {
            proof {
                assert(only_change(o, n, c as int));
                let k = choose|k: int| only_change(o, n, k);
                if k != c {
                    assert(o[k] == n[k]);
                }
            }
            let mut a: Vec<String> = Vec::new();
            let mut b: Vec<String> = Vec::new();
            push_text(&mut a, old[c].as_str());
            push_text(&mut b, new[c].as_str());
            let r = HunkVariant { old_lines: a, new_lines: b, kind: HunkVariantKind::SingleLine };
            assert(r@ =~= single_change(o, n)->0);
            Some(r)
        },
    }
}

/// What tells variants apart.
pub open spec fn variant_key(v: VariantView) -> Seq<char> {
    joined(v.old, "\n"@) + "||"@ + joined(v.new, "\n"@)
}

/// Whether a variant with the key of `v` is among `vs`.
pub open spec fn has_key(vs: Seq<VariantView>, v: VariantView) -> bool {
    exists|i: int| 0 <= i < vs.len() && variant_key(#[trigger] vs[i]) == variant_key(v)
}

/// The variants and one more, unless it is empty or there already.
pub open spec fn with_variant(vs: Seq<VariantView>, v: Option<VariantView>) -> Seq<VariantView> {
    match v {
        Some(x) => if (x.old.len() == 0 && x.new.len() == 0) || has_key(vs, x) {
            vs
        } else {
            vs.push(x)
        },
        None => vs,
    }
}

/// The old and the new lines of a variant, or those given.
pub open spec fn sides_or(v: Option<VariantView>, old: Seq<Seq<char>>, new: Seq<Seq<char>>) -> (
    Seq<Seq<char>>,
    Seq<Seq<char>>,
) {
    match v {
        Some(x) => (x.old, x.new),
        None => (old, new),
    }
}

/// The variants of a hunk, from least to most aggressive.
pub open spec fn all_variants(old: Seq<Seq<char>>, new: Seq<Seq<char>>) -> Seq<VariantView> {
    let t = trimmed_common(old, new);
    let (o1, n1) = sides_or(t, old, new);
    let d = deduped_shared(o1, n1);
    let (o2, n2) = sides_or(d, o1, n1);
    let c = deduped_blocks(o2, n2);
    let s = single_change(o1, n1);
    with_variant(with_variant(with_variant(with_variant(Seq::empty(), t), d), c), s)
}

fn key_of(v: &HunkVariant) -> (r: String)
    ensures
        r@ == variant_key(v@),
{
    let mut r = join(&v.old_lines, "\n");
    r.append("||");
    r.append(join(&v.new_lines, "\n").as_str());
    r
}

fn push_variant(vs: &mut Vec<HunkVariant>, v: Option<HunkVariant>)
    ensures
        variant_views(final(vs)@) == with_variant(variant_views(old(vs)@), opt_variant(v)),
{
    let ghost vs0 = variant_views(vs@);
    match v {
        None => {},
        Some(x) => {
            let ghost xv = x@;
            assert(xv.old.len() == x.old_lines@.len() && xv.new.len() == x.new_lines@.len());
            if x.old_lines.len() == 0 && x.new_lines.len() == 0 {
                return;
            }
            let key = key_of(&x);
            let mut i: usize = 0;
            while i < vs.len()
                invariant
                    *vs == *old(vs),
                    vs0 == variant_views(vs@),
                    i <= vs@.len(),
                    key@ == variant_key(xv),
                    forall|k: int| 0 <= k < i ==> variant_key(#[trigger] vs0[k]) != variant_key(xv),
                    vs0 == variant_views(old(vs)@),
                    opt_variant(v) == Some(xv),
                decreases vs@.len() - i,
            {
                let other = key_of(&vs[i]);
                assert(vs0[i as int] == vs@[i as int]@);
                if same(other.as_str(), key.as_str()) {
                    assert(has_key(vs0, xv));
                    return;
                }
                i = i + 1;
            }
            let ghost raw = vs@;
            vs.push(x);
            assert(variant_views(vs@) =~= variant_views(raw).push(xv));
        },
    }
}

/// Builds fallback variants for a hunk, from least to most aggressive.
pub fn build_fallback_variants(old: &[String], new: &[String]) -> (r: Vec<HunkVariant>)
    ensures
        variant_views(r@) == all_variants(views(old@), views(new@)),
{
    let mut variants: Vec<HunkVariant> = Vec::new();
    assert(variant_views(variants@) =~= Seq::empty());
    let t = trim_common_context(old, new);
    let (o1, n1): (Vec<String>, Vec<String>) = match &t {
        Some(v) => (copy_texts(&v.old_lines), copy_texts(&v.new_lines)),
        None => (copy_texts(old), copy_texts(new)),
    };
    let d = collapse_consecutive_shared_lines(&o1, &n1);
    let (o2, n2): (Vec<String>, Vec<String>) = match &d {
        Some(v) => (copy_texts(&v.old_lines), copy_texts(&v.new_lines)),
        None => (copy_texts(&o1), copy_texts(&n1)),
    };
    let c = collapse_repeated_blocks(&o2, &n2);
    let s = reduce_to_single_line_change(&o1, &n1);
    push_variant(&mut variants, t);
    push_variant(&mut variants, d);
    push_variant(&mut variants, c);
    push_variant(&mut variants, s);
    variants
}

/// Whether a variant may be used.
pub open spec fn is_usable(v: VariantView, allow_aggressive: bool) -> bool {
    allow_aggressive || (v.kind != HunkVariantKind::CollapseRepeated && v.kind
        != HunkVariantKind::SingleLine)
}

/// The variants that may be used.
pub open spec fn usable(vs: Seq<VariantView>, allow_aggressive: bool) -> Seq<VariantView>
    decreases vs.len(),
{
    if vs.len() == 0 {
        Seq::empty()
    } else {
        let before = usable(vs.drop_last(), allow_aggressive);
        if is_usable(vs.last(), allow_aggressive) {
            before.push(vs.last())
        } else {
            before
        }
    }
}

/// The variants of a hunk that may be used.
pub open spec fn usable_variants(
    old: Seq<Seq<char>>,
    new: Seq<Seq<char>>,
    allow_aggressive: bool,
) -> Seq<VariantView> {
    usable(all_variants(old, new), allow_aggressive)
}

/// Filters variants: aggressive kinds (collapse-repeated, single-line) are only
/// allowed when `allow_aggressive` is true.
pub fn filter_fallback_variants(variants: Vec<HunkVariant>, allow_aggressive: bool) -> (r: Vec<
    HunkVariant,
>)
    ensures
        variant_views(r@) == usable(variant_views(variants@), allow_aggressive),
{
    let ghost vs = variant_views(variants@);
    let mut out: Vec<HunkVariant> = Vec::new();
    let mut i: usize = 0;
    assert(vs.take(0).len() == 0);
    assert(variant_views(out@) =~= usable(vs.take(0), allow_aggressive));
    while i < variants.len()
        invariant
            vs == variant_views(variants@),
            i <= variants@.len(),
            variant_views(out@) == usable(vs.take(i as int), allow_aggressive),
        decreases variants@.len() - i,
    {
        let v = &variants[i];
        proof {
            assert(vs.take(i + 1).drop_last() =~= vs.take(i as int));
            assert(vs.take(i + 1).last() == v@);
        }
        if allow_aggressive || (v.kind != HunkVariantKind::CollapseRepeated && v.kind
            != HunkVariantKind::SingleLine) {
            let ghost out0 = out@;
            let w = HunkVariant {
                old_lines: copy_texts(&v.old_lines),
                new_lines: copy_texts(&v.new_lines),
                kind: v.kind,
            };
            let ghost wv = w@;
            out.push(w);
            assert(variant_views(out@) =~= variant_views(out0).push(wv));
        }
        i = i + 1;
    }
    assert(vs.take(i as int) =~= vs);
    out
}

/// Lines that two sequences share at the beginning are the same in both.
proof fn lemma_common_prefix(a: Seq<Seq<char>>, b: Seq<Seq<char>>)
    ensures
        common_prefix(a, b) <= a.len(),
        common_prefix(a, b) <= b.len(),
        a.take(common_prefix(a, b) as int) == b.take(common_prefix(a, b) as int),
    decreases a.len(),
{
    if a.len() > 0 && b.len() > 0 && a[0] == b[0] {
        lemma_common_prefix(a.skip(1), b.skip(1));
        let n = common_prefix(a.skip(1), b.skip(1)) as int;
        assert(a.take(n + 1) =~= seq![a[0]] + a.skip(1).take(n));
        assert(b.take(n + 1) =~= seq![b[0]] + b.skip(1).take(n));
    } else {
        assert(a.take(0) =~= b.take(0));
    }
}

/// Lines that two sequences share at the end are the same in both.
proof fn lemma_common_suffix(a: Seq<Seq<char>>, b: Seq<Seq<char>>)
    ensures
        common_suffix(a, b) <= a.len(),
        common_suffix(a, b) <= b.len(),
        a.skip(a.len() - common_suffix(a, b)) == b.skip(b.len() - common_suffix(a, b)),
    decreases a.len(),
{
    if a.len() > 0 && b.len() > 0 && a.last() == b.last() {
        lemma_common_suffix(a.drop_last(), b.drop_last());
        let n = common_suffix(a.drop_last(), b.drop_last()) as int;
        let x = a.drop_last();
        let y = b.drop_last();
        assert(a.skip(a.len() - n - 1) =~= x.skip(x.len() - n).push(a.last()));
        assert(b.skip(b.len() - n - 1) =~= y.skip(y.len() - n).push(b.last()));
    } else {
        assert(a.skip(a.len() as int) =~= b.skip(b.len() as int));
    }
}

/// What is trimmed is common to both: with the same lines before and after them,
/// the trimmed sides are the old and the new lines.
pub proof fn law_trimmed_common(old: Seq<Seq<char>>, new: Seq<Seq<char>>)
    ensures
        trimmed_common(old, new) matches Some(v) ==> {
            let p = common_prefix(old, new) as int;
            let head = old.take(p);
            let rest = old.skip(p + v.old.len());
            old == head + v.old + rest && new == head + v.new + rest
        },
{
    if let Some(v) = trimmed_common(old, new) {
        let p = common_prefix(old, new) as int;
        lemma_common_prefix(old, new);
        let a = old.skip(p);
        let b = new.skip(p);
        lemma_common_suffix(a, b);
        let s = common_suffix(a, b) as int;
        let rest = old.skip(p + v.old.len());
        assert(rest =~= a.skip(a.len() - s));
        assert(new.skip(p + v.new.len()) =~= b.skip(b.len() - s));
        assert(old =~= old.take(p) + v.old + rest);
        assert(new =~= new.take(p) + v.new + new.skip(p + v.new.len()));
    }
}

/// Nothing more can be trimmed: where both trimmed sides hold lines, they differ in the
/// first and in the last of them. Nothing is trimmed only where nothing is shared at
/// either end, or nothing is changed.
pub proof fn law_trimmed_fully(old: Seq<Seq<char>>, new: Seq<Seq<char>>)
    ensures
        trimmed_common(old, new) matches Some(v) ==> (v.old.len() > 0 && v.new.len() > 0 ==> v.old[0]
            != v.new[0] && v.old.last() != v.new.last()),
        old.len() > 0 && new.len() > 0 && trimmed_common(old, new) is None ==> old == new || (old[0]
            != new[0] && old.last() != new.last()),
{
    let p = common_prefix(old, new) as int;
    lemma_common_prefix(old, new);
    lemma_prefix_ends(old, new);
    let a = old.skip(p);
    let b = new.skip(p);
    lemma_common_suffix(a, b);
    lemma_suffix_ends(a, b);
    let s = common_suffix(a, b) as int;
    if old.len() > p && new.len() > p {
        assert(a[0] == old[p] && b[0] == new[p]);
        assert(a.last() == old.last() && b.last() == new.last());
    }
    if s < a.len() && s < b.len() {
        assert(a[a.len() - s - 1] == old[old.len() - s - 1]);
        assert(b[b.len() - s - 1] == new[new.len() - s - 1]);
    }
    if let Some(v) = trimmed_common(old, new) {
        if v.old.len() > 0 && v.new.len() > 0 {
            assert(v.old[0] == old[p] && v.new[0] == new[p]);
            assert(v.old.last() == old[old.len() - s - 1]);
            assert(v.new.last() == new[new.len() - s - 1]);
        }
    } else if p == 0 && s == 0 {
        assert(a =~= old && b =~= new);
    } else {
        assert(old =~= old.take(p) + a.skip(a.len() - s));
        assert(new =~= new.take(p) + b.skip(b.len() - s));
    }
}

/// Behind the lines that two sequences share at the beginning, they differ.
proof fn lemma_prefix_ends(a: Seq<Seq<char>>, b: Seq<Seq<char>>)
    ensures
        ({
            let p = common_prefix(a, b) as int;
            p < a.len() && p < b.len() ==> a[p] != b[p]
        }),
    decreases a.len(),
{
    if a.len() > 0 && b.len() > 0 && a[0] == b[0] {
        lemma_prefix_ends(a.skip(1), b.skip(1));
    }
}

/// Before the lines that two sequences share at the end, they differ.
proof fn lemma_suffix_ends(a: Seq<Seq<char>>, b: Seq<Seq<char>>)
    ensures
        ({
            let n = common_suffix(a, b) as int;
            n < a.len() && n < b.len() ==> a[a.len() - n - 1] != b[b.len() - n - 1]
        }),
    decreases a.len(),
{
    if a.len() > 0 && b.len() > 0 && a.last() == b.last() {
        lemma_suffix_ends(a.drop_last(), b.drop_last());
    }
}

/// A shared line that stands twice in a row counts once: with it or without it the
/// collapsed lines are the same. Where no shared line stands twice in a row, all lines
/// stay.
pub proof fn law_repeat_collapsed(
    lines: Seq<Seq<char>>,
    k: int,
    old: Seq<Seq<char>>,
    new: Seq<Seq<char>>,
)
    ensures
        0 <= k < lines.len() && old.contains(lines[k]) && new.contains(lines[k])
            ==> without_repeats(lines.insert(k, lines[k]), old, new) == without_repeats(
            lines,
            old,
            new,
        ),
        (forall|j: int|
            0 < j < lines.len() && #[trigger] lines[j] == lines[j - 1] ==> !(old.contains(lines[j])
                && new.contains(lines[j]))) ==> without_repeats(lines, old, new) == lines,
    decreases lines.len(),
{
    if 0 <= k < lines.len() && old.contains(lines[k]) && new.contains(lines[k]) {
        lemma_repeat_collapsed(lines, k, old, new);
    }
    if lines.len() > 0 && (forall|j: int|
        0 < j < lines.len() && #[trigger] lines[j] == lines[j - 1] ==> !(old.contains(lines[j])
            && new.contains(lines[j]))) {
        let before = lines.drop_last();
        assert forall|j: int|
            0 < j < before.len() && #[trigger] before[j] == before[j - 1] implies !(old.contains(
            before[j],
        ) && new.contains(before[j])) by {
            assert(lines[j] == lines[j - 1]);
        }
        law_repeat_collapsed(before, -1, old, new);
        assert(before.push(lines.last()) =~= lines);
        if lines.len() > 1 {
            assert(lines.last() == lines[lines.len() - 1]);
        }
    }
}

proof fn lemma_repeat_collapsed(
    lines: Seq<Seq<char>>,
    k: int,
    old: Seq<Seq<char>>,
    new: Seq<Seq<char>>,
)
    requires
        0 <= k < lines.len(),
        is_shared(lines[k], old, new),
    ensures
        without_repeats(lines.insert(k, lines[k]), old, new) == without_repeats(lines, old, new),
    decreases lines.len(),
{
    let twice = lines.insert(k, lines[k]);
    if k == lines.len() - 1 {
        assert(twice.drop_last() =~= lines);
        assert(twice.last() == twice[twice.len() - 2]);
    } else {
        let before = lines.drop_last();
        lemma_repeat_collapsed(before, k, old, new);
        assert(twice.drop_last() =~= before.insert(k, before[k]));
        assert(twice.last() == lines.last());
        assert(twice[twice.len() - 2] == lines[lines.len() - 2]);
    }
}

/// Whether some block of two lines or more, all of them shared, stands twice in a row.
pub open spec fn has_doubled_block(
    lines: Seq<Seq<char>>,
    old: Seq<Seq<char>>,
    new: Seq<Seq<char>>,
) -> bool {
    exists|i: int, size: int|
        0 <= i && 2 <= size && i + 2 * size <= lines.len() && #[trigger] lines.subrange(i, i + size)
            == lines.subrange(i + size, i + 2 * size) && forall|k: int|
            i <= k < i + size ==> old.contains(#[trigger] lines[k]) && new.contains(lines[k])
}

/// A block of shared lines, two at least, that stands twice in a row counts once. Where
/// no block stands twice in a row, all lines stay.
pub proof fn law_block_collapsed(
    block: Seq<Seq<char>>,
    old: Seq<Seq<char>>,
    new: Seq<Seq<char>>,
)
    ensures
        block.len() >= 2 && (forall|k: int|
            0 <= k < block.len() ==> old.contains(#[trigger] block[k]) && new.contains(block[k]))
            ==> collapsed_blocks(block + block, 0, old, new) == collapsed_blocks(
            block,
            0,
            old,
            new,
        ),
        !has_doubled_block(block, old, new) ==> collapsed_blocks(block, 0, old, new) == block,
{
    if block.len() >= 2 && (forall|k: int|
        0 <= k < block.len() ==> old.contains(#[trigger] block[k]) && new.contains(block[k])) {
        let lines = block + block;
        let size = block.len() as int;
        assert((lines.len() - 0) / 2 == size);
        assert forall|k: int| 0 <= k < size implies #[trigger] lines[k] == lines[k + size]
            && is_shared(lines[k], old, new) by {
            assert(lines[k] == block[k]);
            assert(lines[k + size] == block[k]);
        }
        assert(repeats_block(lines, 0, size, old, new));
        assert(lines.take(size) + lines.skip(2 * size) =~= block);
    }
    if !has_doubled_block(block, old, new) {
        lemma_no_block(block, 0, old, new);
    }
}

proof fn lemma_no_block(lines: Seq<Seq<char>>, i: int, old: Seq<Seq<char>>, new: Seq<Seq<char>>)
    requires
        0 <= i,
        !has_doubled_block(lines, old, new),
    ensures
        collapsed_blocks(lines, i, old, new) == lines,
    decreases lines.len() - i,
{
    if i < lines.len() {
        lemma_no_size(lines, i, (lines.len() - i) / 2, old, new);
        lemma_no_block(lines, i + 1, old, new);
    }
}

proof fn lemma_no_size(
    lines: Seq<Seq<char>>,
    i: int,
    size: int,
    old: Seq<Seq<char>>,
    new: Seq<Seq<char>>,
)
    requires
        0 <= i,
        !has_doubled_block(lines, old, new),
    ensures
        block_size(lines, i, size, old, new) == 0,
    decreases size,
{
    if size >= 2 {
        if repeats_block(lines, i, size, old, new) {
            let a = lines.subrange(i, i + size);
            let b = lines.subrange(i + size, i + 2 * size);
            assert forall|k: int| 0 <= k < size implies a[k] == b[k] by {
                assert(lines[i + k] == lines[(i + k) + size]);
            }
            assert(a =~= b);
            assert forall|k: int| i <= k < i + size implies old.contains(#[trigger] lines[k])
                && new.contains(lines[k]) by {
                assert(lines[k] == lines[k + size] && is_shared(lines[k], old, new));
            }
            assert(has_doubled_block(lines, old, new));
        }
        lemma_no_size(lines, i, size - 1, old, new);
    }
}

/// Lines of which one is changed are reduced to that one; lines of which several are
/// changed, none, or whose number differs, are not.
pub proof fn law_single_change(old: Seq<Seq<char>>, new: Seq<Seq<char>>, i: int, line: Seq<char>)
    ensures
        0 <= i < old.len() && line != old[i] ==> single_change(old, old.update(i, line)) == Some(
            VariantView {
                old: seq![old[i]],
                new: seq![line],
                kind: HunkVariantKind::SingleLine,
            },
        ),
        single_change(old, old) is None,
        old.len() != new.len() ==> single_change(old, new) is None,
        forall|a: int, b: int|
            0 <= a < b < old.len() && b < new.len() && #[trigger] old[a] != new[a]
                && #[trigger] old[b] != new[b] ==> single_change(old, new) is None,
{
    if 0 <= i < old.len() && line != old[i] {
        let changed = old.update(i, line);
        assert(only_change(old, changed, i));
        let c = choose|c: int| only_change(old, changed, c);
        assert(only_change(old, changed, c));
        if c != i {
            assert(old[i] == changed[i]);
        }
    }
    assert forall|a: int, b: int|
        0 <= a < b < old.len() && b < new.len() && #[trigger] old[a] != new[a] && #[trigger] old[b]
            != new[b] implies single_change(old, new) is None by {
        if exists|c: int| only_change(old, new, c) {
            let c = choose|c: int| only_change(old, new, c);
            assert(only_change(old, new, c));
            if c != a {
                assert(old[a] == new[a]);
            } else {
                assert(old[b] == new[b]);
            }
        }
    }
}

/// Which of the variants are used: all of them where the aggressive ones are allowed;
/// where they are not, those and only those that leave out common lines or repeated
/// lines.
pub proof fn law_usable(vs: Seq<VariantView>, v: VariantView)
    ensures
        usable(vs, true) == vs,
        usable(vs, false).contains(v) <==> vs.contains(v) && (v.kind == HunkVariantKind::TrimCommon
            || v.kind == HunkVariantKind::DedupeShared),
    decreases vs.len(),
{
    if vs.len() > 0 {
        let before = vs.drop_last();
        law_usable(before, v);
        assert(before.push(vs.last()) =~= vs);
        let kept = usable(before, false);
        if vs.contains(v) {
            let i = choose|i: int| 0 <= i < vs.len() && vs[i] == v;
            if i < vs.len() - 1 {
                assert(before[i] == v);
            }
        }
        if before.contains(v) {
            let i = choose|i: int| 0 <= i < before.len() && before[i] == v;
            assert(vs[i] == v);
        }
        if is_usable(vs.last(), false) {
            let more = kept.push(vs.last());
            if kept.contains(v) {
                let i = choose|i: int| 0 <= i < kept.len() && kept[i] == v;
                assert(more[i] == v);
            }
            if more.contains(v) {
                let i = choose|i: int| 0 <= i < more.len() && more[i] == v;
                if i < kept.len() {
                    assert(kept[i] == v);
                }
            }
            if v == vs.last() {
                assert(more[more.len() - 1] == v);
                assert(vs[vs.len() - 1] == v);
            }
        }
    } else {
        assert(usable(vs, true) =~= vs);
    }
}

/// Lines of which one is changed, among others that are not, have that change alone as
/// their first variant.
pub proof fn law_changed_line_variant(
    head: Seq<Seq<char>>,
    a: Seq<char>,
    b: Seq<char>,
    tail: Seq<Seq<char>>,
)
    requires
        a != b,
        head.len() + tail.len() > 0,
    ensures
        all_variants(head.push(a) + tail, head.push(b) + tail).len() > 0,
        all_variants(head.push(a) + tail, head.push(b) + tail)[0] == (VariantView {
            old: seq![a],
            new: seq![b],
            kind: HunkVariantKind::TrimCommon,
        }),
{
    let old = head.push(a) + tail;
    let new = head.push(b) + tail;
    lemma_prefix_of(head, seq![a] + tail, seq![b] + tail);
    assert(old =~= head + (seq![a] + tail));
    assert(new =~= head + (seq![b] + tail));
    let p = head.len() as int;
    assert((seq![a] + tail)[0] == a);
    assert((seq![b] + tail)[0] == b);
    assert(old.skip(p) =~= seq![a] + tail);
    assert(new.skip(p) =~= seq![b] + tail);
    lemma_suffix_of(seq![a], seq![b], tail);
    assert(common_suffix(seq![a], seq![b]) == 0);
    let t = trimmed_common(old, new);
    assert(t == Some(
        VariantView { old: seq![a], new: seq![b], kind: HunkVariantKind::TrimCommon },
    )) by {
        assert(old.subrange(p, old.len() - tail.len()) =~= seq![a]);
        assert(new.subrange(p, new.len() - tail.len()) =~= seq![b]);
    }
    let none = Seq::<VariantView>::empty();
    assert(with_variant(none, t) =~= seq![t->0]);
}

proof fn lemma_prefix_of(head: Seq<Seq<char>>, a: Seq<Seq<char>>, b: Seq<Seq<char>>)
    ensures
        common_prefix(head + a, head + b) == head.len() + common_prefix(a, b),
    decreases head.len(),
{
    if head.len() > 0 {
        lemma_prefix_of(head.skip(1), a, b);
        assert((head + a).skip(1) =~= head.skip(1) + a);
        assert((head + b).skip(1) =~= head.skip(1) + b);
    } else {
        assert(head + a =~= a);
        assert(head + b =~= b);
    }
}

proof fn lemma_suffix_of(a: Seq<Seq<char>>, b: Seq<Seq<char>>, tail: Seq<Seq<char>>)
    ensures
        common_suffix(a + tail, b + tail) == tail.len() + common_suffix(a, b),
    decreases tail.len(),
{
    if tail.len() > 0 {
        lemma_suffix_of(a, b, tail.drop_last());
        assert((a + tail).drop_last() =~= a + tail.drop_last());
        assert((b + tail).drop_last() =~= b + tail.drop_last());
    } else {
        assert(a + tail =~= a);
        assert(b + tail =~= b);
    }
}

} // verus!
