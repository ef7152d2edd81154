//! Fuzzy matching.
//!
//! Character-level and line-level matching with progressively weaker rules for
//! finding a text in a file.

use crate::double::{
    Double, FRACTION, ONE, TWO_60, above, at_least, difference, law_nearest, least,
    lemma_exact_is_nearest, lemma_nearest_at_most, lemma_one, lemma_share, lemma_sum_bounded,
    lemma_sum_counted, lemma_units_order, lemma_whole_exact, lemma_whole_next, lemma_whole_order,
    lemma_whole_positive, lemma_whole_range, lemma_whole_share, lemma_zero_share, quotient, sum,
    unit_count, units, whole,
};
use crate::normalize::{
    base_of, count_leading_whitespace, fuzzy_form, indent_len, least_indent, lemma_indented_line,
    lines_of, normalize_for_fuzzy, normalize_unicode, solid, spaces, times, unicode_plain,
};
use crate::text::{
    begins, blank, byte_len, bytes, contains, decimal, ends, ends_with, find_chars, fitting,
    index_from, is_blank, is_white, join, join_refs, joined, law_join_pieces, lemma_bytes_push,
    lemma_fitting, lemma_index_after, lemma_index_from, lemma_index_skip, lemma_joined_add,
    lemma_not_found, lemma_pieces_nonempty, lemma_trimmed_again, occurs, occurs_at, opt_nat,
    prefix_within, same, show, split_on, starts_with, strip_suffix, to_chars, to_refs, trim,
    trim_end, trim_start, trimmed, trimmed_end, trimmed_start, views,
};
use vstd::prelude::*;
use vstd::string::*;

verus! {

/// The default similarity threshold: the bits of `0.95`.
pub const DEFAULT_FUZZY_THRESHOLD: u64 = 0x3FEE_6666_6666_6666;

/// The threshold for sequences of lines: the bits of `0.92`.
pub const SEQUENCE_FUZZY_THRESHOLD: u64 = 0x3FED_70A3_D70A_3D71;

/// The fallback threshold for line-based matching: the bits of `0.8`.
pub const FALLBACK_THRESHOLD: u64 = 0x3FE9_9999_9999_999A;

/// The threshold for context lines: the bits of `0.8`.
pub const CONTEXT_FUZZY_THRESHOLD: u64 = 0x3FE9_9999_9999_999A;

/// The least length, in bytes, of a pattern that is looked for inside a line.
pub const PARTIAL_MATCH_MIN_LENGTH: usize = 6;

/// The least ratio of pattern to line length for a substring match: the bits of
/// `0.3`.
pub const PARTIAL_MATCH_MIN_RATIO: u64 = 0x3FD3_3333_3333_3333;

/// The threshold for the character-based fallback: the bits of `0.92`.
pub const CHARACTER_MATCH_THRESHOLD: u64 = 0x3FED_70A3_D70A_3D71;

/// The least score of a match that dominates the others: the bits of `0.97`.
pub const DOMINANT_MIN: u64 = 0x3FEF_0A3D_70A3_D70A;

/// The least gap between such a match and the next best: the bits of `0.08`.
pub const DOMINANT_DELTA: u64 = 0x3FB4_7AE1_47AE_147B;

/// How many places of matches are kept for reports.
pub const MAX_TRACKED_INDICES: usize = 5;

/// How many lines a preview shows before and after an occurrence.
pub const OCCURRENCE_PREVIEW_CONTEXT: usize = 5;

/// The greatest length, in bytes, of a line that a preview shows in full.
pub const OCCURRENCE_PREVIEW_MAX_LEN: usize = 80;

/// The lesser of two integers.
pub open spec fn min(a: int, b: int) -> int {
    if a <= b {
        a
    } else {
        b
    }
}

/// The greater of two integers.
pub open spec fn max(a: int, b: int) -> int {
    if a >= b {
        a
    } else {
        b
    }
}

/// The least number of insertions, deletions and substitutions of single bytes
/// that turn `a` into `b`.
pub open spec fn edit_distance(a: Seq<u8>, b: Seq<u8>) -> nat
    decreases a.len() + b.len(),
{
    if a.len() == 0 {
        b.len()
    } else if b.len() == 0 {
        a.len()
    } else {
        let deletion = edit_distance(a.drop_last(), b) + 1;
        let insertion = edit_distance(a, b.drop_last()) + 1;
        let substitution = edit_distance(a.drop_last(), b.drop_last()) + if a.last() == b.last() {
            0nat
        } else {
            1nat
        };
        min(min(deletion as int, insertion as int), substitution as int) as nat
    }
}

/// The distance is at most the length of the longer one.
pub proof fn lemma_distance_bounded(a: Seq<u8>, b: Seq<u8>)
    ensures
        edit_distance(a, b) <= max(a.len() as int, b.len() as int),
    decreases a.len() + b.len(),
{
    if a.len() > 0 && b.len() > 0 {
        lemma_distance_bounded(a.drop_last(), b.drop_last());
    }
}

/// Nothing is to be done to turn a text into itself.
pub proof fn lemma_distance_self(a: Seq<u8>)
    ensures
        edit_distance(a, a) == 0,
    decreases a.len(),
{
    if a.len() > 0 {
        lemma_distance_self(a.drop_last());
    }
}

/// The distance is the same both ways.
pub proof fn lemma_distance_symmetric(a: Seq<u8>, b: Seq<u8>)
    ensures
        edit_distance(a, b) == edit_distance(b, a),
    decreases a.len() + b.len(),
{
    if a.len() > 0 && b.len() > 0 {
        lemma_distance_symmetric(a.drop_last(), b);
        lemma_distance_symmetric(a, b.drop_last());
        lemma_distance_symmetric(a.drop_last(), b.drop_last());
    }
}

/// Only equal texts are at distance zero.
pub proof fn law_distance_zero(a: Seq<u8>, b: Seq<u8>)
    requires
        edit_distance(a, b) == 0,
    ensures
        a == b,
    decreases a.len() + b.len(),
{
    if a.len() == 0 || b.len() == 0 {
        assert(a == b);
    } else {
        law_distance_zero(a.drop_last(), b.drop_last());
        assert(a == a.drop_last().push(a.last()));
        assert(b == b.drop_last().push(b.last()));
    }
}

/// The distance is at least the difference of the lengths.
pub proof fn law_distance_length(a: Seq<u8>, b: Seq<u8>)
    ensures
        a.len() - b.len() <= edit_distance(a, b),
        b.len() - a.len() <= edit_distance(a, b),
    decreases a.len() + b.len(),
{
    if a.len() > 0 && b.len() > 0 {
        law_distance_length(a.drop_last(), b);
        law_distance_length(a, b.drop_last());
        law_distance_length(a.drop_last(), b.drop_last());
    }
}

/// Whether one byte removed from `a` gives `b`.
pub open spec fn by_deletion(a: Seq<u8>, b: Seq<u8>) -> bool {
    exists|k: int| 0 <= k < a.len() && b == #[trigger] a.remove(k)
}

/// Whether one byte inserted into `a` gives `b`.
pub open spec fn by_insertion(a: Seq<u8>, b: Seq<u8>) -> bool {
    exists|k: int, x: u8| 0 <= k <= a.len() && b == #[trigger] a.insert(k, x)
}

/// Whether one byte of `a` replaced gives `b`.
pub open spec fn by_substitution(a: Seq<u8>, b: Seq<u8>) -> bool {
    exists|k: int, x: u8| 0 <= k < a.len() && b == #[trigger] a.update(k, x)
}

/// Whether one byte inserted, removed or replaced in `a` gives `b`.
pub open spec fn by_one_edit(a: Seq<u8>, b: Seq<u8>) -> bool {
    by_deletion(a, b) || by_insertion(a, b) || by_substitution(a, b)
}

/// Whether `n` insertions, deletions and substitutions of single bytes turn `a`
/// into `b`.
pub open spec fn turns_into(a: Seq<u8>, b: Seq<u8>, n: nat) -> bool
    decreases n,
{
    if n == 0 {
        a == b
    } else {
        exists|c: Seq<u8>|
            #[trigger] by_one_edit(a, c) && turns_into(c, b, (n - 1) as nat)
    }
}

/// What turns `a` into `b` does so with one more byte behind both.
proof fn lemma_turns_push(a: Seq<u8>, b: Seq<u8>, n: nat, x: u8)
    requires
        turns_into(a, b, n),
    ensures
        turns_into(a.push(x), b.push(x), n),
    decreases n,
{
    if n > 0 {
        let c = choose|c: Seq<u8>|
            #[trigger] by_one_edit(a, c) && turns_into(c, b, (n - 1) as nat);
        lemma_turns_push(c, b, (n - 1) as nat, x);
        if by_deletion(a, c) {
            let k = choose|k: int| 0 <= k < a.len() && c == #[trigger] a.remove(k);
            assert(c.push(x) =~= a.push(x).remove(k));
            assert(by_deletion(a.push(x), c.push(x)));
        } else if by_insertion(a, c) {
            let (k, y) = choose|k: int, y: u8| 0 <= k <= a.len() && c == #[trigger] a.insert(k, y);
            assert(c.push(x) =~= a.push(x).insert(k, y));
            assert(by_insertion(a.push(x), c.push(x)));
        } else {
            let (k, y) = choose|k: int, y: u8| 0 <= k < a.len() && c == #[trigger] a.update(k, y);
            assert(c.push(x) =~= a.push(x).update(k, y));
            assert(by_substitution(a.push(x), c.push(x)));
        }
        assert(by_one_edit(a.push(x), c.push(x)));
    }
}

/// As many edits as the distance turn `a` into `b`.
proof fn lemma_distance_enough(a: Seq<u8>, b: Seq<u8>)
    ensures
        turns_into(a, b, edit_distance(a, b)),
    decreases a.len() + b.len(),
{
    let d = edit_distance(a, b);
    if a.len() == 0 && b.len() == 0 {
        assert(a =~= b);
    } else if b.len() == 0 || (a.len() > 0 && d == edit_distance(a.drop_last(), b) + 1) {
        let c = a.drop_last();
        lemma_distance_enough(c, b);
        assert(c =~= a.remove(a.len() - 1));
        assert(by_deletion(a, c) && by_one_edit(a, c));
        assert(turns_into(c, b, (d - 1) as nat));
    } else if a.len() == 0 || d == edit_distance(a, b.drop_last()) + 1 {
        let y = b.last();
        let c = a.push(y);
        lemma_distance_enough(a, b.drop_last());
        lemma_turns_push(a, b.drop_last(), (d - 1) as nat, y);
        assert(b.drop_last().push(y) =~= b);
        assert(c =~= a.insert(a.len() as int, y));
        assert(by_insertion(a, c) && by_one_edit(a, c));
        assert(turns_into(c, b, (d - 1) as nat));
    } else {
        let y = b.last();
        let c = a.drop_last().push(y);
        let e = edit_distance(a.drop_last(), b.drop_last());
        lemma_distance_enough(a.drop_last(), b.drop_last());
        lemma_turns_push(a.drop_last(), b.drop_last(), e, y);
        assert(b.drop_last().push(y) =~= b);
        if a.last() == y {
            assert(c =~= a);
        } else {
            assert(c =~= a.update(a.len() - 1, y));
            assert(by_substitution(a, c) && by_one_edit(a, c));
            assert(turns_into(c, b, (d - 1) as nat));
        }
    }
}

/// A byte removed changes the distance by at most one.
proof fn lemma_deletion_step(a: Seq<u8>, k: int, b: Seq<u8>)
    requires
        0 <= k < a.len(),
    ensures
        edit_distance(a, b) <= edit_distance(a.remove(k), b) + 1,
    decreases a.len() + b.len(),
{
    let c = a.remove(k);
    if b.len() > 0 {
        if k == a.len() - 1 {
            assert(c =~= a.drop_last());
        } else {
            assert(c.drop_last() =~= a.drop_last().remove(k));
            assert(c.last() == a.last());
            lemma_deletion_step(a.drop_last(), k, b);
            lemma_deletion_step(a, k, b.drop_last());
            lemma_deletion_step(a.drop_last(), k, b.drop_last());
        }
    }
}

/// A byte inserted changes the distance by at most one.
proof fn lemma_insertion_step(a: Seq<u8>, k: int, x: u8, b: Seq<u8>)
    requires
        0 <= k <= a.len(),
    ensures
        edit_distance(a, b) <= edit_distance(a.insert(k, x), b) + 1,
    decreases a.len() + b.len(),
{
    let c = a.insert(k, x);
    if b.len() > 0 {
        lemma_insertion_step(a, k, x, b.drop_last());
        if k == a.len() {
            assert(c.drop_last() =~= a);
        } else {
            assert(c.drop_last() =~= a.drop_last().insert(k, x));
            assert(c.last() == a.last());
            lemma_insertion_step(a.drop_last(), k, x, b);
            lemma_insertion_step(a.drop_last(), k, x, b.drop_last());
        }
    }
}

/// A byte replaced changes the distance by at most one.
proof fn lemma_substitution_step(a: Seq<u8>, k: int, x: u8, b: Seq<u8>)
    requires
        0 <= k < a.len(),
    ensures
        edit_distance(a, b) <= edit_distance(a.update(k, x), b) + 1,
    decreases a.len() + b.len(),
{
    let c = a.update(k, x);
    if b.len() > 0 {
        lemma_substitution_step(a, k, x, b.drop_last());
        if k == a.len() - 1 {
            assert(c.drop_last() =~= a.drop_last());
        } else {
            assert(c.drop_last() =~= a.drop_last().update(k, x));
            assert(c.last() == a.last());
            lemma_substitution_step(a.drop_last(), k, x, b);
            lemma_substitution_step(a.drop_last(), k, x, b.drop_last());
        }
    }
}

/// The distance is the least number of edits: so many turn `a` into `b`, and no
/// fewer do.
pub proof fn law_distance_least(a: Seq<u8>, b: Seq<u8>)
    ensures
        turns_into(a, b, edit_distance(a, b)),
        forall|n: nat| #[trigger] turns_into(a, b, n) ==> edit_distance(a, b) <= n,
{
    lemma_distance_enough(a, b);
    assert forall|n: nat| #[trigger] turns_into(a, b, n) implies edit_distance(a, b) <= n by {
        lemma_no_fewer(a, b, n);
    }
}

/// Fewer edits than the distance do not turn `a` into `b`.
proof fn lemma_no_fewer(a: Seq<u8>, b: Seq<u8>, n: nat)
    requires
        turns_into(a, b, n),
    ensures
        edit_distance(a, b) <= n,
    decreases n,
{
    if n == 0 {
        lemma_distance_self(a);
    } else {
        let c = choose|c: Seq<u8>|
            #[trigger] by_one_edit(a, c) && turns_into(c, b, (n - 1) as nat);
        lemma_no_fewer(c, b, (n - 1) as nat);
        if by_deletion(a, c) {
            let k = choose|k: int| 0 <= k < a.len() && c == #[trigger] a.remove(k);
            lemma_deletion_step(a, k, b);
        } else if by_insertion(a, c) {
            let (k, y) = choose|k: int, y: u8| 0 <= k <= a.len() && c == #[trigger] a.insert(k, y);
            lemma_insertion_step(a, k, y, b);
        } else {
            let (k, y) = choose|k: int, y: u8| 0 <= k < a.len() && c == #[trigger] a.update(k, y);
            lemma_substitution_step(a, k, y, b);
        }
    }
}

/// One row of distances: entry `j` is that of `a` to the first `j + 1` bytes of
/// `b`.
spec fn is_row(row: Seq<usize>, a: Seq<u8>, b: Seq<u8>) -> bool {
    row.len() == b.len() && forall|j: int|
        0 <= j < b.len() ==> #[trigger] row[j] == edit_distance(a, b.take(j + 1))
}

/// The row for `a` and one more byte, computed from the row for `a`.
fn next_row(row: &Vec<usize>, x: &[u8], i: usize, y: &[u8]) -> (r: Vec<usize>)
    requires
        i < x@.len(),
        is_row(row@, x@.take(i as int), y@),
    ensures
        is_row(r@, x@.take(i + 1), y@),
{
    let ghost a0 = x@.take(i as int);
    let ghost a1 = x@.take(i + 1);
    let n: usize = x.len();
    let m: usize = y.len();
    let mut out: Vec<usize> = Vec::new();
    let mut j: usize = 0;
    proof {
        assert(a1.drop_last() == a0);
        assert(a1.last() == x@[i as int]);
    }
    while j < y.len()
        invariant
            i < x@.len(),
            n == x@.len(),
            m == y@.len(),
            a0 == x@.take(i as int),
            a1 == x@.take(i + 1),
            a1.drop_last() == a0,
            a1.last() == x@[i as int],
            is_row(row@, a0, y@),
            j <= y@.len(),
            out@.len() == j,
            forall|k: int| 0 <= k < j ==> #[trigger] out@[k] == edit_distance(a1, y@.take(k + 1)),
        decreases y@.len() - j,
    {
        let ghost b1 = y@.take(j + 1);
        let ghost b0 = y@.take(j as int);
        proof {
            assert(b1.drop_last() == b0);
            assert(b1.last() == y@[j as int]);
            lemma_distance_bounded(a1, b1);
            if j == 0 {
                assert(b0.len() == 0);
                assert(edit_distance(a0, b0) == a0.len());
            }
        }
        let up: usize = row[j];
        let left: usize = if j == 0 {
            i + 1
        } else {
            out[j - 1]
        };
        let diagonal: usize = if j == 0 {
            i
        } else {
            row[j - 1]
        };
        assert(left == edit_distance(a1, b0));
        assert(diagonal == edit_distance(a0, b0));
        let step: usize = if up <= left {
            up
        } else {
            left
        };
        let d: usize = if x[i] == y[j] {
            if step < diagonal {
                step + 1
            } else {
                diagonal
            }
        } else {
            if step < diagonal {
                step + 1
            } else {
                diagonal + 1
            }
        };
        assert(d == edit_distance(a1, b1));
        out.push(d);
        j = j + 1;
    }
    out
}

/// The edit distance of two texts, in bytes.
pub fn levenshtein_distance(a: &str, b: &str) -> (r: usize)
    ensures
        r == edit_distance(bytes(a@), bytes(b@)),
{
    let x = a.as_bytes();
    let y = b.as_bytes();
    if same(a, b) {
        proof {
            lemma_distance_self(bytes(a@));
        }
        return 0;
    }
    if y.len() == 0 {
        return x.len();
    }
    let mut row: Vec<usize> = Vec::new();
    let mut j: usize = 0;
    assert(x@.take(0).len() == 0);
    while j < y.len()
        invariant
            j <= y@.len(),
            row@.len() == j,
            forall|k: int| 0 <= k < j ==> #[trigger] row@[k] == k + 1,
        decreases y@.len() - j,
    {
        row.push(j + 1);
        j = j + 1;
    }
    assert(is_row(row@, x@.take(0), y@));
    let mut i: usize = 0;
    while i < x.len()
        invariant
            i <= x@.len(),
            is_row(row@, x@.take(i as int), y@),
        decreases x@.len() - i,
    {
        row = next_row(&row, x, i, y);
        i = i + 1;
    }
    assert(x@.take(i as int) == x@);
    assert(y@.take(y@.len() as int) == y@);
    let m: usize = y.len();
    assert(row@[m - 1] == edit_distance(x@, y@.take((m - 1) + 1)));
    row[m - 1]
}

/// The similarity of two texts: one less the edit distance in relation to the
/// longer text; one for two empty texts.
pub open spec fn likeness(a: Seq<char>, b: Seq<char>) -> u64 {
    let n = max(bytes(a).len() as int, bytes(b).len() as int) as nat;
    if n == 0 {
        ONE
    } else {
        difference(ONE, quotient(whole(edit_distance(bytes(a), bytes(b))), whole(n)))
    }
}

/// The similarity of two texts, from zero to one: `1 - distance / max_len`.
///
/// It is one for two empty texts.
pub fn similarity(a: &str, b: &str) -> (r: Double)
    ensures
        r.bits == likeness(a@, b@),
        r.bits <= ONE,
{
    let x = byte_len(a);
    let y = byte_len(b);
    let n: usize = if x >= y {
        x
    } else {
        y
    };
    if n == 0 {
        return Double::from_bits(ONE);
    }
    let d = levenshtein_distance(a, b);
    proof {
        lemma_distance_bounded(bytes(a@), bytes(b@));
        lemma_one();
    }
    let num = Double::from_usize(d);
    let den = Double::from_usize(n);
    proof {
        lemma_whole_range(den.bits, n as nat);
        lemma_whole_order(num.bits, den.bits, d as nat, n as nat);
    }
    let q = num.over(den);
    proof {
        let u = unit_count();
        let ghost un = units(num.bits);
        let ghost ud = units(den.bits);
        if num.bits < den.bits {
            lemma_units_order(num.bits, den.bits);
        }
        assert(un * u <= units(ONE) * ud) by (nonlinear_arith)
            requires
                un <= ud,
                units(ONE) == u,
        ;
        lemma_units_order(0, den.bits);
        lemma_nearest_at_most(q.bits, ONE, un * u, ud);
    }
    let one = Double::from_bits(ONE);
    let r = one.minus(q);
    proof {
        if q.bits < ONE {
            lemma_units_order(q.bits, ONE);
        }
        lemma_nearest_at_most(r.bits, ONE, (units(ONE) - units(q.bits)) as nat, 1);
    }
    r
}

/// Where the line with the number `i` begins, in bytes, when the lines are
/// joined with line feeds.
pub open spec fn line_offset(lines: Seq<Seq<char>>, i: int) -> nat
    decreases i,
{
    if i <= 0 {
        0
    } else {
        line_offset(lines, i - 1) + bytes(lines[i - 1]).len() + 1
    }
}

/// A later line begins later.
proof fn lemma_line_offset(lines: Seq<Seq<char>>, i: int, j: int)
    requires
        i <= j,
    ensures
        line_offset(lines, i) <= line_offset(lines, j),
    decreases j - i,
{
    if i < j {
        lemma_line_offset(lines, i, j - 1);
    }
}

/// The offset, in bytes, of each line (the lines being split at `\n`).
pub fn compute_line_offsets(lines: &[&str]) -> (r: Vec<usize>)
    requires
        lines@.len() > 0 ==> line_offset(views(lines@), lines@.len() - 1) <= usize::MAX,
    ensures
        r@.len() == lines@.len(),
        forall|i: int| 0 <= i < r@.len() ==> #[trigger] r@[i] == line_offset(views(lines@), i),
{
    let ghost all = views(lines@);
    let mut offsets: Vec<usize> = Vec::new();
    let mut offset: usize = 0;
    let mut i: usize = 0;
    while i < lines.len()
        invariant
            i <= lines@.len(),
            all == views(lines@),
            lines@.len() > 0 ==> line_offset(all, lines@.len() - 1) <= usize::MAX,
            offsets@.len() == i,
            forall|k: int| 0 <= k < i ==> #[trigger] offsets@[k] == line_offset(all, k),
            i < lines@.len() ==> offset == line_offset(all, i as int),
        decreases lines@.len() - i,
    {
        offsets.push(offset);
        if i < lines.len() - 1 {
            proof {
                lemma_line_offset(all, i + 1, lines@.len() - 1);
                assert(all[i as int] == lines@[i as int]@);
            }
            offset = offset + byte_len(lines[i]) + 1;
        }
        i = i + 1;
    }
    offsets
}

/// The least step by which a line is indented beyond `base`; one where there is
/// none.
pub open spec fn least_step(lines: Seq<Seq<char>>, base: nat) -> nat
    decreases lines.len(),
{
    if lines.len() == 0 {
        1
    } else {
        let before = least_step(lines.drop_last(), base);
        let step = indent_len(lines.last()) - base;
        if step > 0 && (step < before || !has_step(lines.drop_last(), base)) {
            step as nat
        } else {
            before
        }
    }
}

/// Whether a line is indented beyond `base`.
pub open spec fn has_step(lines: Seq<Seq<char>>, base: nat) -> bool
    decreases lines.len(),
{
    lines.len() > 0 && (indent_len(lines.last()) > base || has_step(lines.drop_last(), base))
}

/// The depth of a line among `lines`: its indentation beyond the least one, in
/// steps, rounded.
pub open spec fn depth_of(line: Seq<char>, base: nat, step: nat) -> nat {
    if is_blank(line) || indent_len(line) < base {
        0
    } else {
        ((indent_len(line) - base + step / 2) / (step as int)) as nat
    }
}

/// The depths of `lines`.
pub open spec fn depths(lines: Seq<Seq<char>>) -> Seq<nat> {
    let base = base_of(lines);
    let step = least_step(solid(lines), base);
    Seq::new(lines.len(), |i: int| depth_of(lines[i], base, step))
}

fn round_depth(relative: usize, step: usize) -> (r: usize)
    requires
        step >= 1,
    ensures
        r == (relative + step / 2) as int / step as int,
{
    let q: usize = relative / step;
    let rem: usize = relative % step;
    let half: usize = step / 2;
    proof {
        assert(relative == q * step + rem && rem < step) by (nonlinear_arith)
            requires
                step >= 1,
                q == relative / step,
                rem == relative % step,
        ;
        assert((q + 1) * step == q * step + step) by (nonlinear_arith);
        if step >= 2 {
            assert(q <= relative / 2) by (nonlinear_arith)
                requires
                    relative == q * step + rem,
                    step >= 2,
                    rem >= 0,
                    q >= 0,
            ;
        }
        if rem >= step - half {
            vstd::arithmetic::div_mod::lemma_fundamental_div_mod_converse(
                relative + half,
                step as int,
                q + 1,
                rem + half - step,
            );
        } else {
            vstd::arithmetic::div_mod::lemma_fundamental_div_mod_converse(
                relative + half,
                step as int,
                q as int,
                rem + half,
            );
        }
    }
    if rem >= step - half {
        q + 1
    } else {
        q
    }
}

/// The depth of each line: its indentation relative to the least one, in units
/// of the smallest step that is not zero.
fn compute_relative_indent_depths(lines: &[&str]) -> (r: Vec<usize>)
    ensures
        r@.len() == lines@.len(),
        forall|i: int| 0 <= i < r@.len() ==> #[trigger] r@[i] == depths(views(lines@))[i],
{
    let ghost all = views(lines@);
    let mut base: Option<usize> = None;
    let mut i: usize = 0;
    assert(all.take(0) =~= Seq::empty());
    while i < lines.len()
        invariant
            i <= lines@.len(),
            all == views(lines@),
            match base {
                Some(b) => least_indent(solid(all.take(i as int))) == Some(b as nat),
                None => least_indent(solid(all.take(i as int))) is None,
            },
        decreases lines@.len() - i,
    {
        proof {
            assert(all.take(i + 1).drop_last() == all.take(i as int));
            assert(all.take(i + 1).last() == lines@[i as int]@);
        }
        if !blank(lines[i]) {
            let n = count_leading_whitespace(lines[i]);
            proof {
                let before = solid(all.take(i as int));
                assert(before.push(lines@[i as int]@).drop_last() == before);
            }
            base = match base {
                Some(b) => if b <= n {
                    Some(b)
                } else {
                    Some(n)
                },
                None => Some(n),
            };
        }
        i = i + 1;
    }
    assert(all.take(i as int) == all);
    let floor: usize = match base {
        Some(b) => b,
        None => 0,
    };
    let mut found = false;
    let mut step: usize = 1;
    i = 0;
    while i < lines.len()
        invariant
            i <= lines@.len(),
            all == views(lines@),
            step >= 1,
            found == has_step(solid(all.take(i as int)), floor as nat),
            step == least_step(solid(all.take(i as int)), floor as nat),
        decreases lines@.len() - i,
    {
        proof {
            assert(all.take(i + 1).drop_last() == all.take(i as int));
            assert(all.take(i + 1).last() == lines@[i as int]@);
        }
        if !blank(lines[i]) {
            let n = count_leading_whitespace(lines[i]);
            proof {
                let before = solid(all.take(i as int));
                assert(before.push(lines@[i as int]@).drop_last() == before);
            }
            if n > floor {
                if n - floor < step || !found {
                    step = n - floor;
                }
                found = true;
            }
        }
        i = i + 1;
    }
    assert(all.take(i as int) == all);
    let mut out: Vec<usize> = Vec::new();
    i = 0;
    while i < lines.len()
        invariant
            i <= lines@.len(),
            all == views(lines@),
            step >= 1,
            floor == base_of(all),
            step == least_step(solid(all), floor as nat),
            out@.len() == i,
            forall|k: int| 0 <= k < i ==> #[trigger] out@[k] == depths(all)[k],
        decreases lines@.len() - i,
    {
        let n = count_leading_whitespace(lines[i]);
        assert(all[i as int] == lines@[i as int]@);
        let d: usize = if blank(lines[i]) || n < floor {
            0
        } else {
            round_depth(n - floor, step)
        };
        out.push(d);
        i = i + 1;
    }
    out
}

/// The line with the number `i` in the form in which windows of lines are
/// compared: its depth, if asked for, a bar, and its text.
pub open spec fn normal_line(lines: Seq<Seq<char>>, with_depth: bool, i: int) -> Seq<char> {
    let prefix = if with_depth {
        decimal(depths(lines)[i]) + "|"@
    } else {
        "|"@
    };
    prefix + fuzzy_form(trimmed(lines[i]))
}

/// The lines in the form in which windows of lines are compared.
pub open spec fn normal_lines(lines: Seq<Seq<char>>, with_depth: bool) -> Seq<Seq<char>> {
    Seq::new(lines.len(), |i: int| normal_line(lines, with_depth, i))
}

/// Normalizes lines for comparison. Each line becomes `"depth|content"`.
///
/// When `include_depth` is true, the depth is a relative indent level;
/// otherwise it is empty.
pub fn normalize_lines(lines: &[&str], include_depth: bool) -> (r: Vec<String>)
    ensures
        views(r@) == normal_lines(views(lines@), include_depth),
{
    let ghost all = views(lines@);
    let depth = if include_depth {
        compute_relative_indent_depths(lines)
    } else {
        Vec::new()
    };
    let mut out: Vec<String> = Vec::new();
    let mut i: usize = 0;
    while i < lines.len()
        invariant
            i <= lines@.len(),
            all == views(lines@),
            include_depth ==> depth@.len() == lines@.len(),
            include_depth ==> forall|k: int|
                0 <= k < depth@.len() ==> #[trigger] depth@[k] == depths(all)[k],
            views(out@) == normal_lines(all, include_depth).take(i as int),
        decreases lines@.len() - i,
    {
        let mut l: String = if include_depth {
            let mut p = show(depth[i]);
            p.append("|");
            p
        } else {
            "|".to_owned()
        };
        let t = normalize_for_fuzzy(trim(lines[i]));
        l.append(t.as_str());
        assert(all[i as int] == lines@[i as int]@);
        assert(l@ == normal_line(all, include_depth, i as int));
        let ghost before = out@;
        let ghost lv = l@;
        out.push(l);
        proof {
            let target = normal_lines(all, include_depth);
            assert(views(out@) == views(before).push(lv));
            assert(target.take(i + 1) == target.take(i as int).push(target[i as int]));
        }
        i = i + 1;
    }
    assert(normal_lines(all, include_depth).take(i as int) == normal_lines(all, include_depth));
    out
}

/// A line without its leading comment marker.
pub open spec fn uncommented(line: Seq<char>) -> Seq<char> {
    let t = trimmed_start(line);
    let skip = if begins(t, "/*"@) || begins(t, "*/"@) || begins(t, "//"@) {
        2int
    } else if begins(t, "*"@) || begins(t, "#"@) || begins(t, ";"@) || begins(t, "/ "@) {
        1int
    } else {
        0int
    };
    trimmed_start(t.skip(skip))
}

/// Strips a common comment prefix (`//`, `/*`, `*/`, `*`, `#`, `;`, or a slash
/// before a space) from a line.
pub fn strip_comment_prefix(line: &str) -> (r: String)
    ensures
        r@ == uncommented(line@),
{
    let t = trim_start(line);
    proof {
        reveal_strlit("/*");
        reveal_strlit("*/");
        reveal_strlit("//");
        reveal_strlit("*");
        reveal_strlit("#");
        reveal_strlit(";");
        reveal_strlit("/ ");
    }
    let skip: usize = if starts_with(t, "/*") || starts_with(t, "*/") || starts_with(t, "//") {
        2
    } else if starts_with(t, "*") || starts_with(t, "#") || starts_with(t, ";") || starts_with(
        t,
        "/ ",
    ) {
        1
    } else {
        0
    };
    let rest = t.substring_char(skip, t.unicode_len());
    assert(rest@ == t@.skip(skip as int));
    trim_start(rest).to_owned()
}

/// Whether a line begins with the pattern, both in the form in which they are
/// compared. An empty pattern agrees with an empty line alone.
pub open spec fn line_begins(line: Seq<char>, pattern: Seq<char>) -> bool {
    if fuzzy_form(pattern).len() == 0 {
        fuzzy_form(line).len() == 0
    } else {
        begins(fuzzy_form(line), fuzzy_form(pattern))
    }
}

/// Checks if `line` starts with `pattern` after normalization.
pub fn line_starts_with_pattern(line: &str, pattern: &str) -> (r: bool)
    ensures
        r == line_begins(line@, pattern@),
{
    let l = normalize_for_fuzzy(line);
    let p = normalize_for_fuzzy(pattern);
    if p.as_str().is_empty() {
        return l.as_str().is_empty();
    }
    starts_with(l.as_str(), p.as_str())
}

/// The length of the pattern in relation to that of the line.
pub open spec fn share(line: Seq<char>, pattern: Seq<char>) -> u64 {
    quotient(whole(bytes(pattern).len()), whole(max(bytes(line).len() as int, 1) as nat))
}

/// Whether a line holds the pattern as a significant part, both in the form in
/// which they are compared.
pub open spec fn line_holds(line: Seq<char>, pattern: Seq<char>) -> bool {
    let l = fuzzy_form(line);
    let p = fuzzy_form(pattern);
    bytes(p).len() >= PARTIAL_MATCH_MIN_LENGTH && occurs(l, p) && at_least(
        share(l, p),
        PARTIAL_MATCH_MIN_RATIO,
    )
}

/// Whether a line agrees with a line of a pattern that is searched as a part of
/// it: it holds the pattern, or both hold nothing.
pub open spec fn line_agrees_in_part(line: Seq<char>, pattern: Seq<char>) -> bool {
    line_holds(line, pattern) || (fuzzy_form(line).len() == 0 && fuzzy_form(pattern).len() == 0)
}

fn share_of(line: &str, pattern: &str) -> (r: Double)
    ensures
        r.bits == share(line@, pattern@),
{
    let x = byte_len(pattern);
    let y = byte_len(line);
    let z: usize = if y >= 1 {
        y
    } else {
        1
    };
    let num = Double::from_usize(x);
    let den = Double::from_usize(z);
    proof {
        lemma_whole_range(den.bits, z as nat);
        if x == 0 {
            lemma_whole_order(num.bits, den.bits, 0, z as nat);
        } else {
            lemma_whole_range(num.bits, x as nat);
        }
    }
    num.over(den)
}

/// Checks if `line` contains `pattern` as a significant substring after
/// normalization.
///
/// Returns `false` if the pattern is shorter than [`PARTIAL_MATCH_MIN_LENGTH`]
/// or if its length in relation to the line is below
/// [`PARTIAL_MATCH_MIN_RATIO`].
pub fn line_includes_pattern(line: &str, pattern: &str) -> (r: bool)
    ensures
        r == line_holds(line@, pattern@),
{
    let l = normalize_for_fuzzy(line);
    let p = normalize_for_fuzzy(pattern);
    if byte_len(p.as_str()) < PARTIAL_MATCH_MIN_LENGTH {
        return false;
    }
    if !contains(l.as_str(), p.as_str()) {
        return false;
    }
    share_of(l.as_str(), p.as_str()).ge(Double::from_bits(PARTIAL_MATCH_MIN_RATIO))
}

/// A match, by its contents.
pub ghost struct MatchView {
    /// The text that was matched.
    pub text: Seq<char>,
    /// Where it begins, in bytes.
    pub index: nat,
    /// The number of its first line, from one.
    pub line: nat,
    /// The bits of its score.
    pub confidence: u64,
}

/// A match with its place and its score.
#[derive(Debug)]
pub struct FuzzyMatch {
    /// The text that was actually matched in the content.
    pub actual_text: String,
    /// Byte offset of the match start within the content.
    pub start_index: usize,
    /// 1-indexed line number of the match start.
    pub start_line: usize,
    /// Similarity score from zero to one.
    pub confidence: Double,
}

impl View for FuzzyMatch {
    type V = MatchView;

    open spec fn view(&self) -> MatchView {
        MatchView {
            text: self.actual_text@,
            index: self.start_index as nat,
            line: self.start_line as nat,
            confidence: self.confidence.bits,
        }
    }
}

impl Clone for FuzzyMatch {
    fn clone(&self) -> (r: FuzzyMatch)
        ensures
            r@ == self@,
    {
        FuzzyMatch {
            actual_text: self.actual_text.clone(),
            start_index: self.start_index,
            start_line: self.start_line,
            confidence: self.confidence,
        }
    }
}

/// The view of an optional match.
pub open spec fn opt_match(m: Option<FuzzyMatch>) -> Option<MatchView> {
    match m {
        Some(x) => Some(x@),
        None => None,
    }
}

/// A sequence of integers.
pub open spec fn nats(v: Seq<usize>) -> Seq<nat> {
    Seq::new(v.len(), |i: int| v[i] as nat)
}

/// The outcome of a search, by its contents.
#[verifier::ext_equal]
pub ghost struct OutcomeView {
    /// The accepted match.
    pub matched: Option<MatchView>,
    /// The closest candidate.
    pub closest: Option<MatchView>,
    /// The number of exact occurrences, where there are several.
    pub occurrences: Option<nat>,
    /// The lines of the first of them.
    pub lines: Seq<nat>,
    /// Their previews.
    pub previews: Seq<Seq<char>>,
    /// The number of candidates that reach the threshold.
    pub fuzzy_matches: Option<nat>,
    /// Whether the accepted match stands out among several.
    pub dominant: bool,
}

/// Outcome of [`find_match`]: a match, several exact occurrences, or nothing.
#[derive(Debug, Clone)]
pub struct MatchOutcome {
    /// The accepted match (exact or fuzzy).
    pub matched: Option<FuzzyMatch>,
    /// The closest fuzzy candidate, even if not accepted.
    pub closest: Option<FuzzyMatch>,
    /// Number of exact occurrences when ambiguous.
    pub occurrences: Option<usize>,
    /// 1-indexed line numbers of exact occurrences (up to 5).
    pub occurrence_lines: Vec<usize>,
    /// Preview snippets for exact occurrences (up to 5).
    pub occurrence_previews: Vec<String>,
    /// Number of fuzzy matches above threshold.
    pub fuzzy_matches: Option<usize>,
    /// Whether the best fuzzy match was dominant over alternatives.
    pub dominant_fuzzy: bool,
}

impl View for MatchOutcome {
    type V = OutcomeView;

    open spec fn view(&self) -> OutcomeView {
        OutcomeView {
            matched: opt_match(self.matched),
            closest: opt_match(self.closest),
            occurrences: opt_nat(self.occurrences),
            lines: nats(self.occurrence_lines@),
            previews: views(self.occurrence_previews@),
            fuzzy_matches: opt_nat(self.fuzzy_matches),
            dominant: self.dominant_fuzzy,
        }
    }
}

/// The outcome of a search that found nothing.
pub open spec fn nothing() -> OutcomeView {
    OutcomeView {
        matched: None,
        closest: None,
        occurrences: None,
        lines: Seq::empty(),
        previews: Seq::empty(),
        fuzzy_matches: None,
        dominant: false,
    }
}

impl Default for MatchOutcome {
    fn default() -> (r: MatchOutcome)
        ensures
            r@ == nothing(),
    {
        let r = MatchOutcome {
            matched: None,
            closest: None,
            occurrences: None,
            occurrence_lines: Vec::new(),
            occurrence_previews: Vec::new(),
            fuzzy_matches: None,
            dominant_fuzzy: false,
        };
        assert(r@ =~= nothing());
        r
    }
}

/// The number of the line, from one, on which the character `i` of `s` stands.
pub open spec fn line_number(s: Seq<char>, i: int) -> nat {
    lines_of(s.take(i)).len()
}

/// How often `p` occurs in `s` from `i` on, without overlap.
pub open spec fn tally(s: Seq<char>, p: Seq<char>, i: int) -> nat
    decreases s.len() - i,
{
    match index_from(s, p, i) {
        Some(k) => if p.len() > 0 && i <= k && k + p.len() <= s.len() {
            1 + tally(s, p, k + p.len())
        } else {
            0
        },
        None => 0,
    }
}

/// The first `n` places, from `i` on, where `p` occurs in `s`. Occurrences may
/// overlap here; those that [`tally`] counts do not.
pub open spec fn places(s: Seq<char>, p: Seq<char>, i: int, n: nat) -> Seq<int>
    decreases n,
{
    if n == 0 || i > s.len() {
        Seq::empty()
    } else {
        match index_from(s, p, i) {
            Some(k) => seq![k] + places(s, p, k + 1, (n - 1) as nat),
            None => Seq::empty(),
        }
    }
}

/// A line as a preview shows it: cut, where it is too long.
pub open spec fn preview_line(line: Seq<char>, limit: nat) -> Seq<char> {
    if bytes(line).len() > limit {
        line.take(fitting(line, limit - 1) as int) + "…"@
    } else {
        line
    }
}

/// A numbered line of a preview.
pub open spec fn numbered_line(number: nat, line: Seq<char>, limit: nat) -> Seq<char> {
    "  "@ + decimal(number) + " | "@ + preview_line(line, limit)
}

/// Lines `from` to `to`, numbered from one, the last not counted.
pub open spec fn preview(lines: Seq<Seq<char>>, from: int, to: int, limit: nat) -> Seq<char> {
    joined(
        Seq::new(
            (to - from) as nat,
            |i: int| numbered_line((from + i + 1) as nat, lines[from + i], limit),
        ),
        "\n"@,
    )
}

/// Shortens a line for a preview.
pub fn shorten(line: &str, limit: usize) -> (r: String)
    requires
        limit > 0,
    ensures
        r@ == preview_line(line@, limit as nat),
{
    if byte_len(line) > limit {
        let mut r = prefix_within(line, limit - 1).to_owned();
        r.append("…");
        r
    } else {
        line.to_owned()
    }
}

/// Renders lines `from` to `to` as a preview.
pub fn render_preview(lines: &[&str], from: usize, to: usize, limit: usize) -> (r: String)
    requires
        from <= to <= lines@.len(),
        limit > 0,
    ensures
        r@ == preview(views(lines@), from as int, to as int, limit as nat),
{
    let ghost target = Seq::new(
        (to - from) as nat,
        |i: int| numbered_line((from + i + 1) as nat, views(lines@)[from + i], limit as nat),
    );
    let n: usize = lines.len();
    let mut out: Vec<String> = Vec::new();
    let mut i: usize = from;
    while i < to
        invariant
            from <= i <= to <= lines@.len(),
            n == lines@.len(),
            limit > 0,
            target == Seq::new(
                (to - from) as nat,
                |i: int| numbered_line((from + i + 1) as nat, views(lines@)[from + i], limit as nat),
            ),
            views(out@) == target.take(i - from),
        decreases to - i,
    {
        let mut l = "  ".to_owned();
        l.append(show(i + 1).as_str());
        l.append(" | ");
        l.append(shorten(lines[i], limit).as_str());
        let ghost before = out@;
        let ghost lv = l@;
        out.push(l);
        proof {
            assert(views(lines@)[i as int] == lines@[i as int]@);
            assert(target[i - from] == lv);
            assert(views(out@) == views(before).push(lv));
            assert(target.take(i - from + 1) == target.take(i - from).push(target[i - from]));
        }
        i = i + 1;
    }
    assert(target.take(to - from) == target);
    join(&out, "\n")
}

/// The preview of an occurrence on line `number`.
pub open spec fn occurrence_preview(lines: Seq<Seq<char>>, number: nat) -> Seq<char> {
    preview(
        lines,
        max(number - 1 - OCCURRENCE_PREVIEW_CONTEXT, 0),
        min((number + OCCURRENCE_PREVIEW_CONTEXT) as int, lines.len() as int),
        OCCURRENCE_PREVIEW_MAX_LEN as nat,
    )
}

/// Counts the occurrences of `p` in `s`, without overlap.
pub(crate) fn count_matches(s: &[char], p: &[char]) -> (r: usize)
    requires
        p@.len() > 0,
    ensures
        r == tally(s@, p@, 0),
{
    let n: usize = s.len();
    let mut count: usize = 0;
    let mut i: usize = 0;
    let mut more = true;
    while more
        invariant
            n == s@.len(),
            p@.len() > 0,
            i <= s@.len(),
            count <= i,
            more ==> count + tally(s@, p@, i as int) == tally(s@, p@, 0),
            !more ==> count == tally(s@, p@, 0),
        decreases s@.len() - i, (if more { 1int } else { 0int }),
    {
        match find_chars(s, p, i) {
            Some(k) => {
                count = count + 1;
                i = k + p.len();
            },
            None => {
                more = false;
            },
        }
    }
    count
}

/// The number of lines that a text has up to a line feed is at most that of the
/// whole.
proof fn lemma_line_number(s: Seq<char>, i: int)
    requires
        0 <= i <= s.len(),
    ensures
        1 <= line_number(s, i) <= lines_of(s).len(),
    decreases s.len() - i,
{
    lemma_pieces_nonempty(s.take(i), '\n');
    if i < s.len() {
        lemma_line_number(s, i + 1);
        assert(s.take(i + 1).drop_last() == s.take(i));
    } else {
        assert(s.take(i) == s);
    }
}

/// The lines and the previews of the first places where `target` occurs.
fn report_occurrences(content: &str, v: &[char], w: &[char], lines: &[&str]) -> (r: (
    Vec<usize>,
    Vec<String>,
))
    requires
        v@ == content@,
        w@.len() > 0,
        views(lines@) == lines_of(content@),
    ensures
        ({
            let at = places(content@, w@, 0, MAX_TRACKED_INDICES as nat);
            &&& nats(r.0@) == Seq::new(at.len(), |i: int| line_number(content@, at[i]))
            &&& views(r.1@) == Seq::new(
                at.len(),
                |i: int| occurrence_preview(lines_of(content@), line_number(content@, at[i])),
            )
        }),
{
    let ghost s = content@;
    let n: usize = v.len();
    let total: usize = lines.len();
    let mut numbers: Vec<usize> = Vec::new();
    let mut previews: Vec<String> = Vec::new();
    let mut from: usize = 0;
    let mut left: usize = MAX_TRACKED_INDICES;
    let ghost all = places(s, w@, 0, MAX_TRACKED_INDICES as nat);
    let ghost mut done = Seq::<int>::empty();
    assert(done + all == all);
    while left > 0
        invariant
            v@ == s,
            s == content@,
            n == v@.len(),
            total == lines@.len(),
            views(lines@) == lines_of(s),
            left <= MAX_TRACKED_INDICES,
            w@.len() > 0,
            from <= n,
            done + places(s, w@, from as int, left as nat) == all,
            nats(numbers@) == Seq::new(done.len(), |i: int| line_number(s, done[i])),
            views(previews@) == Seq::new(
                done.len(),
                |i: int| occurrence_preview(lines_of(s), line_number(s, done[i])),
            ),
        decreases left,
    {
        match find_chars(v, w, from) {
            Some(k) => {
                let head = content.substring_char(0, k);
                let number = split_on(head, '\n').len();
                proof {
                    lemma_line_number(s, k as int);
                    assert(head@ == s.take(k as int));
                }
                let start: usize = if number > 1 + OCCURRENCE_PREVIEW_CONTEXT {
                    number - 1 - OCCURRENCE_PREVIEW_CONTEXT
                } else {
                    0
                };
                let end: usize = if total - number > OCCURRENCE_PREVIEW_CONTEXT {
                    number + OCCURRENCE_PREVIEW_CONTEXT
                } else {
                    total
                };
                let p = render_preview(lines, start, end, OCCURRENCE_PREVIEW_MAX_LEN);
                let ghost numbers0 = numbers@;
                let ghost previews0 = previews@;
                let ghost done0 = done;
                let ghost pv = p@;
                numbers.push(number);
                previews.push(p);
                proof {
                    done = done0.push(k as int);
                    assert(nats(numbers@) == nats(numbers0).push(number as nat));
                    assert(views(previews@) == views(previews0).push(pv));
                    assert(Seq::new(done.len(), |i: int| line_number(s, done[i])) == Seq::new(
                        done0.len(),
                        |i: int| line_number(s, done0[i]),
                    ).push(number as nat));
                    assert(Seq::new(
                        done.len(),
                        |i: int| occurrence_preview(lines_of(s), line_number(s, done[i])),
                    ) == Seq::new(
                        done0.len(),
                        |i: int| occurrence_preview(lines_of(s), line_number(s, done0[i])),
                    ).push(pv));
                    let rest = places(s, w@, k + 1, (left - 1) as nat);
                    assert(done0 + (seq![k as int] + rest) == done + rest);
                }
                from = k + 1;
                left = left - 1;
            },
            None => {
                proof {
                    assert(places(s, w@, from as int, left as nat) =~= Seq::<int>::empty());
                    assert(done + places(s, w@, from as int, left as nat) == done);
                    assert(places(s, w@, from as int, 0) =~= Seq::<int>::empty());
                }
                left = 0;
            },
        }
    }
    assert(done + places(s, w@, from as int, 0) == done);
    (numbers, previews)
}

/// The sum of the similarities of the first `k` lines of `a` and `b`.
pub open spec fn total_likeness(a: Seq<Seq<char>>, b: Seq<Seq<char>>, k: int) -> u64
    decreases k,
{
    if k <= 0 {
        0
    } else {
        sum(total_likeness(a, b, k - 1), likeness(a[k - 1], b[k - 1]))
    }
}

/// The mean similarity of the lines of `a` and `b`.
pub open spec fn mean_likeness(a: Seq<Seq<char>>, b: Seq<Seq<char>>) -> u64 {
    quotient(total_likeness(a, b, a.len() as int), whole(a.len()))
}

/// The mean similarity of two sequences of lines.
fn mean_similarity(a: &[String], b: &[String]) -> (r: Double)
    requires
        a@.len() == b@.len(),
        a@.len() > 0,
    ensures
        r.bits == mean_likeness(views(a@), views(b@)),
        r.bits <= ONE,
{
    let mut total = Double::from_bits(0);
    let mut i: usize = 0;
    while i < a.len()
        invariant
            i <= a@.len(),
            a@.len() == b@.len(),
            total.bits == total_likeness(views(a@), views(b@), i as int),
            total.bits <= TWO_60,
            total.bits <= whole(least(i as nat, 2 * FRACTION as nat)),
        decreases a@.len() - i,
    {
        let x = similarity(a[i].as_str(), b[i].as_str());
        let before = total;
        total = before.plus(x);
        proof {
            lemma_sum_bounded(total.bits, before.bits, x.bits);
            lemma_sum_counted(total.bits, before.bits, x.bits, i as nat);
        }
        i = i + 1;
    }
    let n: usize = a.len();
    let den = Double::from_usize(n);
    proof {
        lemma_whole_range(den.bits, n as nat);
        let m = least(n as nat, 2 * FRACTION as nat);
        lemma_whole_exact(m);
        lemma_exact_is_nearest(whole(m), m * unit_count());
        lemma_whole_order(whole(m), den.bits, m, n as nat);
    }
    let r = total.over(den);
    proof {
        lemma_share(r.bits, total.bits, den.bits);
    }
    r
}

/// What a pass over scored candidates has found.
#[verifier::ext_equal]
pub ghost struct Survey {
    /// The place of the first candidate with the greatest score.
    pub best: Option<int>,
    /// Its score.
    pub score: u64,
    /// The greatest score of the others.
    pub second: u64,
    /// The places of the candidates that reach the threshold.
    pub above: Seq<int>,
}

/// The survey of no candidate.
pub open spec fn no_survey(floor: u64) -> Survey {
    Survey { best: None, score: floor, second: floor, above: Seq::empty() }
}

/// A survey, and one more candidate at `i` with the score `x`.
pub open spec fn surveyed(s: Survey, i: int, x: u64, threshold: u64) -> Survey {
    let above_now = if at_least(x, threshold) {
        s.above.push(i)
    } else {
        s.above
    };
    if above(x, s.score) {
        Survey { best: Some(i), score: x, second: s.score, above: above_now }
    } else if above(x, s.second) {
        Survey { best: s.best, score: s.score, second: x, above: above_now }
    } else {
        Survey { best: s.best, score: s.score, second: s.second, above: above_now }
    }
}

/// The survey of the candidates at `at`, with their scores. A candidate counts
/// only if it scores more than `floor`.
pub open spec fn survey(at: Seq<int>, scores: Seq<u64>, floor: u64, threshold: u64) -> Survey
    decreases at.len(),
{
    if at.len() == 0 {
        no_survey(floor)
    } else {
        surveyed(
            survey(at.drop_last(), scores.drop_last(), floor, threshold),
            at.last(),
            scores.last(),
            threshold,
        )
    }
}

/// The bits of minus one, which every score exceeds.
pub const BELOW_ALL: u64 = 0xBFF0_0000_0000_0000;

/// The best candidate was surveyed, no candidate scores more, the candidates
/// that reach the threshold are kept in order, and the second best is not above
/// the best.
pub proof fn lemma_survey(at: Seq<int>, scores: Seq<u64>, floor: u64, threshold: u64)
    requires
        at.len() == scores.len(),
        floor == 0 || floor == BELOW_ALL,
        forall|i: int| 0 <= i < scores.len() ==> #[trigger] scores[i] <= ONE,
    ensures
        ({
            let s = survey(at, scores, floor, threshold);
            &&& s.best is Some ==> exists|i: int|
                0 <= i < at.len() && #[trigger] at[i] == s.best->0 && scores[i] == s.score
            &&& s.best is None <==> s.score == floor
            &&& s.score == floor || s.score <= ONE
            &&& s.second == floor || s.second <= s.score
            &&& at_least(s.score, s.second)
            &&& at.len() >= 2 ==> s.second <= ONE
            &&& floor == BELOW_ALL && at.len() >= 1 ==> s.best is Some
            &&& s.above.len() <= at.len()
            &&& forall|i: int| 0 <= i < at.len() ==> at_least(s.score, #[trigger] scores[i])
        }),
    decreases at.len(),
{
    if at.len() > 0 {
        let at0 = at.drop_last();
        let scores0 = scores.drop_last();
        lemma_survey(at0, scores0, floor, threshold);
        let s0 = survey(at0, scores0, floor, threshold);
        let s = survey(at, scores, floor, threshold);
        if s.best == s0.best && s.best is Some && s.score == s0.score {
            let i = choose|i: int|
                0 <= i < at0.len() && #[trigger] at0[i] == s0.best->0 && scores0[i] == s0.score;
            assert(at[i] == s.best->0 && scores[i] == s.score);
        } else if s.best is Some {
            assert(at[at.len() - 1] == s.best->0 && scores[at.len() - 1] == s.score);
        }
        assert forall|i: int| 0 <= i < at.len() implies at_least(s.score, #[trigger] scores[i]) by {
            if i < at.len() - 1 {
                assert(scores[i] == scores0[i]);
            }
        }
    }
}

/// A survey in progress.
struct Standing {
    best: Option<usize>,
    score: Double,
    second: Double,
    count: usize,
    few: Vec<usize>,
}

/// The first entries, as many as are kept for reports.
pub open spec fn first_few(s: Seq<int>) -> Seq<int> {
    s.take(min(s.len() as int, MAX_TRACKED_INDICES as int))
}

/// A sequence of integers.
pub open spec fn ints(v: Seq<usize>) -> Seq<int> {
    Seq::new(v.len(), |i: int| v[i] as int)
}

/// An optional integer.
pub open spec fn opt_int(n: Option<usize>) -> Option<int> {
    match n {
        Some(x) => Some(x as int),
        None => None,
    }
}

impl Standing {
    spec fn shows(&self, s: Survey) -> bool {
        &&& opt_int(self.best) == s.best
        &&& self.score.bits == s.score
        &&& self.second.bits == s.second
        &&& self.count == s.above.len()
        &&& ints(self.few@) == first_few(s.above)
    }

    fn start(floor: u64) -> (r: Standing)
        ensures
            r.shows(no_survey(floor)),
    {
        let r = Standing {
            best: None,
            score: Double::from_bits(floor),
            second: Double::from_bits(floor),
            count: 0,
            few: Vec::new(),
        };
        assert(ints(r.few@) =~= first_few(no_survey(floor).above));
        r
    }

    fn consider(self, i: usize, x: Double, threshold: Double, Ghost(s): Ghost<Survey>) -> (r:
        Standing)
        requires
            self.shows(s),
            self.count < usize::MAX,
        ensures
            r.shows(surveyed(s, i as int, x.bits, threshold.bits)),
    {
        let mut count: usize = self.count;
        let mut few = self.few;
        let ghost few0 = few@;
        if x.ge(threshold) {
            count = count + 1;
            if few.len() < MAX_TRACKED_INDICES {
                few.push(i);
                assert(ints(few@) =~= ints(few0).push(i as int));
            }
            assert(ints(few@) =~= first_few(s.above.push(i as int)));
        }
        if x.gt(self.score) {
            Standing { best: Some(i), score: x, second: self.score, count, few }
        } else if x.gt(self.second) {
            Standing { best: self.best, score: self.score, second: x, count, few }
        } else {
            Standing { best: self.best, score: self.score, second: self.second, count, few }
        }
    }
}

/// A window of `n` lines from line `i` on.
pub open spec fn window(lines: Seq<Seq<char>>, i: int, n: int) -> Seq<Seq<char>> {
    lines.subrange(i, i + n)
}

/// The score of the window at `i` against `target`.
pub open spec fn window_score(
    lines: Seq<Seq<char>>,
    target: Seq<Seq<char>>,
    i: int,
    with_depth: bool,
) -> u64 {
    mean_likeness(
        normal_lines(target, with_depth),
        normal_lines(window(lines, i, target.len() as int), with_depth),
    )
}

/// The integers from `a` to `b`, the last not counted.
pub open spec fn range(a: int, b: int) -> Seq<int> {
    Seq::new(max(b - a, 0) as nat, |i: int| a + i)
}

/// The scores of the windows at `at`.
pub open spec fn window_scores(
    lines: Seq<Seq<char>>,
    target: Seq<Seq<char>>,
    at: Seq<int>,
    with_depth: bool,
) -> Seq<u64> {
    Seq::new(at.len(), |k: int| window_score(lines, target, at[k], with_depth))
}

/// The survey of the windows at `at`.
pub open spec fn window_survey(
    lines: Seq<Seq<char>>,
    target: Seq<Seq<char>>,
    at: Seq<int>,
    threshold: u64,
    with_depth: bool,
) -> Survey {
    survey(at, window_scores(lines, target, at, with_depth), BELOW_ALL, threshold)
}

/// The match that a survey of the windows of `lines` has found best.
pub open spec fn survey_match(lines: Seq<Seq<char>>, n: int, s: Survey) -> Option<MatchView> {
    match s.best {
        Some(i) => Some(
            MatchView {
                text: joined(window(lines, i, n), "\n"@),
                index: line_offset(lines, i),
                line: (i + 1) as nat,
                confidence: s.score,
            },
        ),
        None => None,
    }
}

/// The best window for a target, the number of windows that reach the
/// threshold, and the second best score.
struct BestFuzzyResult {
    best: Option<FuzzyMatch>,
    above_threshold_count: usize,
    second_best_score: Double,
}

impl BestFuzzyResult {
    spec fn shows(&self, lines: Seq<Seq<char>>, n: int, s: Survey) -> bool {
        &&& opt_match(self.best) == survey_match(lines, n, s)
        &&& self.best matches Some(m) ==> m.start_line >= 1
        &&& self.above_threshold_count == s.above.len()
        &&& self.second_best_score.bits == s.second
    }
}

/// Whether every score is at most one.
pub open spec fn all_scores(scores: Seq<u64>) -> bool {
    forall|i: int| 0 <= i < scores.len() ==> #[trigger] scores[i] <= ONE
}

/// Whether windows of `n` lines at `at` lie in a text of `len` lines.
pub open spec fn fit(at: Seq<int>, n: int, len: int) -> bool {
    forall|k: int| 0 <= k < at.len() ==> 0 <= #[trigger] at[k] && at[k] + n <= len
}

/// Surveys the windows of `content_lines` at `at`.
fn find_best_fuzzy_match_core(
    content_lines: &[&str],
    target_lines: &[&str],
    offsets: &[usize],
    at: &[usize],
    threshold: Double,
    include_depth: bool,
) -> (r: BestFuzzyResult)
    requires
        0 < target_lines@.len() <= content_lines@.len(),
        fit(ints(at@), target_lines@.len() as int, content_lines@.len() as int),
        offsets@.len() == content_lines@.len(),
        forall|i: int|
            0 <= i < offsets@.len() ==> #[trigger] offsets@[i] == line_offset(
                views(content_lines@),
                i,
            ),
    ensures
        r.shows(
            views(content_lines@),
            target_lines@.len() as int,
            window_survey(
                views(content_lines@),
                views(target_lines@),
                ints(at@),
                threshold.bits,
                include_depth,
            ),
        ),
        all_scores(
            window_scores(views(content_lines@), views(target_lines@), ints(at@), include_depth),
        ),
{
    let ghost lines = views(content_lines@);
    let ghost target = views(target_lines@);
    let n: usize = target_lines.len();
    let total: usize = content_lines.len();
    let ghost places = ints(at@);
    let ghost scores = window_scores(lines, target, places, include_depth);
    let normal = normalize_lines(target_lines, include_depth);
    let mut standing = Standing::start(BELOW_ALL);
    let mut k: usize = 0;
    assert(places.take(0).len() == 0 && scores.take(0).len() == 0);
    while k < at.len()
        invariant
            lines == views(content_lines@),
            target == views(target_lines@),
            n == target_lines@.len(),
            n > 0,
            total == content_lines@.len(),
            places == ints(at@),
            fit(places, n as int, total as int),
            scores == window_scores(lines, target, places, include_depth),
            views(normal@) == normal_lines(target, include_depth),
            k <= at@.len(),
            standing.count <= k,
            standing.shows(
                survey(places.take(k as int), scores.take(k as int), BELOW_ALL, threshold.bits),
            ),
            forall|j: int| 0 <= j < k ==> #[trigger] scores[j] <= ONE,
        decreases at@.len() - k,
    {
        let i: usize = at[k];
        assert(places[k as int] == i);
        let part = vstd::slice::slice_subrange(content_lines, i, i + n);
        proof {
            assert(views(part@) == window(lines, i as int, n as int));
        }
        let other = normalize_lines(part, include_depth);
        proof {
            assert(normal@.len() == views(normal@).len());
            assert(other@.len() == views(other@).len());
        }
        let x = mean_similarity(&normal, &other);
        proof {
            assert(x.bits == scores[k as int]);
            assert(places.take(k + 1).drop_last() == places.take(k as int));
            assert(scores.take(k + 1).drop_last() == scores.take(k as int));
            assert(places.take(k + 1).last() == i);
        }
        standing = standing.consider(
            i,
            x,
            threshold,
            Ghost(survey(places.take(k as int), scores.take(k as int), BELOW_ALL, threshold.bits)),
        );
        k = k + 1;
    }
    let ghost s = survey(places, scores, BELOW_ALL, threshold.bits);
    proof {
        assert(places.take(k as int) == places);
        assert(scores.take(k as int) == scores);
        lemma_survey(places, scores, BELOW_ALL, threshold.bits);
    }
    let best: Option<FuzzyMatch> = match standing.best {
        Some(b) => {
            proof {
                let k = choose|k: int|
                    0 <= k < places.len() && #[trigger] places[k] == s.best->0 && scores[k]
                        == s.score;
                assert(places[k] == b);
            }
            let part = vstd::slice::slice_subrange(content_lines, b, b + n);
            assert(views(part@) == window(lines, b as int, n as int));
            Some(
                FuzzyMatch {
                    actual_text: join_refs(part, "\n"),
                    start_index: offsets[b],
                    start_line: b + 1,
                    confidence: standing.score,
                },
            )
        },
        None => None,
    };
    BestFuzzyResult {
        best,
        above_threshold_count: standing.count,
        second_best_score: standing.second,
    }
}

/// The offset of a line depends on the lines before it alone.
proof fn lemma_offset_agree(a: Seq<Seq<char>>, b: Seq<Seq<char>>, i: int)
    requires
        i <= a.len(),
        i <= b.len(),
        forall|k: int| 0 <= k < i ==> #[trigger] a[k] == b[k],
    ensures
        line_offset(a, i) == line_offset(b, i),
    decreases i,
{
    if i > 0 {
        lemma_offset_agree(a, b, i - 1);
    }
}

/// All lines of a text, with a line feed for each, take one byte more than the
/// text.
pub proof fn lemma_offsets_total(s: Seq<char>)
    ensures
        line_offset(lines_of(s), lines_of(s).len() as int) == bytes(s).len() + 1,
    decreases s.len(),
{
    let ps = lines_of(s);
    if s.len() == 0 {
        assert(ps.len() == 1 && ps[0].len() == 0);
        assert(line_offset(ps, 0) == 0);
        assert(bytes(ps[0]).len() == 0);
    } else {
        let t = s.drop_last();
        let qs = lines_of(t);
        lemma_offsets_total(t);
        lemma_pieces_nonempty(t, '\n');
        lemma_bytes_push(t, s.last());
        assert(t.push(s.last()) == s);
        let n = qs.len() as int;
        if s.last() == '\n' {
            assert(ps == qs.push(Seq::empty()));
            lemma_offset_agree(ps, qs, n);
            assert(ps[n] == Seq::<char>::empty());
            assert(bytes(ps[n]).len() == 0);
        } else {
            assert(ps == qs.drop_last().push(qs.last().push(s.last())));
            lemma_offset_agree(ps, qs, n - 1);
            lemma_bytes_push(qs.last(), s.last());
        }
    }
}

/// The survey, of the windows at `at`, that decides: that with depths, or where
/// its best is close but below the threshold, that without if its best is better.
pub open spec fn deciding_survey(
    lines: Seq<Seq<char>>,
    target: Seq<Seq<char>>,
    at: Seq<int>,
    threshold: u64,
) -> Survey {
    let first = window_survey(lines, target, at, threshold, true);
    let second = window_survey(lines, target, at, threshold, false);
    if first.best is Some && above(threshold, first.score) && at_least(
        first.score,
        FALLBACK_THRESHOLD,
    ) && second.best is Some && above(second.score, first.score) {
        second
    } else {
        first
    }
}

/// The survey of all windows of a text for a target that is not empty; nothing
/// is found where the target has more lines.
pub open spec fn text_survey(content: Seq<char>, target: Seq<char>, threshold: u64) -> Survey {
    let lines = lines_of(content);
    let rows = lines_of(target);
    if rows.len() > lines.len() {
        no_survey(0)
    } else {
        deciding_survey(lines, rows, range(0, lines.len() - rows.len() + 1), threshold)
    }
}

/// What every survey of windows keeps.
pub open spec fn sound_survey(s: Survey) -> bool {
    &&& s.best is Some ==> s.score <= ONE
    &&& s.above.len() >= 2 ==> s.second <= s.score && s.second <= ONE
}

/// Finds the best match for `target` within `content`, over the windows of lines
/// at `at`. Retries without indent depth if the first pass is close but below the
/// threshold.
fn find_best_among(content: &str, target: &str, at: &[usize], threshold: Double) -> (r:
    BestFuzzyResult)
    requires
        lines_of(target@).len() <= lines_of(content@).len(),
        fit(ints(at@), lines_of(target@).len() as int, lines_of(content@).len() as int),
    ensures
        ({
            let s = deciding_survey(
                lines_of(content@),
                lines_of(target@),
                ints(at@),
                threshold.bits,
            );
            &&& r.shows(lines_of(content@), lines_of(target@).len() as int, s)
            &&& sound_survey(s)
        }),
{
    let content_owned = split_on(content, '\n');
    let target_owned = split_on(target, '\n');
    let content_lines = to_refs(&content_owned);
    let target_lines = to_refs(&target_owned);
    let ghost lines = lines_of(content@);
    let ghost goal = lines_of(target@);
    let ghost places = ints(at@);
    proof {
        lemma_pieces_nonempty(target@, '\n');
        assert(content_lines@.len() == views(content_lines@).len());
        assert(target_lines@.len() == views(target_lines@).len());
    }
    let size = byte_len(content);
    proof {
        lemma_offsets_total(content@);
    }
    let offsets = compute_line_offsets(&content_lines);
    let first = find_best_fuzzy_match_core(
        &content_lines,
        &target_lines,
        &offsets,
        at,
        threshold,
        true,
    );
    proof {
        lemma_survey(places, window_scores(lines, goal, places, true), BELOW_ALL, threshold.bits);
    }
    let retry = match &first.best {
        Some(b) => threshold.gt(b.confidence) && b.confidence.ge(
            Double::from_bits(FALLBACK_THRESHOLD),
        ),
        None => false,
    };
    if retry {
        let second = find_best_fuzzy_match_core(
            &content_lines,
            &target_lines,
            &offsets,
            at,
            threshold,
            false,
        );
        proof {
            lemma_survey(
                places,
                window_scores(lines, goal, places, false),
                BELOW_ALL,
                threshold.bits,
            );
        }
        let better = match (&first.best, &second.best) {
            (Some(a), Some(b)) => b.confidence.gt(a.confidence),
            _ => false,
        };
        if better {
            return second;
        }
    }
    first
}

/// Finds the best match for `target` within `content`, over all windows of lines.
fn find_best_fuzzy_match(content: &str, target: &str, threshold: Double) -> (r: BestFuzzyResult)
    ensures
        r.shows(
            lines_of(content@),
            lines_of(target@).len() as int,
            text_survey(content@, target@, threshold.bits),
        ),
        sound_survey(text_survey(content@, target@, threshold.bits)),
{
    let total: usize = split_on(content, '\n').len();
    let n: usize = split_on(target, '\n').len();
    proof {
        lemma_pieces_nonempty(target@, '\n');
    }
    if n > total {
        return BestFuzzyResult {
            best: None,
            above_threshold_count: 0,
            second_best_score: Double::from_bits(0),
        };
    }
    let count: usize = total - n + 1;
    let mut at: Vec<usize> = Vec::new();
    let mut i: usize = 0;
    while i < count
        invariant
            i <= count,
            ints(at@) == range(0, i as int),
        decreases count - i,
    {
        let ghost before = at@;
        at.push(i);
        assert(ints(at@) =~= ints(before).push(i as int));
        assert(range(0, i + 1) =~= range(0, i as int).push(i as int));
        i = i + 1;
    }
    find_best_among(content, target, &at, threshold)
}

/// The threshold that holds where none is given.
pub open spec fn threshold_or_default(threshold: Option<Double>) -> u64 {
    match threshold {
        Some(t) => t.bits,
        None => DEFAULT_FUZZY_THRESHOLD,
    }
}

/// Whether the best score stands out.
pub open spec fn dominates(score: u64, second: u64) -> bool {
    at_least(score, DOMINANT_MIN) && at_least(difference(score, second), DOMINANT_DELTA)
}

/// The outcome of a fuzzy search, given its survey.
pub open spec fn fuzzy_outcome(
    best: Option<MatchView>,
    s: Survey,
    allow_fuzzy: bool,
    threshold: u64,
) -> OutcomeView {
    if best is None {
        nothing()
    } else if allow_fuzzy && at_least(s.score, threshold) && s.above.len() == 1 {
        OutcomeView { matched: best, closest: best, ..nothing() }
    } else if allow_fuzzy && at_least(s.score, threshold) && s.above.len() > 1 && dominates(
        s.score,
        s.second,
    ) {
        OutcomeView {
            matched: best,
            closest: best,
            fuzzy_matches: Some(s.above.len()),
            dominant: true,
            ..nothing()
        }
    } else {
        OutcomeView { closest: best, fuzzy_matches: Some(s.above.len()), ..nothing() }
    }
}

/// The outcome of a search for `target` in `content`.
#[verifier::opaque]
pub open spec fn found(
    content: Seq<char>,
    target: Seq<char>,
    allow_fuzzy: bool,
    threshold: u64,
) -> OutcomeView {
    if target.len() == 0 {
        nothing()
    } else {
        match index_from(content, target, 0) {
            Some(k) => if tally(content, target, 0) > 1 {
                let at = places(content, target, 0, MAX_TRACKED_INDICES as nat);
                OutcomeView {
                    occurrences: Some(tally(content, target, 0)),
                    lines: Seq::new(at.len(), |i: int| line_number(content, at[i])),
                    previews: Seq::new(
                        at.len(),
                        |i: int| occurrence_preview(lines_of(content), line_number(content, at[i])),
                    ),
                    ..nothing()
                }
            } else {
                OutcomeView {
                    matched: Some(
                        MatchView {
                            text: target,
                            index: bytes(content.take(k)).len(),
                            line: line_number(content, k),
                            confidence: ONE,
                        },
                    ),
                    ..nothing()
                }
            },
            None => {
                let s = text_survey(content, target, threshold);
                let best = survey_match(lines_of(content), lines_of(target).len() as int, s);
                fuzzy_outcome(best, s, allow_fuzzy, threshold)
            },
        }
    }
}

/// Judges what a survey has found.
fn judge(
    result: BestFuzzyResult,
    allow_fuzzy: bool,
    limit: Double,
    Ghost(best): Ghost<Option<MatchView>>,
    Ghost(s): Ghost<Survey>,
) -> (r: MatchOutcome)
    requires
        opt_match(result.best) == best,
        best matches Some(m) ==> m.confidence == s.score,
        best is Some <==> s.best is Some,
        result.above_threshold_count == s.above.len(),
        result.second_best_score.bits == s.second,
        sound_survey(s),
    ensures
        r@ == fuzzy_outcome(best, s, allow_fuzzy, limit.bits),
{
    let empty = MatchOutcome::default();
    let count = result.above_threshold_count;
    let second = result.second_best_score;
    match result.best {
        None => empty,
        Some(best_match) => {
            if allow_fuzzy && best_match.confidence.ge(limit) {
                if count == 1 {
                    let r = MatchOutcome {
                        matched: Some(best_match.clone()),
                        closest: Some(best_match),
                        ..empty
                    };
                    assert(r@ =~= fuzzy_outcome(best, s, allow_fuzzy, limit.bits));
                    return r;
                }
                if count > 1 && best_match.confidence.ge(Double::from_bits(DOMINANT_MIN))
                    && best_match.confidence.minus(second).ge(Double::from_bits(DOMINANT_DELTA)) {
                    let r = MatchOutcome {
                        matched: Some(best_match.clone()),
                        closest: Some(best_match),
                        fuzzy_matches: Some(count),
                        dominant_fuzzy: true,
                        ..empty
                    };
                    assert(r@ =~= fuzzy_outcome(best, s, allow_fuzzy, limit.bits));
                    return r;
                }
            }
            let r = MatchOutcome {
                closest: Some(best_match),
                fuzzy_matches: Some(count),
                ..empty
            };
            assert(r@ =~= fuzzy_outcome(best, s, allow_fuzzy, limit.bits));
            r
        },
    }
}

/// The outcome of a search among the windows of `content` at `at`, by similarity.
#[verifier::opaque]
pub open spec fn found_among(
    content: Seq<char>,
    target: Seq<char>,
    at: Seq<int>,
    allow_fuzzy: bool,
    threshold: u64,
) -> OutcomeView {
    let s = deciding_survey(lines_of(content), lines_of(target), at, threshold);
    let best = survey_match(lines_of(content), lines_of(target).len() as int, s);
    fuzzy_outcome(best, s, allow_fuzzy, threshold)
}

/// Nothing is found among no windows.
pub proof fn lemma_found_nowhere(
    content: Seq<char>,
    target: Seq<char>,
    at: Seq<int>,
    allow_fuzzy: bool,
    threshold: u64,
)
    requires
        at.len() == 0,
    ensures
        found_among(content, target, at, allow_fuzzy, threshold) == nothing(),
{
    reveal(found_among);
}

/// Finds a match for `target` among the windows of `content` at `at`, by
/// similarity alone.
pub fn find_match_among(
    content: &str,
    target: &str,
    at: &[usize],
    allow_fuzzy: bool,
    threshold: Double,
) -> (r: MatchOutcome)
    requires
        lines_of(target@).len() <= lines_of(content@).len(),
        fit(ints(at@), lines_of(target@).len() as int, lines_of(content@).len() as int),
    ensures
        r@ == found_among(content@, target@, ints(at@), allow_fuzzy, threshold.bits),
{
    proof {
        reveal(found_among);
    }
    let ghost s = deciding_survey(lines_of(content@), lines_of(target@), ints(at@), threshold.bits);
    let ghost best = survey_match(lines_of(content@), lines_of(target@).len() as int, s);
    let result = find_best_among(content, target, at, threshold);
    judge(result, allow_fuzzy, threshold, Ghost(best), Ghost(s))
}

/// Finds a match for `target` within `content`.
///
/// Tries an exact match first. If `allow_fuzzy` is true and no exact match is
/// found, falls back to comparing windows of lines. Reports ambiguity when
/// several occurrences exist.
pub fn find_match(
    content: &str,
    target: &str,
    allow_fuzzy: bool,
    threshold: Option<Double>,
) -> (r: MatchOutcome)
    ensures
        r@ == found(content@, target@, allow_fuzzy, threshold_or_default(threshold)),
        r@.matched matches Some(m) ==> m.confidence <= ONE && m.line >= 1,
        r@.closest matches Some(m) ==> m.confidence <= ONE,
{
    proof {
        reveal(found);
    }
    if target.is_empty() {
        return MatchOutcome::default();
    }
    let v = to_chars(content);
    let w = to_chars(target);
    let empty = MatchOutcome::default();
    match find_chars(&v, &w, 0) {
        Some(k) => {
            let occurrences = count_matches(&v, &w);
            if occurrences > 1 {
                let owned = split_on(content, '\n');
                let lines = to_refs(&owned);
                let (numbers, previews) = report_occurrences(content, &v, &w, &lines);
                let r = MatchOutcome {
                    occurrences: Some(occurrences),
                    occurrence_lines: numbers,
                    occurrence_previews: previews,
                    ..empty
                };
                assert(r@ =~= found(
                    content@,
                    target@,
                    allow_fuzzy,
                    threshold_or_default(threshold),
                ));
                return r;
            }
            let head = content.substring_char(0, k);
            assert(head@ == content@.take(k as int));
            proof {
                lemma_line_number(content@, k as int);
            }
            let m = FuzzyMatch {
                actual_text: target.to_owned(),
                start_index: byte_len(head),
                start_line: split_on(head, '\n').len(),
                confidence: Double::from_bits(ONE),
            };
            let r = MatchOutcome { matched: Some(m), ..empty };
            assert(r@ =~= found(content@, target@, allow_fuzzy, threshold_or_default(threshold)));
            r
        },
        None => {
            let limit = match threshold {
                Some(t) => t,
                None => Double::from_bits(DEFAULT_FUZZY_THRESHOLD),
            };
            let result = find_best_fuzzy_match(content, target, limit);
            let ghost s = text_survey(content@, target@, limit.bits);
            let ghost best = survey_match(lines_of(content@), lines_of(target@).len() as int, s);
            judge(result, allow_fuzzy, limit, Ghost(best), Ghost(s))
        },
    }
}

/// `content` with a match in it replaced by `new`.
pub open spec fn with_match_replaced(content: Seq<char>, m: MatchView, new: Seq<char>) -> Seq<char> {
    let a = fitting(content, m.index as int) as int;
    let rest = content.skip(a);
    content.take(a) + new + rest.skip(fitting(rest, bytes(m.text).len() as int) as int)
}

/// Replaces a match in `content`.
pub fn replace_match(content: &str, m: &FuzzyMatch, new: &str) -> (r: String)
    ensures
        r@ == with_match_replaced(content@, m@, new@),
{
    let before = prefix_within(content, m.start_index);
    let rest = content.substring_char(before.unicode_len(), content.unicode_len());
    assert(rest@ =~= content@.skip(before@.len() as int));
    let matched = prefix_within(rest, byte_len(m.actual_text.as_str()));
    let after = rest.substring_char(matched.unicode_len(), rest.unicode_len());
    assert(after@ =~= rest@.skip(matched@.len() as int));
    let mut r = before.to_owned();
    r.append(new);
    r.append(after);
    r
}

/// Strategy used by [`seek_sequence`] to find a match.
#[derive(Debug, Clone, Copy, PartialEq, Eq, Structural)]
pub enum SequenceMatchStrategy {
    /// The lines are equal.
    Exact,
    /// They are equal without trailing white space.
    TrimTrailing,
    /// They are equal when trimmed.
    Trim,
    /// They are equal without comment markers.
    CommentPrefix,
    /// They are equal with plain punctuation.
    Unicode,
    /// Each pattern line begins the line.
    Prefix,
    /// Each pattern line is a significant part of the line.
    Substring,
    /// They are similar.
    Fuzzy,
    /// They are similar, far more so than any others.
    FuzzyDominant,
    /// The joined texts match.
    Character,
}

/// The result of a search for lines, by its contents.
#[verifier::ext_equal]
pub ghost struct SearchView<S> {
    /// The line where the match begins, from zero.
    pub index: Option<int>,
    /// The bits of the score.
    pub confidence: u64,
    /// The number of matches.
    pub count: Option<nat>,
    /// Where the first of them are.
    pub indices: Seq<int>,
    /// What found it.
    pub strategy: Option<S>,
}

/// Result of a sequence search via [`seek_sequence`].
#[derive(Debug, Clone)]
pub struct SequenceSearchResult {
    /// Line index of the match (0-indexed into the `lines` slice).
    pub index: Option<usize>,
    /// Confidence score from zero to one.
    pub confidence: Double,
    /// Number of matches found (for ambiguity reporting).
    pub match_count: Option<usize>,
    /// Indices of up to 5 matches.
    pub match_indices: Vec<usize>,
    /// Which strategy produced the result.
    pub strategy: Option<SequenceMatchStrategy>,
}

impl View for SequenceSearchResult {
    type V = SearchView<SequenceMatchStrategy>;

    open spec fn view(&self) -> SearchView<SequenceMatchStrategy> {
        SearchView {
            index: opt_int(self.index),
            confidence: self.confidence.bits,
            count: opt_nat(self.match_count),
            indices: ints(self.match_indices@),
            strategy: self.strategy,
        }
    }
}

/// A rule by which a line agrees with a line of a pattern.
#[derive(Clone, Copy, PartialEq, Eq, Structural)]
pub enum LineRule {
    /// The lines are equal.
    Exact,
    /// They are equal without trailing white space.
    TrimTrailing,
    /// They are equal when trimmed.
    Trim,
    /// They are equal without comment markers.
    CommentPrefix,
    /// They are equal with plain punctuation.
    Unicode,
    /// The pattern begins the line.
    Prefix,
    /// The pattern is a significant part of the line.
    Substring,
    /// The pattern is a part of the line.
    Within,
}

/// Whether a line agrees with a line of a pattern.
pub open spec fn agrees(rule: LineRule, line: Seq<char>, pattern: Seq<char>) -> bool {
    match rule {
        LineRule::Exact => line == pattern,
        LineRule::TrimTrailing => trimmed_end(line) == trimmed_end(pattern),
        LineRule::Trim => trimmed(line) == trimmed(pattern),
        LineRule::CommentPrefix => uncommented(line) == uncommented(pattern),
        LineRule::Unicode => unicode_plain(line) == unicode_plain(pattern),
        LineRule::Prefix => line_begins(line, pattern),
        LineRule::Substring => line_agrees_in_part(line, pattern),
        LineRule::Within => occurs(fuzzy_form(line), fuzzy_form(pattern)),
    }
}

fn line_agrees(rule: LineRule, line: &str, pattern: &str) -> (r: bool)
    ensures
        r == agrees(rule, line@, pattern@),
{
    match rule {
        LineRule::Exact => same(line, pattern),
        LineRule::TrimTrailing => same(trim_end(line), trim_end(pattern)),
        LineRule::Trim => same(trim(line), trim(pattern)),
        LineRule::CommentPrefix => {
            let a = strip_comment_prefix(line);
            let b = strip_comment_prefix(pattern);
            same(a.as_str(), b.as_str())
        },
        LineRule::Unicode => {
            let a = normalize_unicode(line);
            let b = normalize_unicode(pattern);
            same(a.as_str(), b.as_str())
        },
        LineRule::Prefix => line_starts_with_pattern(line, pattern),
        LineRule::Substring => line_includes_pattern(line, pattern) || (normalize_for_fuzzy(
            line,
        ).as_str().is_empty() && normalize_for_fuzzy(pattern).as_str().is_empty()),
        LineRule::Within => {
            let a = normalize_for_fuzzy(line);
            let b = normalize_for_fuzzy(pattern);
            contains(a.as_str(), b.as_str())
        },
    }
}

/// Whether the lines from `i` on agree with the pattern.
pub open spec fn pattern_at(
    lines: Seq<Seq<char>>,
    pattern: Seq<Seq<char>>,
    rule: LineRule,
    i: int,
) -> bool {
    forall|j: int| 0 <= j < pattern.len() ==> agrees(rule, lines[i + j], #[trigger] pattern[j])
}

/// Checks if `pattern` agrees with `lines` from index `i` on.
fn matches_at(lines: &[&str], pattern: &[&str], rule: LineRule, i: usize) -> (r: bool)
    requires
        i + pattern@.len() <= lines@.len(),
    ensures
        r == pattern_at(views(lines@), views(pattern@), rule, i as int),
{
    let n: usize = lines.len();
    let mut j: usize = 0;
    while j < pattern.len()
        invariant
            n == lines@.len(),
            i + pattern@.len() <= lines@.len(),
            j <= pattern@.len(),
            forall|k: int|
                0 <= k < j ==> agrees(rule, views(lines@)[i + k], #[trigger] views(pattern@)[k]),
        decreases pattern@.len() - j,
    {
        if !line_agrees(rule, lines[i + j], pattern[j]) {
            assert(!agrees(rule, views(lines@)[i + j], views(pattern@)[j as int]));
            return false;
        }
        j = j + 1;
    }
    true
}

/// The places from `from` to `end`, the last not counted, where the lines agree
/// with the pattern.
pub open spec fn hits(
    lines: Seq<Seq<char>>,
    pattern: Seq<Seq<char>>,
    rule: LineRule,
    from: int,
    end: int,
) -> Seq<int>
    decreases end - from,
{
    if from >= end {
        Seq::empty()
    } else if pattern_at(lines, pattern, rule, from) {
        seq![from] + hits(lines, pattern, rule, from + 1, end)
    } else {
        hits(lines, pattern, rule, from + 1, end)
    }
}

/// The hits are the places in the range where the lines agree with the pattern,
/// in ascending order.
pub proof fn lemma_hits(
    lines: Seq<Seq<char>>,
    pattern: Seq<Seq<char>>,
    rule: LineRule,
    from: int,
    end: int,
)
    ensures
        ({
            let h = hits(lines, pattern, rule, from, end);
            &&& forall|k: int|
                0 <= k < h.len() ==> from <= #[trigger] h[k] < end && pattern_at(
                    lines,
                    pattern,
                    rule,
                    h[k],
                )
            &&& forall|k: int, m: int| 0 <= k < m < h.len() ==> h[k] < h[m]
            &&& forall|i: int|
                from <= i < end && #[trigger] pattern_at(lines, pattern, rule, i) ==> h.contains(i)
            &&& from <= end ==> h.len() <= end - from
        }),
    decreases end - from,
{
    if from < end {
        lemma_hits(lines, pattern, rule, from + 1, end);
        let h = hits(lines, pattern, rule, from, end);
        let t = hits(lines, pattern, rule, from + 1, end);
        assert forall|i: int|
            from <= i < end && #[trigger] pattern_at(lines, pattern, rule, i) implies h.contains(
            i,
        ) by {
            if i == from {
                assert(h[0] == i);
            } else {
                let k = choose|k: int| 0 <= k < t.len() && t[k] == i;
                if pattern_at(lines, pattern, rule, from) {
                    assert(h[k + 1] == i);
                } else {
                    assert(h[k] == i);
                }
            }
        }
    }
}

/// The first place where the lines agree with the pattern.
fn first_match(lines: &[&str], pattern: &[&str], rule: LineRule, from: usize, end: usize) -> (r:
    Option<usize>)
    requires
        from < end ==> end - 1 + pattern@.len() <= lines@.len(),
    ensures
        ({
            let h = hits(views(lines@), views(pattern@), rule, from as int, end as int);
            match r {
                Some(i) => h.len() > 0 && h[0] == i,
                None => h.len() == 0,
            }
        }),
{
    let mut i: usize = from;
    while i < end
        invariant
            from <= i,
            from < end ==> end - 1 + pattern@.len() <= lines@.len(),
            from < end ==> i <= end,
            hits(views(lines@), views(pattern@), rule, i as int, end as int) == hits(
                views(lines@),
                views(pattern@),
                rule,
                from as int,
                end as int,
            ),
        decreases end - i,
    {
        if matches_at(lines, pattern, rule, i) {
            return Some(i);
        }
        i = i + 1;
    }
    None
}

/// All places where the lines agree with the pattern.
fn all_matches(lines: &[&str], pattern: &[&str], rule: LineRule, from: usize, end: usize) -> (r:
    Vec<usize>)
    requires
        from < end ==> end - 1 + pattern@.len() <= lines@.len(),
    ensures
        ints(r@) == hits(views(lines@), views(pattern@), rule, from as int, end as int),
{
    let ghost all = hits(views(lines@), views(pattern@), rule, from as int, end as int);
    let mut out: Vec<usize> = Vec::new();
    let mut i: usize = from;
    assert(ints(out@) + all == all);
    while i < end
        invariant
            from <= i,
            from < end ==> end - 1 + pattern@.len() <= lines@.len(),
            from < end ==> i <= end,
            ints(out@) + hits(views(lines@), views(pattern@), rule, i as int, end as int) == all,
        decreases end - i,
    {
        let ghost rest = hits(views(lines@), views(pattern@), rule, i + 1, end as int);
        if matches_at(lines, pattern, rule, i) {
            let ghost out0 = out@;
            out.push(i);
            proof {
                assert(ints(out@) == ints(out0).push(i as int));
                assert(ints(out0) + (seq![i as int] + rest) == ints(out@) + rest);
            }
        }
        i = i + 1;
    }
    assert(ints(out@) + Seq::<int>::empty() == ints(out@));
    out
}

/// The rules of the passes, from the strictest to the weakest.
pub open spec fn pass_rule(k: int) -> LineRule {
    if k <= 0 {
        LineRule::Exact
    } else if k == 1 {
        LineRule::TrimTrailing
    } else if k == 2 {
        LineRule::Trim
    } else if k == 3 {
        LineRule::CommentPrefix
    } else if k == 4 {
        LineRule::Unicode
    } else if k == 5 {
        LineRule::Prefix
    } else {
        LineRule::Substring
    }
}

/// The score of a match that a pass finds: the bits of `1.0`, `0.99`, `0.98`,
/// `0.975`, `0.97`, `0.965` and `0.94`.
pub open spec fn pass_confidence(k: int) -> u64 {
    if k <= 0 {
        ONE
    } else if k == 1 {
        0x3FEF_AE14_7AE1_47AE
    } else if k == 2 {
        0x3FEF_5C28_F5C2_8F5C
    } else if k == 3 {
        0x3FEF_3333_3333_3333
    } else if k == 4 {
        0x3FEF_0A3D_70A3_D70A
    } else if k == 5 {
        0x3FEE_E147_AE14_7AE1
    } else {
        0x3FEE_147A_E147_AE14
    }
}

/// The strategy of a pass.
pub open spec fn pass_strategy(k: int) -> SequenceMatchStrategy {
    if k <= 0 {
        SequenceMatchStrategy::Exact
    } else if k == 1 {
        SequenceMatchStrategy::TrimTrailing
    } else if k == 2 {
        SequenceMatchStrategy::Trim
    } else if k == 3 {
        SequenceMatchStrategy::CommentPrefix
    } else if k == 4 {
        SequenceMatchStrategy::Unicode
    } else if k == 5 {
        SequenceMatchStrategy::Prefix
    } else {
        SequenceMatchStrategy::Substring
    }
}

/// What pass `k` finds. The passes from the prefix rule on also report how many
/// places agree.
pub open spec fn pass_result(
    lines: Seq<Seq<char>>,
    pattern: Seq<Seq<char>>,
    k: int,
    from: int,
    end: int,
) -> Option<SearchView<SequenceMatchStrategy>> {
    let h = hits(lines, pattern, pass_rule(k), from, end);
    if h.len() == 0 {
        None
    } else {
        Some(
            SearchView {
                index: Some(h[0]),
                confidence: pass_confidence(k),
                count: if k >= 5 {
                    Some(h.len())
                } else {
                    None
                },
                indices: if k >= 5 {
                    first_few(h)
                } else {
                    Seq::empty()
                },
                strategy: Some(pass_strategy(k)),
            },
        )
    }
}

/// What the first pass from `k` on that finds anything finds; the weak passes
/// are tried only if `allow_fuzzy`.
pub open spec fn passes_from(
    lines: Seq<Seq<char>>,
    pattern: Seq<Seq<char>>,
    from: int,
    end: int,
    allow_fuzzy: bool,
    k: int,
) -> Option<SearchView<SequenceMatchStrategy>>
    decreases 7 - k,
{
    if k >= 7 || (k >= 5 && !allow_fuzzy) {
        None
    } else {
        match pass_result(lines, pattern, k, from, end) {
            Some(r) => Some(r),
            None => passes_from(lines, pattern, from, end, allow_fuzzy, k + 1),
        }
    }
}

/// The view of an optional result.
pub open spec fn opt_search(r: Option<SequenceSearchResult>) -> Option<
    SearchView<SequenceMatchStrategy>,
> {
    match r {
        Some(x) => Some(x@),
        None => None,
    }
}

/// The first few of a list of places.
fn keep_few(v: &Vec<usize>) -> (r: Vec<usize>)
    ensures
        ints(r@) == first_few(ints(v@)),
{
    let mut r: Vec<usize> = Vec::new();
    let mut i: usize = 0;
    while i < v.len() && i < MAX_TRACKED_INDICES
        invariant
            i <= v@.len(),
            i <= MAX_TRACKED_INDICES,
            r@ == v@.take(i as int),
        decreases v@.len() - i,
    {
        r.push(v[i]);
        i = i + 1;
    }
    assert(ints(r@) =~= first_few(ints(v@)));
    r
}

/// Runs the deterministic passes over the places from `from` to `end`, the last
/// not counted.
///
/// Returns `None` if no pass matched.
fn run_exact_passes(
    lines: &[&str],
    pattern: &[&str],
    from: usize,
    end: usize,
    allow_fuzzy: bool,
) -> (r: Option<SequenceSearchResult>)
    requires
        from < end ==> end - 1 + pattern@.len() <= lines@.len(),
    ensures
        opt_search(r) == passes_from(
            views(lines@),
            views(pattern@),
            from as int,
            end as int,
            allow_fuzzy,
            0,
        ),
        r matches Some(x) ==> x.confidence.bits <= ONE,
{
    let ghost l = views(lines@);
    let ghost p = views(pattern@);
    let mut k: usize = 0;
    while k < 7 && (k < 5 || allow_fuzzy)
        invariant
            k <= 7,
            k > 5 ==> allow_fuzzy,
            l == views(lines@),
            p == views(pattern@),
            from < end ==> end - 1 + pattern@.len() <= lines@.len(),
            passes_from(l, p, from as int, end as int, allow_fuzzy, k as int) == passes_from(
                l,
                p,
                from as int,
                end as int,
                allow_fuzzy,
                0,
            ),
        decreases 7 - k,
    {
        let (rule, confidence, strategy): (LineRule, u64, SequenceMatchStrategy) = if k == 0 {
            (LineRule::Exact, ONE, SequenceMatchStrategy::Exact)
        } else if k == 1 {
            (LineRule::TrimTrailing, 0x3FEF_AE14_7AE1_47AE, SequenceMatchStrategy::TrimTrailing)
        } else if k == 2 {
            (LineRule::Trim, 0x3FEF_5C28_F5C2_8F5C, SequenceMatchStrategy::Trim)
        } else if k == 3 {
            (LineRule::CommentPrefix, 0x3FEF_3333_3333_3333, SequenceMatchStrategy::CommentPrefix)
        } else if k == 4 {
            (LineRule::Unicode, 0x3FEF_0A3D_70A3_D70A, SequenceMatchStrategy::Unicode)
        } else if k == 5 {
            (LineRule::Prefix, 0x3FEE_E147_AE14_7AE1, SequenceMatchStrategy::Prefix)
        } else {
            (LineRule::Substring, 0x3FEE_147A_E147_AE14, SequenceMatchStrategy::Substring)
        };
        let ghost h = hits(l, p, pass_rule(k as int), from as int, end as int);
        if k < 5 {
            match first_match(lines, pattern, rule, from, end) {
                Some(i) => {
                    let r = SequenceSearchResult {
                        index: Some(i),
                        confidence: Double::from_bits(confidence),
                        match_count: None,
                        match_indices: Vec::new(),
                        strategy: Some(strategy),
                    };
                    assert(r@ =~= pass_result(l, p, k as int, from as int, end as int)->0);
                    return Some(r);
                },
                None => {},
            }
        } else {
            let found = all_matches(lines, pattern, rule, from, end);
            assert(ints(found@).len() == found@.len());
            if found.len() > 0 {
                assert(ints(found@)[0] == found@[0]);
                let r = SequenceSearchResult {
                    index: Some(found[0]),
                    confidence: Double::from_bits(confidence),
                    match_count: Some(found.len()),
                    match_indices: keep_few(&found),
                    strategy: Some(strategy),
                };
                assert(r@ =~= pass_result(l, p, k as int, from as int, end as int)->0);
                return Some(r);
            }
        }
        k = k + 1;
    }
    None
}

/// The lines in the form in which they are compared.
pub open spec fn fuzzy_forms(lines: Seq<Seq<char>>) -> Seq<Seq<char>> {
    Seq::new(lines.len(), |i: int| fuzzy_form(lines[i]))
}

/// The mean similarity of the pattern and the lines from `i` on.
pub open spec fn sequence_score(lines: Seq<Seq<char>>, pattern: Seq<Seq<char>>, i: int) -> u64 {
    mean_likeness(
        fuzzy_forms(window(lines, i, pattern.len() as int)),
        fuzzy_forms(pattern),
    )
}

fn normalize_each(lines: &[&str]) -> (r: Vec<String>)
    ensures
        views(r@) == fuzzy_forms(views(lines@)),
        r@.len() == lines@.len(),
{
    let mut out: Vec<String> = Vec::new();
    let mut i: usize = 0;
    while i < lines.len()
        invariant
            i <= lines@.len(),
            out@.len() == i,
            forall|k: int| 0 <= k < i ==> (#[trigger] out@[k])@ == fuzzy_form(lines@[k]@),
        decreases lines@.len() - i,
    {
        out.push(normalize_for_fuzzy(lines[i]));
        i = i + 1;
    }
    assert(views(out@) =~= fuzzy_forms(views(lines@)));
    out
}

/// Where the search begins: at the last place for the end of a file.
pub open spec fn search_start(len: int, n: int, start: int, eof: bool) -> int {
    if eof {
        len - n
    } else {
        start
    }
}

/// The places that are scored, in the order in which they are scored: from the
/// place where the search begins to the last, and then, for the end of a file,
/// from `start` on.
pub open spec fn scored_places(len: int, n: int, start: int, eof: bool) -> Seq<int> {
    let s = search_start(len, n, start, eof);
    range(s, len - n + 1) + if eof && s > start {
        range(start, s)
    } else {
        Seq::empty()
    }
}

/// The scores at `at`.
pub open spec fn sequence_scores(
    lines: Seq<Seq<char>>,
    pattern: Seq<Seq<char>>,
    at: Seq<int>,
) -> Seq<u64> {
    Seq::new(at.len(), |i: int| sequence_score(lines, pattern, at[i]))
}

/// The survey of the places where a pattern may stand.
pub open spec fn sequence_survey(
    lines: Seq<Seq<char>>,
    pattern: Seq<Seq<char>>,
    start: int,
    eof: bool,
) -> Survey {
    let at = scored_places(lines.len() as int, pattern.len() as int, start, eof);
    survey(at, sequence_scores(lines, pattern, at), 0, SEQUENCE_FUZZY_THRESHOLD)
}

/// Scores the places where `pattern` may stand.
#[verifier::spinoff_prover]
#[verifier::rlimit(40)]
fn survey_places(lines: &[&str], pattern: &[&str], start: usize, eof: bool) -> (r: Standing)
    requires
        0 < pattern@.len() <= lines@.len(),
    ensures
        r.shows(sequence_survey(views(lines@), views(pattern@), start as int, eof)),
        r.score.bits <= ONE,
        r.second.bits <= r.score.bits,
        r.best matches Some(b) ==> b + pattern@.len() <= lines@.len(),
{
    let ghost l = views(lines@);
    let ghost p = views(pattern@);
    let len: usize = lines.len();
    let n: usize = pattern.len();
    let begin: usize = if eof {
        len - n
    } else {
        start
    };
    let m: usize = if begin <= len - n {
        len - n - begin + 1
    } else {
        0
    };
    let more: usize = if eof && begin > start {
        begin - start
    } else {
        0
    };
    let ghost at = scored_places(len as int, n as int, start as int, eof);
    let ghost scores = sequence_scores(l, p, at);
    proof {
        assert(at.len() == m + more);
    }
    let line_forms = normalize_each(lines);
    let pattern_forms = normalize_each(pattern);
    let threshold = Double::from_bits(SEQUENCE_FUZZY_THRESHOLD);
    let mut standing = Standing::start(0);
    let mut i: usize = 0;
    assert(at.take(0).len() == 0 && scores.take(0).len() == 0);
    while i < m + more
        invariant
            l == views(lines@),
            p == views(pattern@),
            len == lines@.len(),
            n == pattern@.len(),
            0 < n <= len,
            begin == search_start(len as int, n as int, start as int, eof),
            m == max(len - n + 1 - begin, 0),
            more == (if eof && begin > start {
                begin - start
            } else {
                0
            }),
            m + more <= usize::MAX,
            at == scored_places(len as int, n as int, start as int, eof),
            at.len() == m + more,
            scores == sequence_scores(l, p, at),
            views(line_forms@) == fuzzy_forms(l),
            line_forms@.len() == len,
            views(pattern_forms@) == fuzzy_forms(p),
            pattern_forms@.len() == n,
            threshold.bits == SEQUENCE_FUZZY_THRESHOLD,
            i <= m + more,
            standing.count <= i,
            standing.shows(survey(at.take(i as int), scores.take(i as int), 0, threshold.bits)),
            forall|k: int| 0 <= k < i ==> #[trigger] scores[k] <= ONE,
        decreases m + more - i,
    {
        let at_i: usize = if i < m {
            begin + i
        } else {
            start + (i - m)
        };
        assert(at[i as int] == at_i);
        let part = vstd::slice::slice_subrange(line_forms.as_slice(), at_i, at_i + n);
        proof {
            assert(views(part@) =~= fuzzy_forms(window(l, at_i as int, n as int))) by {
                assert forall|k: int| 0 <= k < n implies views(part@)[k] == fuzzy_forms(
                    window(l, at_i as int, n as int),
                )[k] by {
                    assert(part@[k] == line_forms@[at_i + k]);
                    assert(views(line_forms@)[at_i + k] == fuzzy_forms(l)[at_i + k]);
                }
            }
        }
        let x = mean_similarity(part, pattern_forms.as_slice());
        proof {
            assert(x.bits == scores[i as int]);
            assert(at.take(i + 1).drop_last() == at.take(i as int));
            assert(scores.take(i + 1).drop_last() == scores.take(i as int));
        }
        standing = standing.consider(
            at_i,
            x,
            threshold,
            Ghost(survey(at.take(i as int), scores.take(i as int), 0, threshold.bits)),
        );
        i = i + 1;
    }
    proof {
        assert(at.take(i as int) == at);
        assert(scores.take(i as int) == scores);
        lemma_survey(at, scores, 0, threshold.bits);
        let s = survey(at, scores, 0, threshold.bits);
        if s.best is Some {
            let k = choose|k: int|
                0 <= k < at.len() && #[trigger] at[k] == s.best->0 && scores[k] == s.score;
            assert(at[k] <= len - n);
        }
    }
    standing
}

/// The result of a search that found nothing.
pub open spec fn missed<S>(confidence: u64) -> SearchView<S> {
    SearchView {
        index: None,
        confidence,
        count: None,
        indices: Seq::empty(),
        strategy: None,
    }
}

/// The result for an empty pattern.
pub open spec fn immediate(start: int) -> SearchView<SequenceMatchStrategy> {
    SearchView {
        index: Some(start),
        confidence: ONE,
        count: None,
        indices: Seq::empty(),
        strategy: Some(SequenceMatchStrategy::Exact),
    }
}

/// The lines from `start` on.
pub open spec fn tail(lines: Seq<Seq<char>>, start: int) -> Seq<Seq<char>> {
    if start <= lines.len() {
        lines.skip(start)
    } else {
        Seq::empty()
    }
}

/// The number of matches that an outcome reports.
pub open spec fn reported_count(o: OutcomeView) -> Option<nat> {
    match o.occurrences {
        Some(n) => Some(n),
        None => o.fuzzy_matches,
    }
}

/// What the search for the joined pattern in the joined lines finds.
pub open spec fn character_result(
    start: int,
    o: OutcomeView,
    score: u64,
) -> SearchView<SequenceMatchStrategy> {
    match o.matched {
        Some(m) => SearchView {
            index: Some(min(start + m.line - 1, usize::MAX as int)),
            confidence: m.confidence,
            count: Some(
                match reported_count(o) {
                    Some(n) => n,
                    None => 1,
                },
            ),
            indices: Seq::empty(),
            strategy: Some(SequenceMatchStrategy::Character),
        },
        None => SearchView {
            index: None,
            confidence: score,
            count: reported_count(o),
            indices: Seq::empty(),
            strategy: None,
        },
    }
}

/// What the similarity search finds.
pub open spec fn similar_result(
    lines: Seq<Seq<char>>,
    pattern: Seq<Seq<char>>,
    start: int,
    eof: bool,
) -> SearchView<SequenceMatchStrategy> {
    let s = sequence_survey(lines, pattern, start, eof);
    if s.best is Some && at_least(s.score, SEQUENCE_FUZZY_THRESHOLD) {
        let dominant = s.above.len() > 1 && dominates(s.score, s.second);
        SearchView {
            index: s.best,
            confidence: s.score,
            count: Some(
                if dominant {
                    1
                } else {
                    s.above.len()
                },
            ),
            indices: first_few(s.above),
            strategy: Some(
                if dominant {
                    SequenceMatchStrategy::FuzzyDominant
                } else {
                    SequenceMatchStrategy::Fuzzy
                },
            ),
        }
    } else {
        character_result(
            start,
            found(
                joined(tail(lines, start), "\n"@),
                joined(pattern, "\n"@),
                true,
                CHARACTER_MATCH_THRESHOLD,
            ),
            s.score,
        )
    }
}

/// Where a sequence of lines is found.
#[verifier::opaque]
pub open spec fn sought(
    lines: Seq<Seq<char>>,
    pattern: Seq<Seq<char>>,
    start: int,
    eof: bool,
    allow_fuzzy: bool,
) -> SearchView<SequenceMatchStrategy> {
    let end = lines.len() - pattern.len() + 1;
    let begin = search_start(lines.len() as int, pattern.len() as int, start, eof);
    let first = passes_from(lines, pattern, begin, end, allow_fuzzy, 0);
    let again = passes_from(lines, pattern, start, end, allow_fuzzy, 0);
    if pattern.len() == 0 {
        immediate(start)
    } else if pattern.len() > lines.len() {
        missed(0)
    } else if first is Some {
        first->0
    } else if eof && begin > start && again is Some {
        again->0
    } else if !allow_fuzzy {
        missed(0)
    } else {
        similar_result(lines, pattern, start, eof)
    }
}

fn sequence_missed(confidence: Double) -> (r: SequenceSearchResult)
    ensures
        r@ == missed::<SequenceMatchStrategy>(confidence.bits),
{
    let r = SequenceSearchResult {
        index: None,
        confidence,
        match_count: None,
        match_indices: Vec::new(),
        strategy: None,
    };
    assert(r@ =~= missed::<SequenceMatchStrategy>(confidence.bits));
    r
}

fn sequence_immediate(start: usize) -> (r: SequenceSearchResult)
    ensures
        r@ == immediate(start as int),
{
    let r = SequenceSearchResult {
        index: Some(start),
        confidence: Double::from_bits(ONE),
        match_count: None,
        match_indices: Vec::new(),
        strategy: Some(SequenceMatchStrategy::Exact),
    };
    assert(r@ =~= immediate(start as int));
    r
}

/// Scores the places where `pattern` may stand, and falls back to a search for
/// the joined pattern in the joined lines.
fn seek_similar(lines: &[&str], pattern: &[&str], start: usize, eof: bool) -> (r:
    SequenceSearchResult)
    requires
        0 < pattern@.len() <= lines@.len(),
    ensures
        r@ == similar_result(views(lines@), views(pattern@), start as int, eof),
        r.confidence.bits <= ONE,
{
    let ghost l = views(lines@);
    let ghost p = views(pattern@);
    let s = survey_places(lines, pattern, start, eof);
    match s.best {
        Some(b) => {
            if s.score.ge(Double::from_bits(SEQUENCE_FUZZY_THRESHOLD)) {
                if s.count > 1 && s.score.ge(Double::from_bits(DOMINANT_MIN)) && s.score.minus(
                    s.second,
                ).ge(Double::from_bits(DOMINANT_DELTA)) {
                    let r = SequenceSearchResult {
                        index: Some(b),
                        confidence: s.score,
                        match_count: Some(1),
                        match_indices: s.few,
                        strategy: Some(SequenceMatchStrategy::FuzzyDominant),
                    };
                    assert(r@ =~= similar_result(l, p, start as int, eof));
                    return r;
                }
                let r = SequenceSearchResult {
                    index: Some(b),
                    confidence: s.score,
                    match_count: Some(s.count),
                    match_indices: s.few,
                    strategy: Some(SequenceMatchStrategy::Fuzzy),
                };
                assert(r@ =~= similar_result(l, p, start as int, eof));
                return r;
            }
        },
        None => {},
    }
    let pattern_text = join_refs(pattern, "\n");
    let content_text = if start <= lines.len() {
        let part = vstd::slice::slice_subrange(lines, start, lines.len());
        assert(views(part@) == l.skip(start as int));
        join_refs(part, "\n")
    } else {
        assert(joined(Seq::<Seq<char>>::empty(), "\n"@) == Seq::<char>::empty());
        String::new()
    };
    assert(content_text@ == joined(tail(l, start as int), "\n"@));
    let outcome = find_match(
        content_text.as_str(),
        pattern_text.as_str(),
        true,
        Some(Double::from_bits(CHARACTER_MATCH_THRESHOLD)),
    );
    let count: Option<usize> = match outcome.occurrences {
        Some(n) => Some(n),
        None => outcome.fuzzy_matches,
    };
    match outcome.matched {
        Some(m) => {
            let index: usize = start.saturating_add(m.start_line - 1);
            let r = SequenceSearchResult {
                index: Some(index),
                confidence: m.confidence,
                match_count: Some(
                    match count {
                        Some(n) => n,
                        None => 1,
                    },
                ),
                match_indices: Vec::new(),
                strategy: Some(SequenceMatchStrategy::Character),
            };
            assert(r@ =~= similar_result(l, p, start as int, eof));
            r
        },
        None => {
            let r = SequenceSearchResult {
                index: None,
                confidence: s.score,
                match_count: count,
                match_indices: Vec::new(),
                strategy: None,
            };
            assert(r@ =~= similar_result(l, p, start as int, eof));
            r
        },
    }
}

/// Finds a sequence of `pattern` lines within `lines`.
///
/// Attempts matches with decreasing strictness:
/// 1. Exact match
/// 2. Trailing whitespace ignored
/// 3. All whitespace trimmed
/// 4. Comment prefix normalized
/// 5. Unicode punctuation normalized
/// 6. Prefix match (pattern is prefix of line)
/// 7. Substring match (pattern is significant substring)
/// 8. Fuzzy similarity match
/// 9. Character-based fallback via [`find_match`]
///
/// When `eof` is true, the search prefers matches near the end of the file.
/// Nothing stands beyond the last line: a `start` beyond it leaves no line for
/// the character-based fallback.
pub fn seek_sequence(
    lines: &[&str],
    pattern: &[&str],
    start: usize,
    eof: bool,
    allow_fuzzy: bool,
) -> (r: SequenceSearchResult)
    ensures
        r@ == sought(views(lines@), views(pattern@), start as int, eof, allow_fuzzy),
        r.confidence.bits <= ONE,
{
    proof {
        reveal(sought);
    }
    let ghost l = views(lines@);
    let ghost p = views(pattern@);
    if pattern.len() == 0 {
        return sequence_immediate(start);
    }
    if pattern.len() > lines.len() {
        return sequence_missed(Double::from_bits(0));
    }
    let last: usize = lines.len() - pattern.len();
    let begin: usize = if eof {
        last
    } else {
        start
    };
    match run_exact_passes(lines, pattern, begin, last + 1, allow_fuzzy) {
        Some(r) => {
            return r;
        },
        None => {},
    }
    if eof && begin > start {
        match run_exact_passes(lines, pattern, start, last + 1, allow_fuzzy) {
            Some(r) => {
                return r;
            },
            None => {},
        }
    }
    if !allow_fuzzy {
        return sequence_missed(Double::from_bits(0));
    }
    seek_similar(lines, pattern, start, eof)
}

/// Where the most similar sequence of lines stands.
#[verifier::opaque]
pub open spec fn closest_sequence(
    lines: Seq<Seq<char>>,
    pattern: Seq<Seq<char>>,
    start: int,
    eof: bool,
) -> SearchView<SequenceMatchStrategy> {
    if pattern.len() == 0 {
        immediate(start)
    } else {
        let s = if pattern.len() > lines.len() {
            no_survey(0)
        } else {
            sequence_survey(lines, pattern, start, eof)
        };
        SearchView {
            index: s.best,
            confidence: s.score,
            count: None,
            indices: Seq::empty(),
            strategy: Some(SequenceMatchStrategy::Fuzzy),
        }
    }
}

/// The start that holds where none is given.
pub open spec fn start_or_zero(start: Option<usize>) -> int {
    match start {
        Some(n) => n as int,
        None => 0,
    }
}

/// Finds the closest match for `pattern` in `lines`, ignoring ambiguity.
///
/// Always goes by similarity. Returns the single best-scoring position.
pub fn find_closest_sequence_match(
    lines: &[&str],
    pattern: &[&str],
    start: Option<usize>,
    eof: bool,
) -> (r: SequenceSearchResult)
    ensures
        r@ == closest_sequence(views(lines@), views(pattern@), start_or_zero(start), eof),
        r.confidence.bits <= ONE,
        pattern@.len() > 0 ==> (r.index matches Some(i) ==> i + pattern@.len() <= lines@.len()),
{
    proof {
        reveal(closest_sequence);
    }
    let start: usize = match start {
        Some(n) => n,
        None => 0,
    };
    if pattern.len() == 0 {
        return sequence_immediate(start);
    }
    let (index, score): (Option<usize>, Double) = if pattern.len() > lines.len() {
        (None, Double::from_bits(0))
    } else {
        let s = survey_places(lines, pattern, start, eof);
        (s.best, s.score)
    };
    let r = SequenceSearchResult {
        index,
        confidence: score,
        match_count: None,
        match_indices: Vec::new(),
        strategy: Some(SequenceMatchStrategy::Fuzzy),
    };
    assert(r@ =~= closest_sequence(views(lines@), views(pattern@), start as int, eof));
    r
}

/// Strategy used by [`find_context_line`].
#[derive(Debug, Clone, Copy, PartialEq, Eq, Structural)]
pub enum ContextMatchStrategy {
    /// The line is equal.
    Exact,
    /// It is equal when trimmed.
    Trim,
    /// It is equal with plain punctuation.
    Unicode,
    /// The context begins the line.
    Prefix,
    /// The context is a part of the line.
    Substring,
    /// The line is similar.
    Fuzzy,
}

/// Result of a single-line context search via [`find_context_line`].
#[derive(Debug, Clone)]
pub struct ContextLineResult {
    /// Line index of the match (0-indexed).
    pub index: Option<usize>,
    /// Confidence score from zero to one.
    pub confidence: Double,
    /// Number of matches found.
    pub match_count: Option<usize>,
    /// Indices of up to 5 matches.
    pub match_indices: Vec<usize>,
    /// Which strategy produced the result.
    pub strategy: Option<ContextMatchStrategy>,
}

impl View for ContextLineResult {
    type V = SearchView<ContextMatchStrategy>;

    open spec fn view(&self) -> SearchView<ContextMatchStrategy> {
        SearchView {
            index: opt_int(self.index),
            confidence: self.confidence.bits,
            count: opt_nat(self.match_count),
            indices: ints(self.match_indices@),
            strategy: self.strategy,
        }
    }
}

/// The lines from `start` on that agree with `context`.
pub open spec fn line_hits(
    lines: Seq<Seq<char>>,
    context: Seq<char>,
    rule: LineRule,
    start: int,
) -> Seq<int> {
    hits(lines, seq![context], rule, start, lines.len() as int)
}

/// A result that reports `h`.
pub open spec fn reported(
    h: Seq<int>,
    confidence: u64,
    strategy: ContextMatchStrategy,
) -> SearchView<ContextMatchStrategy> {
    SearchView {
        index: Some(h[0]),
        confidence,
        count: Some(h.len()),
        indices: first_few(h),
        strategy: Some(strategy),
    }
}

/// The score of a line that is equal when trimmed: the bits of `0.99`.
pub const CONTEXT_TRIM: u64 = 0x3FEF_AE14_7AE1_47AE;

/// The score of a line that is equal with plain punctuation: the bits of `0.98`.
pub const CONTEXT_UNICODE: u64 = 0x3FEF_5C28_F5C2_8F5C;

/// The score of a line that the context begins: the bits of `0.96`.
pub const CONTEXT_PREFIX: u64 = 0x3FEE_B851_EB85_1EB8;

/// The score of a line that the context is a part of: the bits of `0.94`.
pub const CONTEXT_SUBSTRING: u64 = 0x3FEE_147A_E147_AE14;

/// What the strict rules find: equal, equal when trimmed, or equal with plain
/// punctuation.
pub open spec fn strict_context(lines: Seq<Seq<char>>, context: Seq<char>, start: int) -> Option<
    SearchView<ContextMatchStrategy>,
> {
    let exact = line_hits(lines, context, LineRule::Exact, start);
    let trim = line_hits(lines, context, LineRule::Trim, start);
    let unicode = line_hits(lines, context, LineRule::Unicode, start);
    if exact.len() > 0 {
        Some(reported(exact, ONE, ContextMatchStrategy::Exact))
    } else if trim.len() > 0 {
        Some(reported(trim, CONTEXT_TRIM, ContextMatchStrategy::Trim))
    } else if unicode.len() > 0 {
        Some(reported(unicode, CONTEXT_UNICODE, ContextMatchStrategy::Unicode))
    } else {
        None
    }
}

/// What the rules on parts of a line find. Of several lines that the context is
/// a part of, those of which it is a significant part come first.
pub open spec fn partial_context(lines: Seq<Seq<char>>, context: Seq<char>, start: int) -> Option<
    SearchView<ContextMatchStrategy>,
> {
    let prefix = line_hits(lines, context, LineRule::Prefix, start);
    let within = line_hits(lines, context, LineRule::Within, start);
    let strong = line_hits(lines, context, LineRule::Substring, start);
    if fuzzy_form(context).len() > 0 && prefix.len() > 0 {
        Some(reported(prefix, CONTEXT_PREFIX, ContextMatchStrategy::Prefix))
    } else if bytes(fuzzy_form(context)).len() >= PARTIAL_MATCH_MIN_LENGTH && within.len() > 0 {
        let h = if within.len() > 1 && strong.len() > 0 {
            strong
        } else {
            within
        };
        Some(
            SearchView {
                indices: first_few(within),
                ..reported(h, CONTEXT_SUBSTRING, ContextMatchStrategy::Substring)
            },
        )
    } else {
        None
    }
}

/// The scores of the lines from `start` on against the context.
pub open spec fn context_scores(lines: Seq<Seq<char>>, context: Seq<char>, start: int) -> Seq<u64> {
    let at = range(start, lines.len() as int);
    Seq::new(at.len(), |i: int| likeness(fuzzy_form(lines[at[i]]), fuzzy_form(context)))
}

/// The survey of the lines from `start` on.
pub open spec fn context_survey(lines: Seq<Seq<char>>, context: Seq<char>, start: int) -> Survey {
    survey(
        range(start, lines.len() as int),
        context_scores(lines, context, start),
        0,
        CONTEXT_FUZZY_THRESHOLD,
    )
}

/// `s` without `p` at its end, as often as it stands there.
pub open spec fn without_suffixes(s: Seq<char>, p: Seq<char>) -> Seq<char>
    decreases s.len(),
{
    if p.len() > 0 && ends(s, p) {
        without_suffixes(s.take(s.len() - p.len()), p)
    } else {
        s
    }
}

/// The name of a function, from a context that ends in `()`.
pub open spec fn call_base(context: Seq<char>) -> Seq<char> {
    trimmed_end(without_suffixes(trimmed(context), "()"@))
}

/// Where a context line is found. With `retry`, a context that ends in `()` is
/// looked for again with `(` in place of it, and without.
#[verifier::opaque]
pub open spec fn context_found(
    lines: Seq<Seq<char>>,
    context: Seq<char>,
    start: int,
    allow_fuzzy: bool,
    retry: bool,
) -> SearchView<ContextMatchStrategy>
    decreases (if retry { 1int } else { 0int }),
{
    let strict = strict_context(lines, context, start);
    let partial = partial_context(lines, context, start);
    let s = context_survey(lines, context, start);
    if strict is Some {
        strict->0
    } else if !allow_fuzzy {
        missed(0)
    } else if partial is Some {
        partial->0
    } else if s.best is Some && at_least(s.score, CONTEXT_FUZZY_THRESHOLD) {
        SearchView {
            index: s.best,
            confidence: s.score,
            count: Some(s.above.len()),
            indices: first_few(s.above),
            strategy: Some(ContextMatchStrategy::Fuzzy),
        }
    } else if retry && ends(trimmed(context), "()"@) {
        let open = context_found(lines, call_base(context) + "("@, start, allow_fuzzy, false);
        if open.index is Some || (open.count matches Some(n) && n > 0) {
            open
        } else {
            context_found(lines, call_base(context), start, allow_fuzzy, false)
        }
    } else {
        missed(s.score)
    }
}

/// The lines from `start` on that agree with `context`.
fn agreeing_lines(lines: &[&str], context: &str, rule: LineRule, start: usize) -> (r: Vec<usize>)
    ensures
        ints(r@) == line_hits(views(lines@), context@, rule, start as int),
        r@.len() == ints(r@).len(),
        r@.len() > 0 ==> r@[0] == ints(r@)[0],
        r@.len() > 0 ==> r@[0] < lines@.len(),
{
    let pattern: Vec<&str> = vec![context];
    assert(views(pattern@) =~= seq![context@]);
    let n: usize = lines.len();
    let r = all_matches(lines, &pattern, rule, start, n);
    proof {
        lemma_hits(views(lines@), seq![context@], rule, start as int, n as int);
        if r@.len() > 0 {
            assert(r@[0] == line_hits(views(lines@), context@, rule, start as int)[0]);
        }
    }
    r
}

fn report(v: &Vec<usize>, confidence: u64, strategy: ContextMatchStrategy) -> (r:
    ContextLineResult)
    requires
        v@.len() > 0,
    ensures
        r@ == reported(ints(v@), confidence, strategy),
        r.index == Some(v@[0]),
{
    let r = ContextLineResult {
        index: Some(v[0]),
        confidence: Double::from_bits(confidence),
        match_count: Some(v.len()),
        match_indices: keep_few(v),
        strategy: Some(strategy),
    };
    assert(r@ =~= reported(ints(v@), confidence, strategy));
    r
}

/// The view of an optional result.
pub open spec fn opt_context(r: Option<ContextLineResult>) -> Option<
    SearchView<ContextMatchStrategy>,
> {
    match r {
        Some(x) => Some(x@),
        None => None,
    }
}

fn find_strict_context(lines: &[&str], context: &str, start: usize) -> (r: Option<
    ContextLineResult,
>)
    ensures
        opt_context(r) == strict_context(views(lines@), context@, start as int),
        r matches Some(x) ==> x.confidence.bits <= ONE && (x.index matches Some(i) ==> i
            < lines@.len()),
{
    let exact = agreeing_lines(lines, context, LineRule::Exact, start);
    if exact.len() > 0 {
        return Some(report(&exact, ONE, ContextMatchStrategy::Exact));
    }
    let trim = agreeing_lines(lines, context, LineRule::Trim, start);
    if trim.len() > 0 {
        return Some(report(&trim, CONTEXT_TRIM, ContextMatchStrategy::Trim));
    }
    let unicode = agreeing_lines(lines, context, LineRule::Unicode, start);
    if unicode.len() > 0 {
        return Some(report(&unicode, CONTEXT_UNICODE, ContextMatchStrategy::Unicode));
    }
    None
}

fn find_partial_context(lines: &[&str], context: &str, start: usize) -> (r: Option<
    ContextLineResult,
>)
    ensures
        opt_context(r) == partial_context(views(lines@), context@, start as int),
        r matches Some(x) ==> x.confidence.bits <= ONE && (x.index matches Some(i) ==> i
            < lines@.len()),
{
    let form = normalize_for_fuzzy(context);
    if !form.as_str().is_empty() {
        let prefix = agreeing_lines(lines, context, LineRule::Prefix, start);
        if prefix.len() > 0 {
            return Some(report(&prefix, CONTEXT_PREFIX, ContextMatchStrategy::Prefix));
        }
    }
    if byte_len(form.as_str()) >= PARTIAL_MATCH_MIN_LENGTH {
        let within = agreeing_lines(lines, context, LineRule::Within, start);
        if within.len() > 0 {
            let few = keep_few(&within);
            let strong = agreeing_lines(lines, context, LineRule::Substring, start);
            let base = if within.len() > 1 && strong.len() > 0 {
                report(&strong, CONTEXT_SUBSTRING, ContextMatchStrategy::Substring)
            } else {
                report(&within, CONTEXT_SUBSTRING, ContextMatchStrategy::Substring)
            };
            let ghost b = base@;
            let r = ContextLineResult { match_indices: few, ..base };
            assert(r@ =~= (SearchView { indices: ints(few@), ..b }));
            return Some(r);
        }
    }
    None
}

fn survey_context(lines: &[&str], context: &str, start: usize) -> (r: Standing)
    ensures
        r.shows(context_survey(views(lines@), context@, start as int)),
        r.score.bits <= ONE,
        r.best matches Some(i) ==> i < lines@.len(),
{
    let ghost l = views(lines@);
    let ghost at = range(start as int, l.len() as int);
    let ghost scores = context_scores(l, context@, start as int);
    let form = normalize_for_fuzzy(context);
    let threshold = Double::from_bits(CONTEXT_FUZZY_THRESHOLD);
    let mut standing = Standing::start(0);
    let mut i: usize = start;
    assert(at.take(0).len() == 0 && scores.take(0).len() == 0);
    while i < lines.len()
        invariant
            l == views(lines@),
            at == range(start as int, l.len() as int),
            scores == context_scores(l, context@, start as int),
            form@ == fuzzy_form(context@),
            threshold.bits == CONTEXT_FUZZY_THRESHOLD,
            start <= i,
            start <= lines@.len() ==> i <= lines@.len(),
            i - start <= at.len(),
            standing.count <= i - start,
            standing.shows(survey(at.take(i - start), scores.take(i - start), 0, threshold.bits)),
            forall|k: int| 0 <= k < i - start ==> #[trigger] scores[k] <= ONE,
        decreases lines@.len() - i,
    {
        let line = normalize_for_fuzzy(lines[i]);
        let x = similarity(line.as_str(), form.as_str());
        proof {
            let k = i - start;
            assert(at[k] == i);
            assert(l[i as int] == lines@[i as int]@);
            assert(x.bits == scores[k]);
            assert(at.take(k + 1).drop_last() == at.take(k));
            assert(scores.take(k + 1).drop_last() == scores.take(k));
        }
        standing = standing.consider(
            i,
            x,
            threshold,
            Ghost(survey(at.take(i - start), scores.take(i - start), 0, threshold.bits)),
        );
        i = i + 1;
    }
    proof {
        assert(at.take(i - start) =~= at);
        assert(scores.take(i - start) =~= scores);
        lemma_survey(at, scores, 0, threshold.bits);
    }
    standing
}

fn strip_suffixes<'a>(s: &'a str, p: &str) -> (r: &'a str)
    ensures
        r@ == without_suffixes(s@, p@),
    decreases s@.len(),
{
    if p.is_empty() {
        return s;
    }
    match strip_suffix(s, p) {
        Some(rest) => {
            assert(ends(s@, p@));
            strip_suffixes(rest, p)
        },
        None => s,
    }
}

fn find_context_line_inner(
    lines: &[&str],
    context: &str,
    start: usize,
    allow_fuzzy: bool,
    retry: bool,
) -> (r: ContextLineResult)
    ensures
        r@ == context_found(views(lines@), context@, start as int, allow_fuzzy, retry),
        r.confidence.bits <= ONE,
        r.index matches Some(i) ==> i < lines@.len(),
    decreases (if retry { 1int } else { 0int }),
{
    proof {
        reveal(context_found);
    }
    let ghost l = views(lines@);
    match find_strict_context(lines, context, start) {
        Some(r) => {
            return r;
        },
        None => {},
    }
    if !allow_fuzzy {
        let r = ContextLineResult {
            index: None,
            confidence: Double::from_bits(0),
            match_count: None,
            match_indices: Vec::new(),
            strategy: None,
        };
        assert(r@ =~= missed::<ContextMatchStrategy>(0));
        return r;
    }
    match find_partial_context(lines, context, start) {
        Some(r) => {
            return r;
        },
        None => {},
    }
    let s = survey_context(lines, context, start);
    if s.best.is_some() && s.score.ge(Double::from_bits(CONTEXT_FUZZY_THRESHOLD)) {
        let r = ContextLineResult {
            index: s.best,
            confidence: s.score,
            match_count: Some(s.count),
            match_indices: s.few,
            strategy: Some(ContextMatchStrategy::Fuzzy),
        };
        assert(r@ =~= context_found(l, context@, start as int, allow_fuzzy, retry));
        return r;
    }
    if retry && ends_with(trim(context), "()") {
        let base = trim_end(strip_suffixes(trim(context), "()"));
        let mut open = base.to_owned();
        open.append("(");
        let r = find_context_line_inner(lines, open.as_str(), start, allow_fuzzy, false);
        let some = match r.match_count {
            Some(n) => n > 0,
            None => false,
        };
        if r.index.is_some() || some {
            return r;
        }
        return find_context_line_inner(lines, base, start, allow_fuzzy, false);
    }
    let r = ContextLineResult {
        index: None,
        confidence: s.score,
        match_count: None,
        match_indices: Vec::new(),
        strategy: None,
    };
    assert(r@ =~= missed::<ContextMatchStrategy>(s.score.bits));
    r
}

/// Finds a single context line in `lines`.
///
/// Passes:
/// 1. Exact line match
/// 2. Trimmed match
/// 3. Unicode normalization
/// 4. Prefix match
/// 5. Substring match (with ratio filtering for ambiguity)
/// 6. Fuzzy similarity
///
/// If the context ends with `()`, an extra fallback retries with `(` and
/// without parentheses.
pub fn find_context_line(lines: &[&str], context: &str, start: usize, allow_fuzzy: bool) -> (r:
    ContextLineResult)
    ensures
        r@ == context_found(views(lines@), context@, start as int, allow_fuzzy, true),
        r.confidence.bits <= ONE,
        r.index matches Some(i) ==> i < lines@.len(),
{
    find_context_line_inner(lines, context, start, allow_fuzzy, true)
}

/// The similarity of two texts is at most one.
pub proof fn law_likeness_bounded(a: Seq<char>, b: Seq<char>)
    ensures
        likeness(a, b) <= ONE,
{
    let n = max(bytes(a).len() as int, bytes(b).len() as int) as nat;
    if n > 0 {
        let u = unit_count();
        let d = edit_distance(bytes(a), bytes(b));
        let num = whole(d);
        let den = whole(n);
        lemma_distance_bounded(bytes(a), bytes(b));
        lemma_one();
        lemma_whole_positive(n);
        law_nearest(d * u, 1);
        law_nearest(n * u, 1);
        lemma_whole_order(num, den, d, n);
        if num < den {
            lemma_units_order(num, den);
        }
        let q = quotient(num, den);
        law_nearest(units(num) * u, units(den));
        assert(units(num) * u <= units(ONE) * units(den)) by (nonlinear_arith)
            requires
                units(num) <= units(den),
                units(ONE) == u,
        ;
        lemma_nearest_at_most(q, ONE, units(num) * u, units(den));
        if q < ONE {
            lemma_units_order(q, ONE);
        }
        let rest = (units(ONE) - units(q)) as nat;
        law_nearest(rest, 1);
        lemma_nearest_at_most(likeness(a, b), ONE, rest, 1);
    }
}

/// The sum of `k` similarities is at most `k`.
proof fn lemma_total_bounded(a: Seq<Seq<char>>, b: Seq<Seq<char>>, k: nat)
    ensures
        total_likeness(a, b, k as int) <= whole(least(k, 2 * FRACTION as nat)),
    decreases k,
{
    if k > 0 {
        let before = total_likeness(a, b, k - 1);
        let x = likeness(a[k - 1], b[k - 1]);
        lemma_total_bounded(a, b, (k - 1) as nat);
        law_likeness_bounded(a[k - 1], b[k - 1]);
        law_nearest(units(before) + units(x), 1);
        lemma_sum_counted(total_likeness(a, b, k as int), before, x, (k - 1) as nat);
    }
}

/// The mean similarity of lines is at most one.
pub proof fn law_mean_bounded(a: Seq<Seq<char>>, b: Seq<Seq<char>>)
    requires
        a.len() > 0,
    ensures
        mean_likeness(a, b) <= ONE,
{
    let n = a.len();
    let m = least(n, 2 * FRACTION as nat);
    let u = unit_count();
    let total = total_likeness(a, b, n as int);
    lemma_total_bounded(a, b, n);
    lemma_whole_positive(n);
    law_nearest(m * u, 1);
    law_nearest(n * u, 1);
    lemma_whole_order(whole(m), whole(n), m, n);
    law_nearest(units(total) * u, units(whole(n)));
    lemma_share(mean_likeness(a, b), total, whole(n));
}

/// The score of a pattern at any place is at most one.
pub proof fn law_score_bounded(lines: Seq<Seq<char>>, pattern: Seq<Seq<char>>, i: int)
    requires
        0 < pattern.len(),
        0 <= i,
        i + pattern.len() <= lines.len(),
    ensures
        sequence_score(lines, pattern, i) <= ONE,
{
    law_mean_bounded(
        fuzzy_forms(window(lines, i, pattern.len() as int)),
        fuzzy_forms(pattern),
    );
}

/// No place from `start` on where a pattern may stand scores more than the one
/// that is found closest, whose score is the confidence.
pub proof fn law_closest_sequence(
    lines: Seq<Seq<char>>,
    pattern: Seq<Seq<char>>,
    start: int,
    eof: bool,
)
    requires
        0 < pattern.len() <= lines.len(),
        0 <= start,
    ensures
        ({
            let r = closest_sequence(lines, pattern, start, eof);
            &&& r.confidence <= ONE
            &&& r.index matches Some(i) ==> 0 <= i <= lines.len() - pattern.len() && r.confidence
                == sequence_score(lines, pattern, i)
            &&& r.index is None <==> r.confidence == 0
            &&& forall|k: int|
                start <= k <= lines.len() - pattern.len() ==> #[trigger] sequence_score(
                    lines,
                    pattern,
                    k,
                ) <= r.confidence
        }),
{
    reveal(closest_sequence);
    let at = scored_places(lines.len() as int, pattern.len() as int, start, eof);
    let scores = sequence_scores(lines, pattern, at);
    assert forall|i: int| 0 <= i < at.len() implies #[trigger] scores[i] <= ONE by {
        law_score_bounded(lines, pattern, at[i]);
    }
    lemma_survey(at, scores, 0, SEQUENCE_FUZZY_THRESHOLD);
    let s = survey(at, scores, 0, SEQUENCE_FUZZY_THRESHOLD);
    if s.best is Some {
        let i = choose|i: int|
            0 <= i < at.len() && #[trigger] at[i] == s.best->0 && scores[i] == s.score;
        assert(s.score == sequence_score(lines, pattern, at[i]));
    }
    let begin = search_start(lines.len() as int, pattern.len() as int, start, eof);
    assert forall|k: int| start <= k <= lines.len() - pattern.len() implies #[trigger]
        sequence_score(lines, pattern, k) <= s.score by {
        let first = range(begin, lines.len() - pattern.len() + 1);
        let i = if k >= begin {
            k - begin
        } else {
            first.len() + (k - start)
        };
        assert(at[i] == k);
        assert(at_least(s.score, scores[i]));
    }
}

/// A text is wholly similar to itself.
pub proof fn law_likeness_self(a: Seq<char>)
    ensures
        likeness(a, a) == ONE,
{
    let n = bytes(a).len();
    lemma_distance_self(bytes(a));
    if n > 0 {
        lemma_zero_share(n);
        assert(units(0) == 0);
        lemma_exact_is_nearest(ONE, units(ONE));
    }
}

/// The similarity of two texts is the same both ways.
pub proof fn law_likeness_symmetric(a: Seq<char>, b: Seq<char>)
    ensures
        likeness(a, b) == likeness(b, a),
{
    lemma_distance_symmetric(bytes(a), bytes(b));
}

/// A text that occurs once is found where it occurs, with full confidence,
/// whatever else is allowed; and replacing what was found replaces that
/// occurrence.
pub proof fn law_single_occurrence(
    content: Seq<char>,
    target: Seq<char>,
    allow_fuzzy: bool,
    threshold: u64,
    new: Seq<char>,
    k: int,
)
    requires
        target.len() > 0,
        occurs_at(content, target, k),
        0 <= k,
        forall|j: int| 0 <= j && j != k ==> !occurs_at(content, target, j),
    ensures
        ({
            let m = MatchView {
                text: target,
                index: bytes(content.take(k)).len(),
                line: line_number(content, k),
                confidence: ONE,
            };
            &&& found(content, target, allow_fuzzy, threshold) == (OutcomeView {
                matched: Some(m),
                ..nothing()
            })
            &&& with_match_replaced(content, m, new) == content.take(k) + new + content.skip(
                k + target.len(),
            )
        }),
{
    reveal(found);
    lemma_index_from(content, target, 0);
    let end = k + target.len();
    lemma_index_from(content, target, end);
    assert(tally(content, target, end) == 0);
    assert(tally(content, target, 0) == 1);
    lemma_fitting(content, k);
    let rest = content.skip(k);
    assert(rest.take(target.len() as int) =~= target);
    lemma_fitting(rest, target.len() as int);
    assert(rest.skip(target.len() as int) =~= content.skip(end));
}

/// The best candidate was surveyed.
proof fn lemma_survey_place(at: Seq<int>, scores: Seq<u64>, floor: u64, threshold: u64)
    requires
        at.len() == scores.len(),
    ensures
        survey(at, scores, floor, threshold).best matches Some(k) ==> exists|i: int|
            0 <= i < at.len() && #[trigger] at[i] == k,
    decreases at.len(),
{
    if at.len() > 0 {
        lemma_survey_place(at.drop_last(), scores.drop_last(), floor, threshold);
        let s = survey(at.drop_last(), scores.drop_last(), floor, threshold);
        if s.best is Some {
            let i = choose|i: int|
                0 <= i < at.drop_last().len() && #[trigger] at.drop_last()[i] == s.best->0;
            assert(at[i] == s.best->0);
        }
        assert(at[at.len() - 1] == at.last());
    }
}

/// Where a text does not occur, what matches it is as many whole lines as it has.
pub proof fn law_whole_lines(
    content: Seq<char>,
    target: Seq<char>,
    allow_fuzzy: bool,
    threshold: u64,
)
    requires
        index_from(content, target, 0) is None,
    ensures
        ({
            let o = found(content, target, allow_fuzzy, threshold);
            let lines = lines_of(content);
            let n = lines_of(target).len();
            &&& o.matched is Some ==> o.closest == o.matched
            &&& o.closest matches Some(m) ==> {
                &&& 1 <= m.line
                &&& m.line - 1 + n <= lines.len()
                &&& m.text == joined(window(lines, m.line - 1, n as int), "\n"@)
            }
        }),
{
    reveal(found);
    let lines = lines_of(content);
    let rows = lines_of(target);
    let at = range(0, lines.len() - rows.len() + 1);
    if rows.len() <= lines.len() {
        lemma_survey_place(at, window_scores(lines, rows, at, true), BELOW_ALL, threshold);
        lemma_survey_place(at, window_scores(lines, rows, at, false), BELOW_ALL, threshold);
    }
}

/// A text that occurs more than once is not matched; the number of occurrences
/// is reported.
pub proof fn law_several_occurrences(
    content: Seq<char>,
    target: Seq<char>,
    allow_fuzzy: bool,
    threshold: u64,
)
    requires
        target.len() > 0,
        tally(content, target, 0) > 1,
    ensures
        found(content, target, allow_fuzzy, threshold).matched is None,
        found(content, target, allow_fuzzy, threshold).occurrences == Some(
            tally(content, target, 0),
        ),
{
    reveal(found);
}

/// Lines that stand in a file as they are sought are found at the first such
/// place, whatever else is allowed.
pub proof fn law_exact_lines(
    lines: Seq<Seq<char>>,
    pattern: Seq<Seq<char>>,
    start: int,
    allow_fuzzy: bool,
    i: int,
)
    requires
        pattern.len() > 0,
        0 <= start <= i,
        i + pattern.len() <= lines.len(),
        lines.subrange(i, i + pattern.len()) == pattern,
        forall|j: int|
            start <= j < i ==> #[trigger] lines.subrange(j, j + pattern.len()) != pattern,
    ensures
        sought(lines, pattern, start, false, allow_fuzzy) == immediate(i),
{
    reveal(sought);
    let n = pattern.len() as int;
    let end = lines.len() - pattern.len() + 1;
    let h = hits(lines, pattern, LineRule::Exact, start, end);
    lemma_hits(lines, pattern, LineRule::Exact, start, end);
    assert forall|j: int| 0 <= j < n implies agrees(
        LineRule::Exact,
        lines[i + j],
        #[trigger] pattern[j],
    ) by {
        assert(lines.subrange(i, i + n)[j] == lines[i + j]);
    }
    assert(pattern_at(lines, pattern, LineRule::Exact, i));
    assert(h.contains(i));
    let at = choose|at: int| 0 <= at < h.len() && h[at] == i;
    if at > 0 {
        assert(h[0] < h[at]);
        assert(pattern_at(lines, pattern, LineRule::Exact, h[0]));
        assert forall|j: int| 0 <= j < n implies #[trigger] lines.subrange(h[0], h[0] + n)[j]
            == pattern[j] by {
            assert(agrees(LineRule::Exact, lines[h[0] + j], pattern[j]));
        }
        assert(lines.subrange(h[0], h[0] + n) =~= pattern);
    }
    assert(pass_result(lines, pattern, 0, start, end) is Some);
}

/// Where a strict search fails, no place agrees with the pattern under any of the
/// strict rules.
pub proof fn law_strict_miss(
    lines: Seq<Seq<char>>,
    pattern: Seq<Seq<char>>,
    start: int,
    k: int,
    i: int,
)
    requires
        sought(lines, pattern, start, false, false).index is None,
        0 <= k < 5,
        0 <= start <= i,
        i + pattern.len() <= lines.len(),
    ensures
        !pattern_at(lines, pattern, pass_rule(k), i),
{
    reveal(sought);
    let end = lines.len() - pattern.len() + 1;
    lemma_passes(lines, pattern, start, end, 0, k);
    lemma_hits(lines, pattern, pass_rule(k), start, end);
    if pattern_at(lines, pattern, pass_rule(k), i) {
        assert(hits(lines, pattern, pass_rule(k), start, end).contains(i));
    }
}

/// What the strict passes find has a place; where they find nothing, each of
/// them finds nothing.
proof fn lemma_passes(
    lines: Seq<Seq<char>>,
    pattern: Seq<Seq<char>>,
    from: int,
    end: int,
    j: int,
    k: int,
)
    requires
        0 <= j <= k < 5,
    ensures
        match passes_from(lines, pattern, from, end, false, j) {
            Some(r) => r.index is Some,
            None => pass_result(lines, pattern, k, from, end) is None,
        },
    decreases 5 - j, k - j,
{
    if j < k {
        lemma_passes(lines, pattern, from, end, j + 1, k);
    } else if k < 4 {
        lemma_passes(lines, pattern, from, end, k + 1, k + 1);
    }
}

/// The lines, each with `k` spaces before it.
pub open spec fn indented(lines: Seq<Seq<char>>, k: nat) -> Seq<Seq<char>> {
    lines.map_values(|l: Seq<char>| spaces(k) + l)
}

/// A line with `k` more spaces before it is indented by that much more, and holds the
/// same text.
proof fn lemma_spaced_line(line: Seq<char>, k: nat)
    ensures
        indent_len(spaces(k) + line) == k + indent_len(line),
        trimmed(spaces(k) + line) == trimmed(line),
        is_blank(spaces(k) + line) == is_blank(line),
{
    lemma_indented_line(line, ' ', k);
    assert(spaces(k) =~= times(' ', k));
}

/// Lines that hold something do so when they are indented.
proof fn lemma_indented_solid(lines: Seq<Seq<char>>, k: nat)
    ensures
        solid(indented(lines, k)) == indented(solid(lines), k),
    decreases lines.len(),
{
    if lines.len() == 0 {
        assert(solid(indented(lines, k)) =~= indented(solid(lines), k));
    } else {
        let rest = lines.drop_last();
        lemma_indented_solid(rest, k);
        lemma_spaced_line(lines.last(), k);
        assert(indented(lines, k).drop_last() =~= indented(rest, k));
        assert(indented(lines, k).last() == spaces(k) + lines.last());
        assert(solid(indented(lines, k)) =~= indented(solid(lines), k));
    }
}

/// The least indentation moves with the lines.
proof fn lemma_indented_least(lines: Seq<Seq<char>>, k: nat)
    ensures
        least_indent(indented(lines, k)) == match least_indent(lines) {
            Some(n) => Some(n + k),
            None => None,
        },
    decreases lines.len(),
{
    if lines.len() > 0 {
        let rest = lines.drop_last();
        lemma_indented_least(rest, k);
        lemma_spaced_line(lines.last(), k);
        assert(indented(lines, k).drop_last() =~= indented(rest, k));
    }
}

/// The least step does not change when lines are indented alike.
proof fn lemma_indented_step(lines: Seq<Seq<char>>, base: nat, k: nat)
    ensures
        least_step(indented(lines, k), base + k) == least_step(lines, base),
        has_step(indented(lines, k), base + k) == has_step(lines, base),
    decreases lines.len(),
{
    if lines.len() > 0 {
        let rest = lines.drop_last();
        lemma_indented_step(rest, base, k);
        lemma_spaced_line(lines.last(), k);
        assert(indented(lines, k).drop_last() =~= indented(rest, k));
    }
}

/// Lines of which none holds anything are blank.
proof fn lemma_none_solid(lines: Seq<Seq<char>>, i: int)
    requires
        solid(lines).len() == 0,
        0 <= i < lines.len(),
    ensures
        is_blank(lines[i]),
    decreases lines.len(),
{
    if i < lines.len() - 1 {
        lemma_none_solid(lines.drop_last(), i);
    }
}

/// Indenting all lines alike leaves the form in which they are compared.
pub proof fn law_indented_alike(lines: Seq<Seq<char>>, k: nat, with_depth: bool)
    ensures
        normal_lines(indented(lines, k), with_depth) == normal_lines(lines, with_depth),
{
    let moved = indented(lines, k);
    lemma_indented_solid(lines, k);
    lemma_indented_least(solid(lines), k);
    lemma_indented_step(solid(lines), base_of(lines), k);
    assert forall|i: int| 0 <= i < lines.len() implies #[trigger] normal_line(
        moved,
        with_depth,
        i,
    ) == normal_line(lines, with_depth, i) by {
        lemma_spaced_line(lines[i], k);
        assert(moved[i] == spaces(k) + lines[i]);
        if solid(lines).len() == 0 {
            lemma_none_solid(lines, i);
        } else {
            assert(base_of(moved) == base_of(lines) + k);
        }
        assert(depths(moved)[i] == depths(lines)[i]);
    }
    assert(normal_lines(moved, with_depth) =~= normal_lines(lines, with_depth));
}

/// Without depths, a line is a bar and the form in which it is compared.
pub proof fn law_plain_form(lines: Seq<Seq<char>>, i: int)
    requires
        0 <= i < lines.len(),
    ensures
        normal_lines(lines, false)[i] == "|"@ + fuzzy_form(lines[i]),
{
    lemma_trimmed_again(lines[i]);
}

/// Where line `i` begins: behind the lines before it, joined, and a line feed.
proof fn lemma_offset_bytes(lines: Seq<Seq<char>>, i: int)
    requires
        0 < i <= lines.len(),
    ensures
        line_offset(lines, i) == bytes(joined(lines.take(i), "\n"@).push('\n')).len(),
    decreases i,
{
    reveal_strlit("\n");
    assert("\n"@ =~= seq!['\n']);
    let head = lines.take(i);
    let text = joined(head, "\n"@);
    lemma_bytes_push(text, '\n');
    assert(head.last() == lines[i - 1]);
    assert(head.drop_last() =~= lines.take(i - 1));
    if i == 1 {
        assert(line_offset(lines, 0) == 0);
    } else {
        lemma_offset_bytes(lines, i - 1);
        let before = joined(lines.take(i - 1), "\n"@).push('\n');
        assert(text =~= before + lines[i - 1]);
        lemma_bytes_add(before, lines[i - 1]);
    }
}

/// The bytes of two texts are those of both.
proof fn lemma_bytes_add(a: Seq<char>, b: Seq<char>)
    ensures
        bytes(a + b).len() == bytes(a).len() + bytes(b).len(),
    decreases b.len(),
{
    if b.len() == 0 {
        assert(a + b =~= a);
        assert(b =~= Seq::<char>::empty());
    } else {
        let c = b.drop_last();
        lemma_bytes_add(a, c);
        lemma_bytes_push(a + c, b.last());
        lemma_bytes_push(c, b.last());
        assert((a + c).push(b.last()) =~= a + b);
        assert(c.push(b.last()) =~= b);
    }
}

/// A match that is whole lines is replaced line by line: the lines before and behind
/// it stay, and the lines of the new text stand between.
pub proof fn law_lines_replaced(content: Seq<char>, m: MatchView, new: Seq<char>, i: int, n: int)
    requires
        0 <= i,
        0 < n,
        i + n <= lines_of(content).len(),
        m.text == joined(window(lines_of(content), i, n), "\n"@),
        m.index == line_offset(lines_of(content), i),
    ensures
        with_match_replaced(content, m, new) == joined(
            lines_of(content).take(i) + lines_of(new) + lines_of(content).skip(i + n),
            "\n"@,
        ),
{
    let sep = "\n"@;
    reveal_strlit("\n");
    assert(sep =~= seq!['\n']);
    let lines = lines_of(content);
    let part = window(lines, i, n);
    law_join_pieces(content, '\n');
    law_join_pieces(new, '\n');
    lemma_pieces_nonempty(new, '\n');
    let head = lines.take(i);
    let tail = lines.skip(i + n);
    let put = lines_of(new);
    let from = lines.skip(i);
    assert(from =~= part + tail);
    let before = if i == 0 {
        Seq::<char>::empty()
    } else {
        joined(head, sep).push('\n')
    };
    assert(content == before + joined(from, sep)) by {
        if i == 0 {
            assert(from =~= lines);
            assert(before + joined(from, sep) =~= content);
        } else {
            assert(head + from =~= lines);
            lemma_joined_add(head, from, sep);
            assert(joined(head, sep) + sep =~= before);
        }
    }
    let k = before.len() as int;
    assert(content.take(k) =~= before);
    if i == 0 {
        assert(bytes(before).len() == 0);
    } else {
        lemma_offset_bytes(lines, i);
    }
    lemma_fitting(content, k);
    let rest = content.skip(k);
    assert(rest =~= joined(from, sep));
    let after = if tail.len() == 0 {
        Seq::<char>::empty()
    } else {
        sep + joined(tail, sep)
    };
    assert(rest == m.text + after) by {
        if tail.len() == 0 {
            assert(part + tail =~= part);
            assert(m.text + after =~= m.text);
        } else {
            lemma_joined_add(part, tail, sep);
            assert(rest =~= m.text + after);
        }
    }
    let t = m.text.len() as int;
    assert(rest.take(t) =~= m.text);
    lemma_fitting(rest, t);
    assert(rest.skip(t) =~= after);
    let made = with_match_replaced(content, m, new);
    assert(made =~= before + new + after);
    let inner = put + tail;
    assert(joined(inner, sep) == new + after) by {
        if tail.len() == 0 {
            assert(inner =~= put);
            assert(new + after =~= new);
        } else {
            lemma_joined_add(put, tail, sep);
            assert(joined(inner, sep) =~= new + after);
        }
    }
    let all = head + put + tail;
    assert(all =~= head + inner);
    if i == 0 {
        assert(all =~= inner);
        assert(made =~= new + after);
    } else {
        lemma_joined_add(head, inner, sep);
        assert(made =~= joined(head, sep) + sep + joined(inner, sep));
    }
}

/// Lines are wholly similar to themselves.
proof fn lemma_mean_self(a: Seq<Seq<char>>)
    requires
        0 < a.len() <= 2 * FRACTION,
    ensures
        mean_likeness(a, a) == ONE,
{
    lemma_total_self(a, a.len());
    lemma_whole_positive(a.len());
    lemma_whole_share(whole(a.len()));
}

proof fn lemma_total_self(a: Seq<Seq<char>>, k: nat)
    requires
        k <= a.len() <= 2 * FRACTION,
    ensures
        total_likeness(a, a, k as int) == whole(k),
    decreases k,
{
    if k == 0 {
        lemma_one();
        assert(units(0) == 0);
        lemma_exact_is_nearest(0, 0);
        assert(0 * unit_count() == 0);
    } else {
        lemma_total_self(a, (k - 1) as nat);
        law_likeness_self(a[k - 1]);
        lemma_whole_next((k - 1) as nat);
    }
}

/// The survey of candidates of which one alone reaches the threshold, with the score
/// one.
proof fn lemma_survey_single(
    at: Seq<int>,
    scores: Seq<u64>,
    threshold: u64,
    i: int,
    n: int,
)
    requires
        at.len() == scores.len(),
        0 <= n <= at.len(),
        0 <= i < at.len(),
        scores[i] == ONE,
        at_least(ONE, threshold),
        forall|j: int|
            0 <= j < scores.len() && j != i ==> #[trigger] scores[j] <= ONE && !at_least(
                scores[j],
                threshold,
            ),
    ensures
        ({
            let s = survey(at.take(n), scores.take(n), BELOW_ALL, threshold);
            if i < n {
                &&& s.best == Some(at[i])
                &&& s.score == ONE
                &&& s.above == seq![at[i]]
            } else {
                &&& s.above.len() == 0
                &&& s.score == BELOW_ALL || (s.score <= ONE && !at_least(s.score, threshold))
            }
        }),
    decreases n,
{
    if n == 0 {
        assert(at.take(0).len() == 0);
    } else {
        lemma_survey_single(at, scores, threshold, i, n - 1);
        assert(at.take(n).drop_last() =~= at.take(n - 1));
        assert(scores.take(n).drop_last() =~= scores.take(n - 1));
        assert(at.take(n).last() == at[n - 1]);
        assert(scores.take(n).last() == scores[n - 1]);
        let s = survey(at.take(n), scores.take(n), BELOW_ALL, threshold);
        if i == n - 1 {
            assert(s.above =~= seq![at[i]]);
        }
    }
}

/// A text that stands in a file, but with every line indented by `k` more spaces, is
/// found there, where no other lines reach the threshold.
pub proof fn law_found_indented(
    content: Seq<char>,
    target: Seq<char>,
    threshold: u64,
    k: nat,
    i: int,
)
    requires
        target.len() > 0,
        index_from(content, target, 0) is None,
        0 <= i,
        i + lines_of(target).len() <= lines_of(content).len(),
        lines_of(target).len() <= 2 * FRACTION,
        window(lines_of(content), i, lines_of(target).len() as int) == indented(
            lines_of(target),
            k,
        ),
        at_least(ONE, threshold),
        forall|j: int|
            0 <= j <= lines_of(content).len() - lines_of(target).len() && j != i ==> !at_least(
                #[trigger] window_score(lines_of(content), lines_of(target), j, true),
                threshold,
            ),
    ensures
        found(content, target, true, threshold).matched == Some(
            MatchView {
                text: joined(indented(lines_of(target), k), "\n"@),
                index: line_offset(lines_of(content), i),
                line: (i + 1) as nat,
                confidence: ONE,
            },
        ),
        found(content, target, true, threshold).occurrences is None,
        found(content, target, true, threshold).fuzzy_matches is None,
        !found(content, target, true, threshold).dominant,
{
    reveal(found);
    let lines = lines_of(content);
    let rows = lines_of(target);
    let n = rows.len() as int;
    lemma_pieces_nonempty(target, '\n');
    let at = range(0, lines.len() - n + 1);
    let scores = window_scores(lines, rows, at, true);
    law_indented_alike(rows, k, true);
    lemma_normal_len(rows, true);
    lemma_mean_self(normal_lines(rows, true));
    assert(at[i] == i);
    assert(scores[i] == window_score(lines, rows, i, true));
    assert forall|j: int| 0 <= j < scores.len() && j != i implies #[trigger] scores[j] <= ONE
        && !at_least(scores[j], threshold) by {
        assert(at[j] == j);
        assert(scores[j] == window_score(lines, rows, j, true));
        law_mean_bounded(normal_lines(rows, true), normal_lines(window(lines, j, n), true));
    }
    lemma_survey_single(at, scores, threshold, i, at.len() as int);
    assert(at.take(at.len() as int) =~= at);
    assert(scores.take(at.len() as int) =~= scores);
}

/// There is a form for each line.
proof fn lemma_normal_len(lines: Seq<Seq<char>>, with_depth: bool)
    ensures
        normal_lines(lines, with_depth).len() == lines.len(),
{
}

/// To count from `k + i` on is to count from `i` on in what follows `k`.
pub proof fn lemma_tally_skip(s: Seq<char>, p: Seq<char>, k: int, i: int)
    requires
        0 <= k <= s.len(),
        0 <= i,
    ensures
        tally(s, p, k + i) == tally(s.skip(k), p, i),
    decreases s.len() - i,
{
    lemma_index_skip(s, p, k, i);
    if let Some(j) = index_from(s.skip(k), p, i) {
        if p.len() > 0 && i <= j && j + p.len() <= s.skip(k).len() {
            lemma_tally_skip(s, p, k, j + p.len());
        }
    }
}

/// A text that stands between parts that do not hold its first character is counted
/// once between each two of them.
pub proof fn lemma_tally_joined(parts: Seq<Seq<char>>, p: Seq<char>)
    requires
        parts.len() > 0,
        p.len() > 0,
        forall|k: int| 0 <= k < parts.len() ==> !(#[trigger] parts[k]).contains(p[0]),
    ensures
        tally(joined(parts, p), p, 0) == parts.len() - 1,
    decreases parts.len(),
{
    let s = joined(parts, p);
    let head = parts[0];
    if parts.len() == 1 {
        assert forall|j: int| 0 <= j < s.len() implies #[trigger] s[j] != p[0] by {
            assert(head.contains(s[j]));
        }
        lemma_not_found(s, p, 0);
    } else {
        let rest = parts.skip(1);
        assert forall|k: int| 0 <= k < rest.len() implies !(#[trigger] rest[k]).contains(p[0]) by {
            assert(rest[k] == parts[k + 1]);
        }
        lemma_tally_joined(rest, p);
        assert(parts =~= seq![head] + rest);
        lemma_joined_add(seq![head], rest, p);
        let end = (head.len() + p.len()) as int;
        assert(s =~= head + p + joined(rest, p));
        lemma_index_after(head, p, joined(rest, p));
        assert(s.skip(end) =~= joined(rest, p));
        lemma_tally_skip(s, p, end, 0);
    }
}

/// Whether the lines at `i` hold the texts of the pattern, whatever white space is around
/// them.
pub open spec fn holds_texts_at(lines: Seq<Seq<char>>, pattern: Seq<Seq<char>>, i: int) -> bool {
    forall|k: int| 0 <= k < pattern.len() ==> trimmed(lines[i + k]) == trimmed(#[trigger] pattern[k])
}

/// Lines that stand in one place of a file, but for white space around them, are found
/// there, and nowhere else, whatever else is allowed.
pub proof fn law_trimmed_lines(
    lines: Seq<Seq<char>>,
    pattern: Seq<Seq<char>>,
    start: int,
    allow_fuzzy: bool,
    i: int,
)
    requires
        pattern.len() > 0,
        0 <= start <= i,
        i + pattern.len() <= lines.len(),
        holds_texts_at(lines, pattern, i),
        forall|j: int|
            start <= j <= lines.len() - pattern.len() && j != i ==> !(#[trigger] holds_texts_at(
                lines,
                pattern,
                j,
            )),
    ensures
        sought(lines, pattern, start, false, allow_fuzzy).index == Some(i),
        sought(lines, pattern, start, false, allow_fuzzy).count is None,
{
    reveal(sought);
    let end = lines.len() - pattern.len() + 1;
    assert forall|k: int, j: int|
        0 <= k < 3 && start <= j < end && #[trigger] pattern_at(
            lines,
            pattern,
            pass_rule(k),
            j,
        ) implies j == i by {
        assert forall|m: int| 0 <= m < pattern.len() implies trimmed(lines[j + m]) == trimmed(
            #[trigger] pattern[m],
        ) by {
            assert(agrees(pass_rule(k), lines[j + m], pattern[m]));
        }
        assert(holds_texts_at(lines, pattern, j));
    }
    assert forall|k: int| 0 <= k < 3 implies match #[trigger] pass_result(
        lines,
        pattern,
        k,
        start,
        end,
    ) {
        Some(r) => r.index == Some(i) && r.count is None,
        None => true,
    } by {
        lemma_hits(lines, pattern, pass_rule(k), start, end);
        let h = hits(lines, pattern, pass_rule(k), start, end);
        if h.len() > 0 {
            assert(pattern_at(lines, pattern, pass_rule(k), h[0]));
        }
    }
    assert(pass_result(lines, pattern, 2, start, end) is Some) by {
        lemma_hits(lines, pattern, LineRule::Trim, start, end);
        assert forall|m: int| 0 <= m < pattern.len() implies agrees(
            LineRule::Trim,
            lines[i + m],
            #[trigger] pattern[m],
        ) by {
            assert(trimmed(lines[i + m]) == trimmed(pattern[m]));
        }
        assert(pattern_at(lines, pattern, LineRule::Trim, i));
        assert(hits(lines, pattern, LineRule::Trim, start, end).contains(i));
    }
    let zero = pass_result(lines, pattern, 0, start, end);
    let one = pass_result(lines, pattern, 1, start, end);
    assert(passes_from(lines, pattern, start, end, allow_fuzzy, 2) == pass_result(
        lines,
        pattern,
        2,
        start,
        end,
    ));
    assert(passes_from(lines, pattern, start, end, allow_fuzzy, 1) == (if one is Some {
        one
    } else {
        passes_from(lines, pattern, start, end, allow_fuzzy, 2)
    }));
    assert(passes_from(lines, pattern, start, end, allow_fuzzy, 0) == (if zero is Some {
        zero
    } else {
        passes_from(lines, pattern, start, end, allow_fuzzy, 1)
    }));
}

/// A comment is compared as what it says: without the marker before it, and the space
/// around that. A line without a marker is compared without its indentation.
pub proof fn law_comment_marker(k: nat, text: Seq<char>)
    requires
        text.len() > 0,
        !is_white(text[0]),
    ensures
        uncommented(times(' ', k) + "// "@ + text) == text,
        uncommented(times(' ', k) + "/* "@ + text) == text,
        uncommented(times(' ', k) + "*/ "@ + text) == text,
        uncommented(times(' ', k) + "* "@ + text) == text,
        uncommented(times(' ', k) + "# "@ + text) == text,
        uncommented(times(' ', k) + "; "@ + text) == text,
        text[0] != '/' && text[0] != '*' && text[0] != '#' && text[0] != ';' ==> uncommented(
            times(' ', k) + text,
        ) == text,
{
    reveal_strlit("/*");
    reveal_strlit("*/");
    reveal_strlit("//");
    reveal_strlit("*");
    reveal_strlit("#");
    reveal_strlit(";");
    reveal_strlit("/ ");
    reveal_strlit("// ");
    reveal_strlit("/* ");
    reveal_strlit("*/ ");
    reveal_strlit("* ");
    reveal_strlit("# ");
    reveal_strlit("; ");
    lemma_marker(k, "// "@, text);
    lemma_marker(k, "/* "@, text);
    lemma_marker(k, "*/ "@, text);
    lemma_marker(k, "* "@, text);
    lemma_marker(k, "# "@, text);
    lemma_marker(k, "; "@, text);
    lemma_indent_gone(k, text);
    assert(("// "@ + text).subrange(0, 2) =~= "//"@);
    assert(("/* "@ + text).subrange(0, 2) =~= "/*"@);
    assert(("*/ "@ + text).subrange(0, 2) =~= "*/"@);
    assert(("* "@ + text).subrange(0, 1) =~= "*"@);
    assert(("# "@ + text).subrange(0, 1) =~= "#"@);
    assert(("; "@ + text).subrange(0, 1) =~= ";"@);
    assert forall|s: Seq<char>, p: Seq<char>|
        p.len() > 0 && #[trigger] begins(s, p) implies s[0] == p[0] && (p.len() > 1 ==> s[1]
        == p[1]) by {
        assert(s.subrange(0, p.len() as int)[0] == s[0]);
        if p.len() > 1 {
            assert(s.subrange(0, p.len() as int)[1] == s[1]);
        }
    }
    assert(("* "@ + text)[1] == ' ');
    assert(text.skip(0) =~= text);
}

/// What follows a marker of one or two characters and a space.
proof fn lemma_marker(k: nat, marker: Seq<char>, text: Seq<char>)
    requires
        2 <= marker.len() <= 3,
        marker.last() == ' ',
        !is_white(marker[0]),
        text.len() > 0,
        !is_white(text[0]),
    ensures
        trimmed_start(times(' ', k) + marker + text) == marker + text,
        trimmed_start((marker + text).skip(marker.len() - 1)) == text,
{
    let t = marker + text;
    assert(times(' ', k) + marker + text =~= times(' ', k) + t);
    lemma_indent_gone(k, t);
    let rest = t.skip(marker.len() - 1);
    assert(rest =~= times(' ', 1) + text);
    lemma_indent_gone(1, text);
}

/// Spaces before a text are what trimming its beginning takes away.
proof fn lemma_indent_gone(k: nat, text: Seq<char>)
    requires
        text.len() > 0,
        !is_white(text[0]),
    ensures
        trimmed_start(times(' ', k) + text) == text,
    decreases k,
{
    let s = times(' ', k) + text;
    if k == 0 {
        assert(s =~= text);
    } else {
        lemma_indent_gone((k - 1) as nat, text);
        assert(s.skip(1) =~= times(' ', (k - 1) as nat) + text);
    }
}

} // verus!
