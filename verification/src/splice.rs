//! Replacing ranges of lines.

use crate::text::{copy_texts, splice, spliced, views};
use vstd::prelude::*;
use vstd::string::*;

verus! {

/// New lines for a range of the lines of a file.
#[derive(Debug)]
pub struct Replacement {
    /// The first line of the range, from zero.
    pub start_index: usize,
    /// How many lines are replaced.
    pub old_len: usize,
    /// The lines in their place.
    pub new_lines: Vec<String>,
}

/// A replacement, by its contents.
#[verifier::ext_equal]
pub ghost struct ReplacementView {
    /// The first line of the range, from zero.
    pub start: int,
    /// How many lines are replaced.
    pub len: int,
    /// The lines in their place.
    pub new: Seq<Seq<char>>,
}

impl ReplacementView {
    /// Where the range ends: the first line that is not replaced.
    pub open spec fn end(self) -> int {
        self.start + self.len
    }
}

impl View for Replacement {
    type V = ReplacementView;

    open spec fn view(&self) -> ReplacementView {
        ReplacementView {
            start: self.start_index as int,
            len: self.old_len as int,
            new: views(self.new_lines@),
        }
    }
}

/// The replacements, by their contents.
pub open spec fn replacement_views(v: Seq<Replacement>) -> Seq<ReplacementView> {
    Seq::new(v.len(), |i: int| v[i]@)
}

/// The place, from `i` on, of a replacement that begins at `start`: behind all
/// that begin no later.
pub open spec fn place_for(sorted: Seq<ReplacementView>, start: int, i: int) -> int
    decreases sorted.len() - i,
{
    if i < 0 || i >= sorted.len() || sorted[i].start > start {
        i
    } else {
        place_for(sorted, start, i + 1)
    }
}

/// The replacements in the order in which they begin; those that begin on the
/// same line stay as they were.
pub open spec fn by_start(reps: Seq<ReplacementView>) -> Seq<ReplacementView>
    decreases reps.len(),
{
    if reps.len() == 0 {
        Seq::empty()
    } else {
        let before = by_start(reps.drop_last());
        before.insert(place_for(before, reps.last().start, 0), reps.last())
    }
}

/// A place lies between the replacements that begin no later and those that
/// begin later.
proof fn lemma_place_for(sorted: Seq<ReplacementView>, start: int, i: int)
    requires
        0 <= i <= sorted.len(),
    ensures
        ({
            let k = place_for(sorted, start, i);
            &&& i <= k <= sorted.len()
            &&& forall|j: int| i <= j < k ==> #[trigger] sorted[j].start <= start
            &&& k < sorted.len() ==> sorted[k].start > start
        }),
    decreases sorted.len() - i,
{
    if i < sorted.len() && sorted[i].start <= start {
        lemma_place_for(sorted, start, i + 1);
    }
}

/// The order holds the same replacements, and each begins no earlier than those
/// before it.
pub proof fn lemma_by_start(reps: Seq<ReplacementView>)
    ensures
        by_start(reps).len() == reps.len(),
        by_start(reps).to_multiset() == reps.to_multiset(),
        forall|i: int, j: int|
            0 <= i <= j < reps.len() ==> (#[trigger] by_start(reps)[i]).start <= (
            #[trigger] by_start(reps)[j]).start,
    decreases reps.len(),
{
    broadcast use vstd::seq_lib::group_to_multiset_ensures;

    if reps.len() > 0 {
        let rest = reps.drop_last();
        lemma_by_start(rest);
        let before = by_start(rest);
        let r = reps.last();
        let k = place_for(before, r.start, 0);
        lemma_place_for(before, r.start, 0);
        let after = by_start(reps);
        assert(after == before.insert(k, r));
        assert forall|i: int, j: int| 0 <= i <= j < reps.len() implies (
        #[trigger] after[i]).start <= (#[trigger] after[j]).start by {
            if i < k && j > k {
                assert(after[i] == before[i] && after[j] == before[j - 1]);
            } else if i > k {
                assert(after[i] == before[i - 1] && after[j] == before[j - 1]);
                assert(before[k].start <= before[i - 1].start);
            } else if j < k {
                assert(after[i] == before[i] && after[j] == before[j]);
            } else if i == k && j > k {
                assert(after[j] == before[j - 1]);
                assert(before[k].start <= before[j - 1].start);
            }
        }
        assert(reps =~= rest.push(r));
        vstd::seq_lib::to_multiset_insert(before, k, r);
        assert(after.to_multiset() =~= reps.to_multiset());
    }
}

/// Sorts replacements by where they begin.
pub fn sort_replacements(reps: Vec<Replacement>) -> (r: Vec<Replacement>)
    ensures
        replacement_views(r@) == by_start(replacement_views(reps@)),
{
    let ghost all = replacement_views(reps@);
    let mut out: Vec<Replacement> = Vec::new();
    let mut i: usize = 0;
    assert(all.take(0) =~= Seq::empty());
    assert(replacement_views(out@) =~= Seq::empty());
    while i < reps.len()
        invariant
            all == replacement_views(reps@),
            i <= reps@.len(),
            replacement_views(out@) == by_start(all.take(i as int)),
        decreases reps@.len() - i,
    {
        let rep = &reps[i];
        let ghost before = replacement_views(out@);
        let mut k: usize = 0;
        while k < out.len() && out[k].start_index <= rep.start_index
            invariant
                before == replacement_views(out@),
                k <= out@.len(),
                place_for(before, rep@.start, 0) == place_for(before, rep@.start, k as int),
            decreases out@.len() - k,
        {
            assert(before[k as int] == out@[k as int]@);
            k = k + 1;
        }
        proof {
            if k < out@.len() {
                assert(before[k as int] == out@[k as int]@);
            }
            assert(all.take(i + 1).drop_last() =~= all.take(i as int));
            assert(all.take(i + 1).last() == rep@);
        }
        let ghost raw = out@;
        let copy = Replacement {
            start_index: rep.start_index,
            old_len: rep.old_len,
            new_lines: copy_texts(&rep.new_lines),
        };
        let ghost cv = copy@;
        out.insert(k, copy);
        assert(replacement_views(out@) =~= before.insert(k as int, cv));
        i = i + 1;
    }
    assert(all.take(i as int) =~= all);
    out
}

/// `lines` with the replacements made from the last to the first; none where a
/// range is not there any more.
pub open spec fn replaced_back(lines: Seq<Seq<char>>, reps: Seq<ReplacementView>) -> Option<
    Seq<Seq<char>>,
>
    decreases reps.len(),
{
    if reps.len() == 0 {
        Some(lines)
    } else {
        let r = reps.last();
        if r.end() <= lines.len() {
            replaced_back(spliced(lines, r.start, r.end(), r.new), reps.drop_last())
        } else {
            None
        }
    }
}

/// The optional lines, by their contents.
pub open spec fn opt_lines(v: Option<Vec<String>>) -> Option<Seq<Seq<char>>> {
    match v {
        Some(x) => Some(views(x@)),
        None => None,
    }
}

/// Makes the replacements from the last to the first.
pub fn replace_back(lines: &[String], reps: &[Replacement]) -> (r: Option<Vec<String>>)
    ensures
        opt_lines(r) == replaced_back(views(lines@), replacement_views(reps@)),
{
    let ghost l = views(lines@);
    let ghost all = replacement_views(reps@);
    let ghost goal = replaced_back(l, all);
    let mut out = copy_texts(lines);
    let mut i: usize = reps.len();
    assert(all.take(i as int) =~= all);
    while i > 0
        invariant
            l == views(lines@),
            all == replacement_views(reps@),
            goal == replaced_back(l, all),
            i <= reps@.len(),
            goal == replaced_back(views(out@), all.take(i as int)),
        decreases i,
    {
        let rep = &reps[i - 1];
        proof {
            assert(all.take(i as int).last() == rep@);
            assert(all.take(i as int).drop_last() =~= all.take(i - 1));
            assert(views(out@).len() == out@.len());
        }
        if rep.start_index > out.len() || rep.old_len > out.len() - rep.start_index {
            return None;
        }
        out = splice(&out, rep.start_index, rep.start_index + rep.old_len, &rep.new_lines);
        i = i - 1;
    }
    Some(out)
}

/// Replacements that begin one after the other are in order already.
pub proof fn lemma_by_start_in_order(reps: Seq<ReplacementView>)
    requires
        forall|i: int, j: int|
            0 <= i < j < reps.len() ==> (#[trigger] reps[i]).start <= (#[trigger] reps[j]).start,
    ensures
        by_start(reps) == reps,
    decreases reps.len(),
{
    if reps.len() > 0 {
        let rest = reps.drop_last();
        assert forall|i: int, j: int| 0 <= i < j < rest.len() implies (#[trigger] rest[i]).start
            <= (#[trigger] rest[j]).start by {
            assert(rest[i] == reps[i] && rest[j] == reps[j]);
        }
        lemma_by_start_in_order(rest);
        let k = place_for(rest, reps.last().start, 0);
        lemma_place_for(rest, reps.last().start, 0);
        if k < rest.len() {
            assert(rest[k] == reps[k]);
            assert(reps[k].start <= reps[reps.len() - 1].start);
        }
        assert(rest.insert(k, reps.last()) =~= reps);
    } else {
        assert(by_start(reps) =~= reps);
    }
}

} // verus!
