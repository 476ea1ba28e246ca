//! Memory maintenance bookkeeping: the report of a consolidation run and the
//! tag merge applied when a near-duplicate is folded into the memory it
//! duplicates.
use vstd::prelude::*;

use crate::text::{chars_eq, chars_of};

verus! {

/// What one consolidation run did.
#[derive(Debug, Clone, Copy, PartialEq, Eq, Structural)]
pub struct ConsolidateReport {
    pub decayed: usize,
    pub duplicates_found: usize,
    pub merged: usize,
    pub removed: usize,
}

impl ConsolidateReport {
    pub fn empty() -> (r: Self)
        ensures
            r.decayed == 0 && r.duplicates_found == 0 && r.merged == 0 && r.removed == 0,
    {
        ConsolidateReport { decayed: 0, duplicates_found: 0, merged: 0, removed: 0 }
    }
}

impl Default for ConsolidateReport {
    fn default() -> (r: Self)
        ensures
            r.decayed == 0 && r.duplicates_found == 0 && r.merged == 0 && r.removed == 0,
    {
        ConsolidateReport::empty()
    }
}

/// How many of the outcomes are `true`.
pub open spec fn count_true(s: Seq<bool>) -> nat
    decreases s.len(),
{
    if s.len() == 0 {
        0
    } else {
        count_true(s.drop_last()) + if s.last() {
            1nat
        } else {
            0nat
        }
    }
}

/// The report of a run that decayed `decayed` memories, found the duplicate
/// pairs whose merges had the given outcomes: a pair whose memories both
/// still existed is merged and its duplicate removed.
pub fn tally(decayed: usize, merge_outcomes: &[bool]) -> (r: ConsolidateReport)
    ensures
        r.decayed == decayed,
        r.duplicates_found == merge_outcomes@.len(),
        r.merged == count_true(merge_outcomes@),
        r.removed == count_true(merge_outcomes@),
{
    let mut merged: usize = 0;
    let mut i: usize = 0;
    while i < merge_outcomes.len()
        invariant
            i <= merge_outcomes@.len(),
            merged == count_true(merge_outcomes@.take(i as int)),
            merged <= i,
        decreases merge_outcomes@.len() - i,
    {
        assert(merge_outcomes@.take(i + 1).drop_last() == merge_outcomes@.take(i as int));
        if merge_outcomes[i] {
            merged += 1;
        }
        i += 1;
    }
    assert(merge_outcomes@.take(merge_outcomes@.len() as int) == merge_outcomes@);
    ConsolidateReport {
        decayed,
        duplicates_found: merge_outcomes.len(),
        merged,
        removed: merged,
    }
}

pub open spec fn tag_views(v: Seq<String>) -> Seq<Seq<char>> {
    v.map_values(|s: String| s@)
}

/// `keep` followed by the tags of `extra` that it lacks, first occurrences only.
pub open spec fn merged_tags(keep: Seq<Seq<char>>, extra: Seq<Seq<char>>) -> Seq<Seq<char>>
    decreases extra.len(),
{
    if extra.len() == 0 {
        keep
    } else {
        let prev = merged_tags(keep, extra.drop_last());
        if prev.contains(extra.last()) {
            prev
        } else {
            prev.push(extra.last())
        }
    }
}

fn contains_tag(tags: &Vec<String>, t: &String) -> (b: bool)
    ensures
        b == tag_views(tags@).contains(t@),
{
    let tc = chars_of(t.as_str());
    let mut i: usize = 0;
    while i < tags.len()
        invariant
            i <= tags@.len(),
            tc@ == t@,
            forall|k: int| 0 <= k < i ==> (#[trigger] tags@[k])@ != t@,
        decreases tags@.len() - i,
    {
        let c = chars_of(tags[i].as_str());
        if chars_eq(c.as_slice(), tc.as_slice()) {
            assert(tag_views(tags@)[i as int] == t@);
            return true;
        }
        i += 1;
    }
    assert forall|k: int| 0 <= k < tag_views(tags@).len() implies tag_views(tags@)[k] != t@ by {
        assert(tags@[k]@ != t@);
    }
    false
}

/// The tags of the memory that is kept after merging a duplicate into it:
/// its own, then each tag of the duplicate it does not have yet.
pub fn merge_tags(keep: &Vec<String>, extra: &Vec<String>) -> (r: Vec<String>)
    ensures
        tag_views(r@) == merged_tags(tag_views(keep@), tag_views(extra@)),
{
    let mut out: Vec<String> = keep.clone();
    assert(tag_views(out@) =~= tag_views(keep@));
    let mut i: usize = 0;
    while i < extra.len()
        invariant
            i <= extra@.len(),
            tag_views(out@) == merged_tags(tag_views(keep@), tag_views(extra@).take(i as int)),
        decreases extra@.len() - i,
    {
        assert(tag_views(extra@).take(i + 1).drop_last() == tag_views(extra@).take(i as int));
        if !contains_tag(&out, &extra[i]) {
            let ghost before = out@;
            out.push(extra[i].clone());
            assert(tag_views(out@) =~= tag_views(before).push(extra@[i as int]@));
        }
        i += 1;
    }
    assert(tag_views(extra@).take(extra@.len() as int) == tag_views(extra@));
    out
}

/// Merging keeps every tag of the kept memory and gains every tag of the
/// duplicate.
pub proof fn lemma_merged_tags_union(keep: Seq<Seq<char>>, extra: Seq<Seq<char>>)
    ensures
        forall|i: int| 0 <= i < keep.len() ==> merged_tags(keep, extra)[i] == keep[i],
        keep.len() <= merged_tags(keep, extra).len(),
        forall|t: Seq<char>| extra.contains(t) ==> merged_tags(keep, extra).contains(t),
        forall|t: Seq<char>|
            merged_tags(keep, extra).contains(t) ==> keep.contains(t) || extra.contains(t),
    decreases extra.len(),
{
    if extra.len() > 0 {
        lemma_merged_tags_union(keep, extra.drop_last());
        let prev = merged_tags(keep, extra.drop_last());
        assert forall|t: Seq<char>| extra.contains(t) implies merged_tags(keep, extra).contains(
            t,
        ) by {
            let k = choose|k: int| 0 <= k < extra.len() && extra[k] == t;
            if k < extra.len() - 1 {
                assert(extra.drop_last()[k] == t);
                assert(extra.drop_last().contains(t));
                assert(prev.contains(t));
                let j = choose|j: int| 0 <= j < prev.len() && prev[j] == t;
                if !prev.contains(extra.last()) {
                    assert(prev.push(extra.last())[j] == t);
                }
            } else if !prev.contains(extra.last()) {
                assert(prev.push(extra.last())[prev.len() as int] == t);
            }
        }
        assert forall|t: Seq<char>|
            merged_tags(keep, extra).contains(t) implies keep.contains(t) || extra.contains(t) by {
            let j = choose|j: int|
                0 <= j < merged_tags(keep, extra).len() && merged_tags(keep, extra)[j] == t;
            if j < prev.len() {
                assert(prev[j] == t);
                if extra.drop_last().contains(t) {
                    let k = choose|k: int| 0 <= k < extra.drop_last().len() && extra.drop_last()[k] == t;
                    assert(extra[k] == t);
                }
            } else {
                assert(extra[extra.len() - 1] == t);
            }
        }
    }
}

} // verus!
