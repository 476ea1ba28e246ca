//! Which loaded vector indices to drop: the least recently used while the
//! loaded ones exceed the memory budget, and those left unused too long.
use vstd::prelude::*;

use crate::text::{chars_of, string_of};

verus! {

/// A loaded index: its project, its size in bytes, and when it was last used
/// (a monotonic clock reading).
pub struct LoadedIndex {
    pub project_id: String,
    pub bytes: u64,
    pub last_access: u64,
}

/// The memory budget for loaded indices when none is configured: 512 MiB.
pub const DEFAULT_INDEX_BUDGET: u64 = 536870912;

pub open spec fn total_bytes(s: Seq<LoadedIndex>) -> int
    decreases s.len(),
{
    if s.len() == 0 {
        0
    } else {
        total_bytes(s.drop_last()) + s.last().bytes
    }
}

/// The position of the least recently used index (the first of equals).
pub open spec fn lru_pos(s: Seq<LoadedIndex>) -> int
    decreases s.len(),
{
    if s.len() <= 1 {
        0
    } else {
        let p = lru_pos(s.drop_last());
        if s.last().last_access < s[p].last_access {
            s.len() - 1
        } else {
            p
        }
    }
}

pub proof fn lemma_lru_pos(s: Seq<LoadedIndex>)
    requires
        s.len() > 0,
    ensures
        0 <= lru_pos(s) < s.len(),
        forall|i: int| 0 <= i < s.len() ==> s[lru_pos(s)].last_access <= #[trigger] s[i].last_access,
    decreases s.len(),
{
    if s.len() > 1 {
        lemma_lru_pos(s.drop_last());
        let p = lru_pos(s.drop_last());
        assert forall|i: int| 0 <= i < s.len() implies s[lru_pos(s)].last_access <= #[trigger] s[i].last_access by {
            if i < s.len() - 1 {
                assert(s.drop_last()[i] == s[i]);
            }
        }
    }
}

/// The projects whose indices are dropped to get under `budget`: while the
/// loaded indices take more than the budget, the least recently used one.
pub open spec fn evictions(s: Seq<LoadedIndex>, budget: u64) -> Seq<Seq<char>>
    decreases s.len(),
{
    if s.len() == 0 || total_bytes(s) <= budget {
        Seq::empty()
    } else {
        let m = lru_pos(s);
        proof {
            lemma_lru_pos(s);
        }
        seq![s[m].project_id@] + evictions(s.remove(m), budget)
    }
}

fn total(s: &Vec<LoadedIndex>) -> (t: u128)
    requires
        s@.len() <= usize::MAX,
    ensures
        t == total_bytes(s@),
{
    let mut t: u128 = 0;
    let mut i: usize = 0;
    while i < s.len()
        invariant
            i <= s@.len(),
            t == total_bytes(s@.take(i as int)),
            t <= i * 0x1_0000_0000_0000_0000,
        decreases s@.len() - i,
    {
        assert(s@.take(i + 1).drop_last() == s@.take(i as int));
        t = t + s[i].bytes as u128;
        i += 1;
    }
    assert(s@.take(s@.len() as int) == s@);
    t
}

fn lru(s: &Vec<LoadedIndex>) -> (p: usize)
    requires
        s@.len() > 0,
    ensures
        p == lru_pos(s@),
{
    let mut p: usize = 0;
    let mut i: usize = 1;
    while i < s.len()
        invariant
            1 <= i <= s@.len(),
            p == lru_pos(s@.take(i as int)),
            p < i,
        decreases s@.len() - i,
    {
        assert(s@.take(i + 1).drop_last() == s@.take(i as int));
        assert(s@.take(i as int)[p as int] == s@[p as int]);
        if s[i].last_access < s[p].last_access {
            p = i;
        }
        i += 1;
    }
    assert(s@.take(s@.len() as int) == s@);
    p
}

/// The projects whose indices to drop to get under the budget (see
/// `evictions`), in the order they are dropped.
pub fn plan_evictions(loaded: Vec<LoadedIndex>, budget: u64) -> (out: Vec<String>)
    ensures
        out@.map_values(|s: String| s@) == evictions(loaded@, budget),
{
    let mut s = loaded;
    let ghost all = s@;
    let mut out: Vec<String> = Vec::new();
    while s.len() > 0 && total(&s) > budget as u128
        invariant
            out@.map_values(|x: String| x@) + evictions(s@, budget) == evictions(all, budget),
        decreases s@.len(),
    {
        let m = lru(&s);
        proof {
            lemma_lru_pos(s@);
        }
        let ghost before = s@;
        let e = s.remove(m);
        let ghost o = out@;
        out.push(string_of(chars_of(e.project_id.as_str()).as_slice()));
        assert(out@.map_values(|x: String| x@) =~= o.map_values(|x: String| x@).push(e.project_id@));
        assert(evictions(before, budget) == seq![before[m as int].project_id@] + evictions(s@, budget));
        assert(out@.map_values(|x: String| x@) + evictions(s@, budget) =~= o.map_values(|x: String| x@) + evictions(before, budget));
    }
    assert(evictions(s@, budget) =~= Seq::<Seq<char>>::empty());
    assert(out@.map_values(|x: String| x@) + Seq::<Seq<char>>::empty() =~= out@.map_values(|x: String| x@));
    out
}

/// The projects whose indices were not used for longer than `max_age` at
/// `now`, in order.
pub open spec fn stale(s: Seq<LoadedIndex>, now: u64, max_age: u64) -> Seq<Seq<char>>
    decreases s.len(),
{
    if s.len() == 0 {
        Seq::empty()
    } else {
        let prev = stale(s.drop_last(), now, max_age);
        let e = s.last();
        let idle: int = if now >= e.last_access { now - e.last_access } else { 0 };
        if idle > max_age {
            prev.push(e.project_id@)
        } else {
            prev
        }
    }
}

/// The indices left unused for too long (see `stale`).
pub fn stale_indices(loaded: &Vec<LoadedIndex>, now: u64, max_age: u64) -> (out: Vec<String>)
    ensures
        out@.map_values(|s: String| s@) == stale(loaded@, now, max_age),
{
    let mut out: Vec<String> = Vec::new();
    let mut i: usize = 0;
    while i < loaded.len()
        invariant
            i <= loaded@.len(),
            out@.map_values(|s: String| s@) == stale(loaded@.take(i as int), now, max_age),
        decreases loaded@.len() - i,
    {
        assert(loaded@.take(i + 1).drop_last() == loaded@.take(i as int));
        let e = &loaded[i];
        let idle: u64 = if now >= e.last_access { now - e.last_access } else { 0 };
        if idle > max_age {
            let ghost o = out@;
            out.push(string_of(chars_of(e.project_id.as_str()).as_slice()));
            assert(out@.map_values(|s: String| s@) =~= o.map_values(|s: String| s@).push(e.project_id@));
        }
        i += 1;
    }
    assert(loaded@.take(loaded@.len() as int) == loaded@);
    out
}


/// The indices left loaded after the evictions.
pub open spec fn remaining(s: Seq<LoadedIndex>, budget: u64) -> Seq<LoadedIndex>
    decreases s.len(),
{
    if s.len() == 0 || total_bytes(s) <= budget {
        s
    } else {
        let m = lru_pos(s);
        proof {
            lemma_lru_pos(s);
        }
        remaining(s.remove(m), budget)
    }
}

/// After the evictions the indices still loaded fit in the budget, and one
/// index is dropped per eviction.
pub proof fn lemma_evictions_fit(s: Seq<LoadedIndex>, budget: u64)
    ensures
        total_bytes(remaining(s, budget)) <= budget,
        remaining(s, budget).len() + evictions(s, budget).len() == s.len(),
    decreases s.len(),
{
    if s.len() == 0 {
    } else if total_bytes(s) <= budget {
    } else {
        lemma_lru_pos(s);
        lemma_evictions_fit(s.remove(lru_pos(s)), budget);
    }
}

/// An index used more recently than another is not evicted before it: the
/// first eviction is an index used least recently.
pub proof fn lemma_first_eviction_is_lru(s: Seq<LoadedIndex>, budget: u64)
    requires
        s.len() > 0,
        total_bytes(s) > budget,
    ensures
        evictions(s, budget).len() > 0,
        exists|m: int|
            0 <= m < s.len() && evictions(s, budget)[0] == s[m].project_id@ && forall|i: int|
                0 <= i < s.len() ==> s[m].last_access <= #[trigger] s[i].last_access,
{
    lemma_lru_pos(s);
    let m = lru_pos(s);
    assert(evictions(s, budget)[0] == s[m].project_id@);
}

} // verus!
