//! The interface shared by the desktop commands and the memory server.
use vstd::prelude::*;

use crate::project::slug;

verus! {

/// Counts shown on the dashboard.
pub struct Stats {
    pub total_memories: i64,
    pub total_projects: i64,
    pub total_agents: i64,
    /// Memories per type.
    pub by_type: Vec<(String, i64)>,
    /// Memories per project, most first.
    pub by_project: Vec<(String, i64)>,
    pub index_bytes: u64,
    pub recent_writes_7d: i64,
    pub recent_reads_7d: i64,
}

/// The id an agent is registered under: the slug of its name.
pub fn slugify(value: &str) -> (r: String)
    ensures
        r@ == slug(value@),
{
    crate::project::slugify(value)
}

/// The most activity entries one request returns.
pub const MAX_ACTIVITY: usize = 500;

/// How many activity entries a request for `limit` returns at most: the
/// limit, raised to one and capped at five hundred.
pub fn activity_limit(limit: usize) -> (n: i64)
    ensures
        n == if limit < 1 {
            1
        } else if limit > MAX_ACTIVITY {
            MAX_ACTIVITY as int
        } else {
            limit as int
        },
{
    if limit < 1 {
        1
    } else if limit > MAX_ACTIVITY {
        MAX_ACTIVITY as i64
    } else {
        limit as i64
    }
}

/// Milliseconds in seven days.
pub const WEEK_MS: i64 = 604800000;

/// The moment seven days before `now_ms`, from which recent reads and writes
/// are counted.
pub fn week_ago(now_ms: i64) -> (t: i64)
    requires
        now_ms >= i64::MIN + WEEK_MS,
    ensures
        t == now_ms - WEEK_MS,
{
    now_ms - WEEK_MS
}

/// The position at which an entry with `count` goes into `sorted` (most
/// first) so that it follows every entry with as many or more.
fn insert_position(sorted: &Vec<(String, i64)>, count: i64) -> (p: usize)
    requires
        forall|i: int, j: int| 0 <= i < j < sorted@.len() ==> sorted@[i].1 >= sorted@[j].1,
    ensures
        p <= sorted@.len(),
        forall|i: int| 0 <= i < p ==> sorted@[i].1 >= count,
        forall|i: int| p <= i < sorted@.len() ==> sorted@[i].1 < count,
{
    let mut p: usize = 0;
    while p < sorted.len() && sorted[p].1 >= count
        invariant
            p <= sorted@.len(),
            forall|i: int| 0 <= i < p ==> sorted@[i].1 >= count,
        decreases sorted@.len() - p,
    {
        p += 1;
    }
    proof {
        if p < sorted@.len() {
            assert forall|i: int| p <= i < sorted@.len() implies sorted@[i].1 < count by {
                if i > p {
                    assert(sorted@[p as int].1 >= sorted@[i].1);
                }
            }
        }
    }
    p
}

/// The entries with count `v`, in order.
pub open spec fn with_count(s: Seq<(String, i64)>, v: i64) -> Seq<(String, i64)>
    decreases s.len(),
{
    if s.len() == 0 {
        Seq::empty()
    } else if s.last().1 == v {
        with_count(s.drop_last(), v).push(s.last())
    } else {
        with_count(s.drop_last(), v)
    }
}

pub proof fn lemma_with_count_concat(a: Seq<(String, i64)>, b: Seq<(String, i64)>, v: i64)
    ensures
        with_count(a + b, v) == with_count(a, v) + with_count(b, v),
    decreases b.len(),
{
    if b.len() == 0 {
        assert(a + b == a);
        assert(with_count(a, v) + with_count(b, v) == with_count(a, v));
    } else {
        lemma_with_count_concat(a, b.drop_last(), v);
        assert((a + b).drop_last() == a + b.drop_last());
        assert((a + b).last() == b.last());
    }
}

pub proof fn lemma_with_count_none(s: Seq<(String, i64)>, v: i64)
    requires
        forall|i: int| 0 <= i < s.len() ==> s[i].1 != v,
    ensures
        with_count(s, v) == Seq::<(String, i64)>::empty(),
    decreases s.len(),
{
    if s.len() > 0 {
        lemma_with_count_none(s.drop_last(), v);
    }
}

/// Sorts entries by count, most first, keeping entries with equal counts in
/// their order: the result is ordered by count, and for every count its
/// entries are those of the input with that count, in the same order.
pub fn sort_by_count_desc(entries: Vec<(String, i64)>) -> (r: Vec<(String, i64)>)
    ensures
        r@.len() == entries@.len(),
        forall|i: int, j: int| 0 <= i < j < r@.len() ==> r@[i].1 >= r@[j].1,
        forall|v: i64| #[trigger] with_count(r@, v) == with_count(entries@, v),
{
    let ghost all = entries@;
    let mut r: Vec<(String, i64)> = Vec::new();
    let mut k: usize = 0;
    for e in it: entries
        invariant
            it.seq() == all,
            k == it.index(),
            k <= all.len(),
            r@.len() == k,
            forall|i: int, j: int| 0 <= i < j < r@.len() ==> r@[i].1 >= r@[j].1,
            forall|v: i64| #[trigger] with_count(r@, v) == with_count(all.take(k as int), v),
    {
        let ghost before = r@;
        let p = insert_position(&r, e.1);
        let ghost x = e;
        r.insert(p, e);
        proof {
            assert(all.take(k + 1).drop_last() == all.take(k as int));
            assert(all.take(k + 1).last() == all[k as int]);
            assert(r@ == before.take(p as int) + seq![x] + before.skip(p as int));
            assert forall|v: i64| #[trigger] with_count(r@, v) == with_count(all.take(k + 1), v) by {
                lemma_with_count_concat(before.take(p as int) + seq![x], before.skip(p as int), v);
                lemma_with_count_concat(before.take(p as int), seq![x], v);
                lemma_with_count_concat(before.take(p as int), before.skip(p as int), v);
                assert(before.take(p as int) + before.skip(p as int) == before);
                assert(with_count(seq![x], v) == if x.1 == v { seq![x] } else { Seq::empty() }) by {
                    assert(seq![x].drop_last() == Seq::<(String, i64)>::empty());
                    assert(seq![x].last() == x);
                    assert(with_count(Seq::<(String, i64)>::empty(), v) == Seq::<(String, i64)>::empty());
                    if x.1 == v {
                        assert(Seq::<(String, i64)>::empty().push(x) == seq![x]);
                    }
                }
                if x.1 == v {
                    lemma_with_count_none(before.skip(p as int), v);
                }
            }
        }
        k = r.len();
    }
    assert(all.take(all.len() as int) == all);
    r
}

} // verus!
