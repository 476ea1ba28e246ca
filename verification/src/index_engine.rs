//! The bookkeeping of a project's vector index: which memory uid owns which
//! numeric id in the quantized vector store, and which id comes next.
//!
//! The vectors themselves live in the vector store; this map decides the ids
//! that are handed to it, so that re-adding a uid replaces its vector instead
//! of adding a second one.
use vstd::prelude::*;

use crate::text::{append_chars, chars_eq, chars_of, string_of};

verus! {

/// One uid and the id of its vector.
pub struct IdEntry {
    pub uid: String,
    pub ext_id: u64,
}

/// uid ↔ vector-id map of one project index.
pub struct IdMap {
    entries: Vec<IdEntry>,
    next_extid: u64,
}

/// What one `add` decided for a uid.
#[derive(Debug, Clone, Copy, PartialEq, Eq, Structural)]
pub struct Slot {
    /// The vector id to store the uid's vector under.
    pub ext_id: u64,
    /// The uid already had this id: its old vector must be removed first.
    pub replaces: bool,
}

/// What `add_batch` decided: the position in the batch of each item that is
/// kept (the first of each uid), and its slot.
pub struct BatchPlan {
    pub positions: Vec<usize>,
    pub slots: Vec<Slot>,
}

pub open spec fn pair_views(e: Seq<IdEntry>) -> Seq<(Seq<char>, u64)> {
    e.map_values(|x: IdEntry| (x.uid@, x.ext_id))
}

/// The index of the pair holding `uid`, if any.
pub open spec fn has_uid(p: Seq<(Seq<char>, u64)>, uid: Seq<char>) -> bool {
    exists|i: int| 0 <= i < p.len() && (#[trigger] p[i]).0 == uid
}

pub open spec fn has_ext(p: Seq<(Seq<char>, u64)>, ext: u64) -> bool {
    exists|i: int| 0 <= i < p.len() && (#[trigger] p[i]).1 == ext
}

/// The id that `uid` has in `p` (meaningful when `has_uid`).
pub open spec fn ext_of(p: Seq<(Seq<char>, u64)>, uid: Seq<char>) -> u64 {
    p[choose|i: int| 0 <= i < p.len() && (#[trigger] p[i]).0 == uid].1
}

pub open spec fn uid_of(p: Seq<(Seq<char>, u64)>, ext: u64) -> Seq<char> {
    p[choose|i: int| 0 <= i < p.len() && (#[trigger] p[i]).1 == ext].0
}

pub open spec fn uids_distinct(p: Seq<(Seq<char>, u64)>) -> bool {
    forall|i: int, j: int| 0 <= i < j < p.len() ==> (#[trigger] p[i]).0 != (#[trigger] p[j]).0
}

pub open spec fn exts_distinct(p: Seq<(Seq<char>, u64)>) -> bool {
    forall|i: int, j: int| 0 <= i < j < p.len() ==> (#[trigger] p[i]).1 != (#[trigger] p[j]).1
}

pub open spec fn exts_below(p: Seq<(Seq<char>, u64)>, next: u64) -> bool {
    forall|i: int| 0 <= i < p.len() ==> (#[trigger] p[i]).1 < next
}

/// The pairs without the one at `i`.
pub open spec fn without(p: Seq<(Seq<char>, u64)>, i: int) -> Seq<(Seq<char>, u64)> {
    p.take(i) + p.skip(i + 1)
}

impl IdMap {
    /// The (uid, id) pairs, oldest first.
    pub closed spec fn pairs(&self) -> Seq<(Seq<char>, u64)> {
        pair_views(self.entries@)
    }

    /// The id the next new uid receives.
    pub closed spec fn next(&self) -> u64 {
        self.next_extid
    }

    /// Each uid has one id, and every id is below the next one.
    pub open spec fn wf(&self) -> bool {
        &&& uids_distinct(self.pairs())
        &&& exts_below(self.pairs(), self.next())
        &&& self.next() >= 1
    }

    /// No two uids share an id.
    pub open spec fn bijective(&self) -> bool {
        exts_distinct(self.pairs())
    }

    pub fn new() -> (m: Self)
        ensures
            m.wf(),
            m.bijective(),
            m.pairs().len() == 0,
            m.next() == 1,
    {
        let m = IdMap { entries: Vec::new(), next_extid: 1 };
        assert(m.pairs() =~= Seq::empty());
        m
    }

    /// Rebuilds the map from persisted (uid, id) pairs, whose uids are
    /// distinct; the next id is one past the largest, or 1 when there is none.
    pub fn from_pairs(pairs: Vec<(String, u64)>) -> (m: Self)
        requires
            uids_distinct(pairs@.map_values(|x: (String, u64)| (x.0@, x.1))),
            forall|i: int| 0 <= i < pairs@.len() ==> (#[trigger] pairs@[i]).1 < u64::MAX,
        ensures
            m.wf(),
            m.pairs() == pairs@.map_values(|x: (String, u64)| (x.0@, x.1)),
            m.next() == 1 + max_ext(m.pairs()),
    {
        let ghost src = pairs@.map_values(|x: (String, u64)| (x.0@, x.1));
        let mut entries: Vec<IdEntry> = Vec::new();
        let mut max: u64 = 0;
        let mut i: usize = 0;
        let n = pairs.len();
        let taken = pairs;
        while i < taken.len()
            invariant
                i <= taken@.len(),
                n == src.len(),
                pair_views(entries@) == src.take(i as int),
                max == max_ext(src.take(i as int)),
                max < u64::MAX,
                forall|k: int| 0 <= k < taken@.len() ==> (#[trigger] taken@[k]).1 < u64::MAX,
                src == taken@.map_values(|x: (String, u64)| (x.0@, x.1)),
            decreases taken@.len() - i,
        {
            let uid = taken[i].0.clone();
            assert(src[i as int] == (taken@[i as int].0@, taken@[i as int].1));
            let ext = taken[i].1;
            entries.push(IdEntry { uid, ext_id: ext });
            assert(src.take(i + 1).drop_last() == src.take(i as int));
            assert(pair_views(entries@) =~= src.take(i + 1));
            if ext > max {
                max = ext;
            }
            i += 1;
        }
        assert(src.take(n as int) == src);
        proof {
            lemma_max_ext_bounds(src);
        }
        let m = IdMap { entries, next_extid: max + 1 };
        m
    }

    pub fn len(&self) -> (n: usize)
        ensures
            n == self.pairs().len(),
    {
        self.entries.len()
    }

    /// Whether no two uids share an id (see `bijective`).
    pub fn is_bijective(&self) -> (b: bool)
        ensures
            b == self.bijective(),
    {
        let ghost p = self.pairs();
        let n = self.entries.len();
        let mut i: usize = 0;
        while i < n
            invariant
                i <= n,
                n == p.len(),
                p == self.pairs(),
                forall|a: int, c: int| 0 <= a < c < p.len() && a < i ==> (#[trigger] p[a]).1 != (#[trigger] p[c]).1,
            decreases n - i,
        {
            let mut j: usize = i + 1;
            while j < n
                invariant
                    i < j <= n,
                    n == p.len(),
                    p == self.pairs(),
                    forall|c: int| i < c < j ==> p[i as int].1 != (#[trigger] p[c]).1,
                decreases n - j,
            {
                assert(p[i as int].1 == self.entries@[i as int].ext_id);
                assert(p[j as int].1 == self.entries@[j as int].ext_id);
                if self.entries[i].ext_id == self.entries[j].ext_id {
                    return false;
                }
                j += 1;
            }
            i += 1;
        }
        true
    }

    /// The id the next new uid gets.
    pub fn next_ext_id(&self) -> (n: u64)
        ensures
            n == self.next(),
    {
        self.next_extid
    }

    /// The (uid, id) pairs, in the order they were added.
    pub fn to_pairs(&self) -> (v: Vec<(String, u64)>)
        ensures
            v@.map_values(|x: (String, u64)| (x.0@, x.1)) == self.pairs(),
    {
        let mut v: Vec<(String, u64)> = Vec::new();
        let mut i: usize = 0;
        while i < self.entries.len()
            invariant
                i <= self.entries@.len(),
                v@.len() == i,
                v@.map_values(|x: (String, u64)| (x.0@, x.1)) == pair_views(self.entries@).take(i as int),
            decreases self.entries@.len() - i,
        {
            let e = &self.entries[i];
            let ghost before = v@;
            v.push((string_of(chars_of(e.uid.as_str()).as_slice()), e.ext_id));
            assert(v@.map_values(|x: (String, u64)| (x.0@, x.1)) =~= pair_views(self.entries@).take(i + 1));
            i += 1;
        }
        assert(pair_views(self.entries@).take(self.entries@.len() as int) =~= pair_views(self.entries@));
        v
    }

    fn find(&self, uid: &[char]) -> (r: Option<usize>)
        ensures
            r matches Some(i) ==> i < self.pairs().len() && self.pairs()[i as int].0 == uid@,
            r is None ==> !has_uid(self.pairs(), uid@),
    {
        let mut i: usize = 0;
        while i < self.entries.len()
            invariant
                i <= self.entries@.len(),
                forall|k: int| 0 <= k < i ==> (#[trigger] self.pairs()[k]).0 != uid@,
            decreases self.entries@.len() - i,
        {
            let c = chars_of(self.entries[i].uid.as_str());
            if chars_eq(c.as_slice(), uid) {
                return Some(i);
            }
            i += 1;
        }
        None
    }

    /// The id of `uid`, if it has one.
    pub fn ext_id_of(&self, uid: &str) -> (r: Option<u64>)
        requires
            self.wf(),
        ensures
            r is Some <==> has_uid(self.pairs(), uid@),
            r matches Some(e) ==> e == ext_of(self.pairs(), uid@),
    {
        let c = chars_of(uid);
        match self.find(c.as_slice()) {
            Some(i) => {
                proof {
                    lemma_ext_of_at(self.pairs(), uid@, i as int);
                }
                Some(self.entries[i].ext_id)
            },
            None => None,
        }
    }

    pub fn contains_uid(&self, uid: &str) -> (b: bool)
        ensures
            b == has_uid(self.pairs(), uid@),
    {
        let c = chars_of(uid);
        self.find(c.as_slice()).is_some()
    }

    /// The uid whose vector has id `ext`, if any.
    pub fn uid_of_ext(&self, ext: u64) -> (r: Option<String>)
        requires
            self.wf(),
            self.bijective(),
        ensures
            r is Some <==> has_ext(self.pairs(), ext),
            r matches Some(u) ==> u@ == uid_of(self.pairs(), ext),
    {
        let mut i: usize = 0;
        while i < self.entries.len()
            invariant
                i <= self.entries@.len(),
                exts_distinct(self.pairs()),
                forall|k: int| 0 <= k < i ==> (#[trigger] self.pairs()[k]).1 != ext,
            decreases self.entries@.len() - i,
        {
            if self.entries[i].ext_id == ext {
                proof {
                    lemma_uid_of_at(self.pairs(), ext, i as int);
                }
                return Some(self.entries[i].uid.clone());
            }
            i += 1;
        }
        None
    }

    /// Gives `uid` a slot: its present id, or the next one.
    pub fn add(&mut self, uid: &str) -> (s: Slot)
        requires
            old(self).wf(),
            old(self).next() < u64::MAX,
        ensures
            final(self).wf(),
            old(self).bijective() ==> final(self).bijective(),
            has_uid(old(self).pairs(), uid@) ==> {
                &&& s.replaces
                &&& s.ext_id == ext_of(old(self).pairs(), uid@)
                &&& final(self).pairs() == old(self).pairs()
                &&& final(self).next() == old(self).next()
            },
            !has_uid(old(self).pairs(), uid@) ==> {
                &&& !s.replaces
                &&& s.ext_id == old(self).next()
                &&& final(self).pairs() == old(self).pairs().push((uid@, s.ext_id))
                &&& final(self).next() == old(self).next() + 1
            },
            has_uid(final(self).pairs(), uid@),
            ext_of(final(self).pairs(), uid@) == s.ext_id,
    {
        let c = chars_of(uid);
        match self.find(c.as_slice()) {
            Some(i) => {
                proof {
                    lemma_ext_of_at(self.pairs(), uid@, i as int);
                }
                Slot { ext_id: self.entries[i].ext_id, replaces: true }
            },
            None => {
                let ext = self.next_extid;
                let ghost old_pairs = self.pairs();
                self.entries.push(IdEntry { uid: uid.to_owned(), ext_id: ext });
                self.next_extid = ext + 1;
                assert(self.pairs() =~= old_pairs.push((uid@, ext)));
                proof {
                    lemma_ext_of_at(self.pairs(), uid@, old_pairs.len() as int);
                }
                Slot { ext_id: ext, replaces: false }
            },
        }
    }

    /// Plans a batch insert: a uid that occurs twice in the batch keeps only
    /// its first occurrence, and each kept item gets a slot as `add` gives it.
    pub fn add_batch(&mut self, uids: &[String]) -> (plan: BatchPlan)
        requires
            old(self).wf(),
            old(self).next() + uids@.len() <= u64::MAX,
        ensures
            final(self).wf(),
            old(self).bijective() ==> final(self).bijective(),
            plan.positions@.len() == plan.slots@.len(),
            // the kept positions are the first occurrences, in order
            forall|k: int|
                0 <= k < plan.positions@.len() ==> (#[trigger] plan.positions@[k]) < uids@.len(),
            forall|k: int, l: int|
                0 <= k < l < plan.positions@.len() ==> plan.positions@[k] < plan.positions@[l],
            forall|j: int|
                0 <= j < uids@.len() ==> (first_occurrence(uids@, j) <==> exists|k: int|
                    0 <= k < plan.positions@.len() && plan.positions@[k] == j),
            // every uid of the batch ends in the map with its slot's id
            forall|k: int|
                0 <= k < plan.positions@.len() ==> slot_holds(
                    final(self).pairs(),
                    old(self).pairs(),
                    uids@[plan.positions@[k] as int]@,
                    #[trigger] plan.slots@[k],
                ),
            // nothing is dropped, and only uids of the batch are added
            forall|i: int|
                0 <= i < old(self).pairs().len() ==> final(self).pairs()[i] == #[trigger] old(
                    self,
                ).pairs()[i],
            forall|i: int|
                old(self).pairs().len() <= i < final(self).pairs().len() ==> exists|j: int|
                    0 <= j < uids@.len() && (#[trigger] final(self).pairs()[i]).0 == uids@[j]@,
            final(self).pairs().len() == old(self).pairs().len() + new_uid_count(
                old(self).pairs(),
                uids@,
            ),
    {
        let mut positions: Vec<usize> = Vec::new();
        let mut slots: Vec<Slot> = Vec::new();
        let mut i: usize = 0;
        let ghost start = self.pairs();
        while i < uids.len()
            invariant
                i <= uids@.len(),
                self.wf(),
                start == old(self).pairs(),
                old(self).bijective() ==> self.bijective(),
                self.next() + (uids@.len() - i) <= u64::MAX,
                positions@.len() == slots@.len(),
                forall|k: int| 0 <= k < positions@.len() ==> (#[trigger] positions@[k]) < i,
                forall|k: int, l: int|
                    0 <= k < l < positions@.len() ==> positions@[k] < positions@[l],
                forall|j: int|
                    0 <= j < i ==> (first_occurrence(uids@, j) <==> exists|k: int|
                        0 <= k < positions@.len() && positions@[k] == j),
                forall|k: int|
                    0 <= k < positions@.len() ==> slot_holds(
                        self.pairs(),
                        start,
                        uids@[positions@[k] as int]@,
                        #[trigger] slots@[k],
                    ),
                forall|k: int| 0 <= k < start.len() ==> self.pairs()[k] == #[trigger] start[k],
                start.len() <= self.pairs().len(),
                forall|k: int|
                    start.len() <= k < self.pairs().len() ==> exists|j: int|
                        0 <= j < i && (#[trigger] self.pairs()[k]).0 == uids@[j]@,
                self.pairs().len() == start.len() + new_uid_count(start, uids@.take(i as int)),
            decreases uids@.len() - i,
        {
            // Is this uid's first occurrence?
            let first = self.first_in_batch(uids, i);
            let ghost before = self.pairs();
            assert(uids@.take(i + 1).drop_last() == uids@.take(i as int));
            if first {
                proof {
                    let u = uids@[i as int]@;
                    lemma_has_uid_prefix(start, before, u);
                    if has_uid(before, u) {
                        let k = choose|k: int| 0 <= k < before.len() && (#[trigger] before[k]).0 == u;
                        if k >= start.len() {
                            let j = choose|j: int| 0 <= j < i && (#[trigger] before[k]).0 == uids@[j]@;
                            assert(uids@[j]@ != uids@[i as int]@);
                            assert(false);
                        } else {
                            assert(before[k] == start[k]);
                            assert(start[k].0 == u);
                        }
                        assert(has_uid(start, u));
                        lemma_ext_of_stable(start, before, u);
                    }
                }
                let s = self.add(uids[i].as_str());
                proof {
                    assert forall|k: int| 0 <= k < positions@.len() implies slot_holds(
                        self.pairs(),
                        start,
                        uids@[positions@[k] as int]@,
                        #[trigger] slots@[k],
                    ) by {
                        let u = uids@[positions@[k] as int]@;
                        assert(slot_holds(before, start, u, slots@[k]));
                        lemma_ext_of_stable(before, self.pairs(), u);
                    }
                    lemma_new_count_step(start, uids@, i as int, before);
                }
                let ghost old_positions = positions@;
                let ghost old_slots = slots@;
                positions.push(i);
                slots.push(s);
                proof {
                    assert forall|j: int| 0 <= j < i + 1 implies (first_occurrence(uids@, j)
                        <==> exists|k: int| 0 <= k < positions@.len() && positions@[k] == j) by {
                        if j < i {
                            if first_occurrence(uids@, j) {
                                let k = choose|k: int|
                                    0 <= k < old_positions.len() && old_positions[k] == j;
                                assert(positions@[k] == j);
                            }
                            if exists|k: int| 0 <= k < positions@.len() && positions@[k] == j {
                                let k = choose|k: int|
                                    0 <= k < positions@.len() && positions@[k] == j;
                                assert(k < old_positions.len());
                                assert(old_positions[k] == j);
                            }
                        } else {
                            assert(positions@[positions@.len() - 1] == j);
                        }
                    }
                    assert forall|k: int| 0 <= k < positions@.len() implies slot_holds(
                        self.pairs(),
                        start,
                        uids@[positions@[k] as int]@,
                        #[trigger] slots@[k],
                    ) by {
                        if k < old_positions.len() {
                            assert(positions@[k] == old_positions[k]);
                            assert(slots@[k] == old_slots[k]);
                        }
                    }
                    assert forall|k: int|
                        start.len() <= k < self.pairs().len() implies exists|j: int|
                        0 <= j < i + 1 && (#[trigger] self.pairs()[k]).0 == uids@[j]@ by {
                        if k < before.len() {
                            let j = choose|j: int|
                                0 <= j < i && (#[trigger] before[k]).0 == uids@[j]@;
                            assert(self.pairs()[k] == before[k]);
                        } else {
                            assert(self.pairs()[k].0 == uids@[i as int]@);
                        }
                    }
                }
            } else {
                proof {
                    lemma_new_count_skip(start, uids@, i as int);
                    assert forall|j: int| 0 <= j < i + 1 implies (first_occurrence(uids@, j)
                        <==> exists|k: int| 0 <= k < positions@.len() && positions@[k] == j) by {
                        if j == i {
                            assert forall|k: int| 0 <= k < positions@.len() implies positions@[k]
                                != j by {}
                        }
                    }
                }
            }
            i += 1;
        }
        assert(uids@.take(uids@.len() as int) == uids@);
        BatchPlan { positions, slots }
    }

    /// Whether `uids[i]` does not occur earlier in `uids`.
    fn first_in_batch(&self, uids: &[String], i: usize) -> (b: bool)
        requires
            i < uids@.len(),
        ensures
            b == first_occurrence(uids@, i as int),
    {
        let ci = chars_of(uids[i].as_str());
        let mut j: usize = 0;
        while j < i
            invariant
                j <= i < uids@.len(),
                ci@ == uids@[i as int]@,
                forall|k: int| 0 <= k < j ==> (#[trigger] uids@[k])@ != uids@[i as int]@,
            decreases i - j,
        {
            let cj = chars_of(uids[j].as_str());
            if chars_eq(cj.as_slice(), ci.as_slice()) {
                return false;
            }
            j += 1;
        }
        true
    }

    /// Drops `uid`; returns the id whose vector must be removed, if it had one.
    pub fn remove(&mut self, uid: &str) -> (r: Option<u64>)
        requires
            old(self).wf(),
        ensures
            final(self).wf(),
            old(self).bijective() ==> final(self).bijective(),
            final(self).next() == old(self).next(),
            !has_uid(final(self).pairs(), uid@),
            has_uid(old(self).pairs(), uid@) ==> {
                &&& r == Some(ext_of(old(self).pairs(), uid@))
                &&& exists|i: int|
                    0 <= i < old(self).pairs().len() && old(self).pairs()[i].0 == uid@
                        && final(self).pairs() == without(old(self).pairs(), i)
                &&& final(self).pairs().len() + 1 == old(self).pairs().len()
            },
            !has_uid(old(self).pairs(), uid@) ==> r is None && final(self).pairs() == old(
                self,
            ).pairs(),
    {
        let c = chars_of(uid);
        match self.find(c.as_slice()) {
            Some(i) => {
                let ghost old_pairs = self.pairs();
                proof {
                    lemma_ext_of_at(old_pairs, uid@, i as int);
                }
                let e = self.entries.remove(i);
                assert(self.pairs() =~= without(old_pairs, i as int));
                proof {
                    assert forall|a: int, b: int|
                        0 <= a < b < self.pairs().len() implies (#[trigger] self.pairs()[a]).0
                        != (#[trigger] self.pairs()[b]).0 by {
                        let oa = if a < i { a } else { a + 1 };
                        let ob = if b < i { b } else { b + 1 };
                        assert(self.pairs()[a] == old_pairs[oa]);
                        assert(self.pairs()[b] == old_pairs[ob]);
                    }
                    assert forall|a: int, b: int|
                        0 <= a < b < self.pairs().len() && exts_distinct(
                            old_pairs,
                        ) implies (#[trigger] self.pairs()[a]).1 != (#[trigger] self.pairs()[b]).1 by {
                        let oa = if a < i { a } else { a + 1 };
                        let ob = if b < i { b } else { b + 1 };
                        assert(self.pairs()[a] == old_pairs[oa]);
                        assert(self.pairs()[b] == old_pairs[ob]);
                    }
                    assert forall|a: int| 0 <= a < self.pairs().len() implies (
                    #[trigger] self.pairs()[a]).1 < self.next() by {
                        let oa = if a < i { a } else { a + 1 };
                        assert(self.pairs()[a] == old_pairs[oa]);
                    }
                    if has_uid(self.pairs(), uid@) {
                        let a = choose|a: int|
                            0 <= a < self.pairs().len() && (#[trigger] self.pairs()[a]).0 == uid@;
                        let oa = if a < i { a } else { a + 1 };
                        assert(self.pairs()[a] == old_pairs[oa]);
                    }
                }
                Some(e.ext_id)
            },
            None => None,
        }
    }
}

/// Ids are never handed out twice: once a uid is removed, any uid added
/// afterwards (by `add`, which gives a new uid the map's next id, and after
/// `remove`, which leaves the next id as it was) gets an id above the
/// removed uid's.
pub proof fn lemma_removed_id_not_reused(
    before: IdMap,
    after_remove: IdMap,
    removed: Seq<char>,
    added: Seq<char>,
    slot: Slot,
)
    requires
        before.wf(),
        has_uid(before.pairs(), removed),
        after_remove.next() == before.next(),
        !has_uid(after_remove.pairs(), added),
        slot.ext_id == after_remove.next(),
    ensures
        slot.ext_id > ext_of(before.pairs(), removed),
{
    let p = before.pairs();
    let i = choose|i: int| 0 <= i < p.len() && (#[trigger] p[i]).0 == removed;
    lemma_ext_of_at(p, removed, i);
}

/// A slot given to `u`: `u` has the slot's id in `now`, and the slot replaces
/// exactly when `u` already had an id in `start`, which it keeps.
pub open spec fn slot_holds(
    now: Seq<(Seq<char>, u64)>,
    start: Seq<(Seq<char>, u64)>,
    u: Seq<char>,
    s: Slot,
) -> bool {
    &&& has_uid(now, u)
    &&& ext_of(now, u) == s.ext_id
    &&& s.replaces == has_uid(start, u)
    &&& s.replaces ==> s.ext_id == ext_of(start, u)
}

/// `uids[j]` does not occur before position `j`.
pub open spec fn first_occurrence(uids: Seq<String>, j: int) -> bool {
    forall|k: int| 0 <= k < j ==> (#[trigger] uids[k])@ != uids[j]@
}

/// How many distinct uids of `uids` are not in `p`.
pub open spec fn new_uid_count(p: Seq<(Seq<char>, u64)>, uids: Seq<String>) -> nat
    decreases uids.len(),
{
    if uids.len() == 0 {
        0
    } else {
        let prev = new_uid_count(p, uids.drop_last());
        let u = uids.last()@;
        if first_occurrence(uids, uids.len() - 1) && !has_uid(p, u) {
            prev + 1
        } else {
            prev
        }
    }
}

/// The largest id of `p`, 0 when `p` is empty.
pub open spec fn max_ext(p: Seq<(Seq<char>, u64)>) -> u64
    decreases p.len(),
{
    if p.len() == 0 {
        0
    } else {
        let m = max_ext(p.drop_last());
        if p.last().1 > m {
            p.last().1
        } else {
            m
        }
    }
}

proof fn lemma_max_ext_bounds(p: Seq<(Seq<char>, u64)>)
    ensures
        forall|i: int| 0 <= i < p.len() ==> (#[trigger] p[i]).1 <= max_ext(p),
    decreases p.len(),
{
    if p.len() > 0 {
        lemma_max_ext_bounds(p.drop_last());
        assert forall|i: int| 0 <= i < p.len() implies (#[trigger] p[i]).1 <= max_ext(p) by {
            if i < p.len() - 1 {
                assert(p[i] == p.drop_last()[i]);
            }
        }
    }
}

proof fn lemma_ext_of_at(p: Seq<(Seq<char>, u64)>, uid: Seq<char>, i: int)
    requires
        uids_distinct(p),
        0 <= i < p.len(),
        p[i].0 == uid,
    ensures
        has_uid(p, uid),
        ext_of(p, uid) == p[i].1,
{
    let j = choose|j: int| 0 <= j < p.len() && (#[trigger] p[j]).0 == uid;
    if j != i {
        if j < i {
            assert(p[j].0 != p[i].0);
        } else {
            assert(p[i].0 != p[j].0);
        }
    }
}

proof fn lemma_uid_of_at(p: Seq<(Seq<char>, u64)>, ext: u64, i: int)
    requires
        exts_distinct(p),
        0 <= i < p.len(),
        p[i].1 == ext,
    ensures
        has_ext(p, ext),
        uid_of(p, ext) == p[i].0,
{
    let j = choose|j: int| 0 <= j < p.len() && (#[trigger] p[j]).1 == ext;
    if j != i {
        if j < i {
            assert(p[j].1 != p[i].1);
        } else {
            assert(p[i].1 != p[j].1);
        }
    }
}

/// Growing the pairs at the end keeps what a uid already had.
proof fn lemma_ext_of_stable(a: Seq<(Seq<char>, u64)>, b: Seq<(Seq<char>, u64)>, uid: Seq<char>)
    requires
        uids_distinct(b),
        a.len() <= b.len(),
        forall|k: int| 0 <= k < a.len() ==> b[k] == #[trigger] a[k],
        has_uid(a, uid),
    ensures
        has_uid(b, uid),
        ext_of(b, uid) == ext_of(a, uid),
{
    let i = choose|i: int| 0 <= i < a.len() && (#[trigger] a[i]).0 == uid;
    assert(b[i] == a[i]);
    assert(uids_distinct(a)) by {
        assert forall|x: int, y: int| 0 <= x < y < a.len() implies (#[trigger] a[x]).0 != (
        #[trigger] a[y]).0 by {
            assert(b[x] == a[x]);
            assert(b[y] == a[y]);
        }
    }
    lemma_ext_of_at(a, uid, i);
    lemma_ext_of_at(b, uid, i);
}

proof fn lemma_has_uid_prefix(a: Seq<(Seq<char>, u64)>, b: Seq<(Seq<char>, u64)>, uid: Seq<char>)
    requires
        a.len() <= b.len(),
        forall|k: int| 0 <= k < a.len() ==> b[k] == #[trigger] a[k],
    ensures
        has_uid(a, uid) ==> has_uid(b, uid),
{
    if has_uid(a, uid) {
        let i = choose|i: int| 0 <= i < a.len() && (#[trigger] a[i]).0 == uid;
        assert(b[i] == a[i]);
    }
}

proof fn lemma_new_count_step(
    start: Seq<(Seq<char>, u64)>,
    uids: Seq<String>,
    i: int,
    before: Seq<(Seq<char>, u64)>,
)
    requires
        0 <= i < uids.len(),
        first_occurrence(uids, i),
    ensures
        new_uid_count(start, uids.take(i + 1)) == new_uid_count(start, uids.take(i)) + (if has_uid(
            start,
            uids[i]@,
        ) {
            0nat
        } else {
            1nat
        }),
{
    let t = uids.take(i + 1);
    assert(t.drop_last() == uids.take(i));
    assert(first_occurrence(t, t.len() - 1)) by {
        assert forall|k: int| 0 <= k < t.len() - 1 implies (#[trigger] t[k])@ != t[t.len()
            - 1]@ by {
            assert(t[k] == uids[k]);
        }
    }
}

proof fn lemma_new_count_skip(start: Seq<(Seq<char>, u64)>, uids: Seq<String>, i: int)
    requires
        0 <= i < uids.len(),
        !first_occurrence(uids, i),
    ensures
        new_uid_count(start, uids.take(i + 1)) == new_uid_count(start, uids.take(i)),
{
    let t = uids.take(i + 1);
    assert(t.drop_last() == uids.take(i));
    assert(!first_occurrence(t, t.len() - 1)) by {
        let k = choose|k: int| 0 <= k < i && (#[trigger] uids[k])@ == uids[i]@;
        assert(t[k] == uids[k]);
    }
}


/// The file name at the end of a path: what follows its last slash.
pub open spec fn file_name_of(path: Seq<char>) -> Seq<char> {
    path.skip(crate::ingest::last_index_of(path, '/') + 1)
}

/// The path without what `Path::components` does not count at its end:
/// trailing slashes and trailing `.` components.
pub open spec fn path_end(path: Seq<char>) -> Seq<char>
    decreases path.len(),
{
    if path.len() > 0 && path.last() == '/' {
        path_end(path.drop_last())
    } else if path.len() >= 2 && path.last() == '.' && path[path.len() - 2] == '/' {
        path_end(path.drop_last())
    } else {
        path
    }
}

/// Whether a path names a file (`Path::file_name` is some): its last
/// component is not empty (the root, or nothing), `.` or `..`.
pub open spec fn names_a_file(path: Seq<char>) -> bool {
    let name = file_name_of(path_end(path));
    name.len() > 0 && name != "."@ && name != ".."@
}

/// The path of an index's uid map, as `PathBuf::set_extension` makes it:
/// the path cut right after the stem of its file name, then
/// `.uidmap.json`; a path that names no file stays as it is.
pub open spec fn meta_path(path: Seq<char>) -> Seq<char> {
    let e = path_end(path);
    let k = crate::ingest::last_index_of(e, '/') + 1;
    if names_a_file(path) {
        e.take(k) + crate::ingest::stem_and_extension(e.skip(k)).0 + ".uidmap.json"@
    } else {
        path
    }
}

/// The path of the uid map kept beside an index file.
pub fn meta_path_for(tvim: &str) -> (p: String)
    ensures
        p@ == meta_path(tvim@),
{
    let full = chars_of(tvim);
    let mut n: usize = full.len();
    assert(full@.take(n as int) == full@);
    while n > 0 && (full[n - 1] == '/' || (n >= 2 && full[n - 1] == '.' && full[n - 2] == '/'))
        invariant
            n <= full@.len(),
            full@ == tvim@,
            path_end(tvim@) == path_end(full@.take(n as int)),
        decreases n,
    {
        assert(full@.take(n as int).drop_last() == full@.take(n - 1));
        n -= 1;
    }
    let c = crate::project::tail_take(full.as_slice(), n);
    assert(path_end(full@.take(n as int)) == full@.take(n as int));
    proof {
        crate::ingest::lemma_last_index_of(c@, '/');
    }
    let k: usize = match crate::text::find_last_char(c.as_slice(), '/') {
        Some(j) => j + 1,
        None => 0,
    };
    let dir = crate::project::tail_take(c.as_slice(), k);
    let name = crate::project::tail(c.as_slice(), k);
    proof {
        reveal_strlit(".");
        reveal_strlit("..");
        assert(name@ == file_name_of(path_end(tvim@)));
    }
    if name.len() == 0 || (name.len() == 1 && name[0] == '.') || (name.len() == 2 && name[0] == '.'
        && name[1] == '.') {
        proof {
            if name.len() == 1 {
                assert(name@ =~= "."@);
            }
            if name.len() == 2 {
                assert(name@ =~= ".."@);
            }
        }
        return string_of(full.as_slice());
    }
    proof {
        assert(name@ != "."@) by {
            if name@ == "."@ {
                assert(name@.len() == 1 && name@[0] == '.');
            }
        }
        assert(name@ != ".."@) by {
            if name@ == ".."@ {
                assert(name@.len() == 2 && name@[0] == '.' && name@[1] == '.');
            }
        }
    }
    let (stem, _ext) = crate::ingest::split_extension(string_of(name.as_slice()).as_str());
    let mut out = dir;
    append_chars(&mut out, chars_of(stem.as_str()).as_slice());
    append_chars(&mut out, chars_of(".uidmap.json").as_slice());
    string_of(out.as_slice())
}

} // verus!
