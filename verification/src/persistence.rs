//! Replaying the index journal.
//!
//! A memory mutation and its journal entry commit together in SQLite. Replay
//! collapses the pending entries of each uid to the newest one and applies
//! it: an upsert re-embeds the content, a delete drops the vector.
use vstd::prelude::*;

use crate::error::{concat_message, BiError, BiResult};
use crate::hashing::{sha256_hex, spec_sha256_hex};
use crate::text::{chars_eq, chars_of};
use vstd::string::StringSliceAdditionalSpecFns;

verus! {

/// One committed, not yet applied, journal entry.
pub struct PendingMutation {
    pub id: i64,
    pub uid: String,
    pub operation: String,
    pub content: Option<String>,
}

/// What a replay applies: positions in the pending list (newest first) of
/// the upserts and the deletes, and the id of the last entry covered.
pub struct ReplayPlan {
    pub upserts: Vec<usize>,
    pub deletes: Vec<usize>,
    pub max_id: i64,
}

/// No later entry has the same uid.
pub open spec fn is_latest(p: Seq<PendingMutation>, i: int) -> bool {
    forall|j: int| i < j < p.len() ==> (#[trigger] p[j]).uid@ != p[i].uid@
}

pub open spec fn is_upsert(m: PendingMutation) -> bool {
    m.operation@ == "upsert"@
}

pub open spec fn is_delete(m: PendingMutation) -> bool {
    m.operation@ == "delete"@
}

/// An entry replay can apply: an upsert that carries content, or a delete.
pub open spec fn applicable(m: PendingMutation) -> bool {
    (is_upsert(m) && m.content is Some) || is_delete(m)
}

/// The message a replay fails with on an entry it cannot apply.
pub open spec fn refusal(m: PendingMutation) -> Seq<char> {
    if is_upsert(m) {
        "upsert journal entry has no content"@
    } else {
        "unknown journal operation "@ + m.operation@
    }
}

/// The newest entries from position `i` on whose kind is `upsert` (when
/// `upsert`) or `delete`, from the last position down.
pub open spec fn picks(p: Seq<PendingMutation>, i: int, upsert: bool) -> Seq<int>
    decreases p.len() - i,
{
    if i >= p.len() || i < 0 {
        Seq::empty()
    } else {
        let rest = picks(p, i + 1, upsert);
        let wanted = if upsert {
            is_upsert(p[i])
        } else {
            is_delete(p[i])
        };
        if is_latest(p, i) && wanted {
            rest.push(i)
        } else {
            rest
        }
    }
}

/// Every newest entry from position `i` on can be applied.
pub open spec fn all_applicable(p: Seq<PendingMutation>, i: int) -> bool {
    forall|j: int| i <= j < p.len() && is_latest(p, j) ==> applicable(#[trigger] p[j])
}

pub open spec fn as_ints(v: Seq<usize>) -> Seq<int> {
    v.map_values(|x: usize| x as int)
}

fn op_is(m: &PendingMutation, lit: &str) -> (b: bool)
    ensures
        b == (m.operation@ == lit@),
{
    let a = chars_of(m.operation.as_str());
    let b = chars_of(lit);
    chars_eq(a.as_slice(), b.as_slice())
}

/// Whether `pending[j]` is the newest entry of its uid.
fn is_newest(pending: &Vec<PendingMutation>, j: usize) -> (b: bool)
    requires
        j < pending@.len(),
    ensures
        b == is_latest(pending@, j as int),
{
    let u = chars_of(pending[j].uid.as_str());
    let n = pending.len();
    let mut x: usize = j + 1;
    while x < pending.len()
        invariant
            j < x <= pending@.len(),
            u@ == pending@[j as int].uid@,
            forall|y: int| j < y < x ==> (#[trigger] pending@[y]).uid@ != pending@[j as int].uid@,
        decreases pending@.len() - x,
    {
        let v = chars_of(pending[x].uid.as_str());
        if chars_eq(v.as_slice(), u.as_slice()) {
            return false;
        }
        x += 1;
    }
    true
}

/// Plans the replay of `pending` (ordered by id): `None` when nothing is
/// pending; an index error when a newest entry is an upsert without content
/// or has an unknown kind.
pub fn plan_replay(pending: &Vec<PendingMutation>) -> (r: BiResult<Option<ReplayPlan>>)
    ensures
        pending@.len() == 0 ==> r matches Ok(None),
        pending@.len() > 0 && all_applicable(pending@, 0) ==> (r matches Ok(Some(plan)) && {
            &&& as_ints(plan.upserts@) == picks(pending@, 0, true)
            &&& as_ints(plan.deletes@) == picks(pending@, 0, false)
            &&& plan.max_id == pending@.last().id
        }),
        pending@.len() > 0 && !all_applicable(pending@, 0) ==> (r matches Err(BiError::Index(m))
            && exists|j: int|
            0 <= j < pending@.len() && is_latest(pending@, j) && !applicable(pending@[j])
                && m@ == refusal(pending@[j])),
{
    let n = pending.len();
    if n == 0 {
        return Ok(None);
    }
    proof {
        reveal_strlit("upsert");
        reveal_strlit("delete");
        assert("upsert"@ != "delete"@) by {
            assert("upsert"@[0] != "delete"@[0]);
        }
    }
    let mut upserts: Vec<usize> = Vec::new();
    let mut deletes: Vec<usize> = Vec::new();
    let mut i: usize = n;
    while i > 0
        invariant
            i <= n == pending@.len(),
            "upsert"@ != "delete"@,
            as_ints(upserts@) == picks(pending@, i as int, true),
            as_ints(deletes@) == picks(pending@, i as int, false),
            all_applicable(pending@, i as int),
        decreases i,
    {
        let j = i - 1;
        let newest = is_newest(pending, j);
        if newest {
            let m = &pending[j];
            if op_is(m, "upsert") {
                if m.content.is_none() {
                    proof {
                        assert(!applicable(pending@[j as int]));
                        assert(!all_applicable(pending@, 0));
                    }
                    return Err(BiError::Index("upsert journal entry has no content".to_owned()));
                }
                upserts.push(j);
            } else if op_is(m, "delete") {
                deletes.push(j);
            } else {
                proof {
                    assert(!applicable(pending@[j as int]));
                    assert(!all_applicable(pending@, 0));
                }
                return Err(
                    BiError::Index(concat_message("unknown journal operation ", m.operation.as_str())),
                );
            }
        }
        proof {
            assert(as_ints(upserts@) =~= picks(pending@, j as int, true));
            assert(as_ints(deletes@) =~= picks(pending@, j as int, false));
        }
        i = j;
    }
    Ok(Some(ReplayPlan { upserts, deletes, max_id: pending[n - 1].id }))
}

/// Every uid of the journal has its newest entry in the replay: at position
/// `i` or later there is an entry for the same uid that is the newest, so a
/// plan that covers all newest entries covers every uid once.
pub proof fn lemma_each_uid_has_newest(p: Seq<PendingMutation>, i: int)
    requires
        0 <= i < p.len(),
    ensures
        exists|j: int| i <= j < p.len() && p[j].uid@ == p[i].uid@ && is_latest(p, j),
    decreases p.len() - i,
{
    if !is_latest(p, i) {
        let j = choose|j: int| i < j < p.len() && (#[trigger] p[j]).uid@ == p[i].uid@;
        lemma_each_uid_has_newest(p, j);
    }
}

/// Replay applies each uid's newest entry and only it: every planned
/// position is the newest entry of its uid, a newest entry is planned
/// exactly when its kind is upsert or delete, and no position is planned twice.
pub proof fn lemma_replay_applies_newest(p: Seq<PendingMutation>, i: int)
    requires
        0 <= i <= p.len(),
    ensures
        forall|k: int|
            0 <= k < picks(p, i, true).len() ==> is_latest(p, #[trigger] picks(p, i, true)[k])
                && is_upsert(p[picks(p, i, true)[k]]) && i <= picks(p, i, true)[k] < p.len(),
        forall|k: int|
            0 <= k < picks(p, i, false).len() ==> is_latest(p, #[trigger] picks(p, i, false)[k])
                && is_delete(p[picks(p, i, false)[k]]) && i <= picks(p, i, false)[k] < p.len(),
        forall|j: int|
            i <= j < p.len() && is_latest(p, j) && is_upsert(p[j]) ==> picks(p, i, true).contains(
                j,
            ),
        forall|j: int|
            i <= j < p.len() && is_latest(p, j) && is_delete(p[j]) ==> picks(p, i, false).contains(
                j,
            ),
        forall|a: int, b: int|
            0 <= a < b < picks(p, i, true).len() ==> picks(p, i, true)[a] > picks(p, i, true)[b],
        forall|a: int, b: int|
            0 <= a < b < picks(p, i, false).len() ==> picks(p, i, false)[a] > picks(p, i, false)[b],
    decreases p.len() - i,
{
    if i < p.len() {
        lemma_replay_applies_newest(p, i + 1);
        let up = picks(p, i + 1, true);
        let del = picks(p, i + 1, false);
        assert forall|j: int|
            i <= j < p.len() && is_latest(p, j) && is_upsert(p[j]) implies picks(
            p,
            i,
            true,
        ).contains(j) by {
            if j == i {
                assert(picks(p, i, true)[picks(p, i, true).len() - 1] == i);
            } else {
                let k = choose|k: int| 0 <= k < up.len() && up[k] == j;
                assert(picks(p, i, true)[k] == j);
            }
        }
        assert forall|j: int|
            i <= j < p.len() && is_latest(p, j) && is_delete(p[j]) implies picks(
            p,
            i,
            false,
        ).contains(j) by {
            if j == i {
                assert(picks(p, i, false)[picks(p, i, false).len() - 1] == i);
            } else {
                let k = choose|k: int| 0 <= k < del.len() && del[k] == j;
                assert(picks(p, i, false)[k] == j);
            }
        }
    }
}

/// The entries of `p` that stay pending once every entry with an id up to
/// `max_id` is marked applied.
pub open spec fn still_pending(p: Seq<PendingMutation>, max_id: i64) -> Seq<PendingMutation>
    decreases p.len(),
{
    if p.len() == 0 {
        Seq::empty()
    } else if p.last().id > max_id {
        still_pending(p.drop_last(), max_id).push(p.last())
    } else {
        still_pending(p.drop_last(), max_id)
    }
}

proof fn lemma_still_pending_none(p: Seq<PendingMutation>, max_id: i64)
    requires
        forall|i: int| 0 <= i < p.len() ==> (#[trigger] p[i]).id <= max_id,
    ensures
        still_pending(p, max_id).len() == 0,
    decreases p.len(),
{
    if p.len() > 0 {
        assert(p[p.len() - 1].id <= max_id);
        assert forall|i: int| 0 <= i < p.drop_last().len() implies (#[trigger] p.drop_last()[i]).id <= max_id by {
            assert(p.drop_last()[i] == p[i]);
        }
        lemma_still_pending_none(p.drop_last(), max_id);
    }
}

/// Replay is idempotent: the pending entries come ordered by id, a plan
/// covers up to the last one's id, so once its entries are marked applied
/// none stays pending, and planning again finds nothing to do.
pub proof fn lemma_replay_idempotent(p: Seq<PendingMutation>)
    requires
        p.len() > 0,
        forall|i: int, j: int| 0 <= i < j < p.len() ==> (#[trigger] p[i]).id <= (#[trigger] p[j]).id,
    ensures
        still_pending(p, p.last().id).len() == 0,
{
    assert forall|i: int| 0 <= i < p.len() implies (#[trigger] p[i]).id <= p.last().id by {
        if i < p.len() - 1 {
            assert(p[i].id <= p[p.len() - 1].id);
        }
    }
    lemma_still_pending_none(p, p.last().id);
}

/// The hash a journal entry records for its content (hex SHA-256).
pub fn hash_text(text: &str) -> (h: String)
    ensures
        h@ == spec_sha256_hex(text.spec_bytes()),
{
    sha256_hex(text.as_bytes())
}

} // verus!
