//! Persisted supervision of long-running work: the life cycle of an operation
//! record. The store reads a record, applies one of these transitions and
//! writes it back.
use vstd::prelude::*;

use crate::error::{concat_message, BiError, BiResult};
use crate::text::{append_chars, chars_of, string_of};

verus! {

/// Where an operation stands.
#[derive(Debug, Clone, Copy, PartialEq, Eq, Structural)]
pub enum OpStatus {
    Queued,
    Running,
    Succeeded,
    Failed,
    Cancelled,
}

pub open spec fn status_name(s: OpStatus) -> Seq<char> {
    match s {
        OpStatus::Queued => "queued"@,
        OpStatus::Running => "running"@,
        OpStatus::Succeeded => "succeeded"@,
        OpStatus::Failed => "failed"@,
        OpStatus::Cancelled => "cancelled"@,
    }
}

pub open spec fn is_terminal(s: OpStatus) -> bool {
    s == OpStatus::Succeeded || s == OpStatus::Failed || s == OpStatus::Cancelled
}

impl OpStatus {
    pub fn as_str(&self) -> (s: &'static str)
        ensures
            s@ == status_name(*self),
    {
        match self {
            OpStatus::Queued => "queued",
            OpStatus::Running => "running",
            OpStatus::Succeeded => "succeeded",
            OpStatus::Failed => "failed",
            OpStatus::Cancelled => "cancelled",
        }
    }

    /// The status stored under `name`, if any.
    pub fn parse(name: &str) -> (r: Option<OpStatus>)
        ensures
            r matches Some(s) ==> status_name(s) == name@,
            r is None ==> forall|s: OpStatus| status_name(s) != name@,
    {
        let c = chars_of(name);
        let all = [
            OpStatus::Queued,
            OpStatus::Running,
            OpStatus::Succeeded,
            OpStatus::Failed,
            OpStatus::Cancelled,
        ];
        let mut i: usize = 0;
        while i < 5
            invariant
                i <= 5,
                c@ == name@,
                all@ == seq![
                    OpStatus::Queued,
                    OpStatus::Running,
                    OpStatus::Succeeded,
                    OpStatus::Failed,
                    OpStatus::Cancelled,
                ],
                forall|k: int| 0 <= k < i ==> status_name(#[trigger] all@[k]) != name@,
            decreases 5 - i,
        {
            let n = chars_of(all[i].as_str());
            if crate::text::chars_eq(n.as_slice(), c.as_slice()) {
                return Some(all[i]);
            }
            i += 1;
        }
        proof {
            assert forall|s: OpStatus| status_name(s) != name@ by {
                match s {
                    OpStatus::Queued => assert(all@[0] == s),
                    OpStatus::Running => assert(all@[1] == s),
                    OpStatus::Succeeded => assert(all@[2] == s),
                    OpStatus::Failed => assert(all@[3] == s),
                    OpStatus::Cancelled => assert(all@[4] == s),
                }
            }
        }
        None
    }
}

/// One supervised operation. `checkpoint` and `result` hold JSON text.
#[derive(Debug, Clone)]
pub struct OperationRecord {
    pub id: String,
    pub kind: String,
    pub project_id: Option<String>,
    pub status: OpStatus,
    pub phase: Option<String>,
    pub current: i64,
    pub total: i64,
    pub checkpoint: Option<String>,
    pub result: Option<String>,
    pub error: Option<String>,
    pub cancel_requested: bool,
    pub created_at: i64,
    pub updated_at: i64,
    pub started_at: Option<i64>,
    pub finished_at: Option<i64>,
}

/// The prefix of an operation id for each kind of work.
pub open spec fn id_prefix(kind: Seq<char>) -> Seq<char> {
    if kind == "ingest"@ || kind == "watch_ingest"@ {
        "ing"@
    } else if kind == "multi_ingest"@ {
        "multi-ing"@
    } else if kind == "consolidate"@ {
        "con"@
    } else if kind == "model_rebuild"@ {
        "model"@
    } else {
        "op"@
    }
}

fn is(kind: &[char], lit: &str) -> (b: bool)
    ensures
        b == (kind@ == lit@),
{
    let l = chars_of(lit);
    crate::text::chars_eq(kind, l.as_slice())
}

pub fn operation_id_prefix(kind: &str) -> (p: &'static str)
    ensures
        p@ == id_prefix(kind@),
{
    let k = chars_of(kind);
    if is(k.as_slice(), "ingest") || is(k.as_slice(), "watch_ingest") {
        "ing"
    } else if is(k.as_slice(), "multi_ingest") {
        "multi-ing"
    } else if is(k.as_slice(), "consolidate") {
        "con"
    } else if is(k.as_slice(), "model_rebuild") {
        "model"
    } else {
        "op"
    }
}

pub open spec fn is_lower_hex(c: char) -> bool {
    ('0' <= c <= '9') || ('a' <= c <= 'f')
}

/// A hyphenated random (version 4, RFC 4122 variant) UUID: 36 characters,
/// hyphens at 8, 13, 18 and 23, lowercase hex digits elsewhere, the version
/// digit `4` at 14 and the variant digit `8`, `9`, `a` or `b` at 19.
pub open spec fn uuid_shape(s: Seq<char>) -> bool {
    &&& s.len() == 36
    &&& s[14] == '4'
    &&& (s[19] == '8' || s[19] == '9' || s[19] == 'a' || s[19] == 'b')
    &&& forall|i: int|
        0 <= i < 36 ==> if i == 8 || i == 13 || i == 18 || i == 23 {
            #[trigger] s[i] == '-'
        } else {
            is_lower_hex(s[i])
        }
}

/// Calls `uuid::Uuid::new_v4` and renders it hyphenated (lowercase). The
/// value is random; only its shape is stated: `new_v4` masks in version 4
/// and the RFC 4122 variant bits.
#[verifier::external_body]
pub(crate) fn new_uuid_v4() -> (s: String)
    ensures
        uuid_shape(s@),
{
    uuid::Uuid::new_v4().to_string()
}

/// A fresh operation id: the kind's prefix, a hyphen, a random UUID.
pub fn new_operation_id(kind: &str) -> (id: String)
    ensures
        id@.len() == id_prefix(kind@).len() + 37,
        id@.take(id_prefix(kind@).len() as int) == id_prefix(kind@),
        id@[id_prefix(kind@).len() as int] == '-',
        uuid_shape(id@.skip(id_prefix(kind@).len() as int + 1)),
{
    let mut v = chars_of(operation_id_prefix(kind));
    v.push('-');
    let u = new_uuid_v4();
    let uc = chars_of(u.as_str());
    let ghost head = v@;
    append_chars(&mut v, uc.as_slice());
    assert(v@.take(head.len() - 1) =~= id_prefix(kind@));
    assert(v@.skip(head.len() as int) =~= u@);
    string_of(v.as_slice())
}

/// A new record, queued, with the given checkpoint.
pub fn create(
    id: String,
    kind: String,
    project_id: Option<String>,
    checkpoint: Option<String>,
    now: i64,
) -> (op: OperationRecord)
    ensures
        op.id == id,
        op.kind == kind,
        op.project_id == project_id,
        op.checkpoint == checkpoint,
        op.status == OpStatus::Queued,
        op.phase matches Some(p) && p@ == "queued"@,
        op.current == 0 && op.total == 0,
        op.result is None && op.error is None,
        !op.cancel_requested,
        op.created_at == now && op.updated_at == now,
        op.started_at is None && op.finished_at is None,
{
    OperationRecord {
        id,
        kind,
        project_id,
        status: OpStatus::Queued,
        phase: Some("queued".to_owned()),
        current: 0,
        total: 0,
        checkpoint,
        result: None,
        error: None,
        cancel_requested: false,
        created_at: now,
        updated_at: now,
        started_at: None,
        finished_at: None,
    }
}

/// The status update every transition makes: the status, the phase when
/// one is given, the result and error (replaced, possibly by nothing), the
/// start time when one is given, and the finish time when the status is final.
pub open spec fn updated(
    op: OperationRecord,
    status: OpStatus,
    phase: Option<Seq<char>>,
    result: Option<String>,
    error: Option<String>,
    started_at: Option<i64>,
    now: i64,
    new: OperationRecord,
) -> bool {
    &&& new.id == op.id && new.kind == op.kind && new.project_id == op.project_id
    &&& new.current == op.current && new.total == op.total && new.checkpoint == op.checkpoint
    &&& new.cancel_requested == op.cancel_requested
    &&& new.created_at == op.created_at
    &&& new.status == status
    &&& match phase {
        Some(p) => new.phase matches Some(np) && np@ == p,
        None => new.phase == op.phase,
    }
    &&& new.result == result && new.error == error
    &&& new.updated_at == now
    &&& new.started_at == match started_at {
        Some(t) => Some(t),
        None => op.started_at,
    }
    &&& new.finished_at == if is_terminal(status) {
        Some(now)
    } else {
        op.finished_at
    }
}

fn update_status(
    op: OperationRecord,
    status: OpStatus,
    phase: Option<&str>,
    result: Option<String>,
    error: Option<String>,
    started_at: Option<i64>,
    now: i64,
) -> (new: OperationRecord)
    ensures
        updated(
            op,
            status,
            match phase {
                Some(p) => Some(p@),
                None => None,
            },
            result,
            error,
            started_at,
            now,
            new,
        ),
{
    let terminal = match status {
        OpStatus::Succeeded | OpStatus::Failed | OpStatus::Cancelled => true,
        _ => false,
    };
    OperationRecord {
        status,
        phase: match phase {
            Some(p) => Some(p.to_owned()),
            None => op.phase,
        },
        result,
        error,
        updated_at: now,
        started_at: match started_at {
            Some(t) => Some(t),
            None => op.started_at,
        },
        finished_at: if terminal {
            Some(now)
        } else {
            op.finished_at
        },
        ..op
    }
}

/// The work has started.
pub fn mark_running(op: OperationRecord, now: i64) -> (new: OperationRecord)
    ensures
        updated(op, OpStatus::Running, Some("starting"@), None, None, Some(now), now, new),
{
    update_status(op, OpStatus::Running, Some("starting"), None, None, Some(now), now)
}

/// Progress of running work; the checkpoint is replaced only when one is given.
pub fn update_progress(
    op: OperationRecord,
    phase: &str,
    current: i64,
    total: i64,
    checkpoint: Option<String>,
    now: i64,
) -> (new: OperationRecord)
    ensures
        new.phase matches Some(p) && p@ == phase@,
        new.current == current && new.total == total,
        new.checkpoint == match checkpoint {
            Some(c) => Some(c),
            None => op.checkpoint,
        },
        new.updated_at == now,
        new.id == op.id && new.kind == op.kind && new.project_id == op.project_id,
        new.status == op.status && new.result == op.result && new.error == op.error,
        new.cancel_requested == op.cancel_requested,
        new.created_at == op.created_at && new.started_at == op.started_at
            && new.finished_at == op.finished_at,
{
    let checkpoint = match checkpoint {
        Some(c) => Some(c),
        None => op.checkpoint,
    };
    OperationRecord {
        phase: Some(phase.to_owned()),
        current,
        total,
        checkpoint,
        updated_at: now,
        ..op
    }
}

/// The work succeeded with `result` (JSON text).
pub fn complete(op: OperationRecord, result: String, now: i64) -> (new: OperationRecord)
    ensures
        updated(op, OpStatus::Succeeded, Some("done"@), Some(result), None, None, now, new),
{
    update_status(op, OpStatus::Succeeded, Some("done"), Some(result), None, None, now)
}

/// The work failed with `error`.
pub fn fail(op: OperationRecord, error: String, now: i64) -> (new: OperationRecord)
    ensures
        updated(op, OpStatus::Failed, Some("failed"@), None, Some(error), None, now, new),
{
    update_status(op, OpStatus::Failed, Some("failed"), None, Some(error), None, now)
}

/// The work stopped on a cancel request.
pub fn mark_cancelled(op: OperationRecord, now: i64) -> (new: OperationRecord)
    ensures
        updated(op, OpStatus::Cancelled, Some("cancelled"@), None, None, None, now, new),
{
    update_status(op, OpStatus::Cancelled, Some("cancelled"), None, None, None, now)
}

/// Asks queued or running work to stop at its next checkpoint; other
/// records are refused as not cancellable.
pub fn request_cancel(op: OperationRecord, now: i64) -> (r: BiResult<OperationRecord>)
    ensures
        (op.status == OpStatus::Queued || op.status == OpStatus::Running) ==> (r matches Ok(new)
            && new == (OperationRecord { cancel_requested: true, updated_at: now, ..op })),
        !(op.status == OpStatus::Queued || op.status == OpStatus::Running) ==> (r matches Err(
            BiError::Invalid(m),
        ) && m@ == "operation "@ + op.id@ + " is not cancellable"@),
{
    match op.status {
        OpStatus::Queued | OpStatus::Running => {
            Ok(OperationRecord { cancel_requested: true, updated_at: now, ..op })
        },
        _ => {
            let head = concat_message("operation ", op.id.as_str());
            Err(BiError::Invalid(concat_message(head.as_str(), " is not cancellable")))
        },
    }
}

/// What recovery after a restart makes of `op`: work that was running is
/// queued again, with its cancel request cleared and its start forgotten;
/// other records are unchanged.
pub open spec fn recover_post(op: OperationRecord, now: i64, new: OperationRecord) -> bool {
    &&& op.status == OpStatus::Running ==> {
        &&& new.status == OpStatus::Queued
        &&& new.phase matches Some(p) && p@ == "recovered"@
        &&& !new.cancel_requested
        &&& new.updated_at == now
        &&& new.started_at is None
        &&& new.id == op.id && new.kind == op.kind && new.project_id == op.project_id
        &&& new.current == op.current && new.total == op.total
        &&& new.checkpoint == op.checkpoint && new.result == op.result
        &&& new.error == op.error && new.created_at == op.created_at
        &&& new.finished_at == op.finished_at
    }
    &&& op.status != OpStatus::Running ==> new == op
}

pub fn recover_interrupted(op: OperationRecord, now: i64) -> (new: OperationRecord)
    ensures
        recover_post(op, now, new),
{
    match op.status {
        OpStatus::Running => OperationRecord {
            status: OpStatus::Queued,
            phase: Some("recovered".to_owned()),
            cancel_requested: false,
            updated_at: now,
            started_at: None,
            ..op
        },
        _ => op,
    }
}

/// How supervised work that returned an error is recorded: cancelled when a
/// cancel was requested, failed with the error otherwise.
pub fn record_failure(op: OperationRecord, error: String, now: i64) -> (new: OperationRecord)
    ensures
        op.cancel_requested ==> updated(
            op,
            OpStatus::Cancelled,
            Some("cancelled"@),
            None,
            None,
            None,
            now,
            new,
        ),
        !op.cancel_requested ==> updated(
            op,
            OpStatus::Failed,
            Some("failed"@),
            None,
            Some(error),
            None,
            now,
            new,
        ),
{
    if op.cancel_requested {
        mark_cancelled(op, now)
    } else {
        fail(op, error, now)
    }
}

/// Recovery is idempotent: recovering a record a second time, at any time,
/// leaves it as the first recovery made it.
pub proof fn lemma_recover_idempotent(
    op: OperationRecord,
    now: i64,
    later: i64,
    once: OperationRecord,
    twice: OperationRecord,
)
    requires
        recover_post(op, now, once),
        recover_post(once, later, twice),
    ensures
        twice == once,
        twice.status != OpStatus::Running,
{
}

/// A cancel request followed by a restart leaves running work queued with no
/// pending cancel request.
pub proof fn lemma_restart_clears_cancel(
    op: OperationRecord,
    now: i64,
    cancelled: OperationRecord,
    recovered: OperationRecord,
)
    requires
        op.status == OpStatus::Running,
        cancelled == (OperationRecord { cancel_requested: true, updated_at: now, ..op }),
        recover_post(cancelled, now, recovered),
    ensures
        recovered.status == OpStatus::Queued,
        !recovered.cancel_requested,
        recovered.id == op.id,
{
}


/// What start-up does with a stored operation: an ingest still queued is
/// started again from its checkpoint's root, or failed when it lacks its
/// project or root; anything else is left alone.
pub enum ResumeStep {
    Spawn { project_id: String, root_path: String },
    Fail(String),
    Skip,
}

/// The step for one stored operation (see `ResumeStep`), given the root its
/// checkpoint names, if any.
pub fn resume_step(op: &OperationRecord, checkpoint_root: Option<String>) -> (r: ResumeStep)
    ensures
        !(op.status == OpStatus::Queued && (op.kind@ == "ingest"@ || op.kind@ == "watch_ingest"@))
            ==> r is Skip,
        op.status == OpStatus::Queued && (op.kind@ == "ingest"@ || op.kind@ == "watch_ingest"@)
            ==> match (op.project_id, checkpoint_root) {
            (Some(p), Some(root)) => r matches ResumeStep::Spawn { project_id, root_path }
                && project_id@ == p@ && root_path@ == root@,
            (None, _) => r matches ResumeStep::Fail(m) && m@ == "queued ingest has no project_id"@,
            (Some(_), None) => r matches ResumeStep::Fail(m) && m@
                == "queued ingest has no root_path checkpoint"@,
        },
{
    let k = chars_of(op.kind.as_str());
    let is_ingest = crate::text::is_literal(k.as_slice(), "ingest") || crate::text::is_literal(
        k.as_slice(),
        "watch_ingest",
    );
    if !(op.status == OpStatus::Queued && is_ingest) {
        return ResumeStep::Skip;
    }
    match &op.project_id {
        None => ResumeStep::Fail("queued ingest has no project_id".to_owned()),
        Some(p) => match checkpoint_root {
            Some(root) => ResumeStep::Spawn { project_id: p.clone(), root_path: root },
            None => ResumeStep::Fail("queued ingest has no root_path checkpoint".to_owned()),
        },
    }
}

} // verus!
