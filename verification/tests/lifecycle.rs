use biturbo::consolidate::{merge_tags, tally, ConsolidateReport};
use biturbo::error::BiError;
use biturbo::operations::{
    complete, create, mark_cancelled, mark_running, new_operation_id, recover_interrupted,
    request_cancel, update_progress, OpStatus,
};
use biturbo::scheduler::{
    after_send, begin_run, enqueue, finish_run, get_status, job_received, EnqueueStep,
    SchedulerShared, SendOutcome, INTERVAL_SECS,
};

#[test]
fn operation_lifecycle() {
    let id = new_operation_id("ingest");
    assert!(id.starts_with("ing-"));
    let u: Vec<char> = id["ing-".len()..].chars().collect();
    assert_eq!(u.len(), 36);
    assert_eq!(u[14], '4');
    assert!(matches!(u[19], '8' | '9' | 'a' | 'b'));
    let op = create(id.clone(), "ingest".into(), Some("p".into()), None, 10);
    assert_eq!(op.status, OpStatus::Queued);
    let op = mark_running(op, 11);
    assert_eq!(op.status, OpStatus::Running);
    assert_eq!(op.started_at, Some(11));
    let op = update_progress(op, "embedding", 3, 9, None, 12);
    assert_eq!((op.current, op.total), (3, 9));
    let op = complete(op, "{}".into(), 13);
    assert_eq!(op.status, OpStatus::Succeeded);
    assert_eq!(
        request_cancel(op, 14).err(),
        Some(BiError::Invalid(format!("operation {id} is not cancellable")))
    );
}

#[test]
fn cancel_and_restart_recovery() {
    let op = create("op-1".into(), "consolidate".into(), None, None, 1);
    let op = request_cancel(op, 2).unwrap();
    assert!(op.cancel_requested);
    let op = mark_cancelled(op, 3);
    assert_eq!(op.status, OpStatus::Cancelled);
    let running = mark_running(create("op-2".into(), "ingest".into(), None, None, 1), 2);
    let recovered = recover_interrupted(running, 5);
    assert_eq!(recovered.status, OpStatus::Queued);
}

#[test]
fn scheduler_coalesces_manual_requests() {
    let mut s = SchedulerShared::new();
    assert_eq!(enqueue(&mut s, None, true, true), Ok(EnqueueStep::Send));
    assert_eq!(after_send(&mut s, SendOutcome::Sent), Ok(()));
    assert!(begin_run(&mut s));
    assert!(!begin_run(&mut s));
    assert_eq!(enqueue(&mut s, Some("p"), true, true), Ok(EnqueueStep::Coalesced));
    assert!(s.queued);
    job_received(&mut s);
    finish_run(&mut s, Some(ConsolidateReport::empty()), 500, 100);
    let st = get_status(&s, 100 + 60);
    assert!(!st.running);
    assert_eq!(st.last_run_at, Some(500));
    assert_eq!(st.next_run_in_secs, INTERVAL_SECS - 60);
    assert_eq!(
        after_send(&mut s, SendOutcome::Closed),
        Err(BiError::Internal("consolidate worker is not running".into()))
    );
}

#[test]
fn manual_requests_are_checked_before_they_are_queued() {
    let mut s = SchedulerShared::new();
    assert_eq!(
        enqueue(&mut s, Some("ghost"), false, true),
        Err(BiError::Invalid("project 'ghost' does not exist".into()))
    );
    assert_eq!(s, SchedulerShared::new());
    assert_eq!(
        enqueue(&mut s, None, true, false),
        Err(BiError::Internal("consolidate worker has not been started yet".into()))
    );
    assert!(!s.queued);
    assert!(begin_run(&mut s));
    assert_eq!(enqueue(&mut s, None, true, false), Ok(EnqueueStep::Coalesced));
    assert!(s.queued);
    assert_eq!(get_status(&s, 0).next_run_in_secs, 0);
}

#[test]
fn consolidation_reports_and_tag_merges() {
    let r = tally(4, &[true, false, true]);
    assert_eq!((r.decayed, r.duplicates_found, r.merged, r.removed), (4, 3, 2, 2));
    let merged = merge_tags(&vec!["a".into(), "b".into()], &vec!["b".into(), "c".into()]);
    assert_eq!(merged, vec!["a".to_string(), "b".to_string(), "c".to_string()]);
}
