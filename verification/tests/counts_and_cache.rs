use biturbo::embed::{
    cache_key, execution_preference, resolve_model, ExecutionPreference, DEFAULT_DIM,
};
use biturbo::error::BiError;
use biturbo::index_cache::{plan_evictions, stale_indices, LoadedIndex};
use biturbo::memory::tag_counts;
use biturbo::operations::{create, mark_running, resume_step, ResumeStep};

fn tags(v: &[&[&str]]) -> Vec<Vec<String>> {
    v.iter().map(|l| l.iter().map(|s| s.to_string()).collect()).collect()
}

#[test]
fn tag_counts_orders_by_uses_then_name() {
    let lists = tags(&[&["rust", "db"], &["db", "ui"], &["db", "rust"], &[]]);
    let got = tag_counts(&lists);
    assert_eq!(
        got,
        vec![("db".to_string(), 3), ("rust".to_string(), 2), ("ui".to_string(), 1)]
    );
}

#[test]
fn tag_counts_ties_break_by_name() {
    let lists = tags(&[&["zeta", "alpha"], &["mid"]]);
    let got = tag_counts(&lists);
    assert_eq!(
        got,
        vec![("alpha".to_string(), 1), ("mid".to_string(), 1), ("zeta".to_string(), 1)]
    );
    assert!(tag_counts(&Vec::new()).is_empty());
}

#[test]
fn tag_counts_counts_repeats_within_one_list() {
    let lists = tags(&[&["a", "a", "b"]]);
    assert_eq!(tag_counts(&lists), vec![("a".to_string(), 2), ("b".to_string(), 1)]);
}

#[test]
fn resume_step_for_queued_ingest() {
    let op = create("ing-1".into(), "ingest".into(), Some("proj".into()), None, 5);
    match resume_step(&op, Some("/src/proj".into())) {
        ResumeStep::Spawn { project_id, root_path } => {
            assert_eq!(project_id, "proj");
            assert_eq!(root_path, "/src/proj");
        }
        _ => panic!("expected a spawn"),
    }
    match resume_step(&op, None) {
        ResumeStep::Fail(m) => assert_eq!(m, "queued ingest has no root_path checkpoint"),
        _ => panic!("expected a failure"),
    }
    let orphan = create("ing-2".into(), "watch_ingest".into(), None, None, 5);
    match resume_step(&orphan, Some("/x".into())) {
        ResumeStep::Fail(m) => assert_eq!(m, "queued ingest has no project_id"),
        _ => panic!("expected a failure"),
    }
}

#[test]
fn resume_step_skips_other_work() {
    let running = mark_running(
        create("ing-3".into(), "ingest".into(), Some("p".into()), None, 1),
        2,
    );
    assert!(matches!(resume_step(&running, Some("/r".into())), ResumeStep::Skip));
    let other = create("con-1".into(), "consolidate".into(), Some("p".into()), None, 1);
    assert!(matches!(resume_step(&other, Some("/r".into())), ResumeStep::Skip));
}

fn idx(p: &str, bytes: u64, last: u64) -> LoadedIndex {
    LoadedIndex { project_id: p.to_string(), bytes, last_access: last }
}

#[test]
fn evictions_drop_least_recent_until_under_budget() {
    let loaded = vec![idx("a", 100, 5), idx("b", 100, 1), idx("c", 100, 3)];
    assert_eq!(plan_evictions(loaded, 150), vec!["b".to_string(), "c".to_string()]);
    let loaded = vec![idx("a", 100, 5), idx("b", 100, 1)];
    assert!(plan_evictions(loaded, 200).is_empty());
    let loaded = vec![idx("a", 10, 2), idx("b", 10, 2)];
    assert_eq!(plan_evictions(loaded, 0), vec!["a".to_string(), "b".to_string()]);
}

#[test]
fn stale_indices_past_max_age() {
    let loaded = vec![idx("a", 1, 10), idx("b", 1, 90), idx("c", 1, 200)];
    assert_eq!(stale_indices(&loaded, 100, 50), vec!["a".to_string()]);
    assert_eq!(stale_indices(&loaded, 100, 5), vec!["a".to_string(), "b".to_string()]);
}

#[test]
fn models_resolve_to_canonical_names() {
    assert_eq!(resolve_model("BGE-small-en").unwrap(), ("BGE-small-en-v1.5", DEFAULT_DIM));
    assert_eq!(resolve_model("BGE-base-en-v1.5").unwrap(), ("BGE-base-en-v1.5", 768));
    assert_eq!(resolve_model("BGE-large-en").unwrap(), ("BGE-large-en-v1.5", 1024));
    assert_eq!(resolve_model("all-MiniLM-L6-v2").unwrap(), ("all-MiniLM-L6-v2", 384));
    match resolve_model("gpt") {
        Err(BiError::Embed(m)) => assert_eq!(
            m,
            "unsupported model gpt; supported: BGE-small-en-v1.5, BGE-base-en-v1.5, BGE-large-en-v1.5, all-MiniLM-L6-v2"
        ),
        other => panic!("unexpected {other:?}"),
    }
}

#[test]
fn cache_key_is_hex_sha256() {
    assert_eq!(
        cache_key("abc"),
        "ba7816bf8f01cfea414140de5dae2223b00361a396177a9cb410ff61f20015ad"
    );
    assert_ne!(cache_key("abc"), "abc");
}

#[test]
fn execution_preference_ignores_case() {
    assert_eq!(execution_preference(Some("CUDA")), ExecutionPreference::Cuda);
    assert_eq!(execution_preference(Some("cpu")), ExecutionPreference::Cpu);
    assert_eq!(execution_preference(Some("gpu")), ExecutionPreference::Auto);
    assert_eq!(execution_preference(None), ExecutionPreference::Auto);
}
