use biturbo::io::{
    chunk_markdown, import_error, import_tags, is_importable_ext, note_chunks, watch_status, ImportResult,
    WatchJob, WatchRegistry,
};

#[test]
fn markdown_splits_at_headings() {
    let chunks = chunk_markdown("# One\nalpha\n## Two\nbeta\n");
    assert_eq!(chunks, vec!["# One\nalpha".to_string(), "## Two\nbeta".to_string()]);
}

#[test]
fn markdown_heading_after_blank_start_does_not_split() {
    let chunks = chunk_markdown("\n# Title\nbody");
    assert_eq!(chunks, vec!["# Title\nbody".to_string()]);
}

#[test]
fn markdown_cuts_long_chunks() {
    let line = "x".repeat(1000);
    let text = format!("{line}\n{line}\n{line}\n");
    let chunks = chunk_markdown(&text);
    assert_eq!(chunks.len(), 2);
    assert_eq!(chunks[0], format!("{line}\n{line}"));
    assert_eq!(chunks[1], line);
}

#[test]
fn markdown_whitespace_only_file_is_kept_whole() {
    assert_eq!(chunk_markdown("  \n \n"), vec!["  \n \n".to_string()]);
    assert!(chunk_markdown("").is_empty());
}

#[test]
fn importable_extensions_ignore_case() {
    assert!(is_importable_ext("md"));
    assert!(is_importable_ext("MarkDown"));
    assert!(is_importable_ext("TXT"));
    assert!(is_importable_ext("org"));
    assert!(!is_importable_ext("rs"));
    assert!(!is_importable_ext(""));
}

#[test]
fn import_tags_and_error_text() {
    assert_eq!(import_tags("txt"), vec!["imported".to_string(), "md:txt".to_string()]);
    assert_eq!(import_error("notes/a.md", 3, "boom"), "notes/a.md chunk 3: boom");
    let r = ImportResult::default();
    assert_eq!(r.files_imported, 0);
    assert!(r.errors.is_empty());
}

#[test]
fn watch_registry_tracks_each_project_once() {
    let mut reg = WatchRegistry::new();
    reg.add("alpha");
    reg.add("beta");
    reg.add("alpha");
    assert!(reg.contains("alpha"));
    let st = watch_status(&reg);
    assert_eq!(st.enabled_projects, 2);
    reg.remove("alpha");
    assert!(!reg.contains("alpha"));
    assert_eq!(watch_status(&reg).watching, vec!["beta".to_string()]);
}

#[test]
fn watch_changes_during_a_run_coalesce_into_one_rerun() {
    let mut job = WatchJob::new();
    assert!(job.on_change());
    assert!(!job.on_change());
    assert!(!job.on_change());
    assert!(job.on_finish());
    job.on_rerun_finish();
    assert!(!job.running);
    assert!(job.on_change());
    assert!(!job.on_finish());
}

#[test]
fn blank_chunks_are_not_imported() {
    let long_blank = " ".repeat(1600);
    let content = format!("{long_blank}\n# A\nalpha\n## B\nbeta\n");
    let chunks = chunk_markdown(&content);
    assert_eq!(chunks.len(), 3);
    assert_eq!(chunks[0], "");
    let kept = note_chunks(&content);
    assert_eq!(kept, vec![(1, "# A\nalpha".to_string()), (2, "## B\nbeta".to_string())]);
}

#[test]
fn markdown_chunks_are_trimmed_and_empty_only_for_empty_files() {
    assert!(chunk_markdown("").is_empty());
    assert_eq!(chunk_markdown("  \n\n"), vec!["  \n\n".to_string()]);
    for c in chunk_markdown("\n  intro  \n# H\n body \n") {
        assert_eq!(c, c.trim());
    }
}

#[test]
fn markdown_chunks_keep_all_text_but_whitespace() {
    let content = "intro line\r\n# One\n  alpha  \n## Two\n\nbeta\n### Three\ngamma\n";
    let ws = |s: &str| s.split_whitespace().collect::<String>();
    let chunks = chunk_markdown(content);
    assert_eq!(chunks.len(), 4);
    assert_eq!(ws(&chunks.concat()), ws(content));
    assert_eq!(chunk_markdown(&" ".repeat(1600)), vec![String::new()]);
}

#[test]
fn watching_follows_the_last_request_per_project() {
    let mut reg = WatchRegistry::new();
    reg.add("a");
    reg.add("b");
    reg.add("a");
    reg.remove("a");
    reg.add("c");
    reg.add("a");
    reg.remove("b");
    let st = watch_status(&reg);
    let mut got = st.watching.clone();
    got.sort();
    assert_eq!(got, vec!["a".to_string(), "c".to_string()]);
    assert_eq!(st.enabled_projects, st.watching.len());
}
