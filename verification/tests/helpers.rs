use biturbo::commands::{
    import_missing_project, import_missing_root, IngestJobResponse, ResolveMcpBinaryResult,
};
use biturbo::error::{concat_message, BiError};
use biturbo::hashing::sha256_hex;
use biturbo::ingest::{
    chunk_kind_exec, dedup_edges, edge_imports, project_failure, structure_uid, Edge,
    ExistingFile, ParsedFile,
};
use biturbo::memory::is_stopword_chars;
use biturbo::operations::{
    create, fail, operation_id_prefix, record_failure, request_cancel, mark_running, OpStatus,
};
use biturbo::text::{
    chars_eq, chars_lt, chars_of, contains_chars, decimal_i64, decimal_string,
    ends_with_two_newlines, find_last_char, is_literal, join_chars, remove_char_chars,
    split_lines, split_runs, split_whitespace, starts_with_chars, string_of, trim_chars,
    utf8_len, TrimSet,
};

fn cs(s: &str) -> Vec<char> {
    s.chars().collect()
}

fn strs(v: Vec<Vec<char>>) -> Vec<String> {
    v.into_iter().map(|x| x.into_iter().collect()).collect()
}

#[test]
fn error_messages_carry_their_kind() {
    assert_eq!(BiError::NotFound("x".into()).message(), "not found: x");
    assert_eq!(BiError::Invalid("bad".into()).message(), "invalid input: bad");
    assert_eq!(BiError::Ingest("boom".into()).message(), "ingest error: boom");
    assert_eq!(concat_message("a", "b"), "ab");
    assert_eq!(
        project_failure("p1", &BiError::Io("disk".into())),
        BiError::Ingest("project p1 failed: io error: disk".into())
    );
}

#[test]
fn command_errors_and_answers() {
    assert_eq!(
        import_missing_project("p"),
        BiError::Invalid("project 'p' does not exist \u{2014} create it first".into())
    );
    assert_eq!(import_missing_root("/r"), BiError::Invalid("root_path '/r' does not exist on disk".into()));
    let r = IngestJobResponse::single("job".into(), "p".into());
    assert_eq!((r.job_id.as_str(), r.project_id.as_str()), ("job", "p"));
    let f = ResolveMcpBinaryResult::found("/bin/x".into());
    assert!(f.is_absolute);
    assert_eq!(f.path, "/bin/x");
}

#[test]
fn text_splitting_and_joining() {
    assert_eq!(strs(split_whitespace(&cs("  a  bc\td "))), vec!["a", "bc", "d"]);
    assert_eq!(strs(split_lines(&cs("one\r\ntwo\n\nthree"))), vec!["one", "two", "", "three"]);
    assert_eq!(strs(split_runs(&cs("--a---b-"), '-')), vec!["a", "b"]);
    let parts = vec![cs("x"), cs("y"), cs("z")];
    assert_eq!(string_of(&join_chars(&parts, &cs(", "))), "x, y, z");
    assert_eq!(string_of(&trim_chars(&cs("  hi \n"), TrimSet::Whitespace)), "hi");
    assert_eq!(string_of(&trim_chars(&cs("'q'"), TrimSet::Quotes)), "q");
    assert_eq!(string_of(&remove_char_chars(&cs("a\"b\""), '"')), "ab");
    assert_eq!(chars_of("héllo").len(), 5);
}

#[test]
fn text_searching_and_comparing() {
    assert!(contains_chars(&cs("hello world"), &cs("o w")));
    assert!(!contains_chars(&cs("hello"), &cs("xyz")));
    assert!(starts_with_chars(&cs("prefix-rest"), &cs("prefix")));
    assert!(chars_eq(&cs("same"), &cs("same")));
    assert!(!chars_eq(&cs("same"), &cs("sane")));
    assert!(chars_lt(&cs("abc"), &cs("abd")));
    assert!(chars_lt(&cs("ab"), &cs("abc")));
    assert!(!chars_lt(&cs("b"), &cs("abc")));
    assert_eq!(find_last_char(&cs("a/b/c"), '/'), Some(3));
    assert_eq!(find_last_char(&cs("abc"), '/'), None);
    assert!(is_literal(&cs("fact"), "fact"));
    assert!(ends_with_two_newlines(&cs("x\n\n")));
    assert!(!ends_with_two_newlines(&cs("x\n")));
    assert_eq!(utf8_len(&cs("aé")), 3);
}

#[test]
fn decimal_renderings() {
    assert_eq!(string_of(&decimal_string(0)), "0");
    assert_eq!(string_of(&decimal_string(1203)), "1203");
    assert_eq!(string_of(&decimal_i64(-45)), "-45");
    assert_eq!(string_of(&decimal_i64(i64::MIN)), "-9223372036854775808");
}

#[test]
fn hex_digest_of_empty_input() {
    assert_eq!(sha256_hex(b""), "e3b0c44298fc1c149afbf4c8996fb92427ae41e4649b934ca495991b7852b855");
}

#[test]
fn ingest_helpers() {
    assert_eq!(structure_uid("proj"), "proj::structure");
    assert!(chunk_kind_exec(&cs("function_item")));
    assert!(!chunk_kind_exec(&cs("identifier")));
    let e = |f: &str, t: &str, k: &str| Edge { from: f.into(), to: t.into(), edge_type: k.into() };
    let out = dedup_edges(vec![e("a", "b", "imports"), e("a", "b", "imports"), e("a", "b", "member_of")]);
    let got: Vec<(String, String, String)> = out.into_iter().map(|x| (x.from, x.to, x.edge_type)).collect();
    assert_eq!(
        got,
        vec![
            ("a".into(), "b".into(), "imports".into()),
            ("a".into(), "b".into(), "member_of".into())
        ]
    );
}

#[test]
fn edge_imports_use_recorded_imports_for_unchanged_files() {
    let pf = ParsedFile {
        rel: "src/a.rs".into(),
        file_uid: "p::file::src/a.rs".into(),
        lang: "rust".into(),
        bytes: 3,
        file_hash: "h1".into(),
        chunks: Vec::new(),
        imports: vec!["new".into()],
        error: None,
    };
    let same = vec![ExistingFile { rel: "src/a.rs".into(), file_hash: "h1".into(), imports: vec!["old".into()] }];
    assert_eq!(edge_imports(&pf, &same), vec!["old".to_string()]);
    let changed = vec![ExistingFile { rel: "src/a.rs".into(), file_hash: "h0".into(), imports: vec!["old".into()] }];
    assert_eq!(edge_imports(&pf, &changed), vec!["new".to_string()]);
}

#[test]
fn stopwords_and_id_prefixes() {
    assert!(is_stopword_chars(&cs("the")));
    assert!(!is_stopword_chars(&cs("turbo")));
    assert_eq!(operation_id_prefix("ingest"), "ing");
    assert_eq!(operation_id_prefix("watch_ingest"), "ing");
    assert_eq!(operation_id_prefix("multi_ingest"), "multi-ing");
    assert_eq!(operation_id_prefix("consolidate"), "con");
    assert_eq!(operation_id_prefix("other"), "op");
}

#[test]
fn failures_are_recorded_as_failed_or_cancelled() {
    let op = mark_running(create("ing-1".into(), "ingest".into(), Some("p".into()), None, 1), 2);
    let failed = fail(op.clone(), "boom".into(), 3);
    assert_eq!(failed.status, OpStatus::Failed);
    assert_eq!(failed.error.as_deref(), Some("boom"));
    let recorded = record_failure(op.clone(), "boom".into(), 3);
    assert_eq!(recorded.status, OpStatus::Failed);
    let asked = request_cancel(op, 4).unwrap();
    let cancelled = record_failure(asked, "boom".into(), 5);
    assert_eq!(cancelled.status, OpStatus::Cancelled);
    assert_eq!(cancelled.phase.as_deref(), Some("cancelled"));
}
