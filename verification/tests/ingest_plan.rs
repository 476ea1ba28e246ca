use biturbo::ingest::{candidate_extensions, find_by_stem, import_key, ImportKey};
use biturbo::error::BiError;
use biturbo::ingest::{
    collect_chunks, collect_imports, derive_label, detect_language, file_uid, graph_nodes,
    node_kind_of, pending_chunks, plan_edges, plan_files, plan_insert_groups, split_extension,
    project_failure, structure_entry, structure_summary, summarize_multi_ingest, Capture, Chunk, ChunkRow,
    ExistingFile, IngestResult, ParsedFile, PendingChunk,
};

fn cap(kind: &str, start: usize, end: usize, text: &str) -> Capture {
    Capture { kind: kind.into(), start_row: start, end_row: end, text: text.into() }
}

#[test]
fn languages_by_extension() {
    assert_eq!(detect_language("rs"), Some("rust".to_string()));
    assert_eq!(detect_language("tsx"), Some("typescript".to_string()));
    assert_eq!(detect_language("hxx"), Some("cpp".to_string()));
    assert_eq!(detect_language("kts"), Some("kotlin".to_string()));
    assert_eq!(detect_language("md"), None);
}

#[test]
fn extension_split_follows_path_rules() {
    assert_eq!(split_extension("main.rs"), ("main".to_string(), Some("rs".to_string())));
    assert_eq!(split_extension("archive.tar.gz"), ("archive.tar".to_string(), Some("gz".to_string())));
    assert_eq!(split_extension(".bashrc"), (".bashrc".to_string(), None));
    assert_eq!(split_extension("Makefile"), ("Makefile".to_string(), None));
    assert_eq!(split_extension("..") , ("..".to_string(), None));
    assert_eq!(split_extension("trail."), ("trail".to_string(), Some(String::new())));
}

#[test]
fn labels_strip_comment_marks() {
    assert_eq!(derive_label("   "), "(anon)");
    assert_eq!(derive_label("// src/lib.rs:1-3\nfn x() {}"), "src/lib.rs:1-3");
    assert_eq!(derive_label("### heading"), "heading");
    assert_eq!(derive_label("//"), "//");
    let long = "a".repeat(80);
    assert_eq!(derive_label(&long).chars().count(), 60);
    assert_eq!(node_kind_of("pub struct Thing"), "struct");
    assert_eq!(node_kind_of("class Foo"), "class");
    assert_eq!(node_kind_of("fn go()"), "function");
}

#[test]
fn chunks_from_captures_skip_duplicates_and_other_kinds() {
    let src = "use x;\n\npub struct Thing { x: u32 }\n\npub fn do_it() -> u32 {\n 42\n}\n";
    let caps = vec![
        cap("struct_item", 2, 2, ""),
        cap("identifier", 2, 2, "Thing"),
        cap("function_item", 4, 6, ""),
        cap("function_item", 4, 6, ""),
    ];
    let chunks = collect_chunks(&caps, src);
    assert_eq!(chunks.len(), 2);
    assert_eq!(chunks[0].code, "pub struct Thing { x: u32 }");
    assert_eq!((chunks[0].start_line, chunks[0].end_line), (3, 3));
    assert_eq!(chunks[1].code, "pub fn do_it() -> u32 {\n 42\n}");
    assert_eq!((chunks[1].start_line, chunks[1].end_line), (5, 7));
}

#[test]
fn chunks_fall_back_to_the_head_of_the_file() {
    let src = "a\nb\nc";
    let chunks = collect_chunks(&Vec::new(), src);
    assert_eq!(chunks.len(), 1);
    assert_eq!(chunks[0].code, "a\nb\nc");
    assert_eq!((chunks[0].start_line, chunks[0].end_line), (1, 3));
    assert!(collect_chunks(&Vec::new(), "").is_empty());
}

#[test]
fn long_definitions_are_capped() {
    let src: String = (0..300).map(|i| format!("line{i}\n")).collect();
    let chunks = collect_chunks(&vec![cap("function_item", 10, 290, "")], &src);
    assert_eq!((chunks[0].start_line, chunks[0].end_line), (11, 211));
}

#[test]
fn imports_from_captures() {
    let caps = vec![
        cap("string", 0, 0, "\"./util\""),
        cap("string", 0, 0, "''"),
        cap("scoped_identifier", 0, 0, "std::collections::HashMap"),
        cap("comment", 0, 0, "x"),
    ];
    assert_eq!(collect_imports(&caps), vec!["./util".to_string(), "std::collections::HashMap".to_string()]);
}

#[test]
fn pending_chunk_texts() {
    let chunks = vec![Chunk { code: "fn a() {}".into(), start_line: 3, end_line: 5 }];
    let p = pending_chunks("proj", "src/a.rs", "/root/src/a.rs", "rust", chunks);
    assert_eq!(p[0].uid, "proj::src/a.rs::3");
    assert_eq!(p[0].file_uid, "proj::file::src/a.rs");
    assert_eq!(p[0].db_content(), "// /root/src/a.rs:3-5\nfn a() {}");
    assert_eq!(p[0].embed_text(), "```rust\n// /root/src/a.rs:3-5\nfn a() {}```\nrust");
    let big = PendingChunk {
        uid: "u".into(),
        code: "é".repeat(5000),
        file_path: "f".into(),
        start_line: 1,
        end_line: 1,
        language: "rust".into(),
        file_uid: "fu".into(),
    };
    assert_eq!(big.db_content().chars().count(), 4000);
    assert_eq!(file_uid("p", "x.rs"), "p::file::x.rs");
}

#[test]
fn structure_listing_is_truncated_in_the_middle() {
    assert_eq!(structure_entry(1, "src", true), "src/");
    assert_eq!(structure_entry(3, "a.rs", false), "    a.rs");
    let entries: Vec<String> = (0..250).map(|i| format!("e{i}")).collect();
    let text = structure_summary("root", &entries);
    let lines: Vec<&str> = text.lines().collect();
    assert_eq!(lines[0], "Project structure (root):");
    assert_eq!(lines[1], "e0");
    assert_eq!(lines[101], "\u{2026} (50 more entries) \u{2026}");
    assert_eq!(lines[102], "e150");
    assert_eq!(lines.len(), 202);
    let short = structure_summary("r", &vec!["a".to_string(), "b/".to_string()]);
    assert_eq!(short, "Project structure (r):\na\nb/");
}

#[test]
fn inserts_are_grouped_under_the_limit() {
    assert_eq!(plan_insert_groups(&vec![1500, 400, 200, 0, 2500, 10]), vec![(0, 2), (2, 4), (4, 5), (5, 6)]);
    assert_eq!(plan_insert_groups(&vec![0, 0]), Vec::<(usize, usize)>::new());
    assert_eq!(plan_insert_groups(&vec![0, 3000]), vec![(0, 2)]);
}

fn parsed(rel: &str, hash: &str, lang: &str, error: Option<&str>, chunks: usize) -> ParsedFile {
    let uid = format!("p::file::{rel}");
    ParsedFile {
        rel: rel.into(),
        file_uid: uid.clone(),
        lang: lang.into(),
        bytes: 10,
        file_hash: hash.into(),
        chunks: (0..chunks)
            .map(|i| PendingChunk {
                uid: format!("p::{rel}::{}", i + 1),
                code: "c".into(),
                file_path: rel.into(),
                start_line: i + 1,
                end_line: i + 1,
                language: lang.into(),
                file_uid: uid.clone(),
            })
            .collect(),
        imports: Vec::new(),
        error: error.map(String::from),
    }
}

#[test]
fn files_are_sorted_into_changed_failed_and_deleted() {
    let ps = vec![
        parsed("a.rs", "h1", "rust", None, 1),
        parsed("b.rs", "new", "rust", None, 2),
        parsed("c.py", "h3", "python", Some("c.py: not utf-8"), 0),
    ];
    let ex = vec![
        ExistingFile { rel: "a.rs".into(), file_hash: "h1".into(), imports: vec!["b".into()] },
        ExistingFile { rel: "b.rs".into(), file_hash: "old".into(), imports: vec![] },
        ExistingFile { rel: "gone.rs".into(), file_hash: "h".into(), imports: vec![] },
    ];
    let plan = plan_files("p", &ps, &ex);
    assert_eq!(plan.changed, vec![1, 2]);
    assert_eq!(plan.changed_rels, vec!["b.rs".to_string()]);
    assert_eq!(plan.changed_file_uids, vec!["p::file::b.rs".to_string(), "p::file::c.py".to_string()]);
    assert_eq!(plan.parse_error_rels, vec!["c.py".to_string()]);
    assert_eq!(plan.stale_file_uids, vec!["p::file::c.py".to_string()]);
    assert_eq!(plan.deleted_rels, vec!["gone.rs".to_string()]);
    assert_eq!(plan.deleted_file_uids, vec!["p::file::gone.rs".to_string()]);
    assert_eq!(plan.files_indexed, 2);
    assert_eq!(plan.bytes_processed, 30);
    assert_eq!(plan.languages, vec![("rust".to_string(), 2)]);
    assert_eq!(plan.errors, vec!["c.py: not utf-8".to_string()]);
}

#[test]
fn edges_link_chunks_files_and_importers() {
    let ps = vec![
        parsed("a.rs", "h1", "rust", None, 0),
        parsed("b.rs", "h2", "rust", None, 2),
    ];
    // a.rs (unchanged) imports b.rs; b.rs (changed) imports a.rs and itself.
    let rs = vec![vec![Some("b.rs".to_string())], vec![Some("a.rs".to_string()), Some("b.rs".to_string()), None]];
    let edges = plan_edges(&ps, &rs, &vec![1]);
    let got: Vec<(String, String, String)> = edges.into_iter().map(|e| (e.from, e.to, e.edge_type)).collect();
    assert_eq!(
        got,
        vec![
            ("p::b.rs::1".into(), "p::file::b.rs".into(), "member_of".into()),
            ("p::b.rs::2".into(), "p::file::b.rs".into(), "member_of".into()),
            ("p::file::b.rs".into(), "p::file::a.rs".into(), "imports".into()),
            ("p::file::a.rs".into(), "p::file::b.rs".into(), "imports".into()),
        ]
    );
}

#[test]
fn graph_nodes_group_chunks_by_file_in_order() {
    let row = |uid: &str, first: &str, path: Option<&str>, s: i64, e: i64| ChunkRow {
        uid: uid.into(),
        first_line: first.into(),
        file_path: path.map(String::from),
        start_line: Some(s),
        end_line: Some(e),
        language: Some("rust".into()),
    };
    let rows = vec![
        row("u2", "// /r/src/z.rs:1-2", Some("/r/src/z.rs"), 1, 2),
        row("u1", "// /r/src/a.rs:5-4", Some("/r/src/a.rs"), 5, 4),
        row("u3", "pub struct S", Some("/r/src/z.rs"), 3, 9),
        row("u4", "x", None, 1, 1),
    ];
    let nodes = graph_nodes("p", &rows);
    let ids: Vec<&str> = nodes.iter().map(|n| n.uid.as_str()).collect();
    assert_eq!(ids, vec!["p::file::r/src/a.rs", "u1", "p::file::r/src/z.rs", "u2", "u3"]);
    assert_eq!(nodes[0].label, "a.rs");
    assert_eq!(nodes[0].kind, "file");
    assert_eq!(nodes[0].size, 1);
    assert_eq!(nodes[1].size, 1);
    assert_eq!(nodes[2].size, 2);
    assert_eq!(nodes[4].kind, "struct");
    assert_eq!(nodes[4].size, 7);
}

#[test]
fn multi_ingest_totals() {
    let mut a = IngestResult::empty("a".into());
    a.files_indexed = 2;
    a.chunks_indexed = 5;
    a.bytes_processed = 100;
    a.errors = vec!["x".into()];
    a.edges_created = 3;
    let failed = Err(project_failure("b", &BiError::Io("boom".into())));
    let m = summarize_multi_ingest(vec![Ok(a), failed]);
    assert_eq!(m.total_files_indexed, 2);
    assert_eq!(m.total_chunks_indexed, 5);
    assert_eq!(m.total_bytes_processed, 100);
    assert_eq!(m.total_errors, 2);
    assert_eq!(m.total_edges_created, 3);
    assert_eq!(m.results[1].project_id, "unknown");
    assert_eq!(m.results[1].errors, vec!["ingest error: project b failed: io error: boom".to_string()]);
}

#[test]
fn import_keys_strip_rust_prefixes() {
    match import_key("crate::db::conn") {
        ImportKey::Stem(s) => assert_eq!(s, "db"),
        _ => panic!("expected a stem"),
    }
    match import_key("./util/helpers") {
        ImportKey::Relative { from_root, rest } => {
            assert!(!from_root);
            assert_eq!(rest, "util/helpers");
        }
        _ => panic!("expected a relative path"),
    }
}

#[test]
fn find_by_stem_takes_first_in_walk_order() {
    let files = vec![
        ("main".to_string(), "src/main.rs".to_string()),
        ("db".to_string(), "src/db.rs".to_string()),
        ("db".to_string(), "old/db.rs".to_string()),
    ];
    assert_eq!(find_by_stem(&files, "db"), Some("src/db.rs".to_string()));
    assert_eq!(find_by_stem(&files, "ui"), None);
    assert_eq!(candidate_extensions()[0], "ts");
    assert_eq!(candidate_extensions().len(), 9);
}

#[test]
fn plan_languages_come_in_name_order() {
    let ps = vec![
        parsed("z.ts", "1", "typescript", None, 1),
        parsed("a.rs", "2", "rust", None, 1),
        parsed("m.go", "3", "go", None, 1),
        parsed("b.rs", "4", "rust", None, 1),
    ];
    let plan = plan_files("p", &ps, &Vec::new());
    assert_eq!(
        plan.languages,
        vec![("go".to_string(), 1), ("rust".to_string(), 2), ("typescript".to_string(), 1)]
    );
}
