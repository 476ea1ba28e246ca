use biturbo::ingest::ExistingFile;
use biturbo::parse::{chunk_query_src, lang_bundle, language_for, parse_file};

#[test]
fn lang_bundles_compile_for_all_languages() {
    for lang in [
        "rust",
        "typescript",
        "javascript",
        "python",
        "go",
        "swift",
        "php",
        "ruby",
        "java",
        "c",
        "cpp",
        "csharp",
        "bash",
        "css",
    ] {
        let bundle = lang_bundle(lang).unwrap_or_else(|| panic!("no bundle for {lang}"));
        assert!(
            bundle.has_chunk_query(),
            "chunk query failed to compile for {lang}"
        );
    }
}

#[test]
fn parse_one_file_extracts_chunks_and_imports() {
    let source = "use std::collections::HashMap;\n\npub struct Thing { x: u32 }\n\npub fn do_it() -> u32 { 42 }\n";
    let bundle = lang_bundle("rust").unwrap();
    let pf = parse_file("proj", "sample.rs", "/tmp/sample.rs", "rust", Some(&bundle), source.as_bytes().to_vec(), None);
    assert!(pf.error.is_none(), "error: {:?}", pf.error);
    assert_eq!(pf.lang, "rust");
    assert_eq!(pf.rel, "sample.rs");
    assert_eq!(pf.file_uid, "proj::file::sample.rs");
    assert!(pf.chunks.len() >= 2, "chunks: {}", pf.chunks.len());
    assert!(pf.chunks.iter().any(|c| c.db_content().contains("do_it")));
    assert!(!pf.imports.is_empty());
    assert_eq!(pf.bytes, source.len() as u64);
}

#[test]
fn unchanged_files_keep_their_recorded_imports() {
    let bundle = lang_bundle("rust").unwrap();
    let first = parse_file("p", "a.rs", "/r/a.rs", "rust", Some(&bundle), b"fn a() {}\n".to_vec(), None);
    let existing = ExistingFile { rel: "a.rs".into(), file_hash: first.file_hash.clone(), imports: vec!["kept".into()] };
    let again = parse_file("p", "a.rs", "/r/a.rs", "rust", Some(&bundle), b"fn a() {}\n".to_vec(), Some(&existing));
    assert!(again.chunks.is_empty());
    assert_eq!(again.imports, vec!["kept".to_string()]);
}

#[test]
fn unparseable_files_report_why() {
    let pf = parse_file("p", "x.rs", "/r/x.rs", "rust", lang_bundle("rust").as_ref(), vec![0xff, 0xfe], None);
    assert_eq!(pf.error, Some("/r/x.rs: not utf-8".to_string()));
    let pf = parse_file("p", "x.kt", "/r/x.kt", "kotlin", None, b"fun x() {}".to_vec(), None);
    assert_eq!(pf.error, Some("/r/x.kt: no grammar for kotlin".to_string()));
    assert!(language_for("kotlin").is_err());
    assert!(chunk_query_src("html").is_none());
    assert!(lang_bundle("html").is_some());
}
