use biturbo::memory::{
    check_remember, filter_stopwords, match_counts, sanitize_fts_query, search_limits,
    tokenize_query, FtsCombine, MemType,
};
use biturbo::error::BiError;

#[test]
fn fts_or_query_matches_any_token() {
    let q = sanitize_fts_query("hybrid search turbovec", FtsCombine::Or);
    assert!(q.contains(" OR "));
    assert!(q.contains("\"hybrid\"*"));
}

#[test]
fn fts_skips_single_char_tokens() {
    let q = sanitize_fts_query("a MCP server", FtsCombine::Or);
    assert!(!q.contains("\"a\"*"));
    assert!(q.contains("\"MCP\"*"));
}

#[test]
fn fts_query_strips_quotes_and_punctuation() {
    let q = sanitize_fts_query(r#"auth: "login-flow"!"#, FtsCombine::Or);
    assert!(q.contains("\"auth\"*"));
    assert!(q.contains("\"login-flow\"*"));
    assert!(!q.contains("!"));
}

#[test]
fn fts_and_query_joins_with_spaces() {
    assert_eq!(sanitize_fts_query("turbo wastegate", FtsCombine::And), "\"turbo\"* \"wastegate\"*");
    assert_eq!(sanitize_fts_query("turbo wastegate", FtsCombine::Or), "\"turbo\"* OR \"wastegate\"*");
    assert_eq!(sanitize_fts_query("a ! ?", FtsCombine::Or), "");
}

#[test]
fn tokenize_lowercases_and_drops_short_words() {
    assert_eq!(tokenize_query("The Turbo a  Wastegate"), vec!["the", "turbo", "wastegate"]);
}

#[test]
fn stopwords_are_removed() {
    let terms: Vec<String> = vec!["the".into(), "turbo".into(), "of".into(), "boost".into()];
    assert_eq!(filter_stopwords(&terms), vec!["turbo".to_string(), "boost".to_string()]);
}

#[test]
fn mem_type_round_trips_and_rejects_unknown() {
    for name in ["fact", "decision", "preference", "pattern", "episode", "reflection", "code"] {
        let t = MemType::from_str(name).unwrap();
        assert_eq!(t.as_str(), name);
    }
    assert_eq!(MemType::from_str("gossip"), Err(BiError::Invalid("unknown mem_type gossip".into())));
}

#[test]
fn reranker_counts_term_matches() {
    let tags: Vec<String> = vec!["Auth".into(), "ui".into()];
    let terms: Vec<String> = vec!["the".into(), "auth".into(), "login".into(), "rust".into()];
    let m = match_counts("Login flow for AUTH", &tags, Some("src/Auth/login.rs"), Some("Rust"), &terms);
    assert_eq!(m.content_matches, 2);
    assert_eq!(m.tag_matches, 1);
    assert_eq!(m.path_matches, 2);
    assert!(m.language_match);
    let none = match_counts("nothing here", &tags, None, None, &terms);
    assert_eq!(none.content_matches, 0);
    assert_eq!(none.path_matches, 0);
    assert!(!none.language_match);
}

#[test]
fn search_limits_clamp_and_widen() {
    assert_eq!(search_limits(0), (1, 30, 4));
    assert_eq!(search_limits(10), (10, 30, 40));
    assert_eq!(search_limits(20), (20, 60, 80));
    assert_eq!(search_limits(1000), (100, 300, 400));
}

#[test]
fn remember_checks_content_and_type() {
    assert_eq!(check_remember("   ", "p", false, Some("nope")), Err(BiError::Invalid("content is empty".into())));
    assert_eq!(check_remember("x", "p", true, None), Ok(MemType::Fact));
    assert_eq!(check_remember("x", "p", true, Some("decision")), Ok(MemType::Decision));
    assert_eq!(check_remember("x", "p", true, Some("nope")), Err(BiError::Invalid("unknown mem_type nope".into())));
    assert_eq!(
        check_remember("x", "ghost", false, Some("nope")),
        Err(BiError::Invalid("project 'ghost' does not exist \u{2014} create it first with create_project".into()))
    );
}
