use biturbo::error::BiError;
use biturbo::mcp::{
    bounded_k, deduplicate_hits, feedback_value, format_context_block, is_near_duplicate,
    missing_arg, parse_tool, path_required, project_required, trim_for_context, type_code,
    ContextHit, Tool,
};

fn hit(content: &str, mem_type: &str) -> ContextHit {
    ContextHit {
        mem_type: mem_type.into(),
        score_text: "0.91".into(),
        importance_text: "0.50".into(),
        tags: vec!["auth".into(), "db".into()],
        file_path: None,
        start_line: None,
        end_line: None,
        language: None,
        content: content.into(),
    }
}

#[test]
fn tools_are_parsed_by_name() {
    assert_eq!(parse_tool("recall_for_context"), Ok(Tool::RecallForContext));
    assert_eq!(parse_tool("get_project_name_from_file"), Ok(Tool::GetProjectNameFromFile));
    assert_eq!(parse_tool("fly"), Err(BiError::Invalid("unknown tool: fly".into())));
}

#[test]
fn argument_errors() {
    assert_eq!(missing_arg("uid"), BiError::Invalid("missing string arg: uid".into()));
    assert_eq!(
        project_required("p"),
        BiError::Invalid("project 'p' does not exist \u{2014} create it first with create_project".into())
    );
    assert_eq!(path_required("/x", "root_path"), BiError::Invalid("root_path '/x' does not exist on disk".into()));
}

#[test]
fn k_is_defaulted_and_bounded() {
    assert_eq!(bounded_k(None, 10, 100), 10);
    assert_eq!(bounded_k(Some(0), 8, 20), 1);
    assert_eq!(bounded_k(Some(50), 8, 20), 20);
    assert_eq!(feedback_value(None), 1);
    assert_eq!(feedback_value(Some(-1)), -1);
    assert_eq!(feedback_value(Some(257)), 1);
}

#[test]
fn type_codes() {
    assert_eq!(type_code("fact"), 'f');
    assert_eq!(type_code("pattern"), 'P');
    assert_eq!(type_code("preference"), 'p');
    assert_eq!(type_code("other"), '?');
}

#[test]
fn text_is_cut_at_a_sentence_end() {
    assert_eq!(trim_for_context("  short  ", 10), "short");
    assert_eq!(trim_for_context("One two. Three four five", 10), "One two.\u{2026}");
    assert_eq!(trim_for_context("One two. Three four five", 12), "One two. Thr\u{2026}");
    assert_eq!(trim_for_context("abcdefghijklmnop", 6), "abcdef\u{2026}");
}

#[test]
fn near_duplicates_by_shared_words() {
    assert!(is_near_duplicate("a b c d", "a b c e"));
    assert!(!is_near_duplicate("a b c d", "a b x y"));
    assert!(is_near_duplicate("", "  "));
    // Exactly 0.55 (11 shared words of 20) is not above the threshold.
    let a = "w1 w2 w3 w4 w5 w6 w7 w8 w9 w10 w11 a12 a13 a14 a15";
    let b = "w1 w2 w3 w4 w5 w6 w7 w8 w9 w10 w11 b12 b13 b14 b15 b16";
    assert!(!is_near_duplicate(a, b));
    let c = "w1 w2 w3 w4 w5 w6 w7 w8 w9 w10 w11 a12 a13 a14";
    assert!(is_near_duplicate(c, b));
    let kept = deduplicate_hits(vec![hit("red green blue", "fact"), hit("red green blue yellow", "fact"), hit("cats", "fact")]);
    assert_eq!(kept.len(), 2);
    assert_eq!(kept[1].content, "cats");
}

#[test]
fn context_block_layout() {
    assert_eq!(format_context_block(Vec::new()), "<biTurboContext>no relevant memories</biTurboContext>");
    let mut code = hit("fn main() {}", "code");
    code.file_path = Some("src/main.rs".into());
    code.start_line = Some(1);
    code.end_line = Some(3);
    code.language = Some("rust".into());
    let block = format_context_block(vec![hit("Use JWT.", "decision"), code]);
    assert_eq!(
        block,
        "<biTurboContext>\n[1] d|0.91|0.50|auth,db\nUse JWT.\n[2] c|0.91|0.50|auth,db\n> src/main.rs:1-3 rust\nfn main() {}\n</biTurboContext>"
    );
}

#[test]
fn dedup_keeps_the_first_hit_and_order() {
    let kept = deduplicate_hits(vec![
        hit("alpha beta gamma", "fact"),
        hit("delta", "fact"),
        hit("alpha beta gamma delta", "fact"),
        hit("epsilon", "fact"),
    ]);
    let got: Vec<&str> = kept.iter().map(|h| h.content.as_str()).collect();
    assert_eq!(got, vec!["alpha beta gamma", "delta", "epsilon"]);
}

#[test]
fn context_block_is_tagged_and_stops_at_its_limit() {
    let long = "word ".repeat(400);
    let hits: Vec<ContextHit> = (0..40).map(|i| hit(&format!("{i} {long}"), "fact")).collect();
    let block = format_context_block(hits);
    assert!(block.starts_with("<biTurboContext>\n[1] "));
    assert!(block.ends_with("</biTurboContext>"));
    assert!(block.len() >= 12000);
    assert!(!block.contains("[40] "));
}
