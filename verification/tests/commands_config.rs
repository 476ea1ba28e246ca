use biturbo::application::{activity_limit, sort_by_count_desc, week_ago};
use biturbo::commands::{
    install_target, mcp_binary_name, rewrite_codex_config, ConfigFormat, IngestJobResponse,
    InstallMcpConfigResult, RecallFeedbackArgs, ResolveMcpBinaryResult, SearchArgs, UpdateInfo,
};
use biturbo::error::BiError;

#[test]
fn install_targets_map_to_config_files() {
    let (parts, format) = install_target("cursor", false).unwrap();
    assert_eq!(parts, vec![".cursor".to_string(), "mcp.json".to_string()]);
    assert!(format == ConfigFormat::JsonCursor);
    let (parts, format) = install_target("opencode", true).unwrap();
    assert_eq!(parts[0], "Library");
    assert!(format == ConfigFormat::JsonOpencode);
    let (parts, _) = install_target("opencode", false).unwrap();
    assert_eq!(parts, vec![".config".to_string(), "opencode".to_string(), "opencode.json".to_string()]);
    let (_, format) = install_target("codex", false).unwrap();
    assert!(format == ConfigFormat::TomlCodex);
    assert_eq!(install_target("vim", false).err(), Some(BiError::Invalid("unknown target: vim".into())));
}

#[test]
fn codex_config_replaces_the_old_table() {
    let old = "[model]\nname = \"x\"\n\n[mcp_servers.biturbo]\ncommand = \"old\"\nargs = []\n[mcp_servers.other]\ncommand = \"o\"\n";
    let new = rewrite_codex_config(old, "/bin/biturbo-mcp");
    assert_eq!(
        new,
        "[model]\nname = \"x\"\n\n[mcp_servers.other]\ncommand = \"o\"\n\n[mcp_servers.biturbo]\ncommand = \"/bin/biturbo-mcp\"\nargs = []\n"
    );
    assert_eq!(rewrite_codex_config("", "b"), "[mcp_servers.biturbo]\ncommand = \"b\"\nargs = []\n");
    let twice = rewrite_codex_config(&new, "/bin/biturbo-mcp");
    assert_eq!(twice, new);
}

#[test]
fn command_arguments_default() {
    let args = SearchArgs { project_id: None, query: "q".into(), k: None, mem_type: None };
    assert_eq!(args.k_or_default(), 10);
    assert_eq!(args.project_or_empty(), "");
    let fb = RecallFeedbackArgs { recall_id: "r".into(), memory_uid: "m".into(), value: 1, source: None };
    assert_eq!(fb.source_or_default(), "explicit");
    assert_eq!(IngestJobResponse::multiple("j".into()).project_id, "multiple");
    let r = InstallMcpConfigResult::new("codex".into(), "/p".into(), true);
    assert!(r.merged && !r.created);
    assert_eq!(ResolveMcpBinaryResult::fallback().path, "biturbo-mcp");
    assert_eq!(mcp_binary_name(true), "biturbo-mcp.exe");
    let u = UpdateInfo::offered("1.2.0".into(), None);
    assert!(u.available);
    assert_eq!(u.body, "");
    assert!(!UpdateInfo::none().available);
}

#[test]
fn projects_sorted_by_count_stably() {
    let v = vec![("a".to_string(), 1), ("b".to_string(), 5), ("c".to_string(), 1), ("d".to_string(), 7)];
    let s = sort_by_count_desc(v);
    let names: Vec<&str> = s.iter().map(|e| e.0.as_str()).collect();
    assert_eq!(names, vec!["d", "b", "a", "c"]);
    assert_eq!(activity_limit(0), 1);
    assert_eq!(activity_limit(25), 25);
    assert_eq!(activity_limit(9999), 500);
    assert_eq!(week_ago(1_000_000_000_000), 1_000_000_000_000 - 604_800_000);
}
