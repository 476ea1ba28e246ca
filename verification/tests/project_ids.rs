use biturbo::application;
use biturbo::error::BiError;
use biturbo::project::{
    check_deletable, explicit_project_id, marker_content, project_name_from_marker,
    project_names_in_marker, project_not_found, slugify, CreateProjectInput,
};

#[test]
fn slugify_lowercases_and_collapses_separators() {
    assert_eq!(slugify("My Cool  Project!"), "my-cool-project");
    assert_eq!(slugify("--Already-slug--"), "already-slug");
    assert_eq!(slugify("Ünïcode 42"), "n-code-42");
    assert_eq!(slugify(""), "");
    assert_eq!(application::slugify("Test Agent"), "test-agent");
}

#[test]
fn slugify_is_idempotent_on_examples() {
    for s in ["Hello World", "a__b", "x", "--", "Ab1 Cd2"] {
        let once = slugify(s);
        assert_eq!(slugify(&once), once);
    }
}

#[test]
fn marker_names_in_order_trimmed() {
    let content = "projectName=  Alpha  \nother=1\nprojectName=\nprojectName=Beta\r\n";
    assert_eq!(project_names_in_marker(content), vec!["Alpha".to_string(), "Beta".to_string()]);
}

#[test]
fn marker_first_value_is_untrimmed() {
    assert_eq!(project_name_from_marker("x=1\nprojectName= A \nprojectName=B"), Some(" A ".to_string()));
    assert_eq!(project_name_from_marker("nothing"), None);
}

#[test]
fn explicit_id_must_be_non_empty() {
    assert_eq!(explicit_project_id(Some("p1")), Some("p1".to_string()));
    assert_eq!(explicit_project_id(Some("")), None);
    assert_eq!(explicit_project_id(None), None);
}

#[test]
fn create_input_defaults() {
    let input = CreateProjectInput {
        id: None,
        name: "My Project".into(),
        description: None,
        root_path: None,
        bit_width: None,
    };
    assert_eq!(input.project_id(), "my-project");
    assert_eq!(input.bit_width_or_default(), 4);
    let input2 = CreateProjectInput { id: Some("custom".into()), bit_width: Some(2), ..input };
    assert_eq!(input2.project_id(), "custom");
    assert_eq!(input2.bit_width_or_default(), 2);
    assert_eq!(marker_content("X"), "projectName=X");
}

#[test]
fn default_project_cannot_be_deleted() {
    assert_eq!(
        check_deletable("default", "default"),
        Err(BiError::Invalid("cannot delete default project".into()))
    );
    assert_eq!(check_deletable("other", "default"), Ok(()));
    assert_eq!(project_not_found("p"), BiError::NotFound("project p".into()));
}

#[test]
fn slug_of_a_slug_is_unchanged() {
    for name in ["My Project!", "--a__b--", "Über Cool 2", "", "x"] {
        let once = slugify(name);
        assert_eq!(slugify(&once), once);
    }
}

#[test]
fn slugs_have_no_stray_dashes() {
    for name in ["--Hello,  World!--", "a__b", "***", "Ünïcode Name 2"] {
        let s = slugify(name);
        assert!(!s.starts_with('-') && !s.ends_with('-') && !s.contains("--"), "{s}");
        assert!(s.chars().all(|c| c == '-' || c.is_ascii_lowercase() || c.is_ascii_digit()));
        assert_eq!(slugify(&s), s);
        let letters: String =
            name.chars().filter(|c| c.is_ascii_alphanumeric()).map(|c| c.to_ascii_lowercase()).collect();
        assert_eq!(s.replace('-', ""), letters);
    }
    assert_eq!(slugify("--Hello,  World!--"), "hello-world");
}
