use carisa_core::skill::error::{LoadSkillError, MarkdownSkillError};
use carisa_core::skill::types::DomainSkill;

#[test]
fn valid_markdown_with_all_fields() {
    let input = "---\nid: my-skill\ntitle: My Skill\ndescription: \
                      Does useful things\nversion: 1.0.0\n---\nStep 1: initialize\nStep 2: execute";
    let skill = DomainSkill::from_markdown(input).expect("valid markdown");
    assert_eq!(skill.id(), "my-skill");
    assert_eq!(skill.title(), "My Skill");
    assert_eq!(skill.description(), "Does useful things");
    assert_eq!(skill.version(), "1.0.0");
    assert_eq!(skill.instructions(), "Step 1: initialize\nStep 2: execute");
}

#[test]
fn minimal_markdown_builds_skill() {
    let input = "---\nid: s1\ntitle: T\ndescription: D\nversion: 2.0.0\n---\nbody content";
    let skill = DomainSkill::from_markdown(input).unwrap();
    assert_eq!(skill.id(), "s1");
    assert_eq!(skill.title(), "T");
    assert_eq!(skill.description(), "D");
    assert_eq!(skill.version(), "2.0.0");
    assert_eq!(skill.instructions(), "body content");
}

fn yaml_parse_error_context(input: &str, expected_id: Option<&str>) {
    let err = DomainSkill::from_markdown(input).unwrap_err();
    match err {
        MarkdownSkillError::YamlParse { id, .. } => {
            assert_eq!(id.as_deref(), expected_id);
        }
        other => panic!("Expected YamlParse, got: {other:?}"),
    }
}

#[test]
fn yaml_parse_error_context_yaml_invalid_with_id_present() {
    yaml_parse_error_context("---\nid: x\n[\n---\nbody", Some("x"));
}

#[test]
fn yaml_parse_error_context_yaml_invalid_without_id() {
    yaml_parse_error_context("---\n[invalid yaml\n---\nbody", None);
}

#[test]
fn missing_id_field() {
    let input = "---\ntitle: T\ndescription: D\nversion: 1.0.0\n---\nbody";
    let err = DomainSkill::from_markdown(input).unwrap_err();
    match err {
        MarkdownSkillError::MissingField { field, .. } => {
            assert_eq!(field, "id");
        }
        other => panic!("Expected MissingField, got: {other:?}"),
    }
}

#[test]
fn missing_title_field_with_id() {
    let input = "---\nid: x\ndescription: D\nversion: 1.0.0\n---\nbody";
    let err = DomainSkill::from_markdown(input).unwrap_err();
    match err {
        MarkdownSkillError::MissingField { id, ref field, .. } => {
            assert_eq!(id.as_deref(), Some("x"));
            assert_eq!(field, "title");
        }
        other => panic!("Expected MissingField, got: {other:?}"),
    }
}

#[test]
fn missing_description_field() {
    let input = "---\nid: x\ntitle: T\nversion: 1.0.0\n---\nbody";
    let err = DomainSkill::from_markdown(input).unwrap_err();
    match err {
        MarkdownSkillError::MissingField { id, title, ref field, .. } => {
            assert_eq!(id.as_deref(), Some("x"));
            assert_eq!(title.as_deref(), Some("T"));
            assert_eq!(field, "description");
        }
        other => panic!("Expected MissingField, got: {other:?}"),
    }
}

#[test]
fn missing_version_field() {
    let input = "---\nid: x\ntitle: T\ndescription: D\n---\nbody";
    let err = DomainSkill::from_markdown(input).unwrap_err();
    assert_eq!(
        err,
        MarkdownSkillError::MissingField {
            id: Some("x".to_owned()),
            title: Some("T".to_owned()),
            field: "version".to_owned(),
        }
    );
}

fn empty_or_whitespace_body(input: &str, expected_id: Option<&str>) {
    let err = DomainSkill::from_markdown(input).unwrap_err();
    match err {
        MarkdownSkillError::EmptyBody { id, .. } => {
            assert_eq!(id.as_deref(), expected_id);
        }
        other => panic!("Expected EmptyBody, got: {other:?}"),
    }
}

#[test]
fn empty_or_whitespace_body_empty_body_with_id() {
    empty_or_whitespace_body("---\nid: x\ntitle: T\ndescription: D\nversion: 1.0.0\n---\n", Some("x"));
}

#[test]
fn empty_or_whitespace_body_whitespace_only_body() {
    empty_or_whitespace_body(
        "---\nid: y\ntitle: T\ndescription: D\nversion: 1.0.0\n---\n   \n\t\n",
        Some("y"),
    );
}

fn invalid_delimiters(input: &str) {
    let err = DomainSkill::from_markdown(input).unwrap_err();
    assert!(
        matches!(err, MarkdownSkillError::InvalidDelimiters { .. }),
        "Expected InvalidDelimiters, got: {err:?}"
    );
}

#[test]
fn invalid_delimiters_no_opening_delimiter() {
    invalid_delimiters("id: x\ntitle: T\ndescription: D\n\nbody");
}

#[test]
fn invalid_delimiters_no_closing_delimiter() {
    invalid_delimiters("---\nid: x\ntitle: T\ndescription: D\n\nbody");
}

#[test]
fn invalid_delimiters_opening_delimiter_not_at_line_start() {
    invalid_delimiters("\n---\nid: x\ntitle: T\ndescription: D\n---\nbody");
}

#[test]
fn always_load_field_ignored() {
    let input = "---\nid: s\ntitle: T\ndescription: D\nversion: 1.0.0\nalways_load: \
                      true\n---\nbody";
    let skill = DomainSkill::from_markdown(input).expect("valid markdown");
    assert_eq!(skill.id(), "s");
    assert_eq!(skill.version(), "1.0.0");
    assert_eq!(skill.instructions(), "body");
}

#[test]
fn extra_fields_ignored() {
    let input = "---\nid: s\ntitle: T\ndescription: D\nversion: 2\ntags: [a, \
                      b]\n---\nbody";
    let skill = DomainSkill::from_markdown(input).expect("valid markdown");
    assert_eq!(skill.id(), "s");
    assert_eq!(skill.version(), "2");
}

fn non_string_field_treated_as_missing(input: &str, expected_field: &str) {
    let err = DomainSkill::from_markdown(input).unwrap_err();
    match err {
        MarkdownSkillError::MissingField { ref field, .. } => {
            assert_eq!(field, expected_field);
        }
        other => panic!("Expected MissingField, got: {other:?}"),
    }
}

#[test]
fn non_string_field_treated_as_missing_id_is_number() {
    non_string_field_treated_as_missing(
        "---\nid: 123\ntitle: T\ndescription: D\nversion: 1.0.0\n---\nbody",
        "id",
    );
}

#[test]
fn non_string_field_treated_as_missing_title_is_bool() {
    non_string_field_treated_as_missing(
        "---\nid: x\ntitle: true\ndescription: D\nversion: 1.0.0\n---\nbody",
        "title",
    );
}

#[test]
fn empty_string_input() {
    let err = DomainSkill::from_markdown("").unwrap_err();
    assert!(
        matches!(err, MarkdownSkillError::InvalidDelimiters { .. }),
        "Expected InvalidDelimiters, got: {err:?}"
    );
}

#[test]
fn quoted_yaml_values() {
    let input = "---\nid: \"my-skill\"\ntitle: 'My Skill'\n\
                      description: Does stuff\nversion: \"2.0.0\"\n---\nbody";
    let skill = DomainSkill::from_markdown(input).expect("valid markdown");
    assert_eq!(skill.id(), "my-skill");
    assert_eq!(skill.title(), "My Skill");
    assert_eq!(skill.version(), "2.0.0");
}

#[test]
fn crlf_line_separators() {
    let input = "---\r\nid: s\r\ntitle: T\r\ndescription: \
                      D\r\nversion: 3.0.0\r\n---\r\nbody";
    let skill = DomainSkill::from_markdown(input).expect("valid markdown");
    assert_eq!(skill.id(), "s");
    assert_eq!(skill.version(), "3.0.0");
    assert_eq!(skill.instructions(), "body");
}

#[test]
fn closing_delimiter_at_end_gives_empty_body() {
    let err = DomainSkill::from_markdown("---\nid: x\ntitle: T\ndescription: D\nversion: 1\n---")
        .unwrap_err();
    assert_eq!(
        err,
        MarkdownSkillError::EmptyBody { id: Some("x".to_owned()), title: Some("T".to_owned()) }
    );
}

#[test]
fn comments_keywords_and_numbers_in_values() {
    let input = "---\nid: abc # trailing comment\ntitle: YES\ndescription: D\nversion: 1\n---\nbody";
    let err = DomainSkill::from_markdown(input).unwrap_err();
    assert_eq!(
        err,
        MarkdownSkillError::MissingField {
            id: Some("abc".to_owned()),
            title: None,
            field: "title".to_owned(),
        }
    );
    let input = "---\nid: -1.5e3\ntitle: T\ndescription: D\nversion: 1\n---\nbody";
    match DomainSkill::from_markdown(input).unwrap_err() {
        MarkdownSkillError::MissingField { id, field, .. } => {
            assert_eq!(id.as_deref(), Some("-1.5e3"));
            assert_eq!(field, "id");
        }
        other => panic!("Expected MissingField, got: {other:?}"),
    }
    let input = "---\nid: 1.2.3\ntitle: T\ndescription: D\nversion: Infinity\n---\n  body  \n";
    let skill = DomainSkill::from_markdown(input).expect("valid markdown");
    assert_eq!(skill.id(), "1.2.3");
    assert_eq!(skill.version(), "Infinity");
    assert_eq!(skill.instructions(), "body");
}

#[test]
fn from_frontmatter_reports_the_yaml_error_it_is_given() {
    let err = DomainSkill::from_frontmatter("id: x\ntitle: 'T'", "body", Some("bad".to_owned()))
        .unwrap_err();
    assert_eq!(
        err,
        MarkdownSkillError::YamlParse {
            id: Some("x".to_owned()),
            title: Some("T".to_owned()),
            msg: "bad".to_owned(),
        }
    );
    let skill = DomainSkill::from_frontmatter(
        "id: x\ntitle: T\ndescription: D\nversion: v",
        "\n do it \n",
        None,
    )
    .expect("valid parts");
    assert_eq!(skill.instructions(), "do it");
}

#[test]
fn yaml_parse_with_id_includes_id_in_display() {
    let bad_yaml = "[unclosed_seq";
    let yaml_err = serde_saphyr::from_str::<serde::de::IgnoredAny>(bad_yaml).unwrap_err();
    let err = MarkdownSkillError::YamlParse {
        id: Some("x".to_owned()),
        title: Some("T".to_owned()),
        msg: yaml_err.to_string(),
    };
    let msg = err.message();
    assert!(msg.contains("skill 'x'"), "Display should contain skill id 'x', got: {msg}");
}

#[test]
fn missing_field_without_id_is_readable() {
    let err = MarkdownSkillError::MissingField {
        id: None,
        title: None,
        field: "description".to_owned(),
    };
    let msg = err.message();
    assert!(
        msg.contains("Missing required field 'description'"),
        "Display should mention the missing field, got: {msg}"
    );
    assert!(
        !msg.contains("for skill"),
        "Display should not mention 'for skill' when id is None, got: {msg}"
    );
}

#[test]
fn load_error_not_found_includes_id_in_display() {
    let err = LoadSkillError { id: "my-skill".to_owned() };
    let msg = err.message();
    assert!(msg.contains("'my-skill'"), "Display should contain the skill id, got: {msg}");
}

#[test]
fn yaml_parse_without_id_is_readable() {
    let bad_yaml = "[unclosed_seq";
    let yaml_err = serde_saphyr::from_str::<serde::de::IgnoredAny>(bad_yaml).unwrap_err();
    let err = MarkdownSkillError::YamlParse { id: None, title: None, msg: yaml_err.to_string() };
    let msg = err.message();
    assert!(
        msg.starts_with("Failed to parse YAML frontmatter:"),
        "Display should start with the error description, got: {msg}"
    );
}

#[test]
fn empty_body_format() {
    let with_id = MarkdownSkillError::EmptyBody { id: Some("x".to_owned()), title: None };
    assert!(with_id.message().contains("Skill 'x'"));

    let without_id = MarkdownSkillError::EmptyBody { id: None, title: None };
    assert!(!without_id.message().contains("for skill"));
}

#[test]
fn invalid_delimiters_format() {
    let err = MarkdownSkillError::InvalidDelimiters { id: Some("y".to_owned()), title: None };
    assert!(err.message().contains("skill 'y'"));
}

#[test]
fn error_messages_are_exact() {
    assert_eq!(
        LoadSkillError { id: "a".to_owned() }.message(),
        "Skill 'a' not found"
    );
    assert_eq!(
        MarkdownSkillError::MissingField {
            id: Some("s".to_owned()),
            title: None,
            field: "title".to_owned()
        }
        .message(),
        "Missing required field 'title' for skill 's'"
    );
    assert_eq!(
        MarkdownSkillError::InvalidDelimiters { id: None, title: None }.message(),
        "Invalid markdown delimiters"
    );
}

#[test]
fn empty_quoted_fields_count_as_missing() {
    for (input, expected) in [
        ("---\nid: \"\"\ntitle: T\ndescription: D\nversion: 1.0.0\n---\nbody", "id"),
        ("---\nid: x\ntitle: ''\ndescription: D\nversion: 1.0.0\n---\nbody", "title"),
        ("---\nid: x\ntitle: T\ndescription: \"\"\nversion: 1.0.0\n---\nbody", "description"),
    ] {
        match DomainSkill::from_markdown(input).unwrap_err() {
            MarkdownSkillError::MissingField { field, .. } => assert_eq!(field, expected),
            other => panic!("Expected MissingField, got: {other:?}"),
        }
    }
    let skill = DomainSkill::from_markdown("---\nid: \"a\"\ntitle: T\ndescription: D\nversion: 1.0.0\n---\nbody")
        .expect("a one-character quoted id is a value");
    assert_eq!(skill.id, "a");
}

#[test]
fn first_closing_line_ends_the_frontmatter() {
    let input = "---\nid: s\ntitle: T\ndescription: D\nversion: 1.0.0\n---\nbody\n---\nmore";
    let skill = DomainSkill::from_markdown(input).expect("valid markdown");
    assert_eq!(skill.id(), "s");
    assert_eq!(skill.version(), "1.0.0");
    assert_eq!(skill.instructions(), "body\n---\nmore");
}
