use doksnet::check::extract_content_if_possible;
use doksnet::config::{description_from_input, ConfigError, DoksConfig, Mapping};
use doksnet::partition::SourceText;

fn create_test_mapping() -> Mapping {
    Mapping {
        id: "test-id-123".to_string(),
        doc_partition: "README.md:1-5".to_string(),
        code_partition: "src/main.rs:10-20".to_string(),
        doc_hash: "abc123".to_string(),
        code_hash: "def456".to_string(),
        description: Some("Test mapping".to_string()),
    }
}

#[test]
fn test_doks_config_new() {
    let config = DoksConfig::new("README.md".to_string());
    assert_eq!(config.default_doc, "README.md");
    assert!(config.mappings.is_empty());
}

#[test]
fn test_add_mapping() {
    let mut config = DoksConfig::new("README.md".to_string());
    let mapping = create_test_mapping();

    config.add_mapping(mapping.clone());
    assert_eq!(config.mappings.len(), 1);
    assert_eq!(config.mappings[0].id, mapping.id);
}

#[test]
fn test_find_mapping_by_id() {
    let mut config = DoksConfig::new("README.md".to_string());
    let mapping = create_test_mapping();
    let id = mapping.id.clone();

    config.add_mapping(mapping);

    let found = config.find_mapping_by_id(&id);
    assert!(found.is_some());
    assert_eq!(found.unwrap().id, id);

    let not_found = config.find_mapping_by_id("nonexistent");
    assert!(not_found.is_none());
}

#[test]
fn find_mapping_by_id_changes_in_place() {
    let mut config = DoksConfig::new("README.md".to_string());
    config.add_mapping(create_test_mapping());
    let mut second = create_test_mapping();
    second.id = "other".to_string();
    config.add_mapping(second);
    if let Some(m) = config.find_mapping_by_id("other") {
        m.code_hash = "fff".to_string();
    }
    assert_eq!(config.mappings[0].code_hash, "def456");
    assert_eq!(config.mappings[1].code_hash, "fff");
    assert!(config.find_mapping_by_id("test-id").is_none());
}

#[test]
fn test_mapping_serialization() {
    let mapping = create_test_mapping();
    let mut config = DoksConfig::new("README.md".to_string());
    config.add_mapping(mapping.clone());

    let serialized = config.to_string();
    let deserialized = DoksConfig::parse(&serialized).unwrap();

    assert_eq!(deserialized.mappings.len(), 1);
    let parsed_mapping = &deserialized.mappings[0];
    assert_eq!(mapping.id, parsed_mapping.id);
    assert_eq!(mapping.doc_partition, parsed_mapping.doc_partition);
    assert_eq!(mapping.code_partition, parsed_mapping.code_partition);
    assert_eq!(mapping.doc_hash, parsed_mapping.doc_hash);
    assert_eq!(mapping.code_hash, parsed_mapping.code_hash);
    assert_eq!(mapping.description, parsed_mapping.description);
}

#[test]
fn test_parse_compact_format() {
    let content = r#"
# .doks
default_doc=README.md

# Format: id|doc_partition|code_partition|doc_hash|code_hash|description
test-1|README.md:1-5|src/main.rs:10-20|abc123|def456|Test mapping
test-2|docs/api.md:5-10|src/lib.rs:1-10|fedcba|654321|
        "#;

    let config = DoksConfig::parse(content).unwrap();
    assert_eq!(config.default_doc, "README.md");
    assert_eq!(config.mappings.len(), 2);

    assert_eq!(config.mappings[0].id, "test-1");
    assert_eq!(config.mappings[0].description, Some("Test mapping".to_string()));

    assert_eq!(config.mappings[1].id, "test-2");
    assert_eq!(config.mappings[1].description, None);
}

#[test]
fn config_test_parse_invalid_format() {
    let content = "invalid|format";
    let result = DoksConfig::parse(content);
    assert!(result.is_err());

    let content = "# missing default_doc";
    let result = DoksConfig::parse(content);
    assert!(result.is_err());
}

#[test]
fn config_error_kinds() {
    assert_eq!(
        DoksConfig::parse("default_doc=a.md\nx|y|z").err(),
        Some(ConfigError::InvalidMappingLine)
    );
    assert_eq!(DoksConfig::parse("default_doc=\n").err(), Some(ConfigError::MissingDefaultDoc));
    assert_eq!(DoksConfig::parse("").err(), Some(ConfigError::MissingDefaultDoc));
    let c = DoksConfig::parse("  default_doc=a.md  \r\nnote without bar\ndefault_doc=b.md").unwrap();
    assert_eq!(c.default_doc, "b.md");
    assert!(c.mappings.is_empty());
}

#[test]
fn test_empty_description() {
    let mut config = DoksConfig::new("README.md".to_string());
    let mapping = Mapping {
        id: "test".to_string(),
        doc_partition: "README.md:1".to_string(),
        code_partition: "src/main.rs:1".to_string(),
        doc_hash: "abc".to_string(),
        code_hash: "def".to_string(),
        description: None,
    };
    config.add_mapping(mapping);

    let serialized = config.to_string();
    let parsed = DoksConfig::parse(&serialized).unwrap();

    assert_eq!(parsed.mappings[0].description, None);
}

#[test]
fn test_serialization_format() {
    let mut config = DoksConfig::new("README.md".to_string());
    config.add_mapping(create_test_mapping());
    let content = config.to_string();
    assert!(content.contains("# .doks"));
    assert!(content.contains("default_doc=README.md"));
    assert!(content
        .contains("test-id-123|README.md:1-5|src/main.rs:10-20|abc123|def456|Test mapping"));
}

#[test]
fn serialization_exact_text() {
    let config = DoksConfig::new("README.md".to_string());
    assert_eq!(config.to_string(), "# .doks - Mapping doks to code \ndefault_doc=README.md\n\n");
    let mut config = DoksConfig::new("d.md".to_string());
    let mut m = create_test_mapping();
    m.description = None;
    config.add_mapping(m);
    assert_eq!(
        config.to_string(),
        "# .doks - Mapping doks to code \ndefault_doc=d.md\n\n\
         # Format: id|doc_partition|code_partition|doc_hash|code_hash|description\n\
         test-id-123|README.md:1-5|src/main.rs:10-20|abc123|def456|\n"
    );
}

#[test]
fn extract_if_possible() {
    let source = SourceText::Text("a\nb".to_string());
    assert_eq!(extract_content_if_possible("f:2", &source), Some("b".to_string()));
    assert_eq!(extract_content_if_possible("f:3", &source), None);
    assert_eq!(extract_content_if_possible(":2", &source), None);
    assert_eq!(extract_content_if_possible("f", &SourceText::Undecodable), None);
}

#[test]
fn description_from_free_text() {
    assert_eq!(description_from_input("  note \t"), Some("note".to_string()));
    assert_eq!(description_from_input(" \u{3000}\n"), None);
    assert_eq!(description_from_input(""), None);
}

#[test]
fn positions_and_removal() {
    let mut config = DoksConfig::new("README.md".to_string());
    for id in ["abc-1", "abd-2", "abc-3"] {
        let mut m = create_test_mapping();
        m.id = id.to_string();
        config.add_mapping(m);
    }
    assert_eq!(config.position_by_id_prefix("abc"), Some(0));
    assert_eq!(config.position_by_id_prefix("abd"), Some(1));
    assert_eq!(config.position_by_id_prefix("x"), None);
    assert_eq!(config.position_by_id("abc-3"), Some(2));
    assert_eq!(config.position_by_id("abc"), None);
    config.remove_flagged(&[true, false, true]);
    assert_eq!(config.mappings.len(), 1);
    assert_eq!(config.mappings[0].id, "abd-2");
    assert_eq!(config.default_doc, "README.md");
}
