//! Tests of splitting frontmatter from content.

use vaultiel::parser::frontmatter::{extract_frontmatter, remove_all_frontmatter, split_frontmatter};
use serde_yaml::Value;
use vaultiel::parser::frontmatter::{parse_frontmatter, update_frontmatter};

#[test]
fn test_split_no_frontmatter() {
    let content = "Just some content";
    let split = split_frontmatter(content);
    assert!(split.yaml.is_none());
    assert_eq!(split.content, "Just some content");
    assert_eq!(split.content_start_line, 1);
}

#[test]
fn test_split_with_frontmatter() {
    let content = "---\ntitle: Test\ntags: [a, b]\n---\n\nContent here";
    let split = split_frontmatter(content);
    assert_eq!(split.yaml.as_deref(), Some("title: Test\ntags: [a, b]"));
    assert_eq!(split.content, "\nContent here");
    assert_eq!(split.content_start_line, 5);
}

#[test]
fn test_split_frontmatter_at_eof() {
    let content = "---\ntitle: Test\n---";
    let split = split_frontmatter(content);
    assert_eq!(split.yaml.as_deref(), Some("title: Test"));
    assert_eq!(split.content, "");
}

#[test]
fn test_no_closing_delimiter() {
    let content = "---\ntitle: Test\n\nContent without closing";
    let split = split_frontmatter(content);
    assert!(split.yaml.is_none());
}

#[test]
fn test_triple_dash_in_content() {
    let content = "---\ntitle: Test\n---\n\n---\n\nThis has triple dashes in content";
    let split = split_frontmatter(content);
    assert_eq!(split.yaml.as_deref(), Some("title: Test"));
    assert!(split.content.contains("---"));
}

#[test]
fn frontmatter_crlf_closing_and_reassembly() {
    let content = "---\r\na: 1\r\n---\r\nbody";
    let split = split_frontmatter(content);
    assert_eq!(split.yaml.as_deref(), Some("a: 1\r"));
    assert_eq!(split.content, "body");
    assert_eq!(extract_frontmatter(content).as_deref(), Some("a: 1\r"));
    assert_eq!(remove_all_frontmatter(content), "body");
}


#[test]
fn test_parse_frontmatter() {
    let content = "---\ntitle: My Note\ntags:\n  - rust\n  - cli\n---\n\nContent";
    let value = parse_frontmatter(content).unwrap().unwrap();

    assert_eq!(value["title"].as_str(), Some("My Note"));
    let tags = value["tags"].as_sequence().unwrap();
    assert_eq!(tags.len(), 2);
}

#[test]
fn test_invalid_frontmatter() {
    let content = "---\ninvalid: yaml: syntax:\n---\nContent";
    let result = parse_frontmatter(content);
    assert!(result.is_err());
}

#[test]
fn test_update_frontmatter() {
    let content = "---\ntitle: Old\n---\n\nContent";
    let mut value = serde_yaml::from_str::<Value>("title: New").unwrap();
    value["tags"] = Value::Sequence(vec![Value::String("rust".to_string())]);

    let updated = update_frontmatter(content, &value).unwrap();
    assert!(updated.contains("title: New"));
    assert!(updated.contains("tags:"));
    assert!(updated.contains("Content"));
}

#[test]
fn no_frontmatter_parses_to_none() {
    assert!(parse_frontmatter("just text").unwrap().is_none());
}
