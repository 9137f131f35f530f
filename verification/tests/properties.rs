//! Tests of frontmatter keys and merged properties on notes.

use serde_yaml::Value as YamlValue;
use vaultiel::note::Note;
use vaultiel::types::PropertyScope;

#[test]
fn test_note_frontmatter() {
    let content = "---\ntitle: Test\ntags:\n  - rust\n---\n\nBody";
    let note = Note::new("note.md", content);
    let fm = note.frontmatter().unwrap().unwrap();
    assert_eq!(fm["title"].as_str(), Some("Test"));
}

#[test]
fn test_remove_frontmatter_key() {
    let content = "---\ntitle: Test\ntags:\n  - rust\n---\n\nBody";
    let note = Note::new("note.md", content);
    let updated = note.remove_frontmatter_key("title").unwrap();
    let fm = updated.frontmatter().unwrap().unwrap();
    assert!(fm.get("title").is_none());
    assert!(fm.get("tags").is_some());
}

#[test]
fn test_remove_frontmatter_key_nonexistent() {
    let content = "---\ntitle: Test\n---\n\nBody";
    let note = Note::new("note.md", content);
    let updated = note.remove_frontmatter_key("nonexistent").unwrap();
    let fm = updated.frontmatter().unwrap().unwrap();
    assert_eq!(fm["title"].as_str(), Some("Test"));
}

#[test]
fn test_remove_frontmatter_key_no_frontmatter() {
    let note = Note::new("note.md", "Just content");
    let updated = note.remove_frontmatter_key("title").unwrap();
    assert_eq!(updated.content, "Just content");
}

#[test]
fn test_append_frontmatter_value_new_key() {
    let content = "---\ntitle: Test\n---\n\nBody";
    let note = Note::new("note.md", content);
    let updated = note.append_frontmatter_value("tags", &YamlValue::String("rust".to_string())).unwrap();
    let fm = updated.frontmatter().unwrap().unwrap();
    let tags = fm["tags"].as_sequence().unwrap();
    assert_eq!(tags.len(), 1);
    assert_eq!(tags[0].as_str(), Some("rust"));
}

#[test]
fn test_append_frontmatter_value_to_scalar() {
    let content = "---\ntag: existing\n---\n\nBody";
    let note = Note::new("note.md", content);
    let updated = note.append_frontmatter_value("tag", &YamlValue::String("new".to_string())).unwrap();
    let fm = updated.frontmatter().unwrap().unwrap();
    let tags = fm["tag"].as_sequence().unwrap();
    assert_eq!(tags.len(), 2);
    assert_eq!(tags[0].as_str(), Some("existing"));
    assert_eq!(tags[1].as_str(), Some("new"));
}

#[test]
fn test_append_frontmatter_value_to_list() {
    let content = "---\ntags:\n  - a\n  - b\n---\n\nBody";
    let note = Note::new("note.md", content);
    let updated = note.append_frontmatter_value("tags", &YamlValue::String("c".to_string())).unwrap();
    let fm = updated.frontmatter().unwrap().unwrap();
    let tags = fm["tags"].as_sequence().unwrap();
    assert_eq!(tags.len(), 3);
    assert_eq!(tags[2].as_str(), Some("c"));
}

#[test]
fn test_rename_frontmatter_key() {
    let content = "---\nold-key: value\ntitle: Test\n---\n\nBody";
    let note = Note::new("note.md", content);
    let updated = note.rename_frontmatter_key("old-key", "new-key").unwrap();
    let fm = updated.frontmatter().unwrap().unwrap();
    assert!(fm.get("old-key").is_none());
    assert_eq!(fm["new-key"].as_str(), Some("value"));
    assert_eq!(fm["title"].as_str(), Some("Test"));
}

#[test]
fn test_rename_frontmatter_key_nonexistent() {
    let content = "---\ntitle: Test\n---\n\nBody";
    let note = Note::new("note.md", content);
    let updated = note.rename_frontmatter_key("missing", "new").unwrap();
    let fm = updated.frontmatter().unwrap().unwrap();
    assert_eq!(fm["title"].as_str(), Some("Test"));
}

#[test]
fn test_get_property_from_frontmatter() {
    let content = "---\ntitle: Test\n---\n\nBody";
    let note = Note::new("note.md", content);
    let val = note.get_property("title").unwrap();
    assert_eq!(val.unwrap().as_str(), Some("Test"));
}

#[test]
fn test_get_property_from_inline() {
    let content = "Some text [status::active] here.";
    let note = Note::new("note.md", content);
    let val = note.get_property("status").unwrap();
    assert_eq!(val.unwrap().as_str(), Some("active"));
}

#[test]
fn test_get_property_missing() {
    let content = "---\ntitle: Test\n---\n\nBody";
    let note = Note::new("note.md", content);
    let val = note.get_property("missing").unwrap();
    assert!(val.is_none());
}

#[test]
fn test_get_property_frontmatter_takes_precedence() {
    let content = "---\nstatus: active\n---\n\n[status::done]";
    let note = Note::new("note.md", content);
    let val = note.get_property("status").unwrap();
    assert_eq!(val.unwrap().as_str(), Some("active"));
}

#[test]
fn test_remove_property_both_removes_all() {
    let content = "---\nstatus: active\n---\n\n[status::done]";
    let note = Note::new("note.md", content);
    let updated = note.remove_property("status", &PropertyScope::Both).unwrap();
    let fm = updated.frontmatter().unwrap().unwrap();
    assert!(fm.get("status").is_none());
    assert!(!updated.content.contains("[status::done]"));
}

#[test]
fn test_remove_property_frontmatter_only() {
    let content = "---\nstatus: active\n---\n\n[status::done]";
    let note = Note::new("note.md", content);
    let updated = note.remove_property("status", &PropertyScope::Frontmatter).unwrap();
    let fm = updated.frontmatter().unwrap().unwrap();
    assert!(fm.get("status").is_none());
    assert!(updated.content.contains("[status::done]"));
}

#[test]
fn test_rename_property_both() {
    let content = "---\nold-key: value\n---\n\n[old-key::inline-val]";
    let note = Note::new("note.md", content);
    let updated = note.rename_property("old-key", "new-key", &PropertyScope::Both).unwrap();
    let fm = updated.frontmatter().unwrap().unwrap();
    assert!(fm.get("old-key").is_none());
    assert_eq!(fm["new-key"].as_str(), Some("value"));
    assert!(updated.content.contains("[new-key::inline-val]"));
    assert!(!updated.content.contains("[old-key"));
}

#[test]
fn invalid_frontmatter_is_reported_with_the_path() {
    let note = Note::new("bad.md", "---\nkey: [unclosed\n---\nBody");
    let err = note.get_property("key").unwrap_err();
    assert!(err.message().contains("bad.md"));
}

#[test]
fn get_property_gathers_several_inline_values() {
    let note = Note::new("n.md", "[tag::a] and [tag::b]");
    let val = note.get_property("tag").unwrap().unwrap();
    let items = val.as_sequence().unwrap();
    assert_eq!(items.len(), 2);
    assert_eq!(items[1].as_str(), Some("b"));
}

#[test]
fn test_set_property_auto_fm_only() {
    let content = "---\ntitle: Old\n---\n\nBody";
    let note = Note::new("note.md", content);
    let updated = note.set_property("title", &YamlValue::String("New".to_string()), &PropertyScope::Auto).unwrap();
    let fm = updated.frontmatter().unwrap().unwrap();
    assert_eq!(fm["title"].as_str(), Some("New"));
}

#[test]
fn test_set_property_auto_inline_only() {
    let content = "Some text [status::active] here.";
    let note = Note::new("note.md", content);
    let updated = note.set_property("status", &YamlValue::String("done".to_string()), &PropertyScope::Auto).unwrap();
    assert!(updated.content.contains("[status::done]"));
}

#[test]
fn test_set_property_auto_both_error() {
    let content = "---\nstatus: active\n---\n\n[status::done]";
    let note = Note::new("note.md", content);
    let result = note.set_property("status", &YamlValue::String("new".to_string()), &PropertyScope::Auto);
    assert!(result.is_err());
    assert!(result.unwrap_err().message().contains("both"));
}

#[test]
fn test_set_property_auto_new_defaults_fm() {
    let content = "---\ntitle: Test\n---\n\nBody";
    let note = Note::new("note.md", content);
    let updated = note.set_property("newkey", &YamlValue::String("val".to_string()), &PropertyScope::Auto).unwrap();
    let fm = updated.frontmatter().unwrap().unwrap();
    assert_eq!(fm["newkey"].as_str(), Some("val"));
}

#[test]
fn test_set_property_both_scope_errors() {
    let content = "---\ntitle: Test\n---\n\nBody";
    let note = Note::new("note.md", content);
    let result = note.set_property("title", &YamlValue::String("val".to_string()), &PropertyScope::Both);
    assert!(result.is_err());
}

#[test]
fn set_property_inline_writes_yaml_text_of_non_strings() {
    let note = Note::new("n.md", "x [count::1] y");
    let updated = note
        .set_property("count", &YamlValue::Number(5.into()), &PropertyScope::Inline { index: None })
        .unwrap();
    assert_eq!(updated.content, "x [count::5] y");
}

#[test]
fn set_property_creates_frontmatter_when_missing() {
    let note = Note::new("n.md", "Body");
    let updated =
        note.set_property("k", &YamlValue::String("v".to_string()), &PropertyScope::Frontmatter).unwrap();
    let fm = updated.frontmatter().unwrap().unwrap();
    assert_eq!(fm["k"].as_str(), Some("v"));
    assert!(updated.content.ends_with("Body"));
}

#[test]
fn test_get_properties_merge() {
    let content = "---\ntitle: Test\nstatus: active\n---\n\nSome text [priority::high] here.";
    let note = Note::new("note.md", content);
    let props = note.get_properties().unwrap();
    assert_eq!(props.get("title").unwrap().as_str(), Some("Test"));
    assert_eq!(props.get("status").unwrap().as_str(), Some("active"));
    assert_eq!(props.get("priority").unwrap().as_str(), Some("high"));
}

#[test]
fn test_get_properties_frontmatter_precedence() {
    let content = "---\nstatus: active\n---\n\n[status::done]";
    let note = Note::new("note.md", content);
    let props = note.get_properties().unwrap();
    assert_eq!(props.get("status").unwrap().as_str(), Some("active"));
}

#[test]
fn test_get_properties_multiple_inline() {
    let content = "[tag::a] [tag::b]";
    let note = Note::new("note.md", content);
    let props = note.get_properties().unwrap();
    let tags = props.get("tag").unwrap().as_sequence().unwrap();
    assert_eq!(tags.len(), 2);
}

#[test]
fn get_properties_counts_each_key_once() {
    let note = Note::new("n.md", "---\na: 1\n---\n[b::x] [c::y] [b::z]");
    let props = note.get_properties().unwrap();
    assert_eq!(props.len(), 3);
    assert_eq!(props.get("a").unwrap().as_i64(), Some(1));
}

#[test]
fn test_remove_missing_key_keeps_text() {
    let content = "---\ntitle:   Spaced   # comment\n---\nBody";
    let note = Note::new("note.md", content);
    let updated = note.remove_frontmatter_key("nonexistent").unwrap();
    assert_eq!(updated.content, content);
}
