//! Tests of note identities.

use vaultiel::graph::link_graph::NoteSource;
use vaultiel::metadata::{find_by_id, get_metadata, init_metadata, VaultielMetadata};
use vaultiel::note::Note;

const PLAIN: &str = "---\ntitle: Test Note\ntags:\n  - rust\n---\n\n# Test\n\nSome content.\n";
const WITH_META: &str = "---\ntitle: With Meta\nvaultiel:\n  id: \"existing-uuid\"\n  created: \"2026-01-01T00:00:00Z\"\n---\n\n# With Meta\n\nContent.\n";

#[test]
fn test_metadata_to_yaml() {
    let meta = VaultielMetadata::with_id("test-id", "2026-01-01T00:00:00Z");
    let yaml = meta.to_yaml();
    if let serde_yaml::Value::Mapping(map) = yaml {
        assert_eq!(
            map.get(&serde_yaml::Value::String("id".to_string())),
            Some(&serde_yaml::Value::String("test-id".to_string()))
        );
    } else {
        panic!("Expected mapping");
    }
}

#[test]
fn test_init_metadata() {
    let note = Note::new("test.md", PLAIN);
    let meta = VaultielMetadata::with_id("new-id", "2026-02-02T00:00:00Z");
    let result = init_metadata(&note, &meta, false).unwrap();
    assert!(result.is_some());
    let updated = result.unwrap();
    let found = get_metadata(&updated.content).unwrap();
    assert_eq!(found.id, "new-id");
    assert!(updated.content.contains("title: Test Note"));
}

#[test]
fn test_init_metadata_preserves_existing() {
    let note = Note::new("with-meta.md", WITH_META);
    let meta = VaultielMetadata::with_id("new-id", "2026-02-02T00:00:00Z");
    assert!(init_metadata(&note, &meta, false).unwrap().is_none());
    assert_eq!(get_metadata(WITH_META).unwrap().id, "existing-uuid");
}

#[test]
fn test_init_metadata_force() {
    let note = Note::new("with-meta.md", WITH_META);
    let meta = VaultielMetadata::with_id("new-id", "2026-02-02T00:00:00Z");
    let updated = init_metadata(&note, &meta, true).unwrap().unwrap();
    let found = get_metadata(&updated.content).unwrap();
    assert_ne!(found.id, "existing-uuid");
    assert_eq!(found.id, "new-id");
}

#[test]
fn test_init_metadata_note_without_frontmatter() {
    let note = Note::new("n.md", "Just text");
    let meta = VaultielMetadata::with_id("x", "t");
    let updated = init_metadata(&note, &meta, false).unwrap().unwrap();
    assert!(updated.content.starts_with("---\n"));
    assert!(updated.content.ends_with("Just text"));
    assert_eq!(get_metadata(&updated.content), Some(VaultielMetadata::with_id("x", "t")));
}

#[test]
fn test_find_by_id() {
    let notes = vec![
        NoteSource { path: "test.md".to_string(), loaded: Ok(PLAIN.to_string()) },
        NoteSource { path: "with-meta.md".to_string(), loaded: Ok(WITH_META.to_string()) },
    ];
    assert_eq!(find_by_id(&notes, "existing-uuid"), Some("with-meta.md".to_string()));
    assert_eq!(find_by_id(&notes, "nonexistent"), None);
}

#[test]
fn test_metadata_from_yaml_needs_both_strings() {
    let v: serde_yaml::Value = serde_yaml::from_str("id: a\n").unwrap();
    assert_eq!(VaultielMetadata::from_yaml(&v), None);
    let w: serde_yaml::Value = serde_yaml::from_str("id: a\ncreated: b\n").unwrap();
    assert_eq!(VaultielMetadata::from_yaml(&w), Some(VaultielMetadata::with_id("a", "b")));
}
