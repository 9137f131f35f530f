//! Tests of the vault cache.

use vaultiel::cache::index::VaultCache;
use vaultiel::cache::types::CACHE_VERSION;
use vaultiel::config::TaskConfig;

const TEST_NOTE: &str = r#"---
title: Test Note
aliases:
  - test-alias
---

# Test Heading

Some content with a [[link]] and a #tag.

- [ ] A task 📅 2026-02-10

A paragraph with ^block-id
"#;

#[test]
fn test_cache_new() {
    let cache = VaultCache::new("/tmp/test-cache".to_string(), "/tmp/test-vault".to_string());
    assert_eq!(cache.cache_dir(), "/tmp/test-cache");
    assert_eq!(cache.meta.vault_path, "/tmp/test-vault");
    assert_eq!(cache.meta.version, CACHE_VERSION);
    assert!(!cache.has_data());
    assert!(!cache.dirty());
}

#[test]
fn test_index_note() {
    let mut cache = VaultCache::new("/tmp/c".to_string(), "/tmp/v".to_string());
    let task_config = TaskConfig::empty();
    let path = "test.md";
    cache.index_note(path, 1000, TEST_NOTE.len() as u64, TEST_NOTE, &task_config);

    assert!(cache.notes.get(path).is_some());
    let cached_note = cache.notes.get(path).unwrap();
    assert_eq!(cached_note.name, "test");
    assert!(cached_note.aliases.contains(&"test-alias".to_string()));
    assert_eq!(cached_note.mtime, 1000);
    let fm = cached_note.frontmatter.clone().unwrap();
    assert!(fm.contains("\"title\":\"Test Note\""));

    let links = cache.links.get_outgoing(path);
    assert_eq!(links.len(), 1);
    assert_eq!(links[0].target, "link");

    let tags = cache.tags.get_tags(path);
    assert_eq!(tags.len(), 1);
    assert_eq!(tags[0].name, "#tag");

    let blocks = cache.blocks.get_blocks(path);
    assert_eq!(blocks.len(), 1);
    assert_eq!(blocks[0].id, "block-id");
    assert_eq!(blocks[0].block_type, "paragraph");

    let headings = cache.headings.get_headings(path);
    assert_eq!(headings.len(), 1);
    assert_eq!(headings[0].text, "Test Heading");

    let tasks = cache.tasks.get_tasks(path);
    assert_eq!(tasks.len(), 1);
    assert!(tasks[0].description.contains("A task"));
    assert!(cache.dirty());
    assert!(cache.has_data());
}

#[test]
fn test_remove_note() {
    let mut cache = VaultCache::new("/tmp/c".to_string(), "/tmp/v".to_string());
    let task_config = TaskConfig::empty();
    let path = "test.md";
    cache.index_note(path, 1, 2, TEST_NOTE, &task_config);
    assert!(cache.notes.get(path).is_some());

    cache.remove_note(path);
    assert!(cache.notes.get(path).is_none());
    assert!(cache.links.get_outgoing(path).is_empty());
    assert!(cache.tags.get_tags(path).is_empty());
}

#[test]
fn test_note_staleness() {
    let mut cache = VaultCache::new("/tmp/c".to_string(), "/tmp/v".to_string());
    let task_config = TaskConfig::empty();
    cache.index_note("a.md", 5, 0, "", &task_config);
    assert!(!cache.is_note_stale("a.md", Some(5)));
    assert!(cache.is_note_stale("a.md", Some(6)));
    assert!(cache.is_note_stale("a.md", None));
    assert!(cache.is_note_stale("b.md", Some(5)));
}

#[test]
fn test_reindex_replaces_tag_counts() {
    let mut cache = VaultCache::new("/tmp/c".to_string(), "/tmp/v".to_string());
    let task_config = TaskConfig::empty();
    cache.index_note("a.md", 1, 0, "#x #x #y", &task_config);
    assert_eq!(cache.tags.counts.get("#x"), Some(&2));
    cache.index_note("a.md", 2, 0, "#y", &task_config);
    assert_eq!(cache.tags.counts.get("#x"), Some(&0));
    assert_eq!(cache.tags.counts.get("#y"), Some(&1));
}
