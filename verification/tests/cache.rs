//! Tests of the cache indices.

use vaultiel::cache::types::{CachedNote, CachedTag, NoteIndex, TagIndex, LinkIndex, CacheMeta, CACHE_VERSION};
use vaultiel::cache::{lock_file_path, should_auto_enable_cache};
use vaultiel::config::CacheConfig;

#[test]
fn test_cached_note_is_stale() {
    let note = CachedNote {
        path: "test.md".to_string(),
        mtime: 1000,
        size: 100,
        name: "test".to_string(),
        frontmatter: None,
        aliases: vec![],
    };
    assert!(!note.is_stale(1000));
    assert!(note.is_stale(2000));
}

#[test]
fn test_note_index() {
    let mut index = NoteIndex::default();
    let note = CachedNote {
        path: "test.md".to_string(),
        mtime: 1000,
        size: 100,
        name: "test".to_string(),
        frontmatter: None,
        aliases: vec![],
    };
    index.insert(note.clone());
    assert_eq!(index.len(), 1);
    assert!(index.get("test.md").is_some());
    index.remove("test.md");
    assert!(index.is_empty());
}

#[test]
fn test_tag_index_counts() {
    let mut index = TagIndex::default();
    let path = "test.md".to_string();
    let tags = vec![
        CachedTag { name: "#rust".to_string(), note: path.clone(), line: 1 },
        CachedTag { name: "#rust".to_string(), note: path.clone(), line: 5 },
        CachedTag { name: "#cli".to_string(), note: path.clone(), line: 10 },
    ];
    index.set_tags(path.clone(), tags);
    assert_eq!(index.counts.get("#rust"), Some(&2));
    assert_eq!(index.counts.get("#cli"), Some(&1));
    index.remove(&path);
    assert_eq!(index.counts.get("#rust"), Some(&0));
}

#[test]
fn tag_index_replacing_tags_adjusts_counts() {
    let mut index = TagIndex::default();
    let t = |n: &str| CachedTag { name: n.to_string(), note: "a.md".to_string(), line: 1 };
    index.set_tags("a.md".to_string(), vec![t("#x"), t("#y")]);
    index.set_tags("b.md".to_string(), vec![t("#x")]);
    index.set_tags("a.md".to_string(), vec![t("#y"), t("#z")]);
    assert_eq!(index.counts.get("#x"), Some(&1));
    assert_eq!(index.counts.get("#y"), Some(&1));
    assert_eq!(index.counts.get("#z"), Some(&1));
    assert_eq!(index.get_tags("a.md").len(), 2);
    assert_eq!(index.get_tags("none.md").len(), 0);
}

#[test]
fn link_index_and_meta() {
    let mut li = LinkIndex::default();
    li.set_outgoing("a.md".to_string(), vec![]);
    assert_eq!(li.get_outgoing("a.md").len(), 0);
    li.remove("a.md");
    let m = CacheMeta::new("/v".to_string());
    assert_eq!(m.version, CACHE_VERSION);
    assert_eq!(m.indexed_notes, 0);
    let cfg = CacheConfig { enabled: true, auto_threshold: 10, location: "local".to_string() };
    assert!(should_auto_enable_cache(10, &cfg));
    assert!(!should_auto_enable_cache(9, &cfg));
    assert_eq!(lock_file_path("/tmp/c"), "/tmp/c/cache.lock");
}
