//! Tests of notes and their edits.

use vaultiel::note::Note;

#[test]
fn test_note_name() {
    let note = Note::new("proj/My Project.md", "content");
    assert_eq!(note.name(), "My Project");
}

#[test]
fn test_note_folder() {
    let note = Note::new("proj/sub/Note.md", "content");
    assert_eq!(note.folder().as_deref(), Some("proj/sub"));
}

#[test]
fn test_note_body_no_frontmatter() {
    let note = Note::new("note.md", "Just content");
    assert_eq!(note.body(), "Just content");
    assert!(!note.has_frontmatter());
}

#[test]
fn test_note_body_with_frontmatter() {
    let content = "---\ntitle: Test\n---\n\nBody content";
    let note = Note::new("note.md", content);
    assert!(note.has_frontmatter());
    assert_eq!(note.body(), "\nBody content");
}

#[test]
fn test_note_append() {
    let note = Note::new("note.md", "Hello");
    let updated = note.append(" World");
    assert_eq!(updated.content, "Hello World");
}

#[test]
fn test_note_prepend_no_frontmatter() {
    let note = Note::new("note.md", "World");
    let updated = note.prepend("Hello ");
    assert_eq!(updated.content, "Hello World");
}

#[test]
fn test_note_prepend_with_frontmatter() {
    let content = "---\ntitle: Test\n---\nWorld";
    let note = Note::new("note.md", content);
    let updated = note.prepend("Hello ");
    assert!(updated.content.contains("---\ntitle: Test\n---\nHello World"));
}

#[test]
fn test_note_with_body() {
    let content = "---\ntitle: Test\n---\n\nOld body";
    let note = Note::new("note.md", content);
    let updated = note.with_body("New body");
    assert!(updated.content.contains("title: Test"));
    assert!(updated.content.contains("New body"));
    assert!(!updated.content.contains("Old body"));
}

#[test]
fn test_set_inline_property() {
    let content = "Some text [status::active] here.";
    let note = Note::new("note.md", content);
    let updated = note.set_inline_property("status", "done", None).unwrap();
    assert!(updated.content.contains("[status::done]"));
    assert!(!updated.content.contains("[status::active]"));
}

#[test]
fn test_set_inline_property_by_index() {
    let content = "[tag::a] [tag::b]";
    let note = Note::new("note.md", content);
    let updated = note.set_inline_property("tag", "c", Some(1)).unwrap();
    assert!(updated.content.contains("[tag::a]"));
    assert!(updated.content.contains("[tag::c]"));
    assert!(!updated.content.contains("[tag::b]"));
}

#[test]
fn test_set_inline_property_ambiguous_error() {
    let content = "[tag::a] [tag::b]";
    let note = Note::new("note.md", content);
    let result = note.set_inline_property("tag", "c", None);
    assert!(result.is_err());
    assert!(result.unwrap_err().message().contains("Multiple"));
}

#[test]
fn test_set_inline_property_not_found() {
    let content = "No properties here";
    let note = Note::new("note.md", content);
    let result = note.set_inline_property("missing", "val", None);
    assert!(result.is_err());
}

#[test]
fn test_remove_inline_property_by_key() {
    let content = "Text [status::active] more text";
    let note = Note::new("note.md", content);
    let updated = note.remove_inline_property(Some("status"), None).unwrap();
    assert!(!updated.content.contains("[status::active]"));
    assert!(updated.content.contains("Text  more text"));
}

#[test]
fn test_remove_inline_property_by_index() {
    let content = "[tag::a] [tag::b]";
    let note = Note::new("note.md", content);
    let updated = note.remove_inline_property(None, Some(0)).unwrap();
    assert!(!updated.content.contains("[tag::a]"));
    assert!(updated.content.contains("[tag::b]"));
}

#[test]
fn test_remove_inline_property_ambiguous_error() {
    let content = "[tag::a] [tag::b]";
    let note = Note::new("note.md", content);
    let result = note.remove_inline_property(Some("tag"), None);
    assert!(result.is_err());
    assert!(result.unwrap_err().message().contains("Multiple"));
}

#[test]
fn test_rename_inline_property() {
    let content = "[old-key::value1] some [old-key::value2]";
    let note = Note::new("note.md", content);
    let updated = note.rename_inline_property("old-key", "new-key").unwrap();
    assert!(updated.content.contains("[new-key::value1]"));
    assert!(updated.content.contains("[new-key::value2]"));
    assert!(!updated.content.contains("[old-key"));
}

#[test]
fn test_rename_inline_property_nonexistent() {
    let content = "[key::value]";
    let note = Note::new("note.md", content);
    let updated = note.rename_inline_property("missing", "new").unwrap();
    assert_eq!(updated.content, content);
}

#[test]
fn note_set_inline_property_index_out_of_range_message() {
    let note = Note::new("note.md", "[a::1]");
    let err = note.set_inline_property("a", "2", Some(3)).unwrap_err();
    assert_eq!(err.message(), "Inline property index 3 out of range (note has 1 inline properties)");
}

#[test]
fn note_remove_inline_property_needs_key_or_index() {
    let note = Note::new("note.md", "[a::1]");
    let err = note.remove_inline_property(None, None).unwrap_err();
    assert_eq!(err.message(), "Must specify either key or index to remove an inline property");
}

#[test]
fn note_set_inline_property_keeps_other_lines_and_trailing_newline() {
    let note = Note::new("n.md", "first\r\n[k::v] x\nlast\n");
    let updated = note.set_inline_property("k", "w", None).unwrap();
    assert_eq!(updated.content, "first\n[k::w] x\nlast\n");
    assert_eq!(updated.path, "n.md");
}

#[test]
fn note_not_found_message_names_the_key() {
    let note = Note::new("n.md", "nothing");
    let err = note.set_inline_property("k", "w", None).unwrap_err();
    assert_eq!(err.message(), "No inline property found with key \"k\"");
}

#[test]
fn note_body_start_line_and_full_content() {
    let note = Note::new("n.md", "---\na: 1\n---\nbody");
    assert_eq!(note.body_start_line(), 4);
    assert_eq!(note.full_content(), "---\na: 1\n---\nbody");
    assert_eq!(note.frontmatter_raw().as_deref(), Some("a: 1"));
    let replaced = note.with_content("x");
    assert_eq!(replaced.content, "x");
}

#[test]
fn note_inline_properties_of_note() {
    let note = Note::new("n.md", "[a::1]\n`[b::2]`");
    let props = note.inline_properties();
    assert_eq!(props.len(), 1);
    assert_eq!(props[0].key, "a");
}

#[test]
fn test_note_links() {
    let note = Note::new("note.md", "See [[Other Note]] and [[Another|alias]].");
    let links = note.links();
    assert_eq!(links.len(), 2);
}

#[test]
fn test_note_tags() {
    let note = Note::new("note.md", "Tags: #rust #cli");
    let tags = note.tags();
    assert_eq!(tags.len(), 2);
}

#[test]
fn note_headings_and_block_ids() {
    let note = Note::new("note.md", "# Title\n\nPara ^b1\n## Sub");
    assert_eq!(note.headings().len(), 2);
    assert_eq!(note.block_ids().len(), 1);
}

#[test]
fn test_set_task_symbol_check() {
    let content = "---\ntitle: Test\n---\n\n- [ ] My task\n- [ ] Another task\n";
    let note = Note::new("note.md", content);
    let updated = note.set_task_symbol(5, 'x').unwrap();
    assert!(updated.content.contains("- [x] My task"));
    assert!(updated.content.contains("- [ ] Another task"));
}

#[test]
fn test_set_task_symbol_uncheck() {
    let content = "- [x] Done task\n- [ ] Open task\n";
    let note = Note::new("note.md", content);
    let updated = note.set_task_symbol(1, ' ').unwrap();
    assert!(updated.content.contains("- [ ] Done task"));
    assert!(updated.content.contains("- [ ] Open task"));
}

#[test]
fn test_set_task_symbol_preserves_indentation() {
    let content = "- [ ] Top\n  - [ ] Indented task\n    - [x] Deeply indented\n";
    let note = Note::new("note.md", content);
    let updated = note.set_task_symbol(2, 'x').unwrap();
    assert!(updated.content.contains("  - [x] Indented task"));
    assert!(updated.content.contains("- [ ] Top"));
    assert!(updated.content.contains("    - [x] Deeply indented"));
}

#[test]
fn test_set_task_symbol_error_non_task_line() {
    let content = "# Heading\n- [ ] Task\n";
    let note = Note::new("note.md", content);
    let result = note.set_task_symbol(1, 'x');
    assert!(result.is_err());
    assert!(result.unwrap_err().message().contains("not a task"));
}

#[test]
fn test_set_task_symbol_error_out_of_range() {
    let content = "- [ ] Only task\n";
    let note = Note::new("note.md", content);
    let result = note.set_task_symbol(5, 'x');
    assert!(result.is_err());
    assert!(result.unwrap_err().message().contains("out of range"));
}

#[test]
fn test_set_task_symbol_error_zero_line() {
    let note = Note::new("note.md", "- [ ] Task\n");
    let result = note.set_task_symbol(0, 'x');
    assert!(result.is_err());
    assert!(result.unwrap_err().message().contains("1-indexed"));
}

#[test]
fn set_task_symbol_exact_output() {
    let note = Note::new("n.md", "a\n12. [ ] num\nb");
    let updated = note.set_task_symbol(2, '/').unwrap();
    assert_eq!(updated.content, "a\n12. [/] num\nb");
    let err = note.set_task_symbol(3, 'x').unwrap_err();
    assert_eq!(err.message(), "Line 3 is not a task: \"b\"");
}

#[test]
fn test_with_body_reads_back() {
    let note = vaultiel::note::Note::new("n.md", "---\ntitle: T\n---\nold body\n");
    let m = note.with_body("new body");
    assert_eq!(m.frontmatter_raw(), note.frontmatter_raw());
    assert_eq!(m.body(), "new body");
}
