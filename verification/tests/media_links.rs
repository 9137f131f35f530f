//! Tests of media detection and link resolution.

use vaultiel::graph::resolution::{get_media_type, is_media_target, resolve_link_target};
use vaultiel::parser::inline_attr::{collect_inline_attrs, format_inline_attr, parse_inline_attrs};
use vaultiel::parser::inline_property::{collect_inline_properties, parse_inline_properties};
use vaultiel::parser::wikilink::is_media_embed;
use vaultiel::str_map::StrMap;

#[test]
fn test_is_media_target() {
    assert!(is_media_target("image.png"));
    assert!(is_media_target("photo.JPG"));
    assert!(is_media_target("audio.mp3"));
    assert!(is_media_target("video.mp4"));
    assert!(is_media_target("document.pdf"));
    assert!(!is_media_target("Note"));
    assert!(!is_media_target("Note.md"));
}

#[test]
fn test_get_media_type() {
    assert_eq!(get_media_type("image.png"), Some("image"));
    assert_eq!(get_media_type("audio.mp3"), Some("audio"));
    assert_eq!(get_media_type("video.mp4"), Some("video"));
    assert_eq!(get_media_type("doc.pdf"), Some("pdf"));
    assert_eq!(get_media_type("Note.md"), None);
}

#[test]
fn test_is_media_embed() {
    assert!(is_media_embed("image.png"));
    assert!(is_media_embed("photo.JPG"));
    assert!(is_media_embed("doc.pdf"));
    assert!(is_media_embed("audio.mp3"));
    assert!(is_media_embed("video.mp4"));
    assert!(!is_media_embed("Note"));
    assert!(!is_media_embed("Note.md"));
}

#[test]
fn media_embed_and_target_differ_on_some_formats() {
    assert!(is_media_target("clip.mov"));
    assert!(!is_media_embed("clip.mov"));
}

#[test]
fn resolution_order() {
    let notes = vec!["proj/Alpha.md".to_string(), "Beta.md".to_string(), "other/beta.md".to_string()];
    let mut aliases: StrMap<String> = StrMap::new();
    aliases.insert("gamma".to_string(), "Beta.md".to_string());
    assert_eq!(resolve_link_target("proj/Alpha", &notes, &aliases).as_deref(), Some("proj/Alpha.md"));
    assert_eq!(resolve_link_target("alpha#Heading", &notes, &aliases).as_deref(), Some("proj/Alpha.md"));
    assert_eq!(resolve_link_target("BETA", &notes, &aliases).as_deref(), Some("Beta.md"));
    assert_eq!(resolve_link_target("Gamma", &notes, &aliases).as_deref(), Some("Beta.md"));
    assert_eq!(resolve_link_target("missing", &notes, &aliases), None);
}

#[test]
fn test_format_inline_attr() {
    assert_eq!(format_inline_attr("key", "value"), "[key::value]");
    assert_eq!(format_inline_attr("parent", "[[Note]]"), "[parent::[[Note]]]");
}

#[test]
fn test_simple_inline_attr() {
    let attrs = parse_inline_attrs("Some text [status::active] here.");
    assert_eq!(attrs.len(), 1);
    assert_eq!(attrs[0].key, "status");
    assert_eq!(attrs[0].value, "active");
}

#[test]
fn test_collect_inline_attrs() {
    let content = "[tag::a] [tag::b] [other::c]";
    let attrs = parse_inline_attrs(content);
    let collected = collect_inline_attrs(&attrs);
    assert_eq!(collected.get("tag").map(|v| v.len()), Some(2));
    assert_eq!(collected.get("other").map(|v| v.len()), Some(1));
}

#[test]
fn test_collect_inline_properties() {
    let content = "[tag::a] [tag::b] [other::c]";
    let props = parse_inline_properties(content);
    let collected = collect_inline_properties(&props);
    assert_eq!(collected.get("tag").map(|v| v.len()), Some(2));
    assert_eq!(collected.get("other").map(|v| v.len()), Some(1));
}
