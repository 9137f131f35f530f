//! Tests of export settings and Cypher quoting.

use vaultiel::export::cypher::{escape_string, sanitize_property_name, CypherOptions};
use vaultiel::export::jsonld::JsonLdOptions;
use vaultiel::graph::link_graph::{LinkGraph, NoteSource};
use vaultiel::str_map::StrMap;

#[test]
fn test_escape_string() {
    assert_eq!(escape_string("hello"), "'hello'");
    assert_eq!(escape_string("it's"), "'it\\'s'");
    assert_eq!(escape_string("line\nbreak"), "'line\\nbreak'");
}

#[test]
fn test_sanitize_property_name() {
    assert_eq!(sanitize_property_name("title"), "title");
    assert_eq!(sanitize_property_name("my-key"), "my_key");
    assert_eq!(sanitize_property_name("123abc"), "_123abc");
}

#[test]
fn test_default_options() {
    let options = JsonLdOptions::default();
    assert!(!options.include_tags);
    assert!(!options.include_headings);
    assert!(!options.include_frontmatter);
    assert!(options.base_uri.is_none());
    assert!(!options.pretty);
}

#[test]
fn export_escape_all_specials_and_unicode_names() {
    assert_eq!(escape_string("a\\b\"c\r\td"), "'a\\\\b\\\"c\\r\\td'");
    assert_eq!(sanitize_property_name("größe"), "größe");
    assert_eq!(sanitize_property_name(""), "");
    let c = CypherOptions::default();
    assert!(!c.use_merge);
}

#[test]
fn test_jsonld_context_terms() {
    let ctx = vaultiel::export::jsonld::jsonld_context();
    assert_eq!(ctx.len(), 18);
    assert_eq!(ctx[0].term, "@vocab");
    assert_eq!(ctx[0].iri, "https://vaultiel.dev/schema/");
    assert!(ctx[0].type_.is_none());
    let links_to = ctx.iter().find(|t| t.term == "linksTo").unwrap();
    assert_eq!(links_to.type_.as_deref(), Some("@id"));
}

#[test]
fn test_jsonld_node_ids_are_url_encoded() {
    let notes = vec![NoteSource { path: "dir/a b é.md".to_string(), loaded: Ok("x".to_string()) }];
    let graph = LinkGraph::build(&notes);
    let resolved: StrMap<String> = StrMap::new();
    let mut options = JsonLdOptions::default();
    options.base_uri = Some("http://x/".to_string());
    let (nodes, stats) = vaultiel::export::jsonld::export_jsonld("/v", &notes, &graph, &resolved, &options);
    assert_eq!(nodes.len(), 1);
    assert_eq!(nodes[0].id, "http://x/note/dir%2Fa%20b%20%C3%A9.md");
    assert_eq!(stats.notes_created, 1);
}
