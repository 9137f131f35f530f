//! Vault-wide tags, nested tags and block references.

use vaultiel::cli::blocks::block_refs;
use vaultiel::cli::tag_tree::nested_tags;
use vaultiel::cli::tags::vault_tags;
use vaultiel::graph::link_graph::{LinkGraph, NoteSource};
use vaultiel::str_map::StrMap;

fn source(path: &str, content: &str) -> NoteSource {
    NoteSource { path: path.to_string(), loaded: Ok(content.to_string()) }
}

#[test]
fn test_build_nested_tags() {
    let mut tag_counts = StrMap::new();
    tag_counts.insert("#rust".to_string(), 5);
    tag_counts.insert("#rust/cli".to_string(), 3);
    tag_counts.insert("#rust/web".to_string(), 2);
    tag_counts.insert("#python".to_string(), 4);

    let nested = nested_tags(&tag_counts, true);

    assert_eq!(nested.len(), 2); // #rust and #python

    let rust = nested.iter().find(|t| t.tag == "#rust").unwrap();
    assert_eq!(rust.count, Some(5));
    assert_eq!(rust.children.len(), 2);
}

#[test]
fn nested_tags_order_and_missing_parents() {
    let mut counts = StrMap::new();
    counts.insert("#b/y/z".to_string(), 1);
    counts.insert("#a".to_string(), 2);
    counts.insert("#b/x".to_string(), 3);
    let nested = nested_tags(&counts, true);
    assert_eq!(nested.len(), 2);
    assert_eq!(nested[0].tag, "#a");
    assert_eq!(nested[0].count, Some(2));
    assert!(nested[0].children.is_empty());
    assert_eq!(nested[1].tag, "#b");
    assert_eq!(nested[1].count, None);
    assert_eq!(nested[1].children.len(), 2);
    assert_eq!(nested[1].children[0].tag, "#b/x");
    assert_eq!(nested[1].children[0].count, Some(3));
    assert_eq!(nested[1].children[1].tag, "#b/y");
    assert_eq!(nested[1].children[1].count, None);
    assert_eq!(nested[1].children[1].children[0].tag, "#b/y/z");
    let plain = nested_tags(&counts, false);
    assert_eq!(plain[0].count, None);
    assert_eq!(plain[1].children[0].count, None);
}

#[test]
fn vault_tags_sorted_with_counts() {
    let notes = vec![
        source("a.md", "Text #zeta and #alpha #alpha"),
        source("b.md", "More #beta #alpha"),
        NoteSource { path: "c.md".to_string(), loaded: Err("unreadable".to_string()) },
    ];
    let tags = vault_tags(&notes, true);
    let got: Vec<(String, Option<usize>)> = tags.iter().map(|t| (t.tag.clone(), t.count)).collect();
    assert_eq!(
        got,
        vec![
            ("#alpha".to_string(), Some(3)),
            ("#beta".to_string(), Some(1)),
            ("#zeta".to_string(), Some(1)),
        ]
    );
    let names = vault_tags(&notes, false);
    assert_eq!(names.len(), 3);
    assert!(names.iter().all(|t| t.count.is_none()));
}

#[test]
fn block_refs_keep_links_to_existing_blocks() {
    let notes = vec![
        source("target.md", "A paragraph ^para1\n\nOther text ^para2"),
        source("src.md", "See [[target#^para1]] and [[target#^missing]]\n- [ ] task [[target#^para2]]"),
        source("plain.md", "Just [[target]]"),
    ];
    let graph = LinkGraph::build(&notes);
    let incoming = graph.get_incoming("target.md");
    let refs = block_refs("A paragraph ^para1\n\nOther text ^para2", &incoming);
    assert_eq!(refs.len(), 2);
    assert_eq!(refs[0].block_id, "para1");
    assert_eq!(refs[0].from, "src.md");
    assert_eq!(refs[0].line, 1);
    assert_eq!(refs[0].context, "body");
    assert_eq!(refs[1].block_id, "para2");
    assert_eq!(refs[1].line, 2);
    assert_eq!(refs[1].context, "task");
}
