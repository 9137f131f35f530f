//! Tests of link rewriting when a note is renamed.

use vaultiel::cli::rename::{create_updated_link, find_link_position, group_by_source, link_changes, rewrite_links};
use vaultiel::graph::link_graph::{LinkGraph, NoteSource};
use vaultiel::parser::wikilink::parse_all_links;
use vaultiel::types::Link;

fn link(target: &str, heading: Option<&str>, line: usize, start_col: usize) -> Link {
    Link {
        target: target.to_string(),
        alias: None,
        heading: heading.map(|h| h.to_string()),
        block_id: None,
        embed: false,
        line,
        start_col,
        end_col: 0,
    }
}

#[test]
fn test_create_updated_link() {
    let old_link = Link {
        target: "Old Note".to_string(),
        alias: None,
        heading: None,
        block_id: None,
        embed: false,
        line: 1,
        start_col: 0,
        end_col: 12,
    };

    let new_link = create_updated_link(&old_link, "Old Note", "New Note", "New Note.md");

    assert_eq!(new_link.target, "New Note");
}

#[test]
fn test_create_updated_link_with_heading() {
    let old_link = Link {
        target: "Old Note".to_string(),
        alias: None,
        heading: Some("Section".to_string()),
        block_id: None,
        embed: false,
        line: 1,
        start_col: 0,
        end_col: 20,
    };

    let new_link = create_updated_link(&old_link, "Old Note", "New Note", "New Note.md");

    assert_eq!(new_link.target, "New Note");
    assert_eq!(new_link.heading, Some("Section".to_string()));
}

#[test]
fn path_links_take_the_new_path_without_md() {
    let l = link("folder/Old", None, 1, 0);
    let n = create_updated_link(&l, "old", "New", "other/New.md");
    assert_eq!(n.target, "other/New");
}

#[test]
fn link_positions_count_previous_lines() {
    let content = "ab\ncd [[X]]";
    assert_eq!(find_link_position(content, &link("X", None, 2, 3)), Some(6));
    assert_eq!(find_link_position(content, &link("X", None, 3, 0)), None);
    assert_eq!(find_link_position(content, &link("X", None, 0, 0)), None);
}

#[test]
fn rewrite_replaces_links_from_last_to_first() {
    let content = "See [[Old]] and [[old#Part]].\n[[Old|alias]]";
    let links = parse_all_links(content);
    let (new_content, n) = rewrite_links(content, &links, "Old", "Fresh", "Fresh.md").unwrap();
    assert_eq!(n, 3);
    assert_eq!(new_content, "See [[Fresh]] and [[Fresh#Part]].\n[[Fresh|alias]]");
}

#[test]
fn rewrite_reports_a_span_past_the_end() {
    let links = vec![link("Old", None, 1, 5)];
    assert!(rewrite_links("[[Old]]", &links, "Old", "New", "New.md").is_none());
}

#[test]
fn changes_and_groups_of_incoming_links() {
    let notes = vec![
        NoteSource { path: "a.md".to_string(), loaded: Ok("[[Old]] [[Old#H]]".to_string()) },
        NoteSource { path: "b.md".to_string(), loaded: Ok("x [[old]]".to_string()) },
        NoteSource { path: "Old.md".to_string(), loaded: Ok("target".to_string()) },
    ];
    let graph = LinkGraph::build(&notes);
    let incoming = graph.get_incoming("Old.md");
    let groups = group_by_source(&incoming);
    assert_eq!(groups.len(), 2);
    assert_eq!(groups[0].0, "a.md");
    assert_eq!(groups[0].1.len(), 2);
    assert_eq!(groups[1].0, "b.md");
    let changes = link_changes(&groups[0].1, "Old", "New", "New.md");
    assert_eq!(changes.len(), 2);
    assert_eq!(changes[1], (1, "[[Old#H]]".to_string(), "[[New#H]]".to_string()));
}
