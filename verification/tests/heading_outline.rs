//! Nested heading outlines.

use vaultiel::cli::headings::build_nested_headings;
use vaultiel::parser::heading::build_heading_tree;
use vaultiel::types::Heading;

fn heading(text: &str, level: u8, line: usize, slug: &str) -> Heading {
    Heading { text: text.to_string(), level, line, slug: slug.to_string() }
}

#[test]
fn test_build_nested_headings() {
    let headings = vec![
        heading("Top", 1, 1, "top"),
        heading("Section A", 2, 3, "section-a"),
        heading("Subsection", 3, 5, "subsection"),
        heading("Section B", 2, 7, "section-b"),
    ];

    let nested = build_nested_headings(&headings);

    assert_eq!(nested.len(), 1); // One top-level heading
    assert_eq!(nested[0].text, "Top");
    assert_eq!(nested[0].children.len(), 2); // Section A and Section B
    assert_eq!(nested[0].children[0].children.len(), 1); // Subsection under Section A
}

#[test]
fn heading_tree_skipped_levels_and_new_roots() {
    let headings = vec![
        heading("A", 2, 1, "a"),
        heading("B", 1, 2, "b"),
        heading("C", 3, 3, "c"),
        heading("D", 2, 4, "d"),
        heading("E", 1, 5, "e"),
    ];
    let tree = build_heading_tree(&headings);
    assert_eq!(tree.len(), 3);
    assert_eq!(tree[0].heading.text, "A");
    assert!(tree[0].children.is_empty());
    assert_eq!(tree[1].heading.text, "B");
    assert_eq!(tree[1].children.len(), 2);
    assert_eq!(tree[1].children[0].heading.text, "C");
    assert_eq!(tree[1].children[1].heading.text, "D");
    assert_eq!(tree[2].heading.slug, "e");
    assert!(build_heading_tree(&[]).is_empty());
}
