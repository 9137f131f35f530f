//! Tests of tag parsing, deduplication and grouping.

use vaultiel::parser::tag::{group_tags_by_root, parse_tags, unique_tags};

#[test]
fn test_simple_tag() {
    let content = "Some text #rust here.";
    let tags = parse_tags(content);
    assert_eq!(tags.len(), 1);
    assert_eq!(tags[0].name, "#rust");
}

#[test]
fn test_nested_tag() {
    let content = "#tray/autonomy/urgent";
    let tags = parse_tags(content);
    assert_eq!(tags.len(), 1);
    assert_eq!(tags[0].name, "#tray/autonomy/urgent");
}

#[test]
fn test_multiple_tags() {
    let content = "Tags: #rust #cli #obsidian";
    let tags = parse_tags(content);
    assert_eq!(tags.len(), 3);
}

#[test]
fn test_tag_with_hyphen() {
    let content = "#my-tag";
    let tags = parse_tags(content);
    assert_eq!(tags.len(), 1);
    assert_eq!(tags[0].name, "#my-tag");
}

#[test]
fn test_tag_with_underscore() {
    let content = "#my_tag";
    let tags = parse_tags(content);
    assert_eq!(tags.len(), 1);
    assert_eq!(tags[0].name, "#my_tag");
}

#[test]
fn test_tag_starting_with_underscore() {
    let content = "#_private";
    let tags = parse_tags(content);
    assert_eq!(tags.len(), 1);
    assert_eq!(tags[0].name, "#_private");
}

#[test]
fn test_numeric_not_a_tag() {
    let content = "Issue #123 is fixed.";
    let tags = parse_tags(content);
    assert_eq!(tags.len(), 0);
}

#[test]
fn test_html_entity_not_a_tag() {
    let content = "Use &nbsp; for space.";
    let tags = parse_tags(content);
    assert_eq!(tags.len(), 0);
}

#[test]
fn test_heading_not_a_tag() {
    let content = "# Heading\n## Subheading";
    let tags = parse_tags(content);
    assert_eq!(tags.len(), 0);
}

#[test]
fn test_tag_in_code_block_skipped() {
    let content = "Real #tag\n\n```\n#fake-tag\n```";
    let tags = parse_tags(content);
    assert_eq!(tags.len(), 1);
    assert_eq!(tags[0].name, "#tag");
}

#[test]
fn test_tag_in_inline_code_skipped() {
    let content = "Real #tag and `#fake-tag` here.";
    let tags = parse_tags(content);
    assert_eq!(tags.len(), 1);
    assert_eq!(tags[0].name, "#tag");
}

#[test]
fn test_tag_line_numbers() {
    let content = "#tag1\nsome text\n#tag2";
    let tags = parse_tags(content);
    assert_eq!(tags.len(), 2);
    assert_eq!(tags[0].line, 1);
    assert_eq!(tags[1].line, 3);
}

#[test]
fn test_tag_in_wikilink_skipped() {
    let content = "Real #tag and [[Note#heading]] here.";
    let tags = parse_tags(content);
    assert_eq!(tags.len(), 1);
    assert_eq!(tags[0].name, "#tag");
}

#[test]
fn test_unique_tags() {
    let content = "#rust #cli #rust #obsidian #cli";
    let tags = parse_tags(content);
    let unique = unique_tags(&tags);
    assert_eq!(unique.len(), 3);
}

#[test]
fn test_group_tags_by_root() {
    let content = "#tray #tray/work #tray/personal #rust";
    let tags = parse_tags(content);
    let groups = group_tags_by_root(&tags);

    assert_eq!(groups.get("#tray").map(|v| v.len()), Some(3));
    assert_eq!(groups.get("#rust").map(|v| v.len()), Some(1));
}

#[test]
fn unique_tags_keep_first_occurrence_order() {
    let tags = parse_tags("#b #a\n#b");
    let unique = unique_tags(&tags);
    assert_eq!(unique.len(), 2);
    assert_eq!(unique[0].name, "#b");
    assert_eq!(unique[0].line, 1);
    assert_eq!(unique[1].name, "#a");
}

#[test]
fn tag_columns_and_without_hash() {
    let tags = parse_tags("x #done/now y");
    assert_eq!(tags.len(), 1);
    assert_eq!(tags[0].start_col, 2);
    assert_eq!(tags[0].end_col, 11);
    assert_eq!(tags[0].without_hash(), "done/now");
}
