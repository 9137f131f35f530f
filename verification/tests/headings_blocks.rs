//! Tests of heading and block ID parsing.

use vaultiel::parser::block_id::{find_block_by_id, get_block_range, parse_block_ids};
use vaultiel::parser::heading::{
    filter_headings_by_level, find_heading_by_slug, find_heading_by_text, parse_headings, slugify,
};
use vaultiel::types::BlockType;

#[test]
fn test_simple_block_id() {
    let content = "Some paragraph text ^abc123";
    let blocks = parse_block_ids(content);
    assert_eq!(blocks.len(), 1);
    assert_eq!(blocks[0].id, "abc123");
    assert_eq!(blocks[0].line, 1);
    assert_eq!(blocks[0].block_type, BlockType::Paragraph);
}

#[test]
fn test_block_id_on_list_item() {
    let content = "- List item ^list-id";
    let blocks = parse_block_ids(content);
    assert_eq!(blocks.len(), 1);
    assert_eq!(blocks[0].id, "list-id");
    assert_eq!(blocks[0].block_type, BlockType::ListItem);
}

#[test]
fn test_block_id_on_heading() {
    let content = "# Heading ^head-id";
    let blocks = parse_block_ids(content);
    assert_eq!(blocks.len(), 1);
    assert_eq!(blocks[0].id, "head-id");
    assert_eq!(blocks[0].block_type, BlockType::Heading);
}

#[test]
fn test_block_id_on_blockquote() {
    let content = "> Quote text ^quote-id";
    let blocks = parse_block_ids(content);
    assert_eq!(blocks.len(), 1);
    assert_eq!(blocks[0].block_type, BlockType::Blockquote);
}

#[test]
fn test_multiple_block_ids() {
    let content = "Para 1 ^id1\n\nPara 2 ^id2\n\n- Item ^id3";
    let blocks = parse_block_ids(content);
    assert_eq!(blocks.len(), 3);
    assert_eq!(blocks[0].line, 1);
    assert_eq!(blocks[1].line, 3);
    assert_eq!(blocks[2].line, 5);
}

#[test]
fn test_block_id_in_code_block_skipped() {
    let content = "Real paragraph ^real-id\n\n```\nCode ^fake-id\n```";
    let blocks = parse_block_ids(content);
    assert_eq!(blocks.len(), 1);
    assert_eq!(blocks[0].id, "real-id");
}

#[test]
fn test_block_id_must_be_at_end() {
    let content = "Some ^id text continues";
    let blocks = parse_block_ids(content);
    assert_eq!(blocks.len(), 0);
}

#[test]
fn test_block_id_with_whitespace_after() {
    let content = "Some text ^id   ";
    let blocks = parse_block_ids(content);
    assert_eq!(blocks.len(), 1);
    assert_eq!(blocks[0].id, "id");
}

#[test]
fn test_find_block_by_id() {
    let content = "Line 1\nLine 2 with ^target\nLine 3";
    let result = find_block_by_id(content, "target");
    assert!(result.is_some());
    let (line, text) = result.unwrap();
    assert_eq!(line, 2);
    assert!(text.contains("Line 2"));
}

#[test]
fn test_numbered_list_block_type() {
    let content = "1. First item ^item1";
    let blocks = parse_block_ids(content);
    assert_eq!(blocks.len(), 1);
    assert_eq!(blocks[0].block_type, BlockType::ListItem);
}

#[test]
fn block_range_and_other_block_types() {
    assert_eq!(get_block_range("a\nb ^x", "x"), Some((2, 2)));
    assert_eq!(get_block_range("a\nb ^x", "y"), None);
    let blocks = parse_block_ids("| a | b | ^t\n```js ^c\nplain^no");
    assert_eq!(blocks.len(), 2);
    assert_eq!(blocks[0].block_type, BlockType::Paragraph);
    assert_eq!(blocks[1].block_type, BlockType::CodeBlock);
}

#[test]
fn test_simple_heading() {
    let content = "# Heading 1\n\nSome text\n\n## Heading 2";
    let headings = parse_headings(content);
    assert_eq!(headings.len(), 2);
    assert_eq!(headings[0].text, "Heading 1");
    assert_eq!(headings[0].level, 1);
    assert_eq!(headings[0].line, 1);
    assert_eq!(headings[1].text, "Heading 2");
    assert_eq!(headings[1].level, 2);
    assert_eq!(headings[1].line, 5);
}

#[test]
fn test_heading_with_block_id() {
    let content = "# Heading ^block-id";
    let headings = parse_headings(content);
    assert_eq!(headings.len(), 1);
    assert_eq!(headings[0].text, "Heading");
}

#[test]
fn test_slugify() {
    assert_eq!(slugify("Hello World"), "hello-world");
    assert_eq!(slugify("API Design"), "api-design");
    assert_eq!(slugify("What's New?"), "whats-new");
    assert_eq!(slugify("C++ Programming"), "c-programming");
    assert_eq!(slugify("  Spaced  "), "spaced");
    assert_eq!(slugify("Under_score"), "under_score");
    assert_eq!(slugify("Multiple   Spaces"), "multiple-spaces");
}

#[test]
fn test_duplicate_headings_unique_slugs() {
    let content = "# Test\n\n## Test\n\n### Test";
    let headings = parse_headings(content);
    assert_eq!(headings.len(), 3);
    assert_eq!(headings[0].slug, "test");
    assert_eq!(headings[1].slug, "test-1");
    assert_eq!(headings[2].slug, "test-2");
}

#[test]
fn test_heading_in_code_block_skipped() {
    let content = "# Real Heading\n\n```\n# Not a heading\n```";
    let headings = parse_headings(content);
    assert_eq!(headings.len(), 1);
    assert_eq!(headings[0].text, "Real Heading");
}

#[test]
fn test_all_heading_levels() {
    let content = "# H1\n## H2\n### H3\n#### H4\n##### H5\n###### H6";
    let headings = parse_headings(content);
    assert_eq!(headings.len(), 6);
    for (i, h) in headings.iter().enumerate() {
        assert_eq!(h.level, (i + 1) as u8);
    }
}

#[test]
fn test_find_heading_by_slug() {
    let content = "# First\n## Second\n### Third";
    let headings = parse_headings(content);
    let found = find_heading_by_slug(&headings, "second");
    assert!(found.is_some());
    assert_eq!(found.unwrap().text, "Second");
}

#[test]
fn test_find_heading_by_text() {
    let content = "# First\n## Second\n### Third";
    let headings = parse_headings(content);
    let found = find_heading_by_text(&headings, "SECOND");
    assert!(found.is_some());
    assert_eq!(found.unwrap().text, "Second");
}

#[test]
fn test_filter_headings_by_level() {
    let content = "# H1\n## H2\n### H3\n## H2b";
    let headings = parse_headings(content);
    let filtered = filter_headings_by_level(&headings, 2, 2);
    assert_eq!(filtered.len(), 2);
}

#[test]
fn test_heading_not_at_line_start() {
    let content = "text # not a heading\n# Real heading";
    let headings = parse_headings(content);
    assert_eq!(headings.len(), 1);
    assert_eq!(headings[0].text, "Real heading");
}

#[test]
fn heading_edge_cases() {
    assert_eq!(parse_headings("####### seven").len(), 0);
    assert_eq!(parse_headings("#nospace").len(), 0);
    let hs = parse_headings("##   Spaced title   ");
    assert_eq!(hs[0].text, "Spaced title");
    assert_eq!(hs[0].slug, "spaced-title");
    assert_eq!(slugify("Ünïcode Straße"), "Ünïcode-straße");
}
