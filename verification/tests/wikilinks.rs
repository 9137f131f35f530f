//! Tests of wikilink and embed parsing.

use vaultiel::parser::wikilink::{format_wikilink, parse_all_links, parse_embeds, parse_links};
use vaultiel::types::Link;

#[test]
fn test_simple_link() {
    let content = "See [[My Note]] for details.";
    let links = parse_links(content);
    assert_eq!(links.len(), 1);
    assert_eq!(links[0].target, "My Note");
    assert!(links[0].alias.is_none());
    assert!(!links[0].embed);
}

#[test]
fn test_link_with_alias() {
    let content = "See [[My Note|the note]] for details.";
    let links = parse_links(content);
    assert_eq!(links.len(), 1);
    assert_eq!(links[0].target, "My Note");
    assert_eq!(links[0].alias, Some("the note".to_string()));
}

#[test]
fn test_link_with_heading() {
    let content = "See [[My Note#Section]] for details.";
    let links = parse_links(content);
    assert_eq!(links.len(), 1);
    assert_eq!(links[0].target, "My Note");
    assert_eq!(links[0].heading, Some("Section".to_string()));
}

#[test]
fn test_link_with_block_ref() {
    let content = "See [[My Note#^abc123]] for details.";
    let links = parse_links(content);
    assert_eq!(links.len(), 1);
    assert_eq!(links[0].target, "My Note");
    assert_eq!(links[0].block_id, Some("abc123".to_string()));
}

#[test]
fn test_link_with_heading_and_alias() {
    let content = "[[Note#Section|alias]]";
    let links = parse_links(content);
    assert_eq!(links.len(), 1);
    assert_eq!(links[0].target, "Note");
    assert_eq!(links[0].heading, Some("Section".to_string()));
    assert_eq!(links[0].alias, Some("alias".to_string()));
}

#[test]
fn test_embed() {
    let content = "![[image.png]]";
    let embeds = parse_embeds(content);
    assert_eq!(embeds.len(), 1);
    assert!(embeds[0].embed);
    assert_eq!(embeds[0].target, "image.png");
}

#[test]
fn test_note_embed() {
    let content = "![[Other Note]]";
    let embeds = parse_embeds(content);
    assert_eq!(embeds.len(), 1);
    assert!(embeds[0].embed);
    assert_eq!(embeds[0].target, "Other Note");
}

#[test]
fn test_embed_with_heading() {
    let content = "![[Note#Section]]";
    let embeds = parse_embeds(content);
    assert_eq!(embeds.len(), 1);
    assert_eq!(embeds[0].heading, Some("Section".to_string()));
}

#[test]
fn test_multiple_links() {
    let content = "See [[Note A]] and [[Note B|B]] and ![[image.png]].";
    let all_links = parse_all_links(content);
    assert_eq!(all_links.len(), 3);

    let links = parse_links(content);
    assert_eq!(links.len(), 2);

    let embeds = parse_embeds(content);
    assert_eq!(embeds.len(), 1);
}

#[test]
fn test_link_in_code_block_skipped() {
    let content = "See [[real link]]\n\n```\n[[fake link]]\n```\n\nMore text";
    let links = parse_links(content);
    assert_eq!(links.len(), 1);
    assert_eq!(links[0].target, "real link");
}

#[test]
fn test_link_in_inline_code_skipped() {
    let content = "See [[real link]] and `[[fake link]]` here.";
    let links = parse_links(content);
    assert_eq!(links.len(), 1);
    assert_eq!(links[0].target, "real link");
}

#[test]
fn test_link_line_numbers() {
    let content = "Line 1\n[[Link on line 2]]\nLine 3\n[[Link on line 4]]";
    let links = parse_links(content);
    assert_eq!(links.len(), 2);
    assert_eq!(links[0].line, 2);
    assert_eq!(links[1].line, 4);
}

#[test]
fn test_format_wikilink() {
    let link = Link {
        target: "Note".to_string(),
        alias: Some("alias".to_string()),
        heading: Some("Section".to_string()),
        block_id: None,
        embed: false,
        line: 1,
        start_col: 0,
        end_col: 10,
    };
    assert_eq!(format_wikilink(&link), "[[Note#Section|alias]]");

    let embed = Link {
        target: "image.png".to_string(),
        alias: None,
        heading: None,
        block_id: None,
        embed: true,
        line: 1,
        start_col: 0,
        end_col: 10,
    };
    assert_eq!(format_wikilink(&embed), "![[image.png]]");
}

#[test]
fn test_link_with_path() {
    let content = "[[folder/subfolder/note]]";
    let links = parse_links(content);
    assert_eq!(links.len(), 1);
    assert_eq!(links[0].target, "folder/subfolder/note");
}

#[test]
fn columns_are_counted_in_characters() {
    let links = parse_links("ab [[X]] cd");
    assert_eq!(links.len(), 1);
    assert_eq!(links[0].start_col, 3);
    assert_eq!(links[0].end_col, 8);
}

#[test]
fn block_ref_with_alias_and_trimmed_target() {
    let links = parse_all_links("[[  Target #^blk|Shown]]");
    assert_eq!(links.len(), 1);
    assert_eq!(links[0].target, "Target");
    assert_eq!(links[0].block_id, Some("blk".to_string()));
    assert_eq!(links[0].heading, None);
    assert_eq!(links[0].alias, Some("Shown".to_string()));
}

#[test]
fn formatted_link_parses_back() {
    let link = Link {
        target: "Some Note".to_string(),
        alias: Some("shown".to_string()),
        heading: None,
        block_id: Some("b1".to_string()),
        embed: true,
        line: 1,
        start_col: 0,
        end_col: 0,
    };
    let text = format_wikilink(&link);
    assert_eq!(text, "![[Some Note#^b1|shown]]");
    let back = parse_all_links(&text);
    assert_eq!(back.len(), 1);
    assert_eq!(back[0].target, "Some Note");
    assert_eq!(back[0].block_id, Some("b1".to_string()));
    assert_eq!(back[0].alias, Some("shown".to_string()));
    assert!(back[0].embed);
}
