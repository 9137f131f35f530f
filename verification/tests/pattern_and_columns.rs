//! Pattern replacement outside code, case-insensitive path matching, and
//! byte columns of parsed items.

use vaultiel::cli::content::replace_pattern;
use vaultiel::error::VaultError;
use vaultiel::note::Note;
use vaultiel::parser::code_block::find_code_block_ranges;
use vaultiel::parser::inline_property::parse_inline_properties;
use vaultiel::parser::tag::parse_tags;
use vaultiel::parser::wikilink::parse_links;
use vaultiel::search::matcher::{evaluate_note, NumericOrder};
use vaultiel::search::types::{FieldPredicate, SearchQuery, StringMatcher};

fn no_order(_a: &str, _b: &str) -> Option<NumericOrder> {
    None
}

#[test]
fn pattern_replaces_first_match() {
    let r = replace_pattern("foo bar foo", "foo", "baz", false).unwrap();
    assert_eq!(r, "baz bar foo");
}

#[test]
fn pattern_replaces_every_match() {
    let r = replace_pattern("foo bar foo", "fo+", "baz", true).unwrap();
    assert_eq!(r, "baz bar baz");
}

#[test]
fn pattern_skips_code_blocks() {
    let content = "foo\n```\nfoo\n```\nfoo";
    let all = replace_pattern(content, "foo", "X", true).unwrap();
    assert_eq!(all, "X\n```\nfoo\n```\nX");
    let first = replace_pattern("```\nfoo\n```\nfoo", "foo", "X", false).unwrap();
    assert_eq!(first, "```\nfoo\n```\nX");
}

#[test]
fn pattern_not_found_outside_code() {
    let r = replace_pattern("```\nfoo\n```", "foo", "X", false);
    match r {
        Err(VaultError::Other(m)) => assert_eq!(m, "Pattern 'foo' not found outside code blocks"),
        other => panic!("unexpected {:?}", other),
    }
    // With `all`, nothing to replace leaves the text as it is.
    assert_eq!(replace_pattern("```\nfoo\n```", "foo", "X", true).unwrap(), "```\nfoo\n```");
}

#[test]
fn pattern_invalid_regex() {
    let r = replace_pattern("text", "(", "X", true);
    assert!(matches!(r, Err(VaultError::RegexError(_))));
}

#[test]
fn pattern_after_multibyte_characters() {
    let r = replace_pattern("é foo é foo", "foo", "x", true).unwrap();
    assert_eq!(r, "é x é x");
    let r = replace_pattern("ü\u{1F600}bar", "bar", "BAZ", false).unwrap();
    assert_eq!(r, "ü\u{1F600}BAZ");
}

#[test]
fn path_contains_ignores_case() {
    let n = Note::new("daily/2024-01-15.md", "content");
    let q = SearchQuery::Field(FieldPredicate::Path {
        matcher: StringMatcher::Contains { value: "DAILY/".to_string() },
    });
    assert!(!evaluate_note(&n, &q, &no_order).is_empty());
}

#[test]
fn filename_contains_ignores_case() {
    let n = Note::new("folder/Meeting Notes.md", "content");
    let q = SearchQuery::Field(FieldPredicate::Filename {
        matcher: StringMatcher::Contains { value: "meeting".to_string() },
    });
    assert!(!evaluate_note(&n, &q, &no_order).is_empty());
}

#[test]
fn path_exact_keeps_case() {
    let n = Note::new("daily/2024-01-15.md", "content");
    let q = SearchQuery::Field(FieldPredicate::Path {
        matcher: StringMatcher::Exact { value: "DAILY/2024-01-15.md".to_string() },
    });
    assert!(evaluate_note(&n, &q, &no_order).is_empty());
}

#[test]
fn inline_property_columns_are_bytes() {
    let props = parse_inline_properties("[a::é]");
    assert_eq!(props.len(), 1);
    assert_eq!(props[0].start_col, 0);
    assert_eq!(props[0].end_col, 7);
}

#[test]
fn tag_columns_are_bytes() {
    let tags = parse_tags("é #tag");
    assert_eq!(tags.len(), 1);
    assert_eq!(tags[0].start_col, 3);
    assert_eq!(tags[0].end_col, 7);
}

#[test]
fn link_columns_are_bytes() {
    let links = parse_links("é [[Note]]");
    assert_eq!(links.len(), 1);
    assert_eq!(links[0].start_col, 3);
    assert_eq!(links[0].end_col, 11);
}

#[test]
fn code_block_offsets_are_bytes() {
    let content = "é\n```\nx\n```\n";
    let ranges = find_code_block_ranges(content);
    assert_eq!(ranges.len(), 1);
    assert_eq!(ranges[0].start, 3);
    assert_eq!(&content[ranges[0].start..ranges[0].end], "```\nx\n```");
}
