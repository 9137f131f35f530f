//! Tests of bracketed inline attributes.

use vaultiel::parser::inline_attr::parse_inline_attrs;

#[test]
fn test_inline_attr_with_link() {
    let content = "[parent::[[Other Note]]]";
    let attrs = parse_inline_attrs(content);
    assert_eq!(attrs.len(), 1);
    assert_eq!(attrs[0].key, "parent");
    assert_eq!(attrs[0].value, "[[Other Note]]");
}

#[test]
fn test_multiple_inline_attrs() {
    let content = "[key1::value1] some text [key2::value2]";
    let attrs = parse_inline_attrs(content);
    assert_eq!(attrs.len(), 2);
}

#[test]
fn test_inline_attr_with_hyphen_key() {
    let content = "[my-key::my value]";
    let attrs = parse_inline_attrs(content);
    assert_eq!(attrs.len(), 1);
    assert_eq!(attrs[0].key, "my-key");
    assert_eq!(attrs[0].value, "my value");
}

#[test]
fn test_inline_attr_value_with_spaces() {
    let content = "[description::This is a longer value with spaces]";
    let attrs = parse_inline_attrs(content);
    assert_eq!(attrs.len(), 1);
    assert_eq!(attrs[0].value, "This is a longer value with spaces");
}

#[test]
fn test_inline_attr_in_code_block_skipped() {
    let content = "[real::attr]\n\n```\n[fake::attr]\n```";
    let attrs = parse_inline_attrs(content);
    assert_eq!(attrs.len(), 1);
    assert_eq!(attrs[0].key, "real");
}

#[test]
fn test_inline_attr_in_inline_code_skipped() {
    let content = "[real::attr] and `[fake::attr]` here.";
    let attrs = parse_inline_attrs(content);
    assert_eq!(attrs.len(), 1);
}

#[test]
fn test_inline_attr_line_numbers() {
    let content = "[attr1::val1]\nsome text\n[attr2::val2]";
    let attrs = parse_inline_attrs(content);
    assert_eq!(attrs.len(), 2);
    assert_eq!(attrs[0].line, 1);
    assert_eq!(attrs[1].line, 3);
}

#[test]
fn test_not_dataview_style() {
    let content = "status:: active";
    let attrs = parse_inline_attrs(content);
    assert_eq!(attrs.len(), 0);
}
