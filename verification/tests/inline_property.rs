//! Tests of inline property parsing and formatting.

use vaultiel::parser::inline_property::{format_inline_property, parse_inline_properties};

#[test]
fn test_simple_inline_property() {
    let content = "Some text [status::active] here.";
    let props = parse_inline_properties(content);
    assert_eq!(props.len(), 1);
    assert_eq!(props[0].key, "status");
    assert_eq!(props[0].value, "active");
}

#[test]
fn test_inline_property_with_link() {
    let content = "[parent::[[Other Note]]]";
    let props = parse_inline_properties(content);
    assert_eq!(props.len(), 1);
    assert_eq!(props[0].key, "parent");
    assert_eq!(props[0].value, "[[Other Note]]");
}

#[test]
fn test_multiple_inline_properties() {
    let content = "[key1::value1] some text [key2::value2]";
    let props = parse_inline_properties(content);
    assert_eq!(props.len(), 2);
}

#[test]
fn test_inline_property_with_hyphen_key() {
    let content = "[my-key::my value]";
    let props = parse_inline_properties(content);
    assert_eq!(props.len(), 1);
    assert_eq!(props[0].key, "my-key");
    assert_eq!(props[0].value, "my value");
}

#[test]
fn test_inline_property_value_with_spaces() {
    let content = "[description::This is a longer value with spaces]";
    let props = parse_inline_properties(content);
    assert_eq!(props.len(), 1);
    assert_eq!(props[0].value, "This is a longer value with spaces");
}

#[test]
fn test_inline_property_in_code_block_skipped() {
    let content = "[real::prop]\n\n```\n[fake::prop]\n```";
    let props = parse_inline_properties(content);
    assert_eq!(props.len(), 1);
    assert_eq!(props[0].key, "real");
}

#[test]
fn test_inline_property_in_inline_code_skipped() {
    let content = "[real::prop] and `[fake::prop]` here.";
    let props = parse_inline_properties(content);
    assert_eq!(props.len(), 1);
}

#[test]
fn test_inline_property_line_numbers() {
    let content = "[prop1::val1]\nsome text\n[prop2::val2]";
    let props = parse_inline_properties(content);
    assert_eq!(props.len(), 2);
    assert_eq!(props[0].line, 1);
    assert_eq!(props[1].line, 3);
}

#[test]
fn test_format_inline_property() {
    assert_eq!(format_inline_property("key", "value"), "[key::value]");
    assert_eq!(format_inline_property("parent", "[[Note]]"), "[parent::[[Note]]]");
}

#[test]
fn inline_property_test_not_dataview_style() {
    let content = "status:: active";
    let props = parse_inline_properties(content);
    assert_eq!(props.len(), 0);
}

#[test]
fn inline_property_columns_are_counted_from_the_line_start() {
    let props = parse_inline_properties("ab\ncd [k:: v ]");
    assert_eq!(props.len(), 1);
    assert_eq!(props[0].value, "v");
    assert_eq!(props[0].line, 2);
    assert_eq!(props[0].start_col, 3);
    assert_eq!(props[0].end_col, 11);
}

#[test]
fn test_format_then_parse_round_trip() {
    let text = vaultiel::parser::inline_property::format_inline_property("due-date", "2024 Q1");
    let props = vaultiel::parser::inline_property::parse_inline_properties(&text);
    assert_eq!(props.len(), 1);
    assert_eq!(props[0].key, "due-date");
    assert_eq!(props[0].value, "2024 Q1");
    assert_eq!(props[0].line, 1);
    assert_eq!(props[0].start_col, 0);
    assert_eq!(props[0].end_col, "due-date".len() + "2024 Q1".len() + 4);
}
