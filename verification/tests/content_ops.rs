//! Tests of section and line replacement, line ranges and section reading.

use vaultiel::cli::content::{get_section, replace_block};
use vaultiel::cli::content::{parse_line_range, parse_usize, replace_lines, replace_section, section_text};
use vaultiel::parser::heading::parse_headings;

#[test]
fn replace_section_keeps_heading_and_following_sections() {
    let content = "# A\nold\n## B\nsub\n# C\nkeep\n";
    let r = replace_section(content, "## a", "new text").unwrap();
    assert_eq!(r, "# A\nnew text\n# C\nkeep\n");
}

#[test]
fn replace_section_with_heading_in_replacement() {
    let content = "intro\n# A\nold";
    let r = replace_section(content, "A", "# A2\nbody").unwrap();
    assert_eq!(r, "intro\n# A2\nbody");
}

#[test]
fn replace_section_missing_heading() {
    let err = replace_section("# A\ntext", "Nope", "x").unwrap_err();
    assert_eq!(err.message(), "Section not found: Nope");
}

#[test]
fn line_ranges() {
    assert_eq!(parse_line_range("2", 5).unwrap(), (1, 2));
    assert_eq!(parse_line_range(" 2-4 ", 5).unwrap(), (1, 4));
    assert_eq!(parse_line_range("3-", 5).unwrap(), (2, 5));
    assert_eq!(parse_line_range("-2", 5).unwrap(), (0, 2));
    assert_eq!(parse_line_range("2-9", 5).unwrap(), (1, 5));
    assert!(parse_line_range("6", 5).is_err());
    assert!(parse_line_range("4-2", 5).is_err());
    assert!(parse_line_range("x", 5).is_err());
}

#[test]
fn usize_parsing_follows_std() {
    let p = |s: &str| parse_usize(&s.chars().collect());
    assert_eq!(p("42"), Some(42));
    assert_eq!(p("+7"), Some(7));
    assert_eq!(p("+"), None);
    assert_eq!(p(""), None);
    assert_eq!(p("-1"), None);
    assert_eq!(p("99999999999999999999999"), None);
}

#[test]
fn replace_lines_replaces_the_range() {
    let r = replace_lines("a\nb\nc\nd\n", "2-3", "X  ").unwrap();
    assert_eq!(r, "a\nX\nd\n");
    let r = replace_lines("a\nb", "2", "Y").unwrap();
    assert_eq!(r, "a\nY");
    let err = replace_lines("a", "3", "Y").unwrap_err();
    assert_eq!(err.message(), "Invalid line range: 3");
}

#[test]
fn section_text_with_and_without_subheadings() {
    let content = "# A\none\n## B\ntwo\n# C\nthree";
    let hs = parse_headings(content);
    assert_eq!(section_text(content, &hs[0], true, false), "# A\none\n## B\ntwo");
    assert_eq!(section_text(content, &hs[0], false, false), "# A\none");
    assert_eq!(section_text(content, &hs[0], false, true), "one");
    assert_eq!(section_text(content, &hs[2], true, true), "three");
}

#[test]
fn test_get_section_by_text_and_slug() {
    let content = "# A\ntext a\n## B\ntext b\n# C\nc";
    assert_eq!(get_section("n.md", content, "## b", false, false, false).unwrap(), "## B\ntext b");
    assert_eq!(get_section("n.md", content, "a", true, true, false).unwrap(), "# A\ntext a\n## B\ntext b");
    assert_eq!(get_section("n.md", content, "A", false, false, true).unwrap(), "text a");
    assert!(get_section("n.md", content, "Z", false, false, false).is_err());
}

#[test]
fn test_replace_block() {
    let content = "Intro\nPara one ^abc\nOther\n";
    assert_eq!(replace_block(content, "abc", "New para  ").unwrap(), "Intro\nNew para\nOther\n");
    assert_eq!(replace_block("x ^a.b  \ny", "a.b", "z").unwrap(), "z\ny");
    assert!(replace_block(content, "zzz", "New").is_err());
    assert!(replace_block("x ^aXb", "a.b", "z").is_err());
}
