//! Tests of the search command's hit rules and filters.

use vaultiel::cli::search::{extract_match_context, match_context_defined, 
    content_hit, matches_frontmatter_filter, passes_frontmatter_filters, passes_tag_filters, search_hit,
    tag_matches, SearchMode,
};

fn yaml(text: &str) -> serde_yaml::Value {
    serde_yaml::from_str(text).unwrap()
}

fn strings(v: &[&str]) -> Vec<String> {
    v.iter().map(|s| s.to_string()).collect()
}

#[test]
fn test_subsequence_hit() {
    assert_eq!(search_hit(SearchMode::Subsequence, "prj", "Project Notes", "a/Project Notes.md"), Ok(true));
    assert_eq!(search_hit(SearchMode::Subsequence, "jrp", "Project", "Project.md"), Ok(false));
    assert_eq!(search_hit(SearchMode::Subsequence, "", "", "x.md"), Ok(true));
}

#[test]
fn test_fuzzy_hit_shares_a_character() {
    assert_eq!(search_hit(SearchMode::Fuzzy, "xyz", "zebra", "zebra.md"), Ok(true));
    assert_eq!(search_hit(SearchMode::Fuzzy, "qqq", "abc", "abc.md"), Ok(false));
}

#[test]
fn test_exact_hit_ignores_case() {
    assert_eq!(search_hit(SearchMode::Exact, "NOTE", "my note", "my note.md"), Ok(true));
    assert_eq!(search_hit(SearchMode::Exact, "notes", "my note", "my note.md"), Ok(false));
}

#[test]
fn test_regex_hit_on_name_or_path() {
    assert_eq!(search_hit(SearchMode::Regex, "^da", "daily", "journal/daily.md"), Ok(true));
    assert_eq!(search_hit(SearchMode::Regex, "^journal/", "daily", "journal/daily.md"), Ok(true));
    assert_eq!(search_hit(SearchMode::Regex, "^x", "daily", "journal/daily.md"), Ok(false));
    assert!(search_hit(SearchMode::Regex, "(", "daily", "daily.md").is_err());
}

#[test]
fn test_content_hit() {
    assert_eq!(content_hit(SearchMode::Exact, "rust", "Learning Rust today"), Ok(true));
    assert_eq!(content_hit(SearchMode::Regex, "to+day", "Learning Rust toooday"), Ok(true));
    assert_eq!(content_hit(SearchMode::Exact, "go", "Learning Rust"), Ok(false));
}

#[test]
fn test_tag_matches_nested_and_case() {
    let tags = strings(&["#Project/Alpha", "#rust"]);
    assert!(tag_matches(&tags, "project"));
    assert!(tag_matches(&tags, "#project/alpha"));
    assert!(tag_matches(&tags, "RUST"));
    assert!(!tag_matches(&tags, "proj"));
    assert!(!tag_matches(&tags, "alpha"));
}

#[test]
fn test_tag_filters() {
    let tags = strings(&["#a", "#b/c"]);
    assert!(passes_tag_filters(&tags, &strings(&["a", "b"]), &vec![], &vec![]));
    assert!(!passes_tag_filters(&tags, &strings(&["a", "d"]), &vec![], &vec![]));
    assert!(passes_tag_filters(&tags, &vec![], &strings(&["x", "b"]), &vec![]));
    assert!(!passes_tag_filters(&tags, &vec![], &strings(&["x", "y"]), &vec![]));
    assert!(!passes_tag_filters(&tags, &vec![], &vec![], &strings(&["b"])));
    assert!(passes_tag_filters(&tags, &vec![], &vec![], &strings(&["z"])));
}

#[test]
fn test_frontmatter_filter_forms() {
    let fm = yaml("status: done\ncount: 3\ndraft: false\ntags:\n  - a\n  - \"[[people/bob|Bob]]\"\n");
    assert!(matches_frontmatter_filter("status=done", &fm));
    assert!(!matches_frontmatter_filter("status=open", &fm));
    assert!(matches_frontmatter_filter("status!=open", &fm));
    assert!(matches_frontmatter_filter("missing!=x", &fm));
    assert!(matches_frontmatter_filter("count=3", &fm));
    assert!(matches_frontmatter_filter("draft=false", &fm));
    assert!(matches_frontmatter_filter("tags~=a", &fm));
    assert!(matches_frontmatter_filter("tags~=Bob", &fm));
    assert!(matches_frontmatter_filter("tags~=people/bob", &fm));
    assert!(!matches_frontmatter_filter("tags~=bob", &fm));
    assert!(matches_frontmatter_filter("status~=done", &fm));
    assert!(matches_frontmatter_filter("status", &fm));
    assert!(!matches_frontmatter_filter("missing", &fm));
}

#[test]
fn test_frontmatter_filter_substring_of_link() {
    let fm = yaml("related:\n  - \"[[projects/alpha]]\"\n");
    assert!(matches_frontmatter_filter("related~=alpha", &fm));
    assert!(matches_frontmatter_filter("related~=projects/alpha", &fm));
}

#[test]
fn test_frontmatter_filters() {
    let fm = yaml("a: 1\nb: x\n");
    assert!(passes_frontmatter_filters(&vec![], None));
    assert!(!passes_frontmatter_filters(&strings(&["a=1"]), None));
    assert!(passes_frontmatter_filters(&strings(&["a=1", "b=x"]), Some(&fm)));
    assert!(!passes_frontmatter_filters(&strings(&["a=1", "b=y"]), Some(&fm)));
}

#[test]
fn match_context_widens_to_whitespace() {
    let c = "The quick brown fox jumps over the lazy dog and keeps running far away from the hunter in the woods";
    assert!(match_context_defined(c, "LAZY"));
    assert_eq!(
        extract_match_context(c, "LAZY"),
        Some("...quick brown fox jumps over the lazy dog and keeps running far away...".to_string())
    );
}

#[test]
fn match_context_short_and_missing() {
    assert_eq!(extract_match_context("short text", "TEXT"), Some("short text".to_string()));
    assert_eq!(extract_match_context("short text", "missing"), None);
}

#[test]
fn match_context_joins_lines() {
    let c = "line one\nline two has the Needle here\nline three goes on and on and on and on";
    assert_eq!(
        extract_match_context(c, "needle"),
        Some("line one line two has the Needle here line three goes on and on...".to_string())
    );
}

#[test]
fn match_context_undefined_inside_a_character() {
    // Thirty bytes before the match falls inside a two-byte character.
    let c = format!("{}{}", "é".repeat(20), "x".repeat(5) + "needle");
    assert!(!match_context_defined(&c, "needle"));
}
