//! Tests of search query evaluation.

use vaultiel::note::Note;
use vaultiel::search::matcher::{compare_values, evaluate_note, NumericOrder};
use vaultiel::search::types::{FieldPredicate, PropertyOp, SearchQuery, StringMatcher};

fn float_order(a: &str, b: &str) -> Option<NumericOrder> {
    match (a.parse::<f64>(), b.parse::<f64>()) {
        (Ok(x), Ok(y)) => Some(NumericOrder {
            less: x < y,
            greater: x > y,
            less_eq: x <= y,
            greater_eq: x >= y,
            close: (x - y).abs() < f64::EPSILON,
        }),
        _ => None,
    }
}

fn make_note(content: &str) -> Note {
    Note::new("test/note.md", content)
}

fn make_note_at(path: &str, content: &str) -> Note {
    Note::new(path, content)
}

// -- Path matching --

#[test]
fn test_path_contains() {
    let note = make_note_at("daily/2024-01-15.md", "content");
    let q = SearchQuery::Field(FieldPredicate::Path {
        matcher: StringMatcher::Contains {
            value: "daily/".to_string(),
        },
    });
    let matches = evaluate_note(&note, &q, &float_order);
    assert_eq!(matches.len(), 1);
    assert_eq!(matches[0].field, "path");
}

#[test]
fn test_path_no_match() {
    let note = make_note_at("projects/note.md", "content");
    let q = SearchQuery::Field(FieldPredicate::Path {
        matcher: StringMatcher::Contains {
            value: "daily/".to_string(),
        },
    });
    let matches = evaluate_note(&note, &q, &float_order);
    assert!(matches.is_empty());
}

// -- Filename matching --

#[test]
fn test_filename_contains() {
    let note = make_note_at("folder/Meeting Notes.md", "content");
    let q = SearchQuery::Field(FieldPredicate::Filename {
        matcher: StringMatcher::Contains {
            value: "Meeting".to_string(),
        },
    });
    let matches = evaluate_note(&note, &q, &float_order);
    assert_eq!(matches.len(), 1);
}

// -- Tag matching --

#[test]
fn test_tag_inline() {
    let note = make_note("Some text #project more text");
    let q = SearchQuery::Field(FieldPredicate::Tag {
        value: "project".to_string(),
    });
    let matches = evaluate_note(&note, &q, &float_order);
    assert_eq!(matches.len(), 1);
    assert_eq!(matches[0].field, "tag");
}

#[test]
fn test_tag_with_hash() {
    let note = make_note("Some text #project more text");
    let q = SearchQuery::Field(FieldPredicate::Tag {
        value: "#project".to_string(),
    });
    let matches = evaluate_note(&note, &q, &float_order);
    assert_eq!(matches.len(), 1);
}

#[test]
fn test_tag_case_insensitive() {
    let note = make_note("Some text #Project more text");
    let q = SearchQuery::Field(FieldPredicate::Tag {
        value: "project".to_string(),
    });
    let matches = evaluate_note(&note, &q, &float_order);
    assert_eq!(matches.len(), 1);
}

#[test]
fn test_tag_frontmatter() {
    let note = make_note("---\ntags:\n  - project\n  - draft\n---\nBody text");
    let q = SearchQuery::Field(FieldPredicate::Tag {
        value: "project".to_string(),
    });
    let matches = evaluate_note(&note, &q, &float_order);
    assert_eq!(matches.len(), 1);
}

#[test]
fn test_tag_no_match() {
    let note = make_note("Some text without tags");
    let q = SearchQuery::Field(FieldPredicate::Tag {
        value: "project".to_string(),
    });
    let matches = evaluate_note(&note, &q, &float_order);
    assert!(matches.is_empty());
}

// -- Content matching --

#[test]
fn test_content_contains() {
    let note = make_note("First line\nSecond line with meeting\nThird line");
    let q = SearchQuery::Field(FieldPredicate::Content {
        matcher: StringMatcher::Contains {
            value: "meeting".to_string(),
        },
    });
    let matches = evaluate_note(&note, &q, &float_order);
    assert_eq!(matches.len(), 1);
    assert_eq!(matches[0].line, Some(2));
}

#[test]
fn test_content_case_insensitive() {
    let note = make_note("Hello WORLD");
    let q = SearchQuery::Field(FieldPredicate::Content {
        matcher: StringMatcher::Contains {
            value: "hello".to_string(),
        },
    });
    let matches = evaluate_note(&note, &q, &float_order);
    assert_eq!(matches.len(), 1);
}

#[test]
fn test_content_exact() {
    let note = make_note("First line\nexact match line\nThird");
    let q = SearchQuery::Field(FieldPredicate::Content {
        matcher: StringMatcher::Exact {
            value: "exact match line".to_string(),
        },
    });
    let matches = evaluate_note(&note, &q, &float_order);
    assert_eq!(matches.len(), 1);
}

#[test]
fn test_content_regex() {
    let note = make_note("error123 happened\nerror456 also");
    let q = SearchQuery::Field(FieldPredicate::Content {
        matcher: StringMatcher::Regex {
            pattern: "error\\d+".to_string(),
        },
    });
    let matches = evaluate_note(&note, &q, &float_order);
    assert_eq!(matches.len(), 2);
}

#[test]
fn test_content_with_frontmatter() {
    let note = make_note("---\ntitle: Test\n---\nBody with keyword");
    let q = SearchQuery::Field(FieldPredicate::Content {
        matcher: StringMatcher::Contains {
            value: "keyword".to_string(),
        },
    });
    let matches = evaluate_note(&note, &q, &float_order);
    assert_eq!(matches.len(), 1);
    assert_eq!(matches[0].line, Some(4));
}

// -- Section matching --

#[test]
fn test_section_match() {
    let note = make_note("# Introduction\nGeneral text\n# Error Handling\nFix error123 here\nMore error info");
    let sub_query = SearchQuery::Field(FieldPredicate::Content {
        matcher: StringMatcher::Contains {
            value: "error".to_string(),
        },
    });
    let q = SearchQuery::Field(FieldPredicate::Section {
        query: Box::new(sub_query),
    });
    let matches = evaluate_note(&note, &q, &float_order);
    assert!(!matches.is_empty());
}

#[test]
fn test_section_no_headings() {
    let note = make_note("Just a note\nwith some content\nand keywords");
    let sub_query = SearchQuery::Field(FieldPredicate::Content {
        matcher: StringMatcher::Contains {
            value: "keywords".to_string(),
        },
    });
    let q = SearchQuery::Field(FieldPredicate::Section {
        query: Box::new(sub_query),
    });
    let matches = evaluate_note(&note, &q, &float_order);
    assert!(!matches.is_empty());
}

// -- Line matching --

#[test]
fn test_line_co_occurrence() {
    let note = make_note("TODO: fix bug\nDone: fix other thing\nTODO deadline: tomorrow");
    let sub_query = SearchQuery::And {
        children: vec![
            SearchQuery::Field(FieldPredicate::Content {
                matcher: StringMatcher::Contains {
                    value: "TODO".to_string(),
                },
            }),
            SearchQuery::Field(FieldPredicate::Content {
                matcher: StringMatcher::Contains {
                    value: "deadline".to_string(),
                },
            }),
        ],
    };
    let q = SearchQuery::Field(FieldPredicate::Line {
        query: Box::new(sub_query),
    });
    let matches = evaluate_note(&note, &q, &float_order);
    assert!(!matches.is_empty());
    // Should match line 3 (the one with both TODO and deadline)
    assert!(matches.iter().any(|m| m.line == Some(3)));
}

#[test]
fn test_line_no_co_occurrence() {
    let note = make_note("TODO: fix bug\ndeadline: tomorrow");
    let sub_query = SearchQuery::And {
        children: vec![
            SearchQuery::Field(FieldPredicate::Content {
                matcher: StringMatcher::Contains {
                    value: "TODO".to_string(),
                },
            }),
            SearchQuery::Field(FieldPredicate::Content {
                matcher: StringMatcher::Contains {
                    value: "deadline".to_string(),
                },
            }),
        ],
    };
    let q = SearchQuery::Field(FieldPredicate::Line {
        query: Box::new(sub_query),
    });
    let matches = evaluate_note(&note, &q, &float_order);
    assert!(matches.is_empty());
}

// -- Property matching --

#[test]
fn test_property_exists() {
    let note = make_note("---\nstatus: active\n---\nBody");
    let q = SearchQuery::Field(FieldPredicate::Property {
        key: "status".to_string(),
        op: PropertyOp::Exists,
        value: None,
    });
    let matches = evaluate_note(&note, &q, &float_order);
    assert_eq!(matches.len(), 1);
    assert_eq!(matches[0].field, "property:status");
}

#[test]
fn test_property_eq() {
    let note = make_note("---\nstatus: active\n---\nBody");
    let q = SearchQuery::Field(FieldPredicate::Property {
        key: "status".to_string(),
        op: PropertyOp::Eq,
        value: Some("active".to_string()),
    });
    let matches = evaluate_note(&note, &q, &float_order);
    assert_eq!(matches.len(), 1);
}

#[test]
fn test_property_eq_no_match() {
    let note = make_note("---\nstatus: draft\n---\nBody");
    let q = SearchQuery::Field(FieldPredicate::Property {
        key: "status".to_string(),
        op: PropertyOp::Eq,
        value: Some("active".to_string()),
    });
    let matches = evaluate_note(&note, &q, &float_order);
    assert!(matches.is_empty());
}

#[test]
fn test_property_numeric_comparison() {
    let note = make_note("---\npriority: 5\n---\nBody");
    let q = SearchQuery::Field(FieldPredicate::Property {
        key: "priority".to_string(),
        op: PropertyOp::Gte,
        value: Some("3".to_string()),
    });
    let matches = evaluate_note(&note, &q, &float_order);
    assert_eq!(matches.len(), 1);
}

#[test]
fn test_property_date_comparison() {
    let note = make_note("---\ndue: 2024-02-15\n---\nBody");
    let q = SearchQuery::Field(FieldPredicate::Property {
        key: "due".to_string(),
        op: PropertyOp::Lt,
        value: Some("2024-03-01".to_string()),
    });
    let matches = evaluate_note(&note, &q, &float_order);
    assert_eq!(matches.len(), 1);
}

#[test]
fn test_property_inline() {
    let note = make_note("Body with [status::active] inline property");
    let q = SearchQuery::Field(FieldPredicate::Property {
        key: "status".to_string(),
        op: PropertyOp::Eq,
        value: Some("active".to_string()),
    });
    let matches = evaluate_note(&note, &q, &float_order);
    assert_eq!(matches.len(), 1);
}

#[test]
fn test_property_not_exists() {
    let note = make_note("---\ntitle: Test\n---\nBody");
    let q = SearchQuery::Field(FieldPredicate::Property {
        key: "status".to_string(),
        op: PropertyOp::Exists,
        value: None,
    });
    let matches = evaluate_note(&note, &q, &float_order);
    assert!(matches.is_empty());
}

// -- Boolean logic --

#[test]
fn test_and_both_match() {
    let note = make_note("Some #project text with meeting notes");
    let q = SearchQuery::And {
        children: vec![
            SearchQuery::Field(FieldPredicate::Tag {
                value: "project".to_string(),
            }),
            SearchQuery::Field(FieldPredicate::Content {
                matcher: StringMatcher::Contains {
                    value: "meeting".to_string(),
                },
            }),
        ],
    };
    let matches = evaluate_note(&note, &q, &float_order);
    assert!(!matches.is_empty());
}

#[test]
fn test_and_one_fails() {
    let note = make_note("Some #project text");
    let q = SearchQuery::And {
        children: vec![
            SearchQuery::Field(FieldPredicate::Tag {
                value: "project".to_string(),
            }),
            SearchQuery::Field(FieldPredicate::Content {
                matcher: StringMatcher::Contains {
                    value: "meeting".to_string(),
                },
            }),
        ],
    };
    let matches = evaluate_note(&note, &q, &float_order);
    assert!(matches.is_empty());
}

#[test]
fn test_or_first_matches() {
    let note = make_note("Some #project text");
    let q = SearchQuery::Or {
        children: vec![
            SearchQuery::Field(FieldPredicate::Tag {
                value: "project".to_string(),
            }),
            SearchQuery::Field(FieldPredicate::Tag {
                value: "log".to_string(),
            }),
        ],
    };
    let matches = evaluate_note(&note, &q, &float_order);
    assert!(!matches.is_empty());
}

#[test]
fn test_not_match() {
    let note = make_note("No tags here");
    let q = SearchQuery::Not {
        child: Box::new(SearchQuery::Field(FieldPredicate::Tag {
            value: "archived".to_string(),
        })),
    };
    let matches = evaluate_note(&note, &q, &float_order);
    assert!(!matches.is_empty());
}

#[test]
fn test_not_no_match() {
    let note = make_note("Has #archived tag");
    let q = SearchQuery::Not {
        child: Box::new(SearchQuery::Field(FieldPredicate::Tag {
            value: "archived".to_string(),
        })),
    };
    let matches = evaluate_note(&note, &q, &float_order);
    assert!(matches.is_empty());
}

// -- Compare values --

#[test]
fn test_compare_numeric() {
    assert!(compare_values("10", "5", &PropertyOp::Gt, float_order("10", "5")));
    assert!(!compare_values("3", "5", &PropertyOp::Gt, float_order("3", "5")));
    assert!(compare_values("5", "5", &PropertyOp::Eq, float_order("5", "5")));
}

#[test]
fn test_compare_dates() {
    assert!(compare_values("2024-01-15", "2024-03-01", &PropertyOp::Lt, float_order("2024-01-15", "2024-03-01")));
    assert!(compare_values("2024-03-01", "2024-01-15", &PropertyOp::Gt, float_order("2024-03-01", "2024-01-15")));
}

#[test]
fn test_compare_strings() {
    assert!(compare_values("active", "active", &PropertyOp::Eq, float_order("active", "active")));
    assert!(!compare_values("active", "done", &PropertyOp::Eq, float_order("active", "done")));
}

#[test]
fn invalid_regex_gives_no_match() {
    let note = make_note("anything");
    let q = SearchQuery::Field(FieldPredicate::Content {
        matcher: StringMatcher::Regex { pattern: "(".to_string() },
    });
    assert!(evaluate_note(&note, &q, &float_order).is_empty());
}

#[test]
fn section_matches_are_renamed_and_moved_to_note_lines() {
    let note = make_note("---
a: 1
---
intro
# H
find me");
    let q = SearchQuery::Field(FieldPredicate::Section {
        query: Box::new(SearchQuery::Field(FieldPredicate::Content {
            matcher: StringMatcher::Contains { value: "find".to_string() },
        })),
    });
    let matches = evaluate_note(&note, &q, &float_order);
    assert_eq!(matches.len(), 1);
    assert_eq!(matches[0].field, "section:content");
    assert_eq!(matches[0].line, Some(6));
    assert_eq!(matches[0].text, Some("find me".to_string()));
}

#[test]
fn line_matches_are_renamed() {
    let note = make_note("a
b #x");
    let q = SearchQuery::Field(FieldPredicate::Line {
        query: Box::new(SearchQuery::Field(FieldPredicate::Tag { value: "x".to_string() })),
    });
    let matches = evaluate_note(&note, &q, &float_order);
    assert_eq!(matches.len(), 1);
    assert_eq!(matches[0].field, "line:tag");
    assert_eq!(matches[0].line, Some(2));
}

#[test]
fn and_collects_matches_of_all_children() {
    let note = make_note("x meeting
y meeting");
    let q = SearchQuery::And {
        children: vec![
            SearchQuery::Field(FieldPredicate::Content {
                matcher: StringMatcher::Contains { value: "meeting".to_string() },
            }),
            SearchQuery::Field(FieldPredicate::Path {
                matcher: StringMatcher::Contains { value: "note".to_string() },
            }),
        ],
    };
    let matches = evaluate_note(&note, &q, &float_order);
    assert_eq!(matches.len(), 3);
    assert_eq!(matches[2].field, "path");
}

#[test]
fn string_comparison_ignores_ascii_case_for_equality() {
    assert!(compare_values("Active", "active", &PropertyOp::Eq, None));
    assert!(compare_values("abc", "abd", &PropertyOp::Lte, None));
    assert!(!compare_values("abd", "abc", &PropertyOp::Lte, None));
}

fn path_has(v: &str) -> SearchQuery {
    SearchQuery::Field(FieldPredicate::Path { matcher: StringMatcher::Contains { value: v.to_string() } })
}

#[test]
fn test_and_concatenates_child_matches() {
    let note = make_note_at("daily/2024.md", "x #work");
    let q = SearchQuery::And {
        children: vec![path_has("daily"), SearchQuery::Field(FieldPredicate::Tag { value: "work".to_string() })],
    };
    let matches = evaluate_note(&note, &q, &float_order);
    assert_eq!(matches.len(), 2);
    assert_eq!(matches[0].field, "path");
    assert_eq!(matches[1].field, "tag");
}

#[test]
fn test_or_gives_first_matching_child() {
    let note = make_note_at("daily/2024.md", "x #work");
    let q = SearchQuery::Or {
        children: vec![
            path_has("projects"),
            SearchQuery::Field(FieldPredicate::Tag { value: "work".to_string() }),
            path_has("daily"),
        ],
    };
    let matches = evaluate_note(&note, &q, &float_order);
    assert_eq!(matches.len(), 1);
    assert_eq!(matches[0].field, "tag");
    let none = SearchQuery::Or { children: vec![path_has("projects"), path_has("archive")] };
    assert!(evaluate_note(&note, &none, &float_order).is_empty());
}
