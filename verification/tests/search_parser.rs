//! Tests of the query tokenizer and parser.

use vaultiel::error::VaultError;
use vaultiel::search::parser::{parse_query, tokenize, Token};
use vaultiel::search::types::{FieldPredicate, PropertyOp, SearchQuery, StringMatcher};


// -- Tokenizer tests --

#[test]
fn test_tokenize_simple_word() {
    let tokens = tokenize("hello").unwrap();
    assert_eq!(tokens, vec![Token::Word("hello".to_string())]);
}

#[test]
fn test_tokenize_quoted_string() {
    let tokens = tokenize("\"hello world\"").unwrap();
    assert_eq!(tokens, vec![Token::QuotedString("hello world".to_string())]);
}

#[test]
fn test_tokenize_regex() {
    let tokens = tokenize("/error\\d+/").unwrap();
    assert_eq!(tokens, vec![Token::RegexLiteral("error\\d+".to_string())]);
}

#[test]
fn test_tokenize_field_prefix() {
    let tokens = tokenize("tag:project").unwrap();
    assert_eq!(
        tokens,
        vec![
            Token::FieldPrefix("tag".to_string()),
            Token::Word("project".to_string()),
        ]
    );
}

#[test]
fn test_tokenize_or_keyword() {
    let tokens = tokenize("a OR b").unwrap();
    assert_eq!(
        tokens,
        vec![
            Token::Word("a".to_string()),
            Token::Or,
            Token::Word("b".to_string()),
        ]
    );
}

#[test]
fn test_tokenize_negation() {
    let tokens = tokenize("-tag:archived").unwrap();
    assert_eq!(
        tokens,
        vec![
            Token::Not,
            Token::FieldPrefix("tag".to_string()),
            Token::Word("archived".to_string()),
        ]
    );
}

#[test]
fn test_tokenize_parens() {
    let tokens = tokenize("(a OR b)").unwrap();
    assert_eq!(
        tokens,
        vec![
            Token::OpenParen,
            Token::Word("a".to_string()),
            Token::Or,
            Token::Word("b".to_string()),
            Token::CloseParen,
        ]
    );
}

#[test]
fn test_tokenize_comparison_ops() {
    let tokens = tokenize("property:due<2024-03-01").unwrap();
    assert_eq!(
        tokens,
        vec![
            Token::FieldPrefix("property".to_string()),
            Token::Word("due".to_string()),
            Token::ComparisonOp("<".to_string()),
            Token::Word("2024-03-01".to_string()),
        ]
    );
}

#[test]
fn test_tokenize_comparison_lte() {
    let tokens = tokenize("property:x<=5").unwrap();
    assert_eq!(
        tokens,
        vec![
            Token::FieldPrefix("property".to_string()),
            Token::Word("x".to_string()),
            Token::ComparisonOp("<=".to_string()),
            Token::Word("5".to_string()),
        ]
    );
}

#[test]
fn test_tokenize_not_eq() {
    let tokens = tokenize("property:status!=done").unwrap();
    assert_eq!(
        tokens,
        vec![
            Token::FieldPrefix("property".to_string()),
            Token::Word("status".to_string()),
            Token::ComparisonOp("!=".to_string()),
            Token::Word("done".to_string()),
        ]
    );
}

#[test]
fn test_tokenize_unknown_word_with_colon_not_field() {
    // "unknown" is not a known field, so "unknown:" should be treated as word
    let tokens = tokenize("unknown:value").unwrap();
    assert_eq!(
        tokens,
        vec![
            // "unknown" is not in KNOWN_FIELDS, so it stays a word
            // and then : is skipped as unknown char, then "value" is a word
            Token::Word("unknown".to_string()),
            Token::Word("value".to_string()),
        ]
    );
}

#[test]
fn test_tokenize_escaped_quote() {
    let tokens = tokenize("\"hello \\\"world\\\"\"").unwrap();
    assert_eq!(
        tokens,
        vec![Token::QuotedString("hello \"world\"".to_string())]
    );
}

// -- Parser tests --

#[test]
fn test_parse_bare_word() {
    let q = parse_query("hello").unwrap();
    match q {
        SearchQuery::Field(FieldPredicate::Content {
            matcher: StringMatcher::Contains { value },
        }) => assert_eq!(value, "hello"),
        _ => panic!("Expected Content Contains, got {:?}", q),
    }
}

#[test]
fn test_parse_quoted_content() {
    let q = parse_query("\"meeting notes\"").unwrap();
    match q {
        SearchQuery::Field(FieldPredicate::Content {
            matcher: StringMatcher::Exact { value },
        }) => assert_eq!(value, "meeting notes"),
        _ => panic!("Expected Content Exact, got {:?}", q),
    }
}

#[test]
fn test_parse_regex_content() {
    let q = parse_query("/error\\d+/").unwrap();
    match q {
        SearchQuery::Field(FieldPredicate::Content {
            matcher: StringMatcher::Regex { pattern },
        }) => assert_eq!(pattern, "error\\d+"),
        _ => panic!("Expected Content Regex, got {:?}", q),
    }
}

#[test]
fn test_parse_implicit_and() {
    let q = parse_query("tag:project path:daily/").unwrap();
    match q {
        SearchQuery::And { children } => {
            assert_eq!(children.len(), 2);
            match &children[0] {
                SearchQuery::Field(FieldPredicate::Tag { value }) => {
                    assert_eq!(value, "project")
                }
                _ => panic!("Expected Tag"),
            }
            match &children[1] {
                SearchQuery::Field(FieldPredicate::Path {
                    matcher: StringMatcher::Contains { value },
                }) => assert_eq!(value, "daily/"),
                _ => panic!("Expected Path Contains"),
            }
        }
        _ => panic!("Expected And, got {:?}", q),
    }
}

#[test]
fn test_parse_or() {
    let q = parse_query("tag:project OR tag:log").unwrap();
    match q {
        SearchQuery::Or { children } => {
            assert_eq!(children.len(), 2);
        }
        _ => panic!("Expected Or"),
    }
}

#[test]
fn test_parse_not() {
    let q = parse_query("-tag:archived").unwrap();
    match q {
        SearchQuery::Not { child } => match *child {
            SearchQuery::Field(FieldPredicate::Tag { value }) => {
                assert_eq!(value, "archived")
            }
            _ => panic!("Expected Tag"),
        },
        _ => panic!("Expected Not"),
    }
}

#[test]
fn test_parse_grouped_or_with_and() {
    let q = parse_query("(tag:project OR tag:log) content:\"meeting\"").unwrap();
    match q {
        SearchQuery::And { children } => {
            assert_eq!(children.len(), 2);
            match &children[0] {
                SearchQuery::Or { children: or_children } => {
                    assert_eq!(or_children.len(), 2);
                }
                _ => panic!("Expected Or as first child"),
            }
        }
        _ => panic!("Expected And"),
    }
}

#[test]
fn test_parse_tag_group() {
    let q = parse_query("tag:(project OR log)").unwrap();
    match q {
        SearchQuery::Or { children } => {
            assert_eq!(children.len(), 2);
            match &children[0] {
                SearchQuery::Field(FieldPredicate::Tag { value }) => {
                    assert_eq!(value, "project")
                }
                _ => panic!("Expected Tag"),
            }
            match &children[1] {
                SearchQuery::Field(FieldPredicate::Tag { value }) => {
                    assert_eq!(value, "log")
                }
                _ => panic!("Expected Tag"),
            }
        }
        _ => panic!("Expected Or"),
    }
}

#[test]
fn test_parse_property_exists() {
    let q = parse_query("property:status").unwrap();
    match q {
        SearchQuery::Field(FieldPredicate::Property { key, op, value }) => {
            assert_eq!(key, "status");
            assert!(matches!(op, PropertyOp::Exists));
            assert!(value.is_none());
        }
        _ => panic!("Expected Property Exists"),
    }
}

#[test]
fn test_parse_property_eq() {
    let q = parse_query("property:status=active").unwrap();
    match q {
        SearchQuery::Field(FieldPredicate::Property { key, op, value }) => {
            assert_eq!(key, "status");
            assert!(matches!(op, PropertyOp::Eq));
            assert_eq!(value.as_deref(), Some("active"));
        }
        _ => panic!("Expected Property Eq"),
    }
}

#[test]
fn test_parse_property_lt() {
    let q = parse_query("property:due<2024-03-01").unwrap();
    match q {
        SearchQuery::Field(FieldPredicate::Property { key, op, value }) => {
            assert_eq!(key, "due");
            assert!(matches!(op, PropertyOp::Lt));
            assert_eq!(value.as_deref(), Some("2024-03-01"));
        }
        _ => panic!("Expected Property Lt"),
    }
}

#[test]
fn test_parse_property_gte() {
    let q = parse_query("property:priority>=5").unwrap();
    match q {
        SearchQuery::Field(FieldPredicate::Property { key, op, value }) => {
            assert_eq!(key, "priority");
            assert!(matches!(op, PropertyOp::Gte));
            assert_eq!(value.as_deref(), Some("5"));
        }
        _ => panic!("Expected Property Gte"),
    }
}

#[test]
fn test_parse_line_scope() {
    let q = parse_query("line:(TODO deadline)").unwrap();
    match q {
        SearchQuery::Field(FieldPredicate::Line { query }) => match *query {
            SearchQuery::And { children } => assert_eq!(children.len(), 2),
            _ => panic!("Expected And inside line scope"),
        },
        _ => panic!("Expected Line"),
    }
}

#[test]
fn test_parse_section_scope() {
    let q = parse_query("section:(error handling)").unwrap();
    match q {
        SearchQuery::Field(FieldPredicate::Section { query }) => match *query {
            SearchQuery::And { children } => assert_eq!(children.len(), 2),
            _ => panic!("Expected And inside section scope"),
        },
        _ => panic!("Expected Section"),
    }
}

#[test]
fn test_parse_complex_query() {
    let q =
        parse_query("(tag:project OR tag:log) content:\"meeting\" -tag:archived").unwrap();
    match q {
        SearchQuery::And { children } => {
            assert_eq!(children.len(), 3);
            assert!(matches!(&children[0], SearchQuery::Or { .. }));
            assert!(matches!(
                &children[1],
                SearchQuery::Field(FieldPredicate::Content { .. })
            ));
            assert!(matches!(&children[2], SearchQuery::Not { .. }));
        }
        _ => panic!("Expected And"),
    }
}

#[test]
fn test_parse_empty_query_error() {
    let err = parse_query("").unwrap_err();
    match err {
        VaultError::SearchError(msg) => assert!(msg.contains("Empty")),
        _ => panic!("Expected SearchError"),
    }
}

#[test]
fn test_parse_unbalanced_paren() {
    let err = parse_query("(tag:project").unwrap_err();
    assert!(matches!(err, VaultError::SearchError(_)));
}

#[test]
fn test_parse_filename_field() {
    let q = parse_query("filename:meeting").unwrap();
    match q {
        SearchQuery::Field(FieldPredicate::Filename {
            matcher: StringMatcher::Contains { value },
        }) => assert_eq!(value, "meeting"),
        _ => panic!("Expected Filename Contains"),
    }
}

#[test]
fn test_parse_path_with_quoted() {
    let q = parse_query("path:\"daily/2024\"").unwrap();
    match q {
        SearchQuery::Field(FieldPredicate::Path {
            matcher: StringMatcher::Exact { value },
        }) => assert_eq!(value, "daily/2024"),
        _ => panic!("Expected Path Exact"),
    }
}

#[test]
fn test_parse_section_with_simple_value() {
    let q = parse_query("section:\"error handling\"").unwrap();
    match q {
        SearchQuery::Field(FieldPredicate::Section { query }) => match *query {
            SearchQuery::Field(FieldPredicate::Content {
                matcher: StringMatcher::Exact { value },
            }) => assert_eq!(value, "error handling"),
            _ => panic!("Expected Content Exact inside section"),
        },
        _ => panic!("Expected Section"),
    }
}

#[test]
fn test_parse_multiple_negations() {
    let q = parse_query("-tag:draft -tag:archived").unwrap();
    match q {
        SearchQuery::And { children } => {
            assert_eq!(children.len(), 2);
            assert!(matches!(&children[0], SearchQuery::Not { .. }));
            assert!(matches!(&children[1], SearchQuery::Not { .. }));
        }
        _ => panic!("Expected And"),
    }
}

#[test]
fn test_parse_property_noteq() {
    let q = parse_query("property:status!=done").unwrap();
    match q {
        SearchQuery::Field(FieldPredicate::Property { key, op, value }) => {
            assert_eq!(key, "status");
            assert!(matches!(op, PropertyOp::NotEq));
            assert_eq!(value.as_deref(), Some("done"));
        }
        _ => panic!("Expected Property NotEq"),
    }
}
