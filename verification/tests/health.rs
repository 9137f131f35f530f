//! Tests of issue types, summaries and annotations.

use vaultiel::health::{compute_summary, format_github_actions, HealthChecker, Issue, IssueType};

#[test]
fn test_issue_type_from_str() {
    assert_eq!(IssueType::from_str("broken-links"), Some(IssueType::BrokenLinks));
    assert_eq!(IssueType::from_str("orphans"), Some(IssueType::Orphans));
    assert_eq!(IssueType::from_str("invalid"), None);
}

#[test]
fn test_issue_type_display() {
    assert_eq!(IssueType::BrokenLinks.to_string(), "broken-links");
    assert_eq!(IssueType::DuplicateBlockIds.to_string(), "duplicate-block-ids");
}

#[test]
fn test_issue_type_fixable() {
    assert!(IssueType::DuplicateBlockIds.is_fixable());
    assert!(IssueType::MissingFrontmatter.is_fixable());
    assert!(!IssueType::BrokenLinks.is_fixable());
    assert!(!IssueType::Orphans.is_fixable());
}

#[test]
fn test_compute_summary() {
    let issues = vec![
        Issue {
            issue_type: IssueType::BrokenLinks,
            file: "a.md".to_string(),
            line: Some(1),
            message: "test".to_string(),
            target: None,
            fixable: false,
        },
        Issue {
            issue_type: IssueType::BrokenLinks,
            file: "b.md".to_string(),
            line: Some(2),
            message: "test".to_string(),
            target: None,
            fixable: false,
        },
        Issue {
            issue_type: IssueType::MissingFrontmatter,
            file: "c.md".to_string(),
            line: None,
            message: "test".to_string(),
            target: None,
            fixable: true,
        },
    ];

    let summary = compute_summary(&issues);
    assert_eq!(summary.total, 3);
    assert_eq!(summary.by_type.get("broken-links"), Some(&2));
    assert_eq!(summary.by_type.get("missing-frontmatter"), Some(&1));
    assert_eq!(summary.fixable, 1);
}

#[test]
fn test_format_github_actions() {
    let issues = vec![
        Issue {
            issue_type: IssueType::BrokenLinks,
            file: "test.md".to_string(),
            line: Some(10),
            message: "Broken link".to_string(),
            target: None,
            fixable: false,
        },
        Issue {
            issue_type: IssueType::Orphans,
            file: "orphan.md".to_string(),
            line: None,
            message: "No incoming links".to_string(),
            target: None,
            fixable: false,
        },
    ];

    let output = format_github_actions(&issues);
    assert!(output.contains("::error file=test.md,line=10::Broken link"));
    assert!(output.contains("::warning file=orphan.md::No incoming links"));
}

#[test]
fn health_all_types_roundtrip_names() {
    let all = IssueType::all();
    assert_eq!(all.len(), 10);
    for t in all {
        assert_eq!(IssueType::from_str(t.as_str()), Some(t));
    }
}

#[test]
fn health_checker_selection() {
    let c = HealthChecker::new();
    assert!(c.should_check(IssueType::Orphans));
    let c = c.only(vec![IssueType::Orphans, IssueType::EmptyNotes]).ignore(vec![IssueType::EmptyNotes]);
    assert!(c.should_check(IssueType::Orphans));
    assert!(!c.should_check(IssueType::EmptyNotes));
    assert!(!c.should_check(IssueType::BrokenLinks));
    let c = c.glob("daily/*");
    assert_eq!(c.glob_pattern.as_deref(), Some("daily/*"));
}

#[test]
fn notes_to_check_follows_the_glob() {
    let paths = vec!["daily/a.md".to_string(), "notes/b.md".to_string(), "daily/c.md".to_string()];
    let all = HealthChecker::new().notes_to_check(&paths).unwrap();
    assert_eq!(all, paths);
    let daily = HealthChecker::new().glob("daily/*").notes_to_check(&paths).unwrap();
    assert_eq!(daily, vec!["daily/a.md".to_string(), "daily/c.md".to_string()]);
    let bad = HealthChecker::new().glob("[").notes_to_check(&paths);
    assert!(matches!(bad, Err(vaultiel::error::VaultError::GlobPattern(_))));
}
