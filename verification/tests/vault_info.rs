//! Tests of vault statistics and lint outcomes.

use vaultiel::cli::links::get_embeds;
use vaultiel::cli::info::{detailed_stats, vault_counts};
use vaultiel::cli::lint::{issue_types, lint_outcome};
use vaultiel::config::TaskConfig;
use vaultiel::graph::link_graph::{LinkGraph, NoteSource};
use vaultiel::health::{Issue, IssueType};

fn source(path: &str, content: &str) -> NoteSource {
    NoteSource { path: path.to_string(), loaded: Ok(content.to_string()) }
}

fn issue(t: IssueType, file: &str, line: Option<usize>) -> Issue {
    Issue { issue_type: t, file: file.to_string(), line, message: "m".to_string(), target: None, fixable: true }
}

#[test]
fn test_vault_counts() {
    let notes = vec![
        source("a.md", "Links to [[b]] and [[c]] #x #y\n- [ ] task one\n- [x] task two"),
        source("b.md", "Back to [[a]] #x"),
        source("c.md", "Nothing here"),
        NoteSource { path: "d.md".to_string(), loaded: Err("unreadable".to_string()) },
    ];
    let graph = LinkGraph::build(&notes);
    let broken = vec![issue(IssueType::BrokenLinks, "a.md", Some(1))];
    let counts = vault_counts(&notes, &graph, &broken, &TaskConfig::empty());
    assert_eq!(counts.note_count, 4);
    assert_eq!(counts.link_count, 3);
    assert_eq!(counts.tag_count, 2);
    assert_eq!(counts.task_count, 2);
    assert_eq!(counts.orphan_count, 1);
    assert_eq!(counts.broken_link_count, 1);
}

#[test]
fn test_issue_types_skip_unknown() {
    let names = vec!["orphans".to_string(), "nonsense".to_string(), "broken-links".to_string()];
    assert_eq!(issue_types(&names), vec![IssueType::Orphans, IssueType::BrokenLinks]);
}

#[test]
fn test_lint_outcome() {
    let issues = vec![
        issue(IssueType::MissingFrontmatter, "a.md", None),
        issue(IssueType::BrokenLinks, "b.md", Some(3)),
        issue(IssueType::MissingFrontmatter, "a.md", None),
    ];
    let fixed = vec![true, false, false];
    let (remaining, fails) = lint_outcome(&issues, &fixed, &[IssueType::BrokenLinks]);
    assert_eq!(remaining.len(), 1);
    assert_eq!(remaining[0].file, "b.md");
    assert!(fails);
    let (_, fails) = lint_outcome(&issues, &fixed, &[IssueType::Orphans]);
    assert!(!fails);
    let (remaining, fails) = lint_outcome(&issues, &[false, false, false], &[]);
    assert_eq!(remaining.len(), 3);
    assert!(!fails);
}

#[test]
fn test_run_reports_only_checked_types() {
    let notes = vec![source("a.md", "[[missing]]"), source("b.md", "")];
    let graph = LinkGraph::build(&notes);
    let checker = vaultiel::health::HealthChecker::new().only(vec![IssueType::BrokenLinks, IssueType::Orphans]);
    let issues = checker.run(&notes, &notes, &graph);
    assert!(!issues.is_empty());
    assert!(issues.iter().all(|i| i.issue_type == IssueType::BrokenLinks || i.issue_type == IssueType::Orphans));
    let ignoring = vaultiel::health::HealthChecker::new().ignore(vec![IssueType::Orphans]);
    let issues = ignoring.run(&notes, &notes, &graph);
    assert!(issues.iter().all(|i| i.issue_type != IssueType::Orphans));
}

#[test]
fn test_get_embeds() {
    let notes = vec![
        source("a.md", "![[pic.png|300x200]] ![[b#Part]] [[b]] ![[song.mp3|big]]"),
        source("b.md", "# Part"),
    ];
    let graph = LinkGraph::build(&notes);
    let out = graph.get_outgoing("a.md");
    let all = get_embeds(&out, false, false);
    assert_eq!(all.len(), 3);
    assert_eq!(all[0].embed_type, "image");
    assert_eq!(all[0].size.as_deref(), Some("300x200"));
    assert_eq!(all[1].embed_type, "note");
    assert_eq!(all[1].heading.as_deref(), Some("Part"));
    assert_eq!(all[2].embed_type, "audio");
    assert!(all[2].size.is_none());
    assert_eq!(get_embeds(&out, true, false).len(), 2);
    assert_eq!(get_embeds(&out, false, true).len(), 1);
}

#[test]
fn test_notes_matching() {
    let notes = vec!["daily/a.md".to_string(), "projects/b.md".to_string(), "daily/c.md".to_string()];
    let m = vaultiel::cli::list::notes_matching(&notes, "daily/*.md").unwrap();
    assert_eq!(m, vec!["daily/a.md".to_string(), "daily/c.md".to_string()]);
    assert!(vaultiel::cli::list::notes_matching(&notes, "[").is_err());
}

#[test]
fn detailed_stats_counts_folders_tags_and_links() {
    let notes = vec![
        source("daily/a.md", "Links to [[b]] and [[c]] #x #y #x"),
        source("daily/b.md", "Back to [[a]] and [[c]] #x"),
        source("c.md", "Nothing here #y"),
        source("projects/d.md", "No tags, no links"),
        NoteSource { path: "projects/e.md".to_string(), loaded: Err("unreadable".to_string()) },
    ];
    let graph = LinkGraph::build(&notes);
    let stats = detailed_stats(&notes, &graph);
    assert_eq!(stats.notes_by_folder.get("daily"), Some(&2));
    assert_eq!(stats.notes_by_folder.get("projects"), Some(&2));
    assert_eq!(stats.notes_by_folder.get("."), Some(&1));
    assert_eq!(stats.notes_by_folder.len(), 3);
    assert_eq!(stats.top_tags.len(), 2);
    assert_eq!((stats.top_tags[0].tag.as_str(), stats.top_tags[0].count), ("#x", 3));
    assert_eq!((stats.top_tags[1].tag.as_str(), stats.top_tags[1].count), ("#y", 2));
    assert_eq!(stats.top_linked.len(), 3);
    assert_eq!((stats.top_linked[0].note.as_str(), stats.top_linked[0].incoming), ("c.md", 2));
    let mut rest: Vec<(String, usize)> =
        stats.top_linked[1..].iter().map(|l| (l.note.clone(), l.incoming)).collect();
    rest.sort();
    assert_eq!(rest, vec![("daily/a.md".to_string(), 1), ("daily/b.md".to_string(), 1)]);
}

#[test]
fn detailed_stats_keeps_ten_largest() {
    let mut content = String::new();
    for k in 0..12 {
        for _ in 0..=k {
            content.push_str(&format!(" #t{}", k));
        }
    }
    let notes = vec![source("n.md", &content)];
    let graph = LinkGraph::build(&notes);
    let stats = detailed_stats(&notes, &graph);
    assert_eq!(stats.top_tags.len(), 10);
    for (i, t) in stats.top_tags.iter().enumerate() {
        assert_eq!(t.tag, format!("#t{}", 11 - i));
        assert_eq!(t.count, 12 - i);
    }
    assert!(stats.top_linked.is_empty());
    assert_eq!(stats.notes_by_folder.get("."), Some(&1));
}
