//! Tests of task filtering.

use vaultiel::cli::tasks::TaskFilter;
use vaultiel::parser::task::Task;
use vaultiel::str_map::StrMap;
use vaultiel::types::{TaskLink, TaskLocation};

fn make_task(description: &str) -> Task {
    Task {
        location: TaskLocation { file: "test.md".to_string(), line: 1 },
        raw: format!("- [ ] {}", description),
        marker: "-".to_string(),
        symbol: "[ ]".to_string(),
        description: description.to_string(),
        indent: 0,
        parent_line: None,
        metadata: StrMap::new(),
        links: vec![],
        tags: vec![],
        block_id: None,
    }
}

#[test]
fn test_filter_by_symbol() {
    let filter = TaskFilter { symbols: vec!["[x]".to_string()], ..Default::default() };

    let task1 = make_task("Open task");
    let mut task2 = make_task("Done task");
    task2.symbol = "[x]".to_string();

    assert!(!filter.matches(&task1));
    assert!(filter.matches(&task2));
}

#[test]
fn test_filter_by_due_date() {
    let filter = TaskFilter { due_before: Some("2026-02-10".to_string()), ..Default::default() };

    let mut task1 = make_task("Task 1");
    task1.metadata.insert("due".to_string(), "2026-02-05".to_string());

    let mut task2 = make_task("Task 2");
    task2.metadata.insert("due".to_string(), "2026-02-15".to_string());

    let task3 = make_task("Task 3");

    assert!(filter.matches(&task1));
    assert!(!filter.matches(&task2));
    assert!(!filter.matches(&task3));
}

#[test]
fn test_filter_by_contains() {
    let filter = TaskFilter { contains: Some("important".to_string()), ..Default::default() };

    let task1 = make_task("This is important task");
    let task2 = make_task("Regular task");

    assert!(filter.matches(&task1));
    assert!(!filter.matches(&task2));
}

#[test]
fn test_filter_by_priority() {
    let filter = TaskFilter { priority: Some("high".to_string()), ..Default::default() };

    let mut task1 = make_task("High priority");
    task1.metadata.insert("priority".to_string(), "high".to_string());

    let mut task2 = make_task("Low priority");
    task2.metadata.insert("priority".to_string(), "low".to_string());

    assert!(filter.matches(&task1));
    assert!(!filter.matches(&task2));
}

#[test]
fn default_filter_accepts_everything() {
    let filter = TaskFilter::default();
    assert!(filter.matches(&make_task("anything")));
}

#[test]
fn contains_is_case_insensitive() {
    let filter = TaskFilter { contains: Some("IMPORTANT".to_string()), ..Default::default() };
    assert!(filter.matches(&make_task("an important one")));
}

#[test]
fn links_tag_and_block_filters() {
    let mut task = make_task("linked");
    task.links.push(TaskLink { to: "Project".to_string(), alias: None });
    task.tags.push("#work".to_string());
    task.block_id = Some("b1".to_string());

    let by_link = TaskFilter { links_to: Some("Project".to_string()), ..Default::default() };
    assert!(by_link.matches(&task));
    let by_other_link = TaskFilter { links_to: Some("Other".to_string()), ..Default::default() };
    assert!(!by_other_link.matches(&task));

    let by_block = TaskFilter { has_block_ref: true, ..Default::default() };
    assert!(by_block.matches(&task));
    assert!(!by_block.matches(&make_task("plain")));
}

#[test]
fn has_metadata_and_recurrence() {
    let mut task = make_task("repeat");
    task.metadata.insert("recurrence".to_string(), "every week".to_string());
    let f = TaskFilter { has_recurrence: true, ..Default::default() };
    assert!(f.matches(&task));
    assert!(!f.matches(&make_task("once")));
    let g = TaskFilter { has_metadata: vec!["recurrence".to_string()], ..Default::default() };
    assert!(g.matches(&task));
}
