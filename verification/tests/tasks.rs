//! Tests of task formatting.

use vaultiel::config::{EmojiFieldDef, EmojiValueType, TaskConfig};
use vaultiel::parser::task::{
    count_indent, format_task, format_task_tree, FormatTaskParams, HierarchicalTask, TaskChild,
    TaskTextItem,
};
use vaultiel::str_map::StrMap;
use vaultiel::types::TaskLocation;
use vaultiel::parser::task::parse_tasks;

fn field(emoji: &str, name: &str, value_type: EmojiValueType, order: u32) -> EmojiFieldDef {
    EmojiFieldDef { emoji: emoji.to_string(), field_name: name.to_string(), value_type, order }
}

fn obsidian_tasks_config() -> TaskConfig {
    TaskConfig {
        fields: vec![
            field("🆔", "id", EmojiValueType::String, 10),
            field("⛔", "depends_on", EmojiValueType::Text, 20),
            field("🔺", "priority", EmojiValueType::Flag { value: "highest".to_string() }, 30),
            field("⏫", "priority", EmojiValueType::Enum { value: "high".to_string() }, 31),
            field("🔼", "priority", EmojiValueType::Enum { value: "medium".to_string() }, 32),
            field("🔽", "priority", EmojiValueType::Enum { value: "low".to_string() }, 33),
            field("⏬", "priority", EmojiValueType::Enum { value: "lowest".to_string() }, 34),
            field("🔁", "recurrence", EmojiValueType::Text, 40),
            field("🏁", "on_completion", EmojiValueType::Text, 50),
            field("➕", "created", EmojiValueType::Date, 60),
            field("🛫", "start", EmojiValueType::Date, 70),
            field("⏳", "scheduled", EmojiValueType::Date, 80),
            field("📅", "due", EmojiValueType::Date, 90),
            field("❌", "cancelled", EmojiValueType::Date, 100),
            field("✅", "done", EmojiValueType::Date, 110),
        ],
    }
}

#[test]
fn test_count_indent() {
    assert_eq!(count_indent(""), 0);
    assert_eq!(count_indent("    "), 1);
    assert_eq!(count_indent("\t"), 1);
    assert_eq!(count_indent("\t\t"), 2);
    assert_eq!(count_indent("        "), 2);
    assert_eq!(count_indent("  "), 0);
}

#[test]
fn test_format_task() {
    let config = obsidian_tasks_config();
    let mut metadata = StrMap::new();
    metadata.insert("scheduled".to_string(), "2026-02-05".to_string());
    metadata.insert("due".to_string(), "2026-02-10".to_string());
    metadata.insert("priority".to_string(), "high".to_string());

    let result = format_task(
        &FormatTaskParams { description: "My task", symbol: "[ ]", marker: "-", metadata: &metadata },
        &config,
    );

    assert!(result.contains("- [ ] My task"));
    assert!(result.contains("⏳ 2026-02-05"));
    assert!(result.contains("📅 2026-02-10"));
    assert!(result.contains("⏫"));
}

#[test]
fn test_format_task_canonical_order() {
    let config = obsidian_tasks_config();
    let mut metadata = StrMap::new();
    metadata.insert("id".to_string(), "myid".to_string());
    metadata.insert("depends_on".to_string(), "dep1".to_string());
    metadata.insert("priority".to_string(), "high".to_string());
    metadata.insert("recurrence".to_string(), "every week".to_string());
    metadata.insert("on_completion".to_string(), "delete".to_string());
    metadata.insert("created".to_string(), "2026-01-01".to_string());
    metadata.insert("start".to_string(), "2026-02-01".to_string());
    metadata.insert("scheduled".to_string(), "2026-02-15".to_string());
    metadata.insert("due".to_string(), "2026-03-01".to_string());
    metadata.insert("cancelled".to_string(), "2026-02-20".to_string());
    metadata.insert("done".to_string(), "2026-02-25".to_string());

    let result = format_task(
        &FormatTaskParams { description: "Task", symbol: "[ ]", marker: "-", metadata: &metadata },
        &config,
    );

    let id_pos = result.find("🆔").unwrap();
    let dep_pos = result.find("⛔").unwrap();
    let pri_pos = result.find("⏫").unwrap();
    let rec_pos = result.find("🔁").unwrap();
    let oc_pos = result.find("🏁").unwrap();
    let cre_pos = result.find("➕").unwrap();
    let start_pos = result.find("🛫").unwrap();
    let sch_pos = result.find("⏳").unwrap();
    let due_pos = result.find("📅").unwrap();
    let can_pos = result.find("❌").unwrap();
    let done_pos = result.find("✅").unwrap();

    assert!(id_pos < dep_pos);
    assert!(dep_pos < pri_pos);
    assert!(pri_pos < rec_pos);
    assert!(rec_pos < oc_pos);
    assert!(oc_pos < cre_pos);
    assert!(cre_pos < start_pos);
    assert!(start_pos < sch_pos);
    assert!(sch_pos < due_pos);
    assert!(due_pos < can_pos);
    assert!(can_pos < done_pos);
}

fn task(line: usize, description: &str, indent: usize, children: Vec<TaskChild>) -> TaskChild {
    TaskChild::Task(HierarchicalTask {
        location: TaskLocation { file: "test.md".to_string(), line },
        raw: format!("- [ ] {}", description),
        marker: "-".to_string(),
        symbol: "[ ]".to_string(),
        description: description.to_string(),
        indent,
        parent_line: None,
        children,
        metadata: StrMap::new(),
        links: vec![],
        tags: vec![],
        block_id: None,
    })
}

#[test]
fn test_format_task_tree() {
    let config = TaskConfig::empty();
    let children = vec![task(
        1,
        "Parent task",
        0,
        vec![
            task(2, "Child task", 1, vec![]),
            TaskChild::Text(TaskTextItem {
                location: TaskLocation { file: "test.md".to_string(), line: 3 },
                raw: "    * A bullet point".to_string(),
                content: "A bullet point".to_string(),
                marker: "*".to_string(),
                indent: 1,
                block_id: None,
                children: vec![],
            }),
        ],
    )];

    let result = format_task_tree(&children, "    ", &config);
    assert_eq!(result, "- [ ] Parent task\n    - [ ] Child task\n    * A bullet point");
}

#[test]
fn test_format_task_with_star_marker() {
    let config = obsidian_tasks_config();
    let result = format_task(
        &FormatTaskParams { description: "Star task", symbol: "[x]", marker: "*", metadata: &StrMap::new() },
        &config,
    );
    assert_eq!(result, "* [x] Star task");
}

#[test]
fn format_task_flag_and_values() {
    let config = TaskConfig {
        fields: vec![
            field("📅", "due", EmojiValueType::Date, 2),
            field("🔺", "prio", EmojiValueType::Flag { value: "top".to_string() }, 1),
        ],
    };
    let mut metadata = StrMap::new();
    metadata.insert("due".to_string(), "2026-01-01".to_string());
    metadata.insert("prio".to_string(), "top".to_string());
    let result = format_task(
        &FormatTaskParams { description: "T", symbol: "[ ]", marker: "1.", metadata: &metadata },
        &config,
    );
    assert_eq!(result, "1. [ ] T 🔺 📅 2026-01-01");
}

#[test]
fn format_task_tree_nested_two_levels() {
    let config = TaskConfig::empty();
    let tree = vec![task(1, "a", 0, vec![task(2, "b", 1, vec![task(3, "c", 2, vec![])])]), task(4, "d", 0, vec![])];
    assert_eq!(format_task_tree(&tree, "\t", &config), "- [ ] a\n\t- [ ] b\n\t\t- [ ] c\n- [ ] d");
}


#[test]
fn test_parse_simple_task() {
    let content = "- [ ] A simple task";
    let tasks = parse_tasks(content, "test.md", &obsidian_tasks_config());

    assert_eq!(tasks.len(), 1);
    assert_eq!(tasks[0].marker, "-");
    assert_eq!(tasks[0].symbol, "[ ]");
    assert_eq!(tasks[0].description, "A simple task");
    assert_eq!(tasks[0].indent, 0);
    assert!(tasks[0].metadata.is_empty());
}

#[test]
fn test_parse_completed_task() {
    let content = "- [x] Completed task";
    let tasks = parse_tasks(content, "test.md", &obsidian_tasks_config());

    assert_eq!(tasks.len(), 1);
    assert_eq!(tasks[0].symbol, "[x]");
}

#[test]
fn test_parse_task_with_dates() {
    let content = "- [ ] Task with dates ⏳ 2026-02-05 📅 2026-02-10";
    let tasks = parse_tasks(content, "test.md", &obsidian_tasks_config());

    assert_eq!(tasks.len(), 1);
    assert_eq!(tasks[0].metadata.get("scheduled"), Some(&"2026-02-05".to_string()));
    assert_eq!(tasks[0].metadata.get("due"), Some(&"2026-02-10".to_string()));
}

#[test]
fn test_parse_task_with_priority() {
    let content = "- [ ] High priority task ⏫";
    let tasks = parse_tasks(content, "test.md", &obsidian_tasks_config());

    assert_eq!(tasks.len(), 1);
    assert_eq!(tasks[0].metadata.get("priority"), Some(&"high".to_string()));
}

#[test]
fn test_parse_task_with_links() {
    let content = "- [ ] Task linking to [[Note A]] and [[Note B|alias]]";
    let tasks = parse_tasks(content, "test.md", &obsidian_tasks_config());

    assert_eq!(tasks.len(), 1);
    assert_eq!(tasks[0].links.len(), 2);
    assert_eq!(tasks[0].links[0].to, "Note A");
    assert_eq!(tasks[0].links[1].to, "Note B");
    assert_eq!(tasks[0].links[1].alias, Some("alias".to_string()));
}

#[test]
fn test_parse_task_with_tags() {
    let content = "- [ ] Task with #tag1 and #project/subtag";
    let tasks = parse_tasks(content, "test.md", &obsidian_tasks_config());

    assert_eq!(tasks.len(), 1);
    assert_eq!(tasks[0].tags, vec!["#tag1", "#project/subtag"]);
}

#[test]
fn test_parse_task_with_block_id() {
    let content = "- [ ] Task with block ID ^abc123";
    let tasks = parse_tasks(content, "test.md", &obsidian_tasks_config());

    assert_eq!(tasks.len(), 1);
    assert_eq!(tasks[0].block_id, Some("abc123".to_string()));
}

#[test]
fn test_parse_nested_tasks() {
    let content = "- [ ] Parent task\n\t- [ ] Child task\n\t\t- [ ] Grandchild task";
    let tasks = parse_tasks(content, "test.md", &obsidian_tasks_config());

    assert_eq!(tasks.len(), 3);
    assert_eq!(tasks[0].indent, 0);
    assert_eq!(tasks[0].parent_line, None);
    assert_eq!(tasks[1].indent, 1);
    assert_eq!(tasks[1].parent_line, Some(1));
    assert_eq!(tasks[2].indent, 2);
    assert_eq!(tasks[2].parent_line, Some(2));
}

#[test]
fn test_parse_task_with_recurrence() {
    let content = "- [ ] Recurring task 🔁 every week 📅 2026-03-01";
    let tasks = parse_tasks(content, "test.md", &obsidian_tasks_config());

    assert_eq!(tasks.len(), 1);
    assert_eq!(tasks[0].metadata.get("recurrence"), Some(&"every week".to_string()));
    assert_eq!(tasks[0].metadata.get("due"), Some(&"2026-03-01".to_string()));
}

#[test]
fn test_parse_task_with_id_and_depends() {
    let content = "- [ ] Task 🆔 abc123 ⛔ def456,ghi789 📅 2026-03-01";
    let tasks = parse_tasks(content, "test.md", &obsidian_tasks_config());

    assert_eq!(tasks.len(), 1);
    assert_eq!(tasks[0].metadata.get("id"), Some(&"abc123".to_string()));
    assert_eq!(tasks[0].metadata.get("depends_on"), Some(&"def456,ghi789".to_string()));
    assert_eq!(tasks[0].metadata.get("due"), Some(&"2026-03-01".to_string()));
}

#[test]
fn test_parse_task_all_fields() {
    let content = "- [ ] Full task 🆔 myid ⛔ dep1 ⏫ 🔁 every day 🏁 delete ➕ 2026-01-01 🛫 2026-02-01 ⏳ 2026-02-15 📅 2026-03-01 ❌ 2026-02-20 ✅ 2026-02-25";
    let tasks = parse_tasks(content, "test.md", &obsidian_tasks_config());

    assert_eq!(tasks.len(), 1);
    let task = &tasks[0];
    assert_eq!(task.description, "Full task");
    assert_eq!(task.metadata.get("id"), Some(&"myid".to_string()));
    assert_eq!(task.metadata.get("depends_on"), Some(&"dep1".to_string()));
    assert_eq!(task.metadata.get("priority"), Some(&"high".to_string()));
    assert_eq!(task.metadata.get("recurrence"), Some(&"every day".to_string()));
    assert_eq!(task.metadata.get("on_completion"), Some(&"delete".to_string()));
    assert_eq!(task.metadata.get("created"), Some(&"2026-01-01".to_string()));
    assert_eq!(task.metadata.get("start"), Some(&"2026-02-01".to_string()));
    assert_eq!(task.metadata.get("scheduled"), Some(&"2026-02-15".to_string()));
    assert_eq!(task.metadata.get("due"), Some(&"2026-03-01".to_string()));
    assert_eq!(task.metadata.get("cancelled"), Some(&"2026-02-20".to_string()));
    assert_eq!(task.metadata.get("done"), Some(&"2026-02-25".to_string()));
}

#[test]
fn test_empty_config_parses_simple_task() {
    let content = "- [ ] Simple task with 📅 2026-01-01";
    let config = TaskConfig::empty();
    let tasks = parse_tasks(content, "test.md", &config);

    assert_eq!(tasks.len(), 1);
    assert!(tasks[0].description.contains("📅"));
    assert!(tasks[0].metadata.is_empty());
}

#[test]
fn test_parse_tasks_with_different_markers() {
    let content = "* [ ] Star task\n+ [ ] Plus task\n1. [ ] Numbered task";
    let tasks = parse_tasks(content, "test.md", &obsidian_tasks_config());

    assert_eq!(tasks.len(), 3);
    assert_eq!(tasks[0].marker, "*");
    assert_eq!(tasks[0].description, "Star task");
    assert_eq!(tasks[1].marker, "+");
    assert_eq!(tasks[1].description, "Plus task");
    assert_eq!(tasks[2].marker, "1.");
    assert_eq!(tasks[2].description, "Numbered task");
}

#[test]
fn tasks_in_code_blocks_are_skipped_and_locations_kept() {
    let content = "```\n- [ ] hidden\n```\n- [ ] shown";
    let tasks = parse_tasks(content, "notes/a.md", &obsidian_tasks_config());
    assert_eq!(tasks.len(), 1);
    assert_eq!(tasks[0].location.file, "notes/a.md");
    assert_eq!(tasks[0].location.line, 4);
    assert_eq!(tasks[0].raw, "- [ ] shown");
}

#[test]
fn sibling_after_nested_task_gets_outer_parent() {
    let content = "- [ ] a\n    - [ ] b\n        - [ ] c\n    - [ ] d";
    let tasks = parse_tasks(content, "t.md", &TaskConfig::empty());
    assert_eq!(tasks.len(), 4);
    assert_eq!(tasks[3].indent, 1);
    assert_eq!(tasks[3].parent_line, Some(1));
}

use vaultiel::parser::task::Task;
use vaultiel::parser::task_tree::{build_task_hierarchy, parse_task_trees};

fn plain_task(file: &str, line: usize, description: &str, indent: usize, parent_line: Option<usize>) -> Task {
    Task {
        location: TaskLocation { file: file.to_string(), line },
        raw: format!("- [ ] {}", description),
        marker: "-".to_string(),
        symbol: "[ ]".to_string(),
        description: description.to_string(),
        indent,
        parent_line,
        metadata: StrMap::new(),
        links: vec![],
        tags: vec![],
        block_id: None,
    }
}

#[test]
fn test_build_task_hierarchy() {
    let tasks = vec![plain_task("test.md", 1, "Parent", 0, None), plain_task("test.md", 2, "Child", 1, Some(1))];

    let hierarchy = build_task_hierarchy(tasks);

    assert_eq!(hierarchy.len(), 1);
    assert_eq!(hierarchy[0].description, "Parent");
    assert_eq!(hierarchy[0].children.len(), 1);
    match &hierarchy[0].children[0] {
        TaskChild::Task(child) => assert_eq!(child.description, "Child"),
        _ => panic!("Expected TaskChild::Task"),
    }
}

#[test]
fn hierarchy_groups_files_in_order_of_first_appearance() {
    let tasks = vec![
        plain_task("b.md", 1, "B1", 0, None),
        plain_task("a.md", 1, "A1", 0, None),
        plain_task("b.md", 2, "B2", 1, Some(1)),
        plain_task("b.md", 3, "B3", 2, Some(2)),
    ];
    let hierarchy = build_task_hierarchy(tasks);
    // the grandchild's parent is not a top-level task, so it becomes one
    assert_eq!(hierarchy.len(), 3);
    assert_eq!(hierarchy[0].description, "B1");
    assert_eq!(hierarchy[0].children.len(), 1);
    assert_eq!(hierarchy[1].description, "B3");
    assert_eq!(hierarchy[2].description, "A1");
}

#[test]
fn empty_task_list_gives_empty_hierarchy() {
    assert!(build_task_hierarchy(Vec::new()).is_empty());
}

#[test]
fn test_parse_task_trees_basic() {
    let content = "- [ ] My task\n    - [ ] My subtask\n        - My subtask's bullet point\n        * My subtask's other bullet point\n    * My task's bullet point\n    1. My task's other bullet point\n    2. [ ] My other subtask";
        let config = TaskConfig::empty();
    let trees = parse_task_trees(content, "test.md", &config);

    assert_eq!(trees.len(), 1);
    match &trees[0] {
        TaskChild::Task(task) => {
            assert_eq!(task.description, "My task");
            assert_eq!(task.marker, "-");
            assert_eq!(task.children.len(), 4); // subtask, bullet, numbered, other subtask

            // First child: subtask
            match &task.children[0] {
                TaskChild::Task(subtask) => {
                    assert_eq!(subtask.description, "My subtask");
                    assert_eq!(subtask.marker, "-");
                    assert_eq!(subtask.children.len(), 2);
                    // Sub-children are text items
                    match &subtask.children[0] {
                        TaskChild::Text(text) => {
                            assert_eq!(text.content, "My subtask's bullet point");
                            assert_eq!(text.marker, "-");
                        }
                        _ => panic!("Expected TaskChild::Text"),
                    }
                    match &subtask.children[1] {
                        TaskChild::Text(text) => {
                            assert_eq!(text.content, "My subtask's other bullet point");
                            assert_eq!(text.marker, "*");
                        }
                        _ => panic!("Expected TaskChild::Text"),
                    }
                }
                _ => panic!("Expected TaskChild::Task"),
            }

            // Second child: text bullet
            match &task.children[1] {
                TaskChild::Text(text) => {
                    assert_eq!(text.content, "My task's bullet point");
                    assert_eq!(text.marker, "*");
                }
                _ => panic!("Expected TaskChild::Text"),
            }

            // Third child: numbered text
            match &task.children[2] {
                TaskChild::Text(text) => {
                    assert_eq!(text.content, "My task's other bullet point");
                    assert_eq!(text.marker, "1.");
                }
                _ => panic!("Expected TaskChild::Text"),
            }

            // Fourth child: subtask with numbered marker
            match &task.children[3] {
                TaskChild::Task(subtask) => {
                    assert_eq!(subtask.description, "My other subtask");
                    assert_eq!(subtask.marker, "2.");
                }
                _ => panic!("Expected TaskChild::Task"),
            }
        }
        _ => panic!("Expected TaskChild::Task"),
    }
}

#[test]
fn test_parse_task_trees_ignores_top_level_text() {
    let content = "- Just a bullet point\n- [ ] A real task\n    - Nested under task";
        let config = TaskConfig::empty();
    let trees = parse_task_trees(content, "test.md", &config);

    // Top-level text item is ignored, only the task is returned
    assert_eq!(trees.len(), 1);
    match &trees[0] {
        TaskChild::Task(task) => {
            assert_eq!(task.description, "A real task");
            assert_eq!(task.children.len(), 1);
            match &task.children[0] {
                TaskChild::Text(text) => assert_eq!(text.content, "Nested under task"),
                _ => panic!("Expected TaskChild::Text"),
            }
        }
        _ => panic!("Expected TaskChild::Task"),
    }
}

#[test]
fn task_tree_items_keep_lines_and_block_ids() {
    let content = "- [ ] Top ^t1\n\tplain\n\t- note ^n1";
    let trees = parse_task_trees(content, "x.md", &TaskConfig::empty());
    assert_eq!(trees.len(), 1);
    match &trees[0] {
        TaskChild::Task(task) => {
            assert_eq!(task.block_id, Some("t1".to_string()));
            assert_eq!(task.location.line, 1);
            // the non-list line closes nothing deeper than itself, so the
            // item on line 3 still nests under the task
            assert_eq!(task.children.len(), 1);
            match &task.children[0] {
                TaskChild::Text(text) => {
                    assert_eq!(text.content, "note");
                    assert_eq!(text.block_id, Some("n1".to_string()));
                    assert_eq!(text.location.line, 3);
                    assert_eq!(text.indent, 1);
                }
                _ => panic!("Expected TaskChild::Text"),
            }
        }
        _ => panic!("Expected TaskChild::Task"),
    }
}
