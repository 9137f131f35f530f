//! Tests of task configuration, link filters and lint formats.

use vaultiel::cli::links::context_matches;
use vaultiel::cli::lint::LintFormat;
use vaultiel::cli::output::{CommandResponse, Output, OutputFormat};
use vaultiel::config::{EmojiFieldDef, EmojiValueType, TaskConfig};

#[test]
fn test_empty_config() {
    let config = TaskConfig::empty();
    assert!(config.fields.is_empty());
    assert!(config.sorted_fields().is_empty());
    assert!(config.all_emojis().is_empty());
}

#[test]
fn test_sorted_fields() {
    let config = TaskConfig {
        fields: vec![
            EmojiFieldDef {
                emoji: "📅".to_string(),
                field_name: "due".to_string(),
                value_type: EmojiValueType::Date,
                order: 20,
            },
            EmojiFieldDef {
                emoji: "🆔".to_string(),
                field_name: "id".to_string(),
                value_type: EmojiValueType::String,
                order: 10,
            },
        ],
    };

    let sorted = config.sorted_fields();
    assert_eq!(sorted[0].field_name, "id");
    assert_eq!(sorted[1].field_name, "due");
}

#[test]
fn test_all_emojis() {
    let config = TaskConfig {
        fields: vec![
            EmojiFieldDef {
                emoji: "📅".to_string(),
                field_name: "due".to_string(),
                value_type: EmojiValueType::Date,
                order: 1,
            },
            EmojiFieldDef {
                emoji: "⏫".to_string(),
                field_name: "priority".to_string(),
                value_type: EmojiValueType::Flag { value: "high".to_string() },
                order: 2,
            },
        ],
    };

    let emojis = config.all_emojis();
    assert_eq!(emojis.len(), 2);
    assert!(emojis.contains(&"📅"));
    assert!(emojis.contains(&"⏫"));
}

#[test]
fn config_sorted_fields_is_stable() {
    let mk = |name: &str, order: u32| EmojiFieldDef {
        emoji: "x".to_string(),
        field_name: name.to_string(),
        value_type: EmojiValueType::Text,
        order,
    };
    let config = TaskConfig { fields: vec![mk("a", 2), mk("b", 1), mk("c", 2), mk("d", 1)] };
    let names: Vec<&str> = config.sorted_fields().iter().map(|f| f.field_name.as_str()).collect();
    assert_eq!(names, vec!["b", "d", "a", "c"]);
}

#[test]
fn test_context_matches() {
    assert!(context_matches("body", "body"));
    assert!(context_matches("body", "*"));
    assert!(context_matches("frontmatter:parent", "frontmatter:*"));
    assert!(context_matches("frontmatter:parent", "frontmatter:parent"));
    assert!(!context_matches("body", "frontmatter:*"));
    assert!(!context_matches("frontmatter:links", "frontmatter:parent"));
}

#[test]
fn context_matches_suffix_pattern() {
    assert!(context_matches("frontmatter:parent", "*parent"));
    assert!(!context_matches("body", "*parent"));
}

#[test]
fn test_lint_format_from_str() {
    assert_eq!(LintFormat::from_str("json"), Some(LintFormat::Json));
    assert_eq!(LintFormat::from_str("text"), Some(LintFormat::Text));
    assert_eq!(LintFormat::from_str("github"), Some(LintFormat::Github));
    assert_eq!(LintFormat::from_str("invalid"), None);
}

#[test]
fn lint_format_ignores_case() {
    assert_eq!(LintFormat::from_str("GitHub"), Some(LintFormat::Github));
}

#[test]
fn output_and_responses() {
    let o = Output::new(OutputFormat::Yaml, true);
    assert!(o.is_quiet());
    let r: CommandResponse<u32> = CommandResponse::data(3).with_warning("careful".to_string());
    assert_eq!(r.data, Some(3));
    assert_eq!(r.warning.as_deref(), Some("careful"));
    let m: CommandResponse<u32> = CommandResponse::message("done".to_string());
    assert!(m.data.is_none());
    assert_eq!(m.message.as_deref(), Some("done"));
}
