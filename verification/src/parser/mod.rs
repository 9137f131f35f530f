//! Parsers of note content.

pub mod block_id;
pub mod code_block;
pub mod dates;
pub mod frontmatter;
pub mod heading;
pub mod inline_attr;
pub mod inline_property;
pub mod tag;
pub mod task;
pub mod task_tree;
pub mod wikilink;
