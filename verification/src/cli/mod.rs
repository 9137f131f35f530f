//! Command-line logic that does not touch the file system.

pub mod blocks;
pub mod content;
pub mod headings;
pub mod info;
pub mod links;
pub mod list;
pub mod lint;
pub mod output;
pub mod rename;
pub mod search;
pub mod tag_tree;
pub mod tags;
pub mod tasks;
