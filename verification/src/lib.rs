//! Vaultiel: reading and editing Obsidian-style notes.

pub mod cache;
pub mod cli;
pub mod config;
pub mod error;
pub mod export;
pub mod graph;
pub mod metadata;
pub mod health;
pub mod note;
pub mod parser;
pub mod properties;
pub mod search;
pub mod str_map;
pub mod text;
pub mod types;
pub mod yaml;
