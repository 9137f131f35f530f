//! Structured search across vault notes.

pub mod matcher;
pub mod parser;
pub mod types;
