//! Error type for vault operations.

use vstd::prelude::*;
use crate::text::{concat, decimal, decimal_string, lit};

verus! {

/// Errors of vault operations. Paths are carried as strings; errors of
/// outside libraries are carried by their messages.
#[derive(Debug, Clone, PartialEq, Eq)]
pub enum VaultError {
    /// No note at this path.
    NoteNotFound(String),
    /// A note already exists at this path.
    NoteAlreadyExists(String),
    /// Several notes match a query.
    AmbiguousResolution { query: String, count: usize, matches: Vec<String> },
    /// Frontmatter that does not parse.
    InvalidFrontmatter { path: String, message: String },
    /// No vault at this path.
    VaultNotFound(String),
    /// A path that cannot be a vault.
    InvalidVaultPath(String),
    /// A configuration problem.
    ConfigError(String),
    /// An I/O failure.
    Io(String),
    /// YAML that does not parse.
    YamlParse(String),
    /// JSON that does not parse or serialise.
    JsonError(String),
    /// A regular expression that does not compile.
    RegexError(String),
    /// A glob pattern that does not parse.
    GlobPattern(String),
    /// A section heading was not found.
    SectionNotFound(String),
    /// A heading was not found in a note.
    HeadingNotFound { note: String, heading: String },
    /// A block ID was not found.
    BlockNotFound(String),
    /// A line range that does not fit the note.
    InvalidLineRange(String),
    /// Nothing to write was given.
    NoContentProvided,
    /// A search query that does not parse.
    SearchError(String),
    /// Any other failure, with its message.
    Other(String),
}

/// The message of an error, as it is displayed.
pub open spec fn error_message(e: VaultError) -> Seq<char> {
    match e {
        VaultError::NoteNotFound(p) => "Note not found: "@ + p@,
        VaultError::NoteAlreadyExists(p) => "Note already exists: "@ + p@,
        VaultError::AmbiguousResolution { query, count, matches } => "Ambiguous resolution: "@
            + decimal(count as nat) + " notes match '"@ + query@ + "'"@,
        VaultError::InvalidFrontmatter { path, message } => "Invalid frontmatter in "@ + path@
            + ": "@ + message@,
        VaultError::VaultNotFound(p) => "Vault not found at: "@ + p@,
        VaultError::InvalidVaultPath(p) => "Invalid vault path: "@ + p@,
        VaultError::ConfigError(m) => "Config error: "@ + m@,
        VaultError::Io(m) => "IO error: "@ + m@,
        VaultError::YamlParse(m) => "YAML parse error: "@ + m@,
        VaultError::JsonError(m) => "JSON error: "@ + m@,
        VaultError::RegexError(m) => "Regex error: "@ + m@,
        VaultError::GlobPattern(m) => "Glob pattern error: "@ + m@,
        VaultError::SectionNotFound(m) => "Section not found: "@ + m@,
        VaultError::HeadingNotFound { note, heading } => "Heading not found in "@ + note@ + ": "@
            + heading@,
        VaultError::BlockNotFound(m) => "Block not found: "@ + m@,
        VaultError::InvalidLineRange(m) => "Invalid line range: "@ + m@,
        VaultError::NoContentProvided => "No content provided"@,
        VaultError::SearchError(m) => "Search error: "@ + m@,
        VaultError::Other(m) => m@,
    }
}

impl VaultError {
    /// The message of the error, as it is displayed.
    pub fn message(&self) -> (r: String)
        ensures
            r@ == error_message(*self),
    {
        match self {
            VaultError::NoteNotFound(p) => concat(lit("Note not found: "), p.as_str()),
            VaultError::NoteAlreadyExists(p) => concat(lit("Note already exists: "), p.as_str()),
            VaultError::AmbiguousResolution { query, count, matches } => {
                let m = concat(lit("Ambiguous resolution: "), decimal_string(*count).as_str());
                let m = concat(m, " notes match '");
                let m = concat(m, query.as_str());
                concat(m, "'")
            },
            VaultError::InvalidFrontmatter { path, message } => {
                let m = concat(lit("Invalid frontmatter in "), path.as_str());
                let m = concat(m, ": ");
                concat(m, message.as_str())
            },
            VaultError::VaultNotFound(p) => concat(lit("Vault not found at: "), p.as_str()),
            VaultError::InvalidVaultPath(p) => concat(lit("Invalid vault path: "), p.as_str()),
            VaultError::ConfigError(m) => concat(lit("Config error: "), m.as_str()),
            VaultError::Io(m) => concat(lit("IO error: "), m.as_str()),
            VaultError::YamlParse(m) => concat(lit("YAML parse error: "), m.as_str()),
            VaultError::JsonError(m) => concat(lit("JSON error: "), m.as_str()),
            VaultError::RegexError(m) => concat(lit("Regex error: "), m.as_str()),
            VaultError::GlobPattern(m) => concat(lit("Glob pattern error: "), m.as_str()),
            VaultError::SectionNotFound(m) => concat(lit("Section not found: "), m.as_str()),
            VaultError::HeadingNotFound { note, heading } => {
                let m = concat(lit("Heading not found in "), note.as_str());
                let m = concat(m, ": ");
                concat(m, heading.as_str())
            },
            VaultError::BlockNotFound(m) => concat(lit("Block not found: "), m.as_str()),
            VaultError::InvalidLineRange(m) => concat(lit("Invalid line range: "), m.as_str()),
            VaultError::NoContentProvided => lit("No content provided"),
            VaultError::SearchError(m) => concat(lit("Search error: "), m.as_str()),
            VaultError::Other(m) => m.clone(),
        }
    }
}

} // verus!
