//! Core data types for parsed vault content.

use vstd::prelude::*;
use crate::text::{concat, decimal, decimal_string, lit};

verus! {

/// A wikilink or embed found in a note.
#[derive(Debug, Clone, PartialEq, Eq)]
pub struct Link {
    /// The link target (note name or path), trimmed.
    pub target: String,
    /// Display text after `|`, if any.
    pub alias: Option<String>,
    /// Heading reference after `#`, if any.
    pub heading: Option<String>,
    /// Block reference after `#^`, if any.
    pub block_id: Option<String>,
    /// Whether this is an embed (`![[...]]`).
    pub embed: bool,
    /// Line number (1-indexed).
    pub line: usize,
    /// Start column (0-indexed, in UTF-8 bytes from the line start).
    pub start_col: usize,
    /// End column (exclusive, in UTF-8 bytes).
    pub end_col: usize,
}

/// A tag (`#tag` or `#tag/subtag`) found in a note.
#[derive(Debug, Clone, PartialEq, Eq)]
pub struct Tag {
    /// Tag name, including the leading `#`.
    pub name: String,
    /// Line number (1-indexed).
    pub line: usize,
    /// Start column (0-indexed, in UTF-8 bytes from the line start).
    pub start_col: usize,
    /// End column (exclusive, in UTF-8 bytes).
    pub end_col: usize,
}

/// The name of a tag without its leading `#`.
pub open spec fn name_without_hash(name: Seq<char>) -> Seq<char> {
    if name.len() > 0 && name[0] == '#' {
        name.subrange(1, name.len() as int)
    } else {
        name
    }
}

impl Tag {
    /// The tag name without the leading `#`.
    pub fn without_hash(&self) -> (r: &str)
        ensures
            r@ == name_without_hash(self.name@),
    {
        let s = self.name.as_str();
        let n = s.unicode_len();
        if n > 0 && s.get_char(0) == '#' {
            s.substring_char(1, n)
        } else {
            s
        }
    }
}

/// A markdown heading.
#[derive(Debug, Clone, PartialEq, Eq)]
pub struct Heading {
    /// Heading text (without the `#` markers).
    pub text: String,
    /// Heading level (1-6).
    pub level: u8,
    /// Line number (1-indexed).
    pub line: usize,
    /// URL-safe slug, unique within the note.
    pub slug: String,
}

/// The kind of block a block ID is attached to.
#[derive(Debug, Clone, Copy, PartialEq, Eq, Structural)]
pub enum BlockType {
    Paragraph,
    ListItem,
    Heading,
    Blockquote,
    Table,
    CodeBlock,
}

/// A block ID (`^id`) found at the end of a line.
#[derive(Debug, Clone, PartialEq, Eq)]
pub struct BlockId {
    /// The ID without the leading `^`.
    pub id: String,
    /// Line number (1-indexed).
    pub line: usize,
    /// The kind of block.
    pub block_type: BlockType,
}

/// An inline property `[key::value]`.
#[derive(Debug, Clone, PartialEq, Eq)]
pub struct InlineProperty {
    /// The key.
    pub key: String,
    /// The value, trimmed.
    pub value: String,
    /// Line number (1-indexed).
    pub line: usize,
    /// Start column (0-indexed, in UTF-8 bytes from the line start).
    pub start_col: usize,
    /// End column (exclusive, in UTF-8 bytes).
    pub end_col: usize,
}

/// An inline attribute `[key::value]`.
pub type InlineAttr = InlineProperty;

/// Where a property lives, for property-agnostic operations.
#[derive(Debug, Clone, Copy, PartialEq, Eq)]
pub enum PropertyScope {
    /// Detect where the key lives.
    Auto,
    /// Both frontmatter and inline.
    Both,
    /// Frontmatter only.
    Frontmatter,
    /// Inline only, optionally the `index`-th inline property of the note.
    Inline { index: Option<usize> },
}

/// Where a link appears in a note.
#[derive(Debug, Clone, PartialEq, Eq)]
pub enum LinkContext {
    /// In the body text.
    Body,
    /// On a task line.
    Task,
    /// Inside an inline property `[key::...]`.
    Inline { key: String },
    /// In a scalar frontmatter value.
    FrontmatterScalar { key: String },
    /// In an element of a frontmatter list.
    FrontmatterList { key: String, index: usize },
}

/// The text form of a link context: `body`, `task`, `inline:KEY`,
/// `frontmatter:KEY` or `frontmatter:KEY[INDEX]`.
pub open spec fn context_text(c: LinkContext) -> Seq<char> {
    match c {
        LinkContext::Body => "body"@,
        LinkContext::Task => "task"@,
        LinkContext::Inline { key } => "inline:"@ + key@,
        LinkContext::FrontmatterScalar { key } => "frontmatter:"@ + key@,
        LinkContext::FrontmatterList { key, index } => "frontmatter:"@ + key@ + "["@ + decimal(
            index as nat,
        ) + "]"@,
    }
}

impl LinkContext {
    /// The text form of the context.
    pub fn as_string(&self) -> (r: String)
        ensures
            r@ == context_text(*self),
    {
        match self {
            LinkContext::Body => lit("body"),
            LinkContext::Task => lit("task"),
            LinkContext::Inline { key } => concat(lit("inline:"), key.as_str()),
            LinkContext::FrontmatterScalar { key } => concat(lit("frontmatter:"), key.as_str()),
            LinkContext::FrontmatterList { key, index } => {
                let m = concat(lit("frontmatter:"), key.as_str());
                let m = concat(m, "[");
                let m = concat(m, decimal_string(*index).as_str());
                concat(m, "]")
            },
        }
    }
}

/// A link context as plain values.
pub enum ContextV {
    Body,
    Task,
    Inline(Seq<char>),
    FrontmatterScalar(Seq<char>),
    FrontmatterList(Seq<char>, int),
}

pub open spec fn context_view(c: LinkContext) -> ContextV {
    match c {
        LinkContext::Body => ContextV::Body,
        LinkContext::Task => ContextV::Task,
        LinkContext::Inline { key } => ContextV::Inline(key@),
        LinkContext::FrontmatterScalar { key } => ContextV::FrontmatterScalar(key@),
        LinkContext::FrontmatterList { key, index } => ContextV::FrontmatterList(key@, index as int),
    }
}

fn copy_opt_string(o: &Option<String>) -> (r: Option<String>)
    ensures
        r == *o,
{
    match o {
        Some(t) => Some(t.clone()),
        None => None,
    }
}

impl Link {
    /// A copy of the link.
    pub fn copy(&self) -> (r: Link)
        ensures
            r == *self,
    {
        Link {
            target: self.target.clone(),
            alias: copy_opt_string(&self.alias),
            heading: copy_opt_string(&self.heading),
            block_id: copy_opt_string(&self.block_id),
            embed: self.embed,
            line: self.line,
            start_col: self.start_col,
            end_col: self.end_col,
        }
    }
}

impl LinkContext {
    /// A copy of the context.
    pub fn copy(&self) -> (r: LinkContext)
        ensures
            r == *self,
    {
        match self {
            LinkContext::Body => LinkContext::Body,
            LinkContext::Task => LinkContext::Task,
            LinkContext::Inline { key } => LinkContext::Inline { key: key.clone() },
            LinkContext::FrontmatterScalar { key } => LinkContext::FrontmatterScalar { key: key.clone() },
            LinkContext::FrontmatterList { key, index } => LinkContext::FrontmatterList {
                key: key.clone(),
                index: *index,
            },
        }
    }
}

/// Location of a task.
#[derive(Debug, Clone, PartialEq, Eq)]
pub struct TaskLocation {
    /// Note path.
    pub file: String,
    /// Line number (1-indexed).
    pub line: usize,
}

/// A link inside a task description.
#[derive(Debug, Clone, PartialEq, Eq)]
pub struct TaskLink {
    /// Link target.
    pub to: String,
    /// Display alias, if any.
    pub alias: Option<String>,
}

} // verus!
