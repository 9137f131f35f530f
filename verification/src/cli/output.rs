//! Output settings and response shapes of commands.

use vstd::prelude::*;

verus! {

/// Serialisation format of command output.
#[derive(Debug, Clone, Copy, PartialEq, Eq, Structural)]
pub enum OutputFormat {
    Json,
    Yaml,
    Toml,
}

/// Output settings of a command run.
#[derive(Debug, Clone)]
pub struct Output {
    /// Format of structured output.
    pub format: OutputFormat,
    /// Whether informational messages are suppressed.
    pub quiet: bool,
}

impl Output {
    /// Output settings.
    pub fn new(format: OutputFormat, quiet: bool) -> (r: Output)
        ensures
            r.format == format,
            r.quiet == quiet,
    {
        Output { format, quiet }
    }

    /// Whether informational messages are suppressed.
    pub fn is_quiet(&self) -> (r: bool)
        ensures
            r == self.quiet,
    {
        self.quiet
    }
}

/// The response of a command: data, a message, and possibly a warning.
#[derive(Debug, Clone)]
pub struct CommandResponse<T> {
    /// The data, if any.
    pub data: Option<T>,
    /// A message, if any.
    pub message: Option<String>,
    /// A warning, if any.
    pub warning: Option<String>,
}

impl<T> CommandResponse<T> {
    /// A response that carries data.
    pub fn data(data: T) -> (r: CommandResponse<T>)
        ensures
            r.data == Some(data),
            r.message is None,
            r.warning is None,
    {
        CommandResponse { data: Some(data), message: None, warning: None }
    }

    /// A response that carries a message.
    pub fn message(msg: String) -> (r: CommandResponse<T>)
        ensures
            r.data is None,
            r.message matches Some(m) && m@ == msg@,
            r.warning is None,
    {
        CommandResponse { data: None, message: Some(msg), warning: None }
    }

    /// The same response with a warning.
    pub fn with_warning(self, warning: String) -> (r: CommandResponse<T>)
        ensures
            r.data == self.data,
            r.message == self.message,
            r.warning matches Some(w) && w@ == warning@,
    {
        CommandResponse { warning: Some(warning), ..self }
    }
}

/// What a dry run would do.
#[derive(Debug, Clone)]
pub struct DryRunResponse {
    /// The action.
    pub action: String,
    /// The note path.
    pub path: String,
    /// The content that would be written.
    pub content: Option<String>,
    /// The changes that would be made.
    pub changes: Option<Vec<String>>,
}

} // verus!
