//! Tool results and the built-in tools.

use vstd::prelude::*;

verus! {

/// What a tool call produced.
#[derive(Debug, Clone)]
pub struct ToolResult {
    pub content: String,
    pub is_error: bool,
}

impl ToolResult {
    /// A successful result carrying `content`.
    pub fn ok(content: String) -> (r: Self)
        ensures
            r.content == content,
            !r.is_error,
    {
        ToolResult { content, is_error: false }
    }

    /// A failed result carrying the message `content`.
    pub fn error(content: String) -> (r: Self)
        ensures
            r.content == content,
            r.is_error,
    {
        ToolResult { content, is_error: true }
    }
}

/// Reads a file.
pub struct FileRead;

/// Writes a file.
pub struct FileWrite;

/// Replaces text in a file.
pub struct FileEdit;

/// Runs a shell command.
pub struct ShellExec;

} // verus!
