//! Conversion between text formats and block trees.
//!
//! A format implements [`BlockParser`] (text to blocks) and
//! [`BlockSerializer`] (blocks to text); [`get_parser`] and
//! [`get_serializer`] pick the format by name.

pub mod grammar;
pub mod markdown;
pub mod serializer;
pub mod types;

use vstd::prelude::*;
use crate::error::AppError;
use crate::model::Block;
use crate::text::{push_str, str_eq};
use markdown::MarkdownFormat;
use types::{ChildrenMap, ParseOptions, ParseResult, SerializeResult};

verus! {

/// Text to a block tree.
pub trait BlockParser {
    /// Whether the parser takes `text` (its limits on size).
    spec fn parse_accepts(&self, text: Seq<char>) -> bool;

    /// Parses `text` into a document block and its descendants.
    fn parse(&self, text: &str, options: &ParseOptions) -> (r: Result<ParseResult, AppError>)
        requires
            self.parse_accepts(text@),
    ;
}

/// A block tree to text.
pub trait BlockSerializer {
    /// Whether the serializer can render the tree under `root`.
    spec fn serialize_accepts(&self, root: Block, children_map: ChildrenMap) -> bool;

    /// Renders `root` and its descendants, found through `children_map`.
    fn serialize(&self, root: &Block, children_map: &ChildrenMap) -> (r: Result<SerializeResult, AppError>)
        requires
            self.serialize_accepts(*root, *children_map),
    ;
}

/// Whether `format` names the Markdown format.
pub open spec fn is_markdown_name(format: Seq<char>) -> bool {
    format == "markdown"@ || format == "md"@
}

fn is_markdown(format: &str) -> (r: bool)
    ensures
        r == is_markdown_name(format@),
{
    str_eq(format, "markdown") || str_eq(format, "md")
}

/// The error naming an unsupported format: `prefix`, the name in quotes, and
/// the list of supported formats.
pub open spec fn unsupported_message(prefix: Seq<char>, format: Seq<char>) -> Seq<char> {
    prefix + format + "'. 当前支持: markdown"@
}

fn unsupported(prefix: &str, format: &str) -> (e: AppError)
    ensures
        e matches AppError::BadRequest(msg) && msg@ == unsupported_message(prefix@, format@),
{
    let mut msg = prefix.to_owned();
    push_str(&mut msg, format);
    push_str(&mut msg, "'. 当前支持: markdown");
    AppError::BadRequest(msg)
}

/// The parser for the format named `format` (`markdown` or `md`).
pub fn get_parser(format: &str) -> (r: Result<MarkdownFormat, AppError>)
    ensures
        r is Ok <==> is_markdown_name(format@),
        r matches Err(e) ==> e matches AppError::BadRequest(msg) && msg@ == unsupported_message(
            "不支持的源格式: '"@,
            format@,
        ),
{
    if is_markdown(format) {
        Ok(MarkdownFormat::new())
    } else {
        Err(unsupported("不支持的源格式: '", format))
    }
}

/// The serializer for the format named `format` (`markdown` or `md`).
pub fn get_serializer(format: &str) -> (r: Result<MarkdownFormat, AppError>)
    ensures
        r is Ok <==> is_markdown_name(format@),
        r matches Err(e) ==> e matches AppError::BadRequest(msg) && msg@ == unsupported_message(
            "不支持的目标格式: '"@,
            format@,
        ),
{
    if is_markdown(format) {
        Ok(MarkdownFormat::new())
    } else {
        Err(unsupported("不支持的目标格式: '", format))
    }
}

} // verus!
