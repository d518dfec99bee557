//! Request bodies.

use std::collections::HashMap;
use vstd::prelude::*;
use crate::model::BlockType;

verus! {

/// How new properties combine with the current ones.
#[derive(Debug, Clone, Copy, PartialEq, Eq, Structural)]
pub enum PropertiesMode {
    /// New keys overwrite, other current keys stay.
    Merge,
    /// The new properties replace the current ones.
    Replace,
}

/// The properties mode when a request names none.
pub fn default_properties_mode() -> (r: PropertiesMode)
    ensures
        r == PropertiesMode::Merge,
{
    PropertiesMode::Merge
}

/// Create a block under `parent_id`, after `after_id` (or last).
#[derive(Debug)]
pub struct CreateBlockReq {
    pub parent_id: String,
    pub block_type: BlockType,
    pub content: String,
    pub properties: HashMap<String, String>,
    pub after_id: Option<String>,
}

/// Update a block's content, properties or type.
#[derive(Debug)]
pub struct UpdateBlockReq {
    pub content: Option<String>,
    pub block_type: Option<BlockType>,
    pub properties: Option<HashMap<String, String>>,
    pub properties_mode: PropertiesMode,
}

/// Move a block under `target_parent_id` (or its current parent), before
/// `before_id` or after `after_id`.
#[derive(Debug)]
pub struct MoveBlockReq {
    pub target_parent_id: Option<String>,
    pub before_id: Option<String>,
    pub after_id: Option<String>,
}

/// Split a block: it keeps `content_before`, a new block gets
/// `content_after`.
#[derive(Debug)]
pub struct SplitReq {
    pub content_before: String,
    pub content_after: String,
    pub new_block_type: Option<BlockType>,
    /// Put the new block first under the split block (Enter at the end of a
    /// heading) rather than right after it.
    pub nest_under_parent: Option<bool>,
}

/// The merge direction when a request names none.
pub fn default_merge_direction() -> (r: String)
    ensures
        r@ == "previous"@,
{
    "previous".to_owned()
}

/// Merge a block into its neighbour.
#[derive(Debug)]
pub struct MergeReq {
    pub direction: String,
    pub prev_content: Option<String>,
}

/// Create a document titled `title`.
#[derive(Debug)]
pub struct CreateDocumentReq {
    pub title: String,
    pub parent_id: Option<String>,
    pub after_id: Option<String>,
}

/// Import text in `format` as a new document.
#[derive(Debug)]
pub struct ImportTextReq {
    pub format: String,
    pub content: String,
    pub parent_id: Option<String>,
    pub after_id: Option<String>,
    pub title: Option<String>,
}

/// Several operations applied together.
#[derive(Debug)]
pub struct BatchReq {
    pub operations: Vec<BatchOp>,
}

/// One operation of a batch.
#[derive(Debug)]
pub enum BatchOp {
    Create {
        temp_id: String,
        parent_id: String,
        block_type: BlockType,
        content: String,
        properties: HashMap<String, String>,
        after_id: Option<String>,
    },
    Update {
        block_id: String,
        content: Option<String>,
        properties: Option<HashMap<String, String>>,
        properties_mode: PropertiesMode,
    },
    Delete { block_id: String },
    Move {
        block_id: String,
        target_parent_id: Option<String>,
        before_id: Option<String>,
        after_id: Option<String>,
    },
}

} // verus!
