//! Response bodies.

use vstd::prelude::*;
use crate::error::AppError;
use crate::model::{Block, ParseWarning};
use crate::model::oplog::{HistoryEntry, UndoRedoResult};

verus! {

/// A block was deleted (with `cascade_count` descendants).
#[derive(Debug)]
pub struct DeleteResult {
    pub id: String,
    pub document_id: String,
    pub version: u64,
    pub cascade_count: u32,
}

/// A block was restored (with `cascade_count` descendants).
#[derive(Debug)]
pub struct RestoreResult {
    pub id: String,
    pub document_id: String,
    pub version: u64,
    pub cascade_count: u32,
}

/// A block with its children, nested.
#[derive(Debug)]
pub struct BlockNode {
    pub block: Block,
    pub children: Vec<BlockNode>,
}

/// A document with its blocks, nested.
#[derive(Debug)]
pub struct DocumentContentResult {
    pub document: Block,
    pub blocks: Vec<BlockNode>,
    pub has_more: bool,
}

/// The child documents of a document.
#[derive(Debug)]
pub struct DocumentChildrenResult {
    pub children: Vec<Block>,
}

/// The outcome of a batch: each temporary identifier paired with the real
/// one it stands for (no temporary identifier twice), and one result per
/// operation.
#[derive(Debug)]
pub struct BatchResult {
    pub id_map: Vec<(String, String)>,
    pub results: Vec<BatchOpResult>,
}

/// The outcome of one batch operation: the action, the block, its new
/// version, or the error that stopped it.
#[derive(Debug)]
pub struct BatchOpResult {
    pub action: String,
    pub block_id: String,
    pub version: Option<u64>,
    pub error: Option<AppError>,
}

/// An imported document.
#[derive(Debug)]
pub struct ImportResult {
    pub root: Block,
    pub blocks_imported: usize,
    pub warnings: Vec<ParseWarning>,
}

/// An exported document.
#[derive(Debug)]
pub struct ExportResult {
    pub content: String,
    pub filename: Option<String>,
    pub blocks_exported: usize,
    pub lossy_types: Vec<String>,
}

/// A split block and the block split off it.
#[derive(Debug)]
pub struct SplitResult {
    pub updated_block: Block,
    pub new_block: Block,
}

/// A merged block and the block merged into it.
#[derive(Debug)]
pub struct MergeResult {
    pub merged_block: Block,
    pub deleted_block_id: String,
}

/// A history listing.
#[derive(Debug)]
pub struct HistoryResponse {
    pub entries: Vec<HistoryEntry>,
}

/// An undo or redo.
#[derive(Debug)]
pub struct UndoRedoResponse {
    pub result: UndoRedoResult,
}

/// A document and all its blocks, flat.
#[derive(Debug)]
pub struct DocumentTreeResult {
    pub root: Block,
    pub blocks: Vec<Block>,
}

/// The root documents.
#[derive(Debug)]
pub struct DocumentListResponse {
    pub blocks: Vec<Block>,
}

/// A page of children.
#[derive(Debug)]
pub struct ChildrenResult {
    pub blocks: Vec<Block>,
    pub has_more: bool,
    /// Position to continue after, when there are more.
    pub next_cursor: Option<String>,
}

} // verus!
