//! Hooks each block type can specialize, and the types they share.

use vstd::prelude::*;
use crate::error::AppError;
use crate::model::{Block, BlockType};

verus! {

/// What a type hook learns about a move.
pub struct MoveContext<'a> {
    pub block: &'a Block,
    pub target_parent_id: &'a str,
    pub new_position: &'a str,
    pub parent_changed: bool,
}

/// Behaviour a block type can specialize; each type states its own answers.
pub trait BlockTypeOps {
    /// Whether a move carries the whole subtree along.
    fn use_tree_move() -> bool;

    /// Whether a move goes through the document's flat list.
    fn use_flat_list_move() -> bool;

    /// Checks a block type before a block of that type is created.
    fn validate_on_create(block_type: &BlockType) -> Result<(), AppError>;
}

/// How much of a block's subtree an export takes.
#[derive(Debug, Clone, Copy, PartialEq, Eq, Structural)]
pub enum ExportDepth {
    /// The direct children only.
    Children,
    /// All descendants.
    Descendants,
}

} // verus!
