//! Lists: a `List` is a pure container whose direct children are
//! `ListItem`s, and a `ListItem` hangs under a `List`.

use vstd::prelude::*;
use crate::error::AppError;
use crate::model::{block_type_debug, Block, BlockType};
use crate::service::traits::BlockTypeOps;
use crate::text::push_str;

verus! {

/// Behaviour of `List` blocks.
pub struct ListOps;

impl BlockTypeOps for ListOps {
    fn use_tree_move() -> (r: bool)
        ensures
            !r,
    {
        false
    }

    fn use_flat_list_move() -> (r: bool)
        ensures
            !r,
    {
        false
    }

    /// Every list type is accepted.
    fn validate_on_create(block_type: &BlockType) -> (r: Result<(), AppError>)
        ensures
            r is Ok,
    {
        Ok(())
    }
}

/// Behaviour of `ListItem` blocks.
pub struct ListItemOps;

impl BlockTypeOps for ListItemOps {
    fn use_tree_move() -> (r: bool)
        ensures
            !r,
    {
        false
    }

    fn use_flat_list_move() -> (r: bool)
        ensures
            !r,
    {
        false
    }

    /// Every list-item type is accepted.
    fn validate_on_create(block_type: &BlockType) -> (r: Result<(), AppError>)
        ensures
            r is Ok,
    {
        Ok(())
    }
}

/// Checks that a `ListItem` is created under a `List`; other types are not
/// constrained here.
pub fn validate_parent_child_constraint(parent: &Block, block_type: &BlockType) -> (r: Result<(), AppError>)
    ensures
        r is Ok <==> (block_type is ListItem ==> parent.block_type is List),
        r matches Err(e) ==> e matches AppError::BadRequest(msg) && msg@
            == "ListItem 必须挂在 List 类型块下，实际父块类型为 "@ + block_type_debug(parent.block_type),
{
    match block_type {
        BlockType::ListItem => {
            let parent_is_list = match &parent.block_type {
                BlockType::List { .. } => true,
                _ => false,
            };
            if !parent_is_list {
                let mut msg = "ListItem 必须挂在 List 类型块下，实际父块类型为 ".to_owned();
                let d = parent.block_type.debug_text();
                push_str(&mut msg, d.as_str());
                return Err(AppError::BadRequest(msg));
            }
        },
        _ => {},
    }
    Ok(())
}

/// Checks that only a `ListItem` is added directly under a `List`.
pub fn validate_list_child_type(parent_type: &BlockType, child_type: &BlockType) -> (r: Result<(), AppError>)
    ensures
        r is Ok <==> (parent_type is List ==> child_type is ListItem),
        r matches Err(e) ==> e matches AppError::BadRequest(msg) && msg@
            == "List 块的直接子块必须是 ListItem，实际为 "@ + block_type_debug(*child_type),
{
    let parent_is_list = match parent_type {
        BlockType::List { .. } => true,
        _ => false,
    };
    if parent_is_list {
        let child_is_item = match child_type {
            BlockType::ListItem => true,
            _ => false,
        };
        if !child_is_item {
            let mut msg = "List 块的直接子块必须是 ListItem，实际为 ".to_owned();
            let d = child_type.debug_text();
            push_str(&mut msg, d.as_str());
            return Err(AppError::BadRequest(msg));
        }
    }
    Ok(())
}

} // verus!
