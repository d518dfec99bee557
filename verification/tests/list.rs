//! List nesting rules.

use wem_kernel::model::{Block, BlockType};
use wem_kernel::service::list::{validate_list_child_type, validate_parent_child_constraint, ListItemOps, ListOps};
use wem_kernel::service::traits::BlockTypeOps;

#[test]
fn list_ops_validate_on_create_ordered() {
    assert!(ListOps::validate_on_create(&BlockType::List { ordered: true }).is_ok());
}

#[test]
fn list_ops_validate_on_create_unordered() {
    assert!(ListOps::validate_on_create(&BlockType::List { ordered: false }).is_ok());
}

#[test]
fn list_item_ops_validate_on_create() {
    assert!(ListItemOps::validate_on_create(&BlockType::ListItem).is_ok());
}

#[test]
fn validate_parent_child_list_item_under_list() {
    let parent = Block {
        id: "test-list".into(),
        parent_id: "root".into(),
        document_id: "doc1".into(),
        position: "a0".into(),
        block_type: BlockType::List { ordered: false },
        content: Vec::new(),
        properties: std::collections::HashMap::new(),
        version: 1,
        status: wem_kernel::model::BlockStatus::Normal,
        schema_version: 1,
        author: "system".into(),
        owner_id: None,
        encrypted: false,
        created: "2025-01-01T00:00:00Z".into(),
        modified: "2025-01-01T00:00:00Z".into(),
    };

    assert!(validate_parent_child_constraint(&parent, &BlockType::ListItem).is_ok());
}

#[test]
fn validate_parent_child_list_item_under_paragraph_fails() {
    let parent = Block {
        id: "test-para".into(),
        parent_id: "root".into(),
        document_id: "doc1".into(),
        position: "a0".into(),
        block_type: BlockType::Paragraph,
        content: Vec::new(),
        properties: std::collections::HashMap::new(),
        version: 1,
        status: wem_kernel::model::BlockStatus::Normal,
        schema_version: 1,
        author: "system".into(),
        owner_id: None,
        encrypted: false,
        created: "2025-01-01T00:00:00Z".into(),
        modified: "2025-01-01T00:00:00Z".into(),
    };

    let result = validate_parent_child_constraint(&parent, &BlockType::ListItem);
    assert!(result.is_err());
}

#[test]
fn validate_list_child_type_list_item_ok() {
    assert!(validate_list_child_type(
        &BlockType::List { ordered: true },
        &BlockType::ListItem,
    ).is_ok());
}

#[test]
fn validate_list_child_type_paragraph_fails() {
    assert!(validate_list_child_type(
        &BlockType::List { ordered: true },
        &BlockType::Paragraph,
    ).is_err());
}
