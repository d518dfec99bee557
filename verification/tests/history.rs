//! Undo and redo of recorded operations over the block store.

use std::collections::HashMap;

use wem_kernel::api::request::{CreateBlockReq, PropertiesMode, UpdateBlockReq};
use wem_kernel::model::oplog::ChangeType;
use wem_kernel::model::{BlockStatus, BlockType, ROOT_ID};
use wem_kernel::service::block::get_block;
use wem_kernel::service::history::{create_block_recorded, redo_changes, undo_changes, update_block_recorded};
use wem_kernel::service::store::BlockStore;

fn para(content: &str) -> CreateBlockReq {
    CreateBlockReq {
        parent_id: ROOT_ID.to_string(),
        block_type: BlockType::Paragraph,
        content: content.to_string(),
        properties: HashMap::new(),
        after_id: None,
    }
}

#[test]
fn undo_update_restores_content_and_redo_brings_it_back() {
    let mut db = BlockStore::new();
    let (c, _) = create_block_recorded(&mut db, para("original")).unwrap();
    let req = UpdateBlockReq {
        content: Some("updated".to_string()),
        block_type: None,
        properties: None,
        properties_mode: PropertiesMode::Merge,
    };
    let (u, changes) = update_block_recorded(&mut db, &c.id, req).unwrap();
    assert_eq!(u.content, b"updated".to_vec());
    assert_eq!(u.version, 2);
    assert_eq!(changes.len(), 1);
    assert_eq!(changes[0].block_id, c.id);
    assert_eq!(changes[0].change_type, ChangeType::Updated);
    assert_eq!(changes[0].before.as_ref().unwrap().content, b"original".to_vec());
    assert_eq!(changes[0].after.as_ref().unwrap().content, b"updated".to_vec());

    undo_changes(&mut db, &changes);
    let back = get_block(&db, &c.id, false).unwrap();
    assert_eq!(back.content, b"original".to_vec());
    assert_eq!(back.status, BlockStatus::Normal);

    redo_changes(&mut db, &changes);
    let again = get_block(&db, &c.id, false).unwrap();
    assert_eq!(again.content, b"updated".to_vec());
}

#[test]
fn undo_create_soft_deletes_and_redo_revives() {
    let mut db = BlockStore::new();
    let (c, changes) = create_block_recorded(&mut db, para("hello")).unwrap();
    assert_eq!(changes.len(), 1);
    assert_eq!(changes[0].change_type, ChangeType::Created);
    assert!(changes[0].before.is_none());

    undo_changes(&mut db, &changes);
    assert!(get_block(&db, &c.id, false).is_err());
    assert_eq!(get_block(&db, &c.id, true).unwrap().status, BlockStatus::Deleted);

    redo_changes(&mut db, &changes);
    let again = get_block(&db, &c.id, false).unwrap();
    assert_eq!(again.status, BlockStatus::Normal);
    assert_eq!(again.content, b"hello".to_vec());
}

#[test]
fn undo_of_nothing_changes_nothing() {
    let mut db = BlockStore::new();
    let (c, _) = create_block_recorded(&mut db, para("kept")).unwrap();
    undo_changes(&mut db, &Vec::new());
    assert_eq!(get_block(&db, &c.id, false).unwrap().content, b"kept".to_vec());
}
