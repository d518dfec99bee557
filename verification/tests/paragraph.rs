//! Splitting and merging blocks in the block store.

use std::collections::HashMap;

use wem_kernel::api::request::{CreateBlockReq, MergeReq, MoveBlockReq, SplitReq};
use wem_kernel::error::AppError;
use wem_kernel::model::{BlockStatus, BlockType, ROOT_ID};
use wem_kernel::service::block::{create_block, create_document, get_block, move_block};
use wem_kernel::service::paragraph::{merge_block, split_block, split_block_with};
use wem_kernel::service::store::BlockStore;

fn block(parent: &str, block_type: BlockType, content: &str, after: Option<String>) -> CreateBlockReq {
    CreateBlockReq {
        parent_id: parent.to_string(),
        block_type,
        content: content.to_string(),
        properties: HashMap::new(),
        after_id: after,
    }
}

fn split(before: &str, after: &str) -> SplitReq {
    SplitReq {
        content_before: before.to_string(),
        content_after: after.to_string(),
        new_block_type: None,
        nest_under_parent: None,
    }
}

fn merge_req() -> MergeReq {
    MergeReq { direction: "previous".to_string(), prev_content: None }
}

#[test]
fn split_keeps_text_before_and_adds_sibling_after() {
    let mut db = BlockStore::new();
    let doc = create_document(&mut db, "Doc".to_string(), None, None).unwrap();
    let p = create_block(&mut db, block(&doc.id, BlockType::Paragraph, "Hello world", None)).unwrap();
    let q = create_block(&mut db, block(&doc.id, BlockType::Paragraph, "next", Some(p.id.clone()))).unwrap();
    let res = split_block(&mut db, &p.id, split("Hello", " world")).unwrap();
    assert_eq!(res.updated_block.id, p.id);
    assert_eq!(res.updated_block.content, b"Hello");
    assert_eq!(res.updated_block.version, 2);
    assert_eq!(res.new_block.content, b" world");
    assert_eq!(res.new_block.parent_id, doc.id);
    assert_eq!(res.new_block.document_id, doc.id);
    assert_eq!(res.new_block.block_type, BlockType::Paragraph);
    assert_eq!(res.new_block.version, 1);
    assert!(res.new_block.position > p.position);
    assert!(res.new_block.position < q.position);
    let stored = get_block(&db, &res.new_block.id, false).unwrap();
    assert_eq!(stored.content, b" world");
}

#[test]
fn split_under_list_makes_list_item() {
    let mut db = BlockStore::new();
    let doc = create_document(&mut db, "Doc".to_string(), None, None).unwrap();
    let list = create_block(&mut db, block(&doc.id, BlockType::List { ordered: false }, "", None)).unwrap();
    let item = create_block(&mut db, block(&list.id, BlockType::ListItem, "ab", None)).unwrap();
    let res = split_block(&mut db, &item.id, split("a", "b")).unwrap();
    assert_eq!(res.new_block.block_type, BlockType::ListItem);
    assert_eq!(res.new_block.parent_id, list.id);
}

#[test]
fn split_with_requested_type() {
    let mut db = BlockStore::new();
    let h = create_block(&mut db, block(ROOT_ID, BlockType::Heading { level: 1 }, "Title", None)).unwrap();
    let req = SplitReq {
        content_before: "Title".to_string(),
        content_after: String::new(),
        new_block_type: Some(BlockType::Paragraph),
        nest_under_parent: None,
    };
    let res = split_block(&mut db, &h.id, req).unwrap();
    assert_eq!(res.new_block.block_type, BlockType::Paragraph);
    assert_eq!(res.new_block.content, b"");
}

#[test]
fn split_missing_block_fails() {
    let mut db = BlockStore::new();
    match split_block(&mut db, "nonexistent0000000", split("a", "b")) {
        Err(AppError::NotFound(msg)) => assert_eq!(msg, "Block nonexistent0000000 不存在或已删除"),
        other => panic!("预期 NotFound，实际: {:?}", other.map(|r| r.new_block.id)),
    }
}

#[test]
fn split_with_taken_identifier_fails() {
    let mut db = BlockStore::new();
    let p = create_block(&mut db, block(ROOT_ID, BlockType::Paragraph, "xy", None)).unwrap();
    match split_block_with(&mut db, &p.id, split("x", "y"), p.id.clone(), "t".to_string()) {
        Err(AppError::Internal(msg)) => assert_eq!(msg, "插入新 Block 失败: UNIQUE constraint failed: blocks.id"),
        other => panic!("预期 Internal，实际: {:?}", other.map(|r| r.new_block.id)),
    }
    assert_eq!(get_block(&db, &p.id, false).unwrap().content, b"xy");
}

#[test]
fn merge_appends_text_to_previous_sibling() {
    let mut db = BlockStore::new();
    let doc = create_document(&mut db, "Doc".to_string(), None, None).unwrap();
    let a = create_block(&mut db, block(&doc.id, BlockType::Paragraph, "Hello", None)).unwrap();
    let b = create_block(&mut db, block(&doc.id, BlockType::Paragraph, " world", None)).unwrap();
    let res = merge_block(&mut db, &b.id, merge_req()).unwrap();
    assert_eq!(res.merged_block.id, a.id);
    assert_eq!(res.merged_block.content, b"Hello world");
    assert_eq!(res.merged_block.version, 2);
    assert_eq!(res.deleted_block_id, b.id);
    let gone = get_block(&db, &b.id, true).unwrap();
    assert_eq!(gone.status, BlockStatus::Deleted);
    assert!(get_block(&db, &b.id, false).is_err());
}

#[test]
fn merge_moves_children_under_target() {
    let mut db = BlockStore::new();
    let doc = create_document(&mut db, "Doc".to_string(), None, None).unwrap();
    let a = create_block(&mut db, block(&doc.id, BlockType::Paragraph, "A", None)).unwrap();
    let a1 = create_block(&mut db, block(&a.id, BlockType::Paragraph, "a1", None)).unwrap();
    let b = create_block(&mut db, block(&doc.id, BlockType::Paragraph, "B", None)).unwrap();
    let c1 = create_block(&mut db, block(&b.id, BlockType::Paragraph, "c1", None)).unwrap();
    let c2 = create_block(&mut db, block(&b.id, BlockType::Paragraph, "c2", None)).unwrap();
    merge_block(&mut db, &b.id, merge_req()).unwrap();
    let m1 = get_block(&db, &c1.id, false).unwrap();
    let m2 = get_block(&db, &c2.id, false).unwrap();
    assert_eq!(m1.parent_id, a.id);
    assert_eq!(m2.parent_id, a.id);
    assert!(m1.position > a1.position);
    assert!(m2.position > m1.position);
    assert_eq!(m1.document_id, doc.id);
}

#[test]
fn merge_first_child_into_parent() {
    let mut db = BlockStore::new();
    let doc = create_document(&mut db, "Doc".to_string(), None, None).unwrap();
    let p = create_block(&mut db, block(&doc.id, BlockType::Paragraph, "P", None)).unwrap();
    let c = create_block(&mut db, block(&p.id, BlockType::Paragraph, "C", None)).unwrap();
    let res = merge_block(&mut db, &c.id, merge_req()).unwrap();
    assert_eq!(res.merged_block.id, p.id);
    assert_eq!(res.merged_block.content, b"PC");
}

#[test]
fn merge_first_child_of_root_fails() {
    let mut db = BlockStore::new();
    let p = create_block(&mut db, block(ROOT_ID, BlockType::Paragraph, "P", None)).unwrap();
    let first = MoveBlockReq { target_parent_id: Some(ROOT_ID.to_string()), before_id: None, after_id: None };
    move_block(&mut db, &p.id, first).unwrap();
    match merge_block(&mut db, &p.id, merge_req()) {
        Err(AppError::BadRequest(msg)) => assert_eq!(msg, format!("Block {} 是根块的第一个子块，无法合并", p.id)),
        other => panic!("预期 BadRequest，实际: {:?}", other.map(|r| r.deleted_block_id)),
    }
}

#[test]
fn merge_after_root_goes_into_root() {
    let mut db = BlockStore::new();
    let p = create_block(&mut db, block(ROOT_ID, BlockType::Paragraph, "P", None)).unwrap();
    let res = merge_block(&mut db, &p.id, merge_req()).unwrap();
    assert_eq!(res.merged_block.id, ROOT_ID);
    assert_eq!(res.merged_block.content, b"P");
}

#[test]
fn merge_root_fails() {
    let mut db = BlockStore::new();
    match merge_block(&mut db, ROOT_ID, merge_req()) {
        Err(AppError::BadRequest(msg)) => assert_eq!(msg, "全局根块不可合并"),
        other => panic!("预期 BadRequest，实际: {:?}", other.map(|r| r.deleted_block_id)),
    }
}

#[test]
fn merge_into_list_fails() {
    let mut db = BlockStore::new();
    let doc = create_document(&mut db, "Doc".to_string(), None, None).unwrap();
    let list = create_block(&mut db, block(&doc.id, BlockType::List { ordered: true }, "", None)).unwrap();
    let item = create_block(&mut db, block(&list.id, BlockType::ListItem, "x", None)).unwrap();
    match merge_block(&mut db, &item.id, merge_req()) {
        Err(AppError::BadRequest(msg)) => assert!(msg.starts_with("不能合并到 List 容器块")),
        other => panic!("预期 BadRequest，实际: {:?}", other.map(|r| r.deleted_block_id)),
    }
    assert_eq!(get_block(&db, &item.id, false).unwrap().content, b"x");
}

#[test]
fn merge_missing_block_fails() {
    let mut db = BlockStore::new();
    match merge_block(&mut db, "nonexistent0000000", merge_req()) {
        Err(AppError::NotFound(msg)) => assert_eq!(msg, "Block nonexistent0000000 不存在或已删除"),
        other => panic!("预期 NotFound，实际: {:?}", other.map(|r| r.deleted_block_id)),
    }
}

#[test]
fn split_then_merge_restores_text() {
    let mut db = BlockStore::new();
    let doc = create_document(&mut db, "Doc".to_string(), None, None).unwrap();
    let p = create_block(&mut db, block(&doc.id, BlockType::Paragraph, "Hello world", None)).unwrap();
    let res = split_block(&mut db, &p.id, split("Hello", " world")).unwrap();
    let merged = merge_block(&mut db, &res.new_block.id, merge_req()).unwrap();
    assert_eq!(merged.merged_block.id, p.id);
    assert_eq!(merged.merged_block.content, b"Hello world");
}

#[test]
fn split_nested_goes_first_under_block() {
    let mut db = BlockStore::new();
    let doc = create_document(&mut db, "Doc".to_string(), None, None).unwrap();
    let h = create_block(&mut db, block(&doc.id, BlockType::Heading { level: 2 }, "Title", None)).unwrap();
    let old = create_block(&mut db, block(&h.id, BlockType::Paragraph, "old", None)).unwrap();
    let req = SplitReq {
        content_before: "Title".to_string(),
        content_after: String::new(),
        new_block_type: Some(BlockType::Paragraph),
        nest_under_parent: Some(true),
    };
    let res = split_block(&mut db, &h.id, req).unwrap();
    assert_eq!(res.new_block.parent_id, h.id);
    assert_eq!(res.new_block.document_id, doc.id);
    assert!(res.new_block.position < old.position);
}
