//! Headings in the block store: moves through the flat list, section moves,
//! type changes, and the tree rebuilt from heading levels.

use std::collections::HashMap;

use wem_kernel::api::request::{BatchOp, BatchReq, CreateBlockReq, MoveBlockReq, PropertiesMode, UpdateBlockReq};
use wem_kernel::error::AppError;
use wem_kernel::model::{Block, BlockType};
use wem_kernel::service::batch::batch_operations;
use wem_kernel::service::block::{create_block, create_document, get_block, get_children, move_block, update_block};
use wem_kernel::service::heading::{move_heading_tree, MoveHeadingTreeReq};
use wem_kernel::service::outline::flat_row_list;
use wem_kernel::service::store::BlockStore;

fn block(parent: &str, block_type: BlockType, content: &str, after: Option<String>) -> CreateBlockReq {
    CreateBlockReq {
        parent_id: parent.to_string(),
        block_type,
        content: content.to_string(),
        properties: HashMap::new(),
        after_id: after,
    }
}

fn children(db: &BlockStore, id: &str) -> Vec<Block> {
    get_children(db, id, 500, None).unwrap().blocks
}

fn flat_ids(db: &BlockStore, doc: &str) -> Vec<String> {
    flat_row_list(db, doc).into_iter().map(|r| db.row_at(r).id.clone()).collect()
}

#[test]
fn move_heading_within_document() {
    let mut db = BlockStore::new();
    let doc = create_document(&mut db, "Test Doc".to_string(), None, None).unwrap();
    let p1 = create_block(&mut db, block(&doc.id, BlockType::Paragraph, "p1", None)).unwrap();
    let h2 = create_block(&mut db, block(&doc.id, BlockType::Heading { level: 2 }, "Section", Some(p1.id.clone()))).unwrap();
    let _p2 = create_block(&mut db, block(&doc.id, BlockType::Paragraph, "p2", Some(h2.id.clone()))).unwrap();
    let moved = move_block(
        &mut db,
        &h2.id,
        MoveBlockReq { target_parent_id: None, before_id: Some(p1.id.clone()), after_id: None },
    )
    .unwrap();
    let h2_children = children(&db, &h2.id);
    assert_eq!(moved.id, h2.id);
    assert!(h2_children.len() >= 1, "h2 should absorb siblings after move");
}

#[test]
fn move_heading_after_own_child_promotes_and_moves() {
    let mut db = BlockStore::new();
    let doc = create_document(&mut db, "Doc".to_string(), None, None).unwrap();
    let h2 = create_block(&mut db, block(&doc.id, BlockType::Heading { level: 2 }, "Section", None)).unwrap();
    let p1 = create_block(&mut db, block(&h2.id, BlockType::Paragraph, "p1", None)).unwrap();
    let p2 = create_block(&mut db, block(&h2.id, BlockType::Paragraph, "p2", None)).unwrap();
    let p3 = create_block(&mut db, block(&h2.id, BlockType::Paragraph, "p3", None)).unwrap();
    let moved = move_block(
        &mut db,
        &h2.id,
        MoveBlockReq { target_parent_id: None, before_id: None, after_id: Some(p2.id.clone()) },
    )
    .unwrap();
    assert_eq!(moved.parent_id, doc.id);
    let doc_children = children(&db, &doc.id);
    let h2_children = children(&db, &h2.id);
    assert!(doc_children.iter().any(|c| c.id == p1.id), "p1 should be at doc level");
    assert!(doc_children.iter().any(|c| c.id == p2.id), "p2 should be at doc level");
    assert!(doc_children.iter().any(|c| c.id == h2.id), "h2 should be at doc level");
    assert!(h2_children.iter().any(|c| c.id == p3.id), "p3 should be re-absorbed by h2");
    let pos_p1 = doc_children.iter().find(|c| c.id == p1.id).unwrap().position.as_str();
    let pos_p2 = doc_children.iter().find(|c| c.id == p2.id).unwrap().position.as_str();
    let pos_h2 = doc_children.iter().find(|c| c.id == h2.id).unwrap().position.as_str();
    assert!(pos_p1 < pos_p2, "p1 should be before p2");
    assert!(pos_p2 < pos_h2, "p2 should be before h2");
}

#[test]
fn move_heading_same_doc_children_follow() {
    let mut db = BlockStore::new();
    let doc = create_document(&mut db, "Doc".to_string(), None, None).unwrap();
    let p1 = create_block(&mut db, block(&doc.id, BlockType::Paragraph, "p1", None)).unwrap();
    let h2 = create_block(&mut db, block(&doc.id, BlockType::Heading { level: 2 }, "Section", None)).unwrap();
    let _p2 = create_block(&mut db, block(&doc.id, BlockType::Paragraph, "p2", Some(h2.id.clone()))).unwrap();
    let moved = move_block(
        &mut db,
        &h2.id,
        MoveBlockReq { target_parent_id: None, before_id: Some(p1.id.clone()), after_id: None },
    )
    .unwrap();
    let h2_children = children(&db, &h2.id);
    assert!(h2_children.len() >= 1, "h2 should have children after same-doc move");
    assert_eq!(moved.parent_id, doc.id);
}

#[test]
fn flat_list_is_reading_order() {
    let mut db = BlockStore::new();
    let doc = create_document(&mut db, "Doc".to_string(), None, None).unwrap();
    let a = create_block(&mut db, block(&doc.id, BlockType::Heading { level: 1 }, "A", None)).unwrap();
    let a1 = create_block(&mut db, block(&a.id, BlockType::Paragraph, "a1", None)).unwrap();
    let b = create_block(&mut db, block(&doc.id, BlockType::Paragraph, "B", None)).unwrap();
    let first = create_block(&mut db, block(&doc.id, BlockType::Paragraph, "first", None)).unwrap();
    let intro = children(&db, &doc.id)[0].id.clone();
    move_block(&mut db, &first.id, MoveBlockReq { target_parent_id: Some(doc.id.clone()), before_id: None, after_id: None })
        .unwrap();
    assert_eq!(flat_ids(&db, &doc.id), vec![first.id, intro, a.id, a1.id, b.id]);
}

#[test]
fn move_heading_tree_moves_section() {
    let mut db = BlockStore::new();
    let doc = create_document(&mut db, "Doc".to_string(), None, None).unwrap();
    let a = create_block(&mut db, block(&doc.id, BlockType::Heading { level: 1 }, "A", None)).unwrap();
    let a1 = create_block(&mut db, block(&a.id, BlockType::Paragraph, "a1", None)).unwrap();
    let b = create_block(&mut db, block(&doc.id, BlockType::Heading { level: 1 }, "B", None)).unwrap();
    let b1 = create_block(&mut db, block(&b.id, BlockType::Paragraph, "b1", None)).unwrap();
    let intro = children(&db, &doc.id)[0].id.clone();
    let req = MoveHeadingTreeReq { id: a.id.clone(), editor_id: None, before_id: None, after_id: Some(b.id.clone()) };
    let moved = move_heading_tree(&mut db, req).unwrap();
    assert_eq!(moved.id, a.id);
    assert_eq!(moved.parent_id, doc.id);
    assert_eq!(flat_ids(&db, &doc.id), vec![intro, b.id.clone(), b1.id.clone(), a.id.clone(), a1.id.clone()]);
    assert_eq!(get_block(&db, &a1.id, false).unwrap().parent_id, a.id);
    assert_eq!(get_block(&db, &b1.id, false).unwrap().parent_id, b.id);
}

#[test]
fn move_heading_tree_errors() {
    let mut db = BlockStore::new();
    let doc = create_document(&mut db, "Doc".to_string(), None, None).unwrap();
    let p = create_block(&mut db, block(&doc.id, BlockType::Paragraph, "p", None)).unwrap();
    let req = MoveHeadingTreeReq { id: p.id.clone(), editor_id: None, before_id: None, after_id: None };
    match move_heading_tree(&mut db, req) {
        Err(AppError::BadRequest(m)) => assert_eq!(m, "move_heading_tree 只能移动 Heading 类型"),
        other => panic!("预期 BadRequest，实际: {:?}", other.map(|b| b.id)),
    }
    let req = MoveHeadingTreeReq { id: "missing000000000000".into(), editor_id: None, before_id: None, after_id: None };
    match move_heading_tree(&mut db, req) {
        Err(AppError::NotFound(m)) => assert_eq!(m, "Block missing000000000000 不存在或已删除"),
        other => panic!("预期 NotFound，实际: {:?}", other.map(|b| b.id)),
    }
}

#[test]
fn turning_paragraph_into_heading_rebuilds_tree() {
    let mut db = BlockStore::new();
    let doc = create_document(&mut db, "Doc".to_string(), None, None).unwrap();
    let p = create_block(&mut db, block(&doc.id, BlockType::Paragraph, "Title", None)).unwrap();
    let q = create_block(&mut db, block(&doc.id, BlockType::Paragraph, "body", None)).unwrap();
    let req = UpdateBlockReq {
        content: None,
        block_type: Some(BlockType::Heading { level: 1 }),
        properties: None,
        properties_mode: PropertiesMode::Merge,
    };
    let h = update_block(&mut db, &p.id, req).unwrap();
    assert_eq!(h.block_type, BlockType::Heading { level: 1 });
    assert_eq!(get_block(&db, &q.id, false).unwrap().parent_id, p.id);
    let req = UpdateBlockReq {
        content: None,
        block_type: Some(BlockType::Paragraph),
        properties: None,
        properties_mode: PropertiesMode::Merge,
    };
    update_block(&mut db, &p.id, req).unwrap();
    assert_eq!(get_block(&db, &q.id, false).unwrap().parent_id, doc.id);
}

#[test]
fn heading_moved_to_other_document_rebuilds_it() {
    let mut db = BlockStore::new();
    let d1 = create_document(&mut db, "One".to_string(), None, None).unwrap();
    let d2 = create_document(&mut db, "Two".to_string(), None, None).unwrap();
    let h = create_block(&mut db, block(&d1.id, BlockType::Heading { level: 2 }, "H", None)).unwrap();
    let x = create_block(&mut db, block(&d2.id, BlockType::Paragraph, "x", None)).unwrap();
    let intro = children(&db, &d2.id)[0].id.clone();
    move_block(&mut db, &h.id, MoveBlockReq { target_parent_id: Some(d2.id.clone()), before_id: None, after_id: None })
        .unwrap();
    let moved = get_block(&db, &h.id, false).unwrap();
    assert_eq!(moved.parent_id, d2.id);
    assert_eq!(moved.document_id, d2.id);
    assert_eq!(get_block(&db, &x.id, false).unwrap().parent_id, h.id);
    assert_eq!(flat_ids(&db, &d2.id), vec![h.id.clone(), intro, x.id.clone()]);
}

#[test]
fn batch_move_heading_to_other_document() {
    let mut db = BlockStore::new();
    let d1 = create_document(&mut db, "One".to_string(), None, None).unwrap();
    let d2 = create_document(&mut db, "Two".to_string(), None, None).unwrap();
    let x = create_block(&mut db, block(&d2.id, BlockType::Paragraph, "x", None)).unwrap();
    let h = create_block(&mut db, block(&d1.id, BlockType::Heading { level: 2 }, "H", None)).unwrap();
    let req = BatchReq {
        operations: vec![BatchOp::Move {
            block_id: h.id.clone(),
            target_parent_id: Some(d2.id.clone()),
            before_id: None,
            after_id: None,
        }],
    };
    let res = batch_operations(&mut db, req).unwrap();
    assert!(res.results[0].error.is_none());
    let moved = get_block(&db, &h.id, false).unwrap();
    assert_eq!(moved.parent_id, d2.id);
    assert_eq!(moved.document_id, d2.id);
    assert_eq!(res.results[0].version, Some(moved.version));
    assert_eq!(moved.version, 3);
    assert_eq!(get_block(&db, &x.id, false).unwrap().parent_id, h.id);
}
