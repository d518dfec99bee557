//! Block CRUD against the block store: create, read, update, delete,
//! restore, move, documents.

use std::collections::HashMap;

use wem_kernel::api::request::{CreateBlockReq, MoveBlockReq, PropertiesMode, UpdateBlockReq};
use wem_kernel::error::AppError;
use wem_kernel::model::{BlockStatus, BlockType, ROOT_ID};
use wem_kernel::service::block::{
    create_block, create_document, delete_block, delete_tree, get_block, get_children, get_document_tree, get_root,
    list_root_documents, move_block, restore_block, update_block, update_block_versioned, delete_block_versioned,
    parent_is_child,
};
use wem_kernel::service::store::BlockStore;

fn para(parent: &str, content: &str, after: Option<String>) -> CreateBlockReq {
    CreateBlockReq {
        parent_id: parent.to_string(),
        block_type: BlockType::Paragraph,
        content: content.to_string(),
        properties: HashMap::new(),
        after_id: after,
    }
}

fn content_update(content: &str) -> UpdateBlockReq {
    UpdateBlockReq {
        content: Some(content.to_string()),
        block_type: None,
        properties: None,
        properties_mode: PropertiesMode::Merge,
    }
}

// ── get_root ─────────────────────────────────────────

#[test]
fn block_get_root_returns_root_block() {
    let db = BlockStore::new();
    let root = get_block(&db, ROOT_ID, false).unwrap();
    assert_eq!(root.id, ROOT_ID);
    assert_eq!(root.parent_id, ROOT_ID);
    let root = get_root(&db).unwrap();
    assert_eq!(root.id, ROOT_ID);
    assert_eq!(root.parent_id, ROOT_ID);
}

// ── create_block ─────────────────────────────────────

#[test]
fn block_create_block_under_root() {
    let mut db = BlockStore::new();
    let block = create_block(&mut db, para(ROOT_ID, "Hello world", None)).unwrap();
    assert_eq!(block.parent_id, ROOT_ID);
    assert_eq!(block.block_type, BlockType::Paragraph);
    assert_eq!(block.content, b"Hello world");
    assert_eq!(block.version, 1);
    assert_eq!(block.status, BlockStatus::Normal);
}

#[test]
fn block_create_block_with_after_id() {
    let mut db = BlockStore::new();
    let block1 = create_block(&mut db, para(ROOT_ID, "first", None)).unwrap();
    let block2 = create_block(&mut db, para(ROOT_ID, "second", Some(block1.id.clone()))).unwrap();
    assert!(block2.position > block1.position);
}

#[test]
fn block_create_block_nonexistent_parent_fails() {
    let mut db = BlockStore::new();
    let result = create_block(&mut db, para("nonexistent0000000", "test", None));
    assert!(result.is_err());
    match result.unwrap_err() {
        AppError::BadRequest(msg) => assert!(msg.contains("不存在")),
        other => panic!("预期 BadRequest，实际: {:?}", other),
    }
}

#[test]
fn create_block_between_siblings_and_rules() {
    let mut db = BlockStore::new();
    let a = create_block(&mut db, para(ROOT_ID, "a", None)).unwrap();
    let c = create_block(&mut db, para(ROOT_ID, "c", None)).unwrap();
    let b = create_block(&mut db, para(ROOT_ID, "b", Some(a.id.clone()))).unwrap();
    assert!(a.position < b.position && b.position < c.position);
    assert_eq!(a.position, "a1");
    assert_eq!(c.position, "a2");
    // A list item needs a list parent.
    let item = CreateBlockReq {
        parent_id: a.id.clone(),
        block_type: BlockType::ListItem,
        content: String::new(),
        properties: HashMap::new(),
        after_id: None,
    };
    match create_block(&mut db, item) {
        Err(AppError::BadRequest(msg)) => assert_eq!(msg, "ListItem 必须挂在 List 类型块下，实际父块类型为 Paragraph"),
        other => panic!("unexpected {:?}", other),
    }
    // A heading level outside 1..=6 is refused.
    let bad = CreateBlockReq {
        parent_id: ROOT_ID.to_string(),
        block_type: BlockType::Heading { level: 7 },
        content: String::new(),
        properties: HashMap::new(),
        after_id: None,
    };
    assert!(matches!(create_block(&mut db, bad), Err(AppError::BadRequest(_))));
    // An anchor that is not a child of the parent is refused.
    match create_block(&mut db, para(ROOT_ID, "x", Some("zzz".to_string()))) {
        Err(AppError::BadRequest(msg)) => assert_eq!(msg, "Block zzz 不是 / 的有效子块"),
        other => panic!("unexpected {:?}", other),
    }
}

// ── get_block ────────────────────────────────────────

#[test]
fn block_get_block_returns_existing() {
    let mut db = BlockStore::new();
    let created = create_block(&mut db, para(ROOT_ID, "fetch me", None)).unwrap();
    let fetched = get_block(&db, &created.id, false).unwrap();
    assert_eq!(fetched.id, created.id);
    assert_eq!(fetched.content, b"fetch me");
}

#[test]
fn block_get_block_nonexistent_fails() {
    let db = BlockStore::new();
    let result = get_block(&db, "nonexistent0000000", false);
    assert!(result.is_err());
    match result.unwrap_err() {
        AppError::NotFound(_) => {}
        other => panic!("预期 NotFound，实际: {:?}", other),
    }
}

// ── create_document ──────────────────────────────────

#[test]
fn block_create_root_document() {
    let mut db = BlockStore::new();
    let doc = create_document(&mut db, "My First Doc".to_string(), None, None).unwrap();
    assert_eq!(doc.block_type, BlockType::Document);
    assert_eq!(doc.parent_id, ROOT_ID);
    assert_eq!(doc.content, b"My First Doc");
    assert_eq!(doc.properties.get("title").unwrap(), "My First Doc");
    let tree = get_document_tree(&db, &doc.id).unwrap();
    assert_eq!(tree.blocks.len(), 1);
    assert_eq!(tree.blocks[0].block_type, BlockType::Paragraph);
}

#[test]
fn block_create_sub_document() {
    let mut db = BlockStore::new();
    let parent = create_document(&mut db, "Parent Doc".to_string(), None, None).unwrap();
    let child = create_document(&mut db, "Child Doc".to_string(), Some(parent.id.clone()), None).unwrap();
    assert_eq!(child.parent_id, parent.id);
    assert_eq!(child.content, b"Child Doc");
}

#[test]
fn block_create_document_with_position() {
    let mut db = BlockStore::new();
    let doc1 = create_document(&mut db, "Doc 1".to_string(), None, None).unwrap();
    let doc2 = create_document(&mut db, "Doc 2".to_string(), None, Some(doc1.id.clone())).unwrap();
    assert!(doc2.position > doc1.position);
}

#[test]
fn create_document_under_non_document_fails() {
    let mut db = BlockStore::new();
    let p = create_block(&mut db, para(ROOT_ID, "p", None)).unwrap();
    match create_document(&mut db, "D".to_string(), Some(p.id.clone()), None) {
        Err(AppError::BadRequest(msg)) => assert_eq!(msg, "parent_id 必须指向文档类型的 Block"),
        other => panic!("unexpected {:?}", other),
    }
    match create_document(&mut db, "D".to_string(), Some("ghost".to_string()), None) {
        Err(AppError::BadRequest(msg)) => assert_eq!(msg, "父文档 ghost 不存在"),
        other => panic!("unexpected {:?}", other),
    }
}

// ── update_block ─────────────────────────────────────

#[test]
fn block_update_block_content_success() {
    let mut db = BlockStore::new();
    let created = create_block(&mut db, para(ROOT_ID, "original", None)).unwrap();
    let updated = update_block(&mut db, &created.id, content_update("updated")).unwrap();
    assert_eq!(updated.content, b"updated");
    assert_eq!(updated.version, 2);
}

#[test]
fn block_update_block_merge_properties() {
    let mut db = BlockStore::new();
    let mut props = HashMap::new();
    props.insert("key1".to_string(), "val1".to_string());
    let mut req = para(ROOT_ID, "test", None);
    req.properties = props;
    let created = create_block(&mut db, req).unwrap();
    let mut new_props = HashMap::new();
    new_props.insert("key2".to_string(), "val2".to_string());
    let updated = update_block(
        &mut db,
        &created.id,
        UpdateBlockReq {
            content: None,
            block_type: None,
            properties: Some(new_props),
            properties_mode: PropertiesMode::Merge,
        },
    )
    .unwrap();
    assert_eq!(updated.properties.get("key1").unwrap(), "val1");
    assert_eq!(updated.properties.get("key2").unwrap(), "val2");
}

#[test]
fn block_update_block_replace_properties() {
    let mut db = BlockStore::new();
    let mut props = HashMap::new();
    props.insert("key1".to_string(), "val1".to_string());
    let mut req = para(ROOT_ID, "test", None);
    req.properties = props;
    let created = create_block(&mut db, req).unwrap();
    let mut new_props = HashMap::new();
    new_props.insert("key2".to_string(), "val2".to_string());
    let updated = update_block(
        &mut db,
        &created.id,
        UpdateBlockReq {
            content: None,
            block_type: None,
            properties: Some(new_props),
            properties_mode: PropertiesMode::Replace,
        },
    )
    .unwrap();
    assert!(updated.properties.get("key1").is_none());
    assert_eq!(updated.properties.get("key2").unwrap(), "val2");
}

#[test]
fn update_block_into_list_and_back() {
    let mut db = BlockStore::new();
    let p = create_block(&mut db, para(ROOT_ID, "item text", None)).unwrap();
    let to_list = UpdateBlockReq {
        content: None,
        block_type: Some(BlockType::List { ordered: false }),
        properties: None,
        properties_mode: PropertiesMode::Merge,
    };
    let list = update_block(&mut db, &p.id, to_list).unwrap();
    assert_eq!(list.content, b"");
    assert_eq!(list.version, 3);
    let page = get_children(&db, &p.id, 10, None).unwrap();
    assert_eq!(page.blocks.len(), 1);
    assert_eq!(page.blocks[0].block_type, BlockType::ListItem);
    assert_eq!(page.blocks[0].content, b"item text");
    assert_eq!(page.blocks[0].position, "a0");
    let back = UpdateBlockReq {
        content: None,
        block_type: Some(BlockType::Paragraph),
        properties: None,
        properties_mode: PropertiesMode::Merge,
    };
    let para_again = update_block(&mut db, &p.id, back).unwrap();
    assert_eq!(para_again.content, b"item text");
    assert_eq!(para_again.block_type, BlockType::Paragraph);
    assert_eq!(get_children(&db, &p.id, 10, None).unwrap().blocks.len(), 0);
}

#[test]
fn update_missing_block_fails() {
    let mut db = BlockStore::new();
    match update_block(&mut db, "nope", content_update("x")) {
        Err(AppError::NotFound(msg)) => assert_eq!(msg, "Block nope 不存在或已删除"),
        other => panic!("unexpected {:?}", other),
    }
}

// ── delete_block ─────────────────────────────────────

#[test]
fn block_delete_block_soft_deletes() {
    let mut db = BlockStore::new();
    let created = create_block(&mut db, para(ROOT_ID, "delete me", None)).unwrap();
    let result = delete_block(&mut db, &created.id).unwrap();
    assert_eq!(result.id, created.id);
    assert_eq!(result.cascade_count, 0);
    assert!(get_block(&db, &created.id, false).is_err());
    let deleted = get_block(&db, &created.id, true).unwrap();
    assert_eq!(deleted.status, BlockStatus::Deleted);
}

#[test]
fn delete_block_promotes_children() {
    let mut db = BlockStore::new();
    let doc = create_document(&mut db, "Promote Doc".to_string(), None, None).unwrap();
    let heading = create_block(
        &mut db,
        CreateBlockReq {
            parent_id: doc.id.clone(),
            block_type: BlockType::Heading { level: 2 },
            content: "Section".to_string(),
            properties: HashMap::new(),
            after_id: None,
        },
    )
    .unwrap();
    let child = create_block(&mut db, para(&heading.id, "child content", None)).unwrap();
    let result = delete_block(&mut db, &heading.id).unwrap();
    assert_eq!(result.id, heading.id);
    assert_eq!(result.cascade_count, 0);
    assert!(get_block(&db, &heading.id, false).is_err());
    let promoted = get_block(&db, &child.id, false).unwrap();
    assert_eq!(promoted.parent_id, doc.id);
    assert!(promoted.position > heading.position);
}

#[test]
fn delete_tree_cascades_to_children() {
    let mut db = BlockStore::new();
    let doc = create_document(&mut db, "Cascade Doc".to_string(), None, None).unwrap();
    let result = delete_tree(&mut db, &doc.id).unwrap();
    assert!(result.cascade_count >= 1);
    assert!(get_block(&db, &doc.id, false).is_err());
}

#[test]
fn block_delete_root_block_forbidden() {
    let mut db = BlockStore::new();
    let result = delete_block(&mut db, ROOT_ID);
    assert!(result.is_err());
    match result.unwrap_err() {
        AppError::BadRequest(msg) => assert!(msg.contains("不可删除")),
        other => panic!("预期 BadRequest，实际: {:?}", other),
    }
}

#[test]
fn deleting_last_list_item_removes_list() {
    let mut db = BlockStore::new();
    let list = create_block(
        &mut db,
        CreateBlockReq {
            parent_id: ROOT_ID.to_string(),
            block_type: BlockType::List { ordered: true },
            content: String::new(),
            properties: HashMap::new(),
            after_id: None,
        },
    )
    .unwrap();
    let item = create_block(
        &mut db,
        CreateBlockReq {
            parent_id: list.id.clone(),
            block_type: BlockType::ListItem,
            content: "only".to_string(),
            properties: HashMap::new(),
            after_id: None,
        },
    )
    .unwrap();
    delete_block(&mut db, &item.id).unwrap();
    assert!(get_block(&db, &list.id, false).is_err());
}

// ── restore_block ────────────────────────────────────

#[test]
fn block_restore_deleted_block() {
    let mut db = BlockStore::new();
    let created = create_block(&mut db, para(ROOT_ID, "restore me", None)).unwrap();
    delete_block(&mut db, &created.id).unwrap();
    let result = restore_block(&mut db, &created.id).unwrap();
    assert_eq!(result.id, created.id);
    let restored = get_block(&db, &created.id, false).unwrap();
    assert_eq!(restored.status, BlockStatus::Normal);
}

#[test]
fn block_restore_normal_block_fails() {
    let mut db = BlockStore::new();
    let created = create_block(&mut db, para(ROOT_ID, "normal", None)).unwrap();
    let result = restore_block(&mut db, &created.id);
    assert!(result.is_err());
}

#[test]
fn restore_tree_brings_back_descendants() {
    let mut db = BlockStore::new();
    let doc = create_document(&mut db, "T".to_string(), None, None).unwrap();
    let d = delete_tree(&mut db, &doc.id).unwrap();
    assert_eq!(d.cascade_count, 1);
    let r = restore_block(&mut db, &doc.id).unwrap();
    assert_eq!(r.cascade_count, 1);
    assert_eq!(get_document_tree(&db, &doc.id).unwrap().blocks.len(), 1);
}

// ── move_block ───────────────────────────────────────

#[test]
fn block_move_block_to_new_parent() {
    let mut db = BlockStore::new();
    let doc1 = create_document(&mut db, "Doc 1".to_string(), None, None).unwrap();
    let doc2 = create_document(&mut db, "Doc 2".to_string(), None, None).unwrap();
    let moved = move_block(
        &mut db,
        &doc2.id,
        MoveBlockReq { target_parent_id: Some(doc1.id.clone()), before_id: None, after_id: None },
    )
    .unwrap();
    assert_eq!(moved.parent_id, doc1.id);
    assert_eq!(moved.version, 2);
}

#[test]
fn block_move_root_block_forbidden() {
    let mut db = BlockStore::new();
    let result = move_block(
        &mut db,
        ROOT_ID,
        MoveBlockReq { target_parent_id: Some("any".to_string()), before_id: None, after_id: None },
    );
    assert!(result.is_err());
}

#[test]
fn block_move_block_cycle_detection() {
    let mut db = BlockStore::new();
    let doc = create_document(&mut db, "Doc".to_string(), None, None).unwrap();
    let result = move_block(
        &mut db,
        &doc.id,
        MoveBlockReq { target_parent_id: Some(doc.id.clone()), before_id: None, after_id: None },
    );
    assert!(result.is_err());
    match result.unwrap_err() {
        AppError::BadRequest(_) => {}
        AppError::CycleReference => {}
        other => panic!("预期移动错误，实际: {:?}", other),
    }
}

#[test]
fn move_paragraph_between_siblings() {
    let mut db = BlockStore::new();
    let a = create_block(&mut db, para(ROOT_ID, "a", None)).unwrap();
    let b = create_block(&mut db, para(ROOT_ID, "b", None)).unwrap();
    let c = create_block(&mut db, para(ROOT_ID, "c", None)).unwrap();
    let moved = move_block(
        &mut db,
        &c.id,
        MoveBlockReq { target_parent_id: None, before_id: Some(b.id.clone()), after_id: Some(a.id.clone()) },
    )
    .unwrap();
    assert!(a.position < moved.position && moved.position < b.position);
    // Into itself: nothing happens.
    let same = move_block(
        &mut db,
        &a.id,
        MoveBlockReq { target_parent_id: Some(a.id.clone()), before_id: None, after_id: None },
    )
    .unwrap();
    assert_eq!(same.version, a.version);
}

// ── list_root_documents / get_document_tree / get_children ──

#[test]
fn block_list_root_documents_after_create() {
    let mut db = BlockStore::new();
    create_document(&mut db, "Doc 1".to_string(), None, None).unwrap();
    create_document(&mut db, "Doc 2".to_string(), None, None).unwrap();
    let docs = list_root_documents(&db);
    assert!(docs.len() >= 2);
    let titles: Vec<&str> = docs.iter().filter_map(|d| d.properties.get("title").map(|s| s.as_str())).collect();
    assert!(titles.contains(&"Doc 1"));
    assert!(titles.contains(&"Doc 2"));
}

#[test]
fn block_get_document_tree_nested() {
    let mut db = BlockStore::new();
    let doc = create_document(&mut db, "Tree Doc".to_string(), None, None).unwrap();
    let child = create_block(
        &mut db,
        CreateBlockReq {
            parent_id: doc.id.clone(),
            block_type: BlockType::Heading { level: 2 },
            content: "Section".to_string(),
            properties: HashMap::new(),
            after_id: None,
        },
    )
    .unwrap();
    let result = get_document_tree(&db, &doc.id).unwrap();
    assert_eq!(result.root.id, doc.id);
    assert_eq!(result.blocks.len(), 2);
    assert!(result.blocks.iter().any(|b| b.id == child.id));
}

#[test]
fn block_get_document_tree_nonexistent_fails() {
    let db = BlockStore::new();
    let result = get_document_tree(&db, "nonexistent0000000");
    assert!(result.is_err());
}

#[test]
fn block_get_children_with_pagination() {
    let mut db = BlockStore::new();
    let doc = create_document(&mut db, "Pagination Doc".to_string(), None, None).unwrap();
    for i in 0..3 {
        create_block(&mut db, para(&doc.id, &format!("para {}", i), None)).unwrap();
    }
    let page1 = get_children(&db, &doc.id, 2, None).unwrap();
    assert_eq!(page1.blocks.len(), 2);
    assert!(page1.has_more);
    let cursor = page1.next_cursor.clone().unwrap();
    let page2 = get_children(&db, &doc.id, 2, Some(&cursor)).unwrap();
    assert_eq!(page2.blocks.len(), 2);
    assert!(!page2.has_more);
}

#[test]
fn block_get_children_nonexistent_parent_fails() {
    let db = BlockStore::new();
    let result = get_children(&db, "nonexistent0000000", 10, None);
    assert!(result.is_err());
}

// ── requests made against a known version ───────────

#[test]
fn update_block_version_conflict() {
    let mut db = BlockStore::new();
    let created = create_block(&mut db, para(ROOT_ID, "test", None)).unwrap();
    let result = update_block_versioned(&mut db, &created.id, content_update("should fail"), 999);
    assert!(result.is_err());
    match result.unwrap_err() {
        AppError::VersionConflict(m) => assert_eq!(m, format!("Block {} 版本冲突（当前版本 {}）", created.id, 1)),
        other => panic!("预期 VersionConflict，实际: {:?}", other),
    }
    assert_eq!(get_block(&db, &created.id, false).unwrap().content, b"test".to_vec());
}

#[test]
fn delete_block_version_conflict() {
    let mut db = BlockStore::new();
    let created = create_block(&mut db, para(ROOT_ID, "test", None)).unwrap();
    let result = delete_block_versioned(&mut db, &created.id, 999);
    assert!(result.is_err());
    assert_eq!(get_block(&db, &created.id, false).unwrap().status, BlockStatus::Normal);
}

#[test]
fn versioned_requests_at_the_current_version_go_through() {
    let mut db = BlockStore::new();
    let created = create_block(&mut db, para(ROOT_ID, "test", None)).unwrap();
    let child = create_block(&mut db, para(&created.id, "child", None)).unwrap();
    let updated = update_block_versioned(&mut db, &created.id, content_update("new"), 1).unwrap();
    assert_eq!(updated.version, 2);
    let d = delete_block_versioned(&mut db, &created.id, 2).unwrap();
    assert_eq!(d.cascade_count, 1);
    assert_eq!(get_block(&db, &child.id, true).unwrap().status, BlockStatus::Deleted);
    assert!(delete_block_versioned(&mut db, ROOT_ID, 1).is_err());
}

#[test]
fn parent_is_child_only_for_the_root_in_a_plain_store() {
    let mut db = BlockStore::new();
    let a = create_block(&mut db, para(ROOT_ID, "a", None)).unwrap();
    let b = create_block(&mut db, para(&a.id, "b", None)).unwrap();
    assert!(parent_is_child(&db, ROOT_ID));
    assert!(!parent_is_child(&db, &a.id));
    assert!(!parent_is_child(&db, &b.id));
    assert!(!parent_is_child(&db, "missing"));
}
