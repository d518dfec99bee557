//! Batches of block operations with temporary identifiers.

use std::collections::HashMap;

use wem_kernel::api::request::{BatchOp, BatchReq, PropertiesMode};
use wem_kernel::error::AppError;
use wem_kernel::model::{BlockStatus, BlockType, ROOT_ID};
use wem_kernel::service::batch::batch_operations;
use wem_kernel::service::block::{create_document, get_block};
use wem_kernel::service::store::BlockStore;

fn create(temp: &str, parent: &str, content: &str, after: Option<&str>) -> BatchOp {
    BatchOp::Create {
        temp_id: temp.to_string(),
        parent_id: parent.to_string(),
        block_type: BlockType::Paragraph,
        content: content.to_string(),
        properties: HashMap::new(),
        after_id: after.map(|a| a.to_string()),
    }
}

fn real_id(map: &[(String, String)], temp: &str) -> String {
    map.iter().find(|(k, _)| k == temp).map(|(_, v)| v.clone()).unwrap()
}

#[test]
fn batch_creates_with_temporary_identifiers() {
    let mut db = BlockStore::new();
    let doc = create_document(&mut db, "Doc".to_string(), None, None).unwrap();
    let req = BatchReq {
        operations: vec![
            create("t1", &doc.id, "first", None),
            create("t2", "t1", "child", None),
            create("t3", &doc.id, "second", Some("t1")),
        ],
    };
    let res = batch_operations(&mut db, req).unwrap();
    assert_eq!(res.results.len(), 3);
    assert!(res.results.iter().all(|r| r.error.is_none() && r.action == "create" && r.version == Some(1)));
    assert_eq!(res.id_map.len(), 3);
    let t1 = real_id(&res.id_map, "t1");
    let t2 = real_id(&res.id_map, "t2");
    let t3 = real_id(&res.id_map, "t3");
    assert_eq!(res.results[0].block_id, t1);
    let child = get_block(&db, &t2, false).unwrap();
    assert_eq!(child.parent_id, t1);
    assert_eq!(child.document_id, doc.id);
    let first = get_block(&db, &t1, false).unwrap();
    let second = get_block(&db, &t3, false).unwrap();
    assert!(second.position > first.position);
    assert_eq!(second.content, b"second");
}

#[test]
fn batch_failed_operation_does_not_stop_others() {
    let mut db = BlockStore::new();
    let doc = create_document(&mut db, "Doc".to_string(), None, None).unwrap();
    let req = BatchReq {
        operations: vec![
            create("bad", "nonexistent0000000", "x", None),
            create("good", &doc.id, "y", None),
            BatchOp::Update {
                block_id: "missing000000000000".to_string(),
                content: Some("z".to_string()),
                properties: None,
                properties_mode: PropertiesMode::Merge,
            },
        ],
    };
    let res = batch_operations(&mut db, req).unwrap();
    assert_eq!(res.results[0].block_id, "bad");
    assert_eq!(res.results[0].version, None);
    assert_eq!(
        res.results[0].error,
        Some(AppError::BadRequest("父块 nonexistent0000000 不存在或已删除".to_string()))
    );
    assert!(res.results[1].error.is_none());
    assert_eq!(res.results[2].action, "update");
    assert_eq!(res.results[2].block_id, "missing000000000000");
    assert_eq!(
        res.results[2].error,
        Some(AppError::NotFound("Block missing000000000000 不存在或已删除".to_string()))
    );
    assert_eq!(res.id_map.len(), 1);
    assert_eq!(res.id_map[0].0, "good");
}

#[test]
fn batch_update_delete_and_move() {
    let mut db = BlockStore::new();
    let doc = create_document(&mut db, "Doc".to_string(), None, None).unwrap();
    let mut props = HashMap::new();
    props.insert("k".to_string(), "v".to_string());
    let req = BatchReq {
        operations: vec![
            create("a", &doc.id, "A", None),
            create("b", &doc.id, "B", None),
            create("c", "b", "C", None),
            BatchOp::Update {
                block_id: "a".to_string(),
                content: Some("A2".to_string()),
                properties: Some(props),
                properties_mode: PropertiesMode::Replace,
            },
            BatchOp::Move {
                block_id: "a".to_string(),
                target_parent_id: Some("b".to_string()),
                before_id: None,
                after_id: None,
            },
            BatchOp::Delete { block_id: "b".to_string() },
        ],
    };
    let res = batch_operations(&mut db, req).unwrap();
    assert!(res.results.iter().all(|r| r.error.is_none()));
    let a = real_id(&res.id_map, "a");
    let b = real_id(&res.id_map, "b");
    let c = real_id(&res.id_map, "c");
    assert_eq!(res.results[3].version, Some(2));
    assert_eq!(res.results[4].action, "move");
    assert_eq!(res.results[4].version, Some(3));
    let moved = get_block(&db, &a, true).unwrap();
    assert_eq!(moved.parent_id, b);
    assert_eq!(moved.content, b"A2");
    assert_eq!(moved.properties.get("k"), Some(&"v".to_string()));
    for id in [&a, &b, &c] {
        assert_eq!(get_block(&db, id, true).unwrap().status, BlockStatus::Deleted);
    }
    assert_eq!(res.results[5].block_id, b);
}

#[test]
fn batch_move_errors() {
    let mut db = BlockStore::new();
    let doc = create_document(&mut db, "Doc".to_string(), None, None).unwrap();
    let req = BatchReq {
        operations: vec![
            create("p", &doc.id, "P", None),
            create("q", "p", "Q", None),
            BatchOp::Move {
                block_id: "p".to_string(),
                target_parent_id: Some("p".to_string()),
                before_id: None,
                after_id: None,
            },
            BatchOp::Move {
                block_id: "p".to_string(),
                target_parent_id: Some("q".to_string()),
                before_id: None,
                after_id: None,
            },
            BatchOp::Move {
                block_id: ROOT_ID.to_string(),
                target_parent_id: None,
                before_id: None,
                after_id: None,
            },
            BatchOp::Delete { block_id: ROOT_ID.to_string() },
        ],
    };
    let res = batch_operations(&mut db, req).unwrap();
    assert_eq!(res.results[2].error, Some(AppError::BadRequest("不能将 Block 移动到自身下".to_string())));
    assert_eq!(res.results[2].block_id, "p");
    assert_eq!(res.results[3].error, Some(AppError::CycleReference));
    assert_eq!(res.results[4].error, Some(AppError::BadRequest("全局根块不可移动".to_string())));
    assert_eq!(res.results[5].error, Some(AppError::BadRequest("全局根块不可删除".to_string())));
}

#[test]
fn batch_over_limit_fails() {
    let mut db = BlockStore::new();
    let ops = (0..51).map(|i| create(&format!("t{}", i), ROOT_ID, "x", None)).collect();
    match batch_operations(&mut db, BatchReq { operations: ops }) {
        Err(AppError::BadRequest(msg)) => assert_eq!(msg, "单次批量操作上限 50 条"),
        other => panic!("预期 BadRequest，实际: {:?}", other.map(|r| r.results.len())),
    }
    let ok = (0..50).map(|i| create(&format!("t{}", i), ROOT_ID, "x", None)).collect();
    let res = batch_operations(&mut db, BatchReq { operations: ok }).unwrap();
    assert_eq!(res.results.len(), 50);
}

#[test]
fn batch_repeated_temp_id_keeps_latest() {
    let mut db = BlockStore::new();
    let req = BatchReq {
        operations: vec![create("t", ROOT_ID, "one", None), create("t", ROOT_ID, "two", None)],
    };
    let res = batch_operations(&mut db, req).unwrap();
    assert_eq!(res.id_map.len(), 1);
    assert_eq!(res.id_map[0].1, res.results[1].block_id);
}
