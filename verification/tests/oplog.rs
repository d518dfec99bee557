//! Operation-log records, undo/redo plans and history.

use std::collections::HashMap;

use wem_kernel::error::AppError;
use wem_kernel::model::oplog::{Action, BlockSnapshot, Change, ChangeType, Operation};
use wem_kernel::model::{Block, BlockStatus, BlockType};
use wem_kernel::service::oplog::{
    block_change_pair, get_block_history, get_history, new_change, new_operation, new_operation_id,
    operation_id, redo, undo, RestoreKind, RestoreStep,
};

fn snap(doc: &str) -> BlockSnapshot {
    BlockSnapshot {
        parent_id: doc.to_string(),
        document_id: doc.to_string(),
        position: "a0".to_string(),
        block_type: "\"Paragraph\"".to_string(),
        content: b"x".to_vec(),
        properties: "{}".to_string(),
        status: "normal".to_string(),
    }
}

fn op(id: &str, action: Action) -> Operation {
    Operation {
        id: id.to_string(),
        document_id: "doc".to_string(),
        action,
        description: Some("d".to_string()),
        timestamp: "t".to_string(),
        undone: false,
        editor_id: None,
    }
}

#[test]
fn action_names_round_trip() {
    for a in [
        Action::Create,
        Action::Update,
        Action::Delete,
        Action::Move,
        Action::Restore,
        Action::Split,
        Action::Merge,
        Action::BatchOps,
        Action::Import,
    ] {
        assert_eq!(Action::from_str_lossy(a.as_str()), Some(a));
    }
    assert_eq!(Action::BatchOps.as_str(), "batch_ops");
    assert_eq!(Action::from_str_lossy("nope"), None);
}

#[test]
fn change_type_names_round_trip() {
    for c in [
        ChangeType::Created,
        ChangeType::Updated,
        ChangeType::Deleted,
        ChangeType::Moved,
        ChangeType::Restored,
        ChangeType::Reparented,
    ] {
        assert_eq!(ChangeType::from_str_lossy(c.as_str()), Some(c));
    }
    assert_eq!(ChangeType::Reparented.as_str(), "reparented");
    assert_eq!(ChangeType::from_str_lossy("Created"), None);
}

#[test]
fn operation_id_format() {
    assert_eq!(operation_id(255, 10), "00000000000000ff-000a");
    assert_eq!(operation_id(-1, 65535), "ffffffffffffffff-ffff");
    let id = new_operation_id();
    assert_eq!(id.len(), 21);
    assert_eq!(&id[16..17], "-");
    assert!(id.chars().all(|c| c == '-' || c.is_ascii_hexdigit()));
}

#[test]
fn new_records() {
    let o = new_operation(Action::Move, "doc", Some("ed".to_string()));
    assert_eq!(o.document_id, "doc");
    assert_eq!(o.action, Action::Move);
    assert!(!o.undone);
    assert_eq!(o.id.len(), 21);
    assert!(!o.timestamp.is_empty());
    let c = new_change("op", "b", ChangeType::Created, None, Some(snap("doc")));
    assert_eq!(c.id, 0);
    assert_eq!(c.block_id, "b");
    assert!(c.before.is_none());

    let b = Block {
        id: "b".into(),
        parent_id: "p".into(),
        document_id: "doc".into(),
        position: "a3".into(),
        block_type: BlockType::Paragraph,
        content: b"hi".to_vec(),
        properties: HashMap::new(),
        version: 2,
        status: BlockStatus::Deleted,
        schema_version: 1,
        encrypted: false,
        created: "c".into(),
        modified: "m".into(),
        author: "system".into(),
        owner_id: None,
    };
    let pair = block_change_pair(
        "op",
        "b",
        ChangeType::Updated,
        &b,
        ("\"Paragraph\"".into(), "{}".into()),
        &b,
        ("\"Paragraph\"".into(), "{}".into()),
    );
    let before = pair.before.unwrap();
    assert_eq!(before.status, "deleted");
    assert_eq!(before.position, "a3");
    assert_eq!(before.content, b"hi".to_vec());
}

#[test]
fn undo_plan_restores_before_states() {
    let changes = vec![
        Change { id: 1, operation_id: "o".into(), block_id: "new".into(), change_type: ChangeType::Created, before: None, after: Some(snap("d1")) },
        Change { id: 2, operation_id: "o".into(), block_id: "upd".into(), change_type: ChangeType::Updated, before: Some(snap("d1")), after: Some(snap("d1")) },
        Change { id: 3, operation_id: "o".into(), block_id: "mv".into(), change_type: ChangeType::Moved, before: Some(snap("d2")), after: Some(snap("d1")) },
    ];
    let plan = undo(Some(op("o", Action::BatchOps)), &changes).unwrap();
    assert!(plan.mark_undone);
    assert_eq!(plan.result.operation_id, "o");
    assert_eq!(plan.result.action, "batch_ops");
    assert_eq!(plan.result.affected_block_ids, vec!["new", "upd", "mv"]);
    assert_eq!(plan.result.affected_document_ids, vec!["d1", "d2"]);
    assert_eq!(
        plan.steps,
        vec![
            RestoreStep { change_index: 0, kind: RestoreKind::SoftDelete },
            RestoreStep { change_index: 1, kind: RestoreKind::Restore },
            RestoreStep { change_index: 2, kind: RestoreKind::Restore },
        ]
    );
}

#[test]
fn redo_plan_writes_after_states() {
    let changes = vec![
        Change { id: 1, operation_id: "o".into(), block_id: "new".into(), change_type: ChangeType::Created, before: None, after: Some(snap("d1")) },
        Change { id: 2, operation_id: "o".into(), block_id: "gone".into(), change_type: ChangeType::Deleted, before: Some(snap("d1")), after: None },
    ];
    let plan = redo(Some(op("o", Action::Create)), &changes).unwrap();
    assert!(!plan.mark_undone);
    assert_eq!(
        plan.steps,
        vec![
            RestoreStep { change_index: 0, kind: RestoreKind::Upsert },
            RestoreStep { change_index: 1, kind: RestoreKind::SoftDelete },
        ]
    );
    assert_eq!(plan.result.affected_document_ids, vec!["d1"]);
}

#[test]
fn nothing_to_undo_or_redo() {
    match undo(None, &Vec::new()) {
        Err(AppError::BadRequest(msg)) => assert_eq!(msg, "没有可撤销的操作"),
        _ => panic!("expected BadRequest"),
    }
    match redo(None, &Vec::new()) {
        Err(AppError::BadRequest(msg)) => assert_eq!(msg, "没有可重做的操作"),
        _ => panic!("expected BadRequest"),
    }
}

#[test]
fn history_lists_changes() {
    let changes = vec![
        Change { id: 1, operation_id: "o".into(), block_id: "a".into(), change_type: ChangeType::Created, before: None, after: None },
        Change { id: 2, operation_id: "o".into(), block_id: "b".into(), change_type: ChangeType::Moved, before: None, after: None },
    ];
    let ops = vec![(op("o", Action::Split), changes)];
    let all = get_history(&ops);
    assert_eq!(all.len(), 1);
    assert_eq!(all[0].action, "split");
    assert_eq!(all[0].description, Some("d".to_string()));
    assert_eq!(all[0].changes.len(), 2);
    assert_eq!(all[0].changes[1].change_type, "moved");

    let mine = get_block_history(true, "b", &ops).unwrap();
    assert_eq!(mine[0].changes.len(), 1);
    assert_eq!(mine[0].changes[0].block_id, "b");
    match get_block_history(false, "zz", &ops) {
        Err(AppError::NotFound(msg)) => assert_eq!(msg, "Block zz 不存在或已删除"),
        _ => panic!("expected NotFound"),
    }
}
