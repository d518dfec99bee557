//! Block reads, children pages, exports and heading moves.

use std::collections::HashMap;

use wem_kernel::error::AppError;
use wem_kernel::model::{Block, BlockStatus, BlockType};
use wem_kernel::service::block::{
    children_fetch_limit, children_page, export_block, export_text, read_block,
    use_flat_list_move, validate_on_create,
};
use wem_kernel::service::heading::{
    correct_parents, find_subtree_end, group_by_parent, group_positions, heading_level, move_heading_flat,
    move_section, HeadingOps, MoveHeadingTreeReq,
};
use wem_kernel::service::traits::BlockTypeOps;

fn block(id: &str, parent: &str, pos: &str, bt: BlockType, content: &str) -> Block {
    Block {
        id: id.to_string(),
        parent_id: parent.to_string(),
        document_id: "doc".to_string(),
        position: pos.to_string(),
        block_type: bt,
        content: content.as_bytes().to_vec(),
        properties: HashMap::new(),
        version: 1,
        status: BlockStatus::Normal,
        schema_version: 1,
        encrypted: false,
        created: "2026-01-01T00:00:00.000Z".to_string(),
        modified: "2026-01-01T00:00:00.000Z".to_string(),
        author: "system".to_string(),
        owner_id: None,
    }
}

fn h(id: &str, level: u8) -> Block {
    block(id, "doc", "a0", BlockType::Heading { level }, id)
}

fn p(id: &str) -> Block {
    block(id, "doc", "a0", BlockType::Paragraph, id)
}

fn ids(v: &[Block]) -> Vec<String> {
    v.iter().map(|b| b.id.clone()).collect()
}

#[test]
fn read_block_hides_deleted_unless_asked() {
    let mut b = p("x");
    b.status = BlockStatus::Deleted;
    match read_block(Some(b.clone()), "x", false) {
        Err(AppError::NotFound(msg)) => assert_eq!(msg, "Block x 不存在或已删除"),
        other => panic!("unexpected {:?}", other),
    }
    assert!(read_block(Some(b), "x", true).is_ok());
    assert!(matches!(read_block(None, "y", false), Err(AppError::NotFound(_))));
    assert_eq!(read_block(Some(p("z")), "z", false).unwrap().id, "z");
}

#[test]
fn children_page_limits() {
    assert_eq!(children_fetch_limit(0), 2);
    assert_eq!(children_fetch_limit(50), 51);
    assert_eq!(children_fetch_limit(10_000), 501);
}

#[test]
fn children_page_has_more_and_cursor() {
    let fetched = vec![
        block("a", "doc", "a0", BlockType::Paragraph, "a"),
        block("b", "doc", "a1", BlockType::Paragraph, "b"),
        block("c", "doc", "a2", BlockType::Paragraph, "c"),
    ];
    let page = children_page(true, "doc", 2, fetched).unwrap();
    assert!(page.has_more);
    assert_eq!(ids(&page.blocks), vec!["a", "b"]);
    assert_eq!(page.next_cursor, Some("a1".to_string()));

    let page = children_page(true, "doc", 5, vec![block("a", "doc", "a0", BlockType::Paragraph, "a")]).unwrap();
    assert!(!page.has_more);
    assert_eq!(page.next_cursor, None);

    match children_page(false, "nope", 5, Vec::new()) {
        Err(AppError::NotFound(msg)) => assert_eq!(msg, "Block nope 不存在"),
        _ => panic!("expected NotFound"),
    }
}

#[test]
fn export_text_renders_descendants_in_position_order() {
    let mut root = block("doc", "/", "a0", BlockType::Document, "Notes");
    root.document_id = "doc".to_string();
    let second = block("p2", "doc", "a1", BlockType::Paragraph, "second");
    let first = block("p1", "doc", "a0", BlockType::Paragraph, "first");
    let res = export_text(Some(root), "doc", vec![second, first], "md").unwrap();
    assert_eq!(res.content, "# Notes\n\nfirst\n\nsecond\n\n");
    assert_eq!(res.blocks_exported, 3);
    assert_eq!(res.filename, Some("Notes.md".to_string()));
    assert!(res.lossy_types.is_empty());
}

#[test]
fn export_errors() {
    match export_text(None, "gone", Vec::new(), "markdown") {
        Err(AppError::NotFound(msg)) => assert_eq!(msg, "文档 gone 不存在或已删除"),
        _ => panic!("expected NotFound"),
    }
    let root = block("doc", "/", "a0", BlockType::Document, "T");
    match export_block(Some(root), "doc", Vec::new(), "html") {
        Err(AppError::BadRequest(msg)) => assert_eq!(msg, "不支持的目标格式: 'html'. 当前支持: markdown"),
        _ => panic!("expected BadRequest"),
    }
    assert!(matches!(export_block(None, "b", Vec::new(), "md"), Err(AppError::NotFound(_))));
}

#[test]
fn heading_level_rules() {
    assert!(HeadingOps::validate_on_create(&BlockType::Heading { level: 1 }).is_ok());
    assert!(HeadingOps::validate_on_create(&BlockType::Heading { level: 6 }).is_ok());
    match HeadingOps::validate_on_create(&BlockType::Heading { level: 7 }) {
        Err(AppError::BadRequest(msg)) => assert_eq!(msg, "Heading level 必须在 1-6 之间，实际为 7"),
        _ => panic!("expected BadRequest"),
    }
    assert!(validate_on_create(&BlockType::Heading { level: 0 }).is_err());
    assert!(validate_on_create(&BlockType::Paragraph).is_ok());
    assert!(use_flat_list_move(&BlockType::Heading { level: 2 }));
    assert!(!use_flat_list_move(&BlockType::Paragraph));
    assert!(HeadingOps::use_flat_list_move());
    assert_eq!(heading_level(&h("x", 3)), 3);
    assert_eq!(heading_level(&p("y")), 0);
}

#[test]
fn parents_follow_heading_levels() {
    let flat = vec![p("intro"), h("h1", 1), p("a"), h("h2", 2), p("b"), h("h1b", 1), h("h3", 3), p("c")];
    let parents = correct_parents("doc", &flat);
    assert_eq!(parents, vec!["doc", "doc", "h1", "h1", "h2", "doc", "h1b", "h3"]);
}

#[test]
fn subtree_end_of_heading_and_of_plain_block() {
    let flat = vec![h("h1", 1), h("h2", 2), p("x"), h("h2b", 2), h("h1b", 1)];
    assert_eq!(find_subtree_end(&flat, 0), 4);
    assert_eq!(find_subtree_end(&flat, 1), 3);
    let mut list = block("l", "doc", "a0", BlockType::List { ordered: false }, "");
    list.id = "l".to_string();
    let item = block("li", "l", "a0", BlockType::ListItem, "");
    let inner = block("t", "li", "a0", BlockType::Paragraph, "t");
    let after = p("after");
    let flat = vec![list, item, inner, after];
    assert_eq!(find_subtree_end(&flat, 0), 3);
}

#[test]
fn move_single_heading_in_flat_list() {
    let flat = vec![h("a", 1), p("x"), h("b", 1), p("y")];
    let moved = move_heading_flat(flat, h("b", 1), Some("a"), None).unwrap();
    assert_eq!(ids(&moved), vec!["b", "a", "x", "y"]);
    let flat = vec![h("a", 1), p("x"), h("b", 1)];
    let moved = move_heading_flat(flat, h("a", 1), None, Some("b")).unwrap();
    assert_eq!(ids(&moved), vec!["x", "b", "a"]);
    match move_heading_flat(vec![p("x")], h("a", 1), None, None) {
        Err(AppError::Internal(msg)) => assert_eq!(msg, "Heading 不在 flat list 中"),
        _ => panic!("expected Internal"),
    }
}

#[test]
fn move_heading_with_its_section() {
    let flat = vec![h("a", 1), p("x"), h("a2", 2), h("b", 1), p("y")];
    let req = MoveHeadingTreeReq { id: "a".into(), editor_id: None, before_id: None, after_id: Some("b".into()) };
    let moved = move_section(Some(h("a", 1)), flat, &req).unwrap();
    assert_eq!(ids(&moved), vec!["b", "y", "a", "x", "a2"]);

    let req = MoveHeadingTreeReq { id: "p".into(), editor_id: None, before_id: None, after_id: None };
    assert!(matches!(move_section(Some(p("p")), vec![p("p")], &req), Err(AppError::BadRequest(_))));
    assert!(matches!(move_section(None, Vec::new(), &req), Err(AppError::NotFound(_))));
}

#[test]
fn grouping_and_positions() {
    let parents: Vec<String> = vec!["doc".into(), "h1".into(), "doc".into(), "h1".into()];
    let groups = group_by_parent(&parents);
    assert_eq!(groups.len(), 2);
    assert_eq!(groups[0].0, "doc");
    assert_eq!(groups[0].1, vec![0, 2]);
    assert_eq!(groups[1].0, "h1");
    assert_eq!(groups[1].1, vec![1, 3]);
    assert_eq!(group_positions(None, 3), vec!["a0", "a1", "a2"]);
    assert_eq!(group_positions(Some("a8"), 3), vec!["a9", "aA", "aB"]);
}
