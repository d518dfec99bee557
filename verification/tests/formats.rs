//! Format selection, type rules and serializer details.

use std::collections::HashMap;

use wem_kernel::error::AppError;
use wem_kernel::model::{generate_block_id, Block, BlockStatus, BlockType, ROOT_ID};
use wem_kernel::parser::markdown::MarkdownFormat;
use wem_kernel::parser::types::{ChildrenMap, ParseOptions};
use wem_kernel::parser::{get_parser, get_serializer, BlockParser, BlockSerializer};
use wem_kernel::service::list::validate_parent_child_constraint;

fn block(id: &str, parent: &str, pos: &str, bt: BlockType, content: &str) -> Block {
    Block {
        id: id.to_string(),
        parent_id: parent.to_string(),
        document_id: "root".to_string(),
        position: pos.to_string(),
        block_type: bt,
        content: content.as_bytes().to_vec(),
        properties: HashMap::new(),
        version: 1,
        status: BlockStatus::Normal,
        schema_version: 1,
        encrypted: false,
        created: "2026-01-01T00:00:00.000Z".to_string(),
        modified: "2026-01-01T00:00:00.000Z".to_string(),
        author: "system".to_string(),
        owner_id: None,
    }
}

#[test]
fn format_names() {
    assert!(get_parser("markdown").is_ok());
    assert!(get_serializer("md").is_ok());
    match get_parser("docx") {
        Err(AppError::BadRequest(msg)) => assert_eq!(msg, "不支持的源格式: 'docx'. 当前支持: markdown"),
        _ => panic!("expected BadRequest"),
    }
    assert!(get_serializer("Markdown").is_err());
}

#[test]
fn list_item_error_names_parent_type() {
    let parent = block("c", "root", "a0", BlockType::CodeBlock { language: "rs".into() }, "");
    match validate_parent_child_constraint(&parent, &BlockType::ListItem) {
        Err(AppError::BadRequest(msg)) => {
            assert_eq!(msg, "ListItem 必须挂在 List 类型块下，实际父块类型为 CodeBlock { language: \"rs\" }")
        },
        _ => panic!("expected BadRequest"),
    }
}

#[test]
fn block_ids_are_twenty_lowercase_alphanumerics() {
    let id = generate_block_id();
    assert_eq!(id.len(), 20);
    assert!(id.chars().all(|c| c.is_ascii_digit() || c.is_ascii_lowercase()));
    assert_ne!(generate_block_id(), id);
    assert_eq!(ROOT_ID, "/");
}

#[test]
fn serializer_writes_lossy_forms_and_nested_lists() {
    let doc = block("root", "root", "a0", BlockType::Document, "  T  ");
    let mut m = ChildrenMap::new();
    let mut callout = block("co", "root", "a1", BlockType::Callout, "");
    callout.properties.insert("icon".into(), "!".into());
    m.push_child("root".into(), callout);
    m.push_child("co".into(), block("cp", "co", "a0", BlockType::Paragraph, "note\r\nline2"));
    m.push_child("root".into(), block("l", "root", "a2", BlockType::List { ordered: true }, ""));
    m.push_child("l".into(), block("i1", "l", "a0", BlockType::ListItem, ""));
    m.push_child("i1".into(), block("i1p", "i1", "a0", BlockType::Paragraph, "one"));
    m.push_child("i1".into(), block("i1q", "i1", "a1", BlockType::Paragraph, "more"));
    m.push_child("l".into(), block("i2", "l", "a1", BlockType::ListItem, ""));
    m.push_child("i2".into(), block("i2c", "i2", "a0", BlockType::CodeBlock { language: String::new() }, "x"));
    m.push_child("root".into(), block("w", "root", "a3", BlockType::Widget, ""));
    m.push_child("root".into(), block("e", "root", "a4", BlockType::Embed, "ref"));
    m.push_child("root".into(), block("av", "root", "a5", BlockType::AttributeView { av_id: "v1".into() }, ""));
    let res = MarkdownFormat::new().serialize(&doc, &m).unwrap();
    assert_eq!(
        res.content,
        "# T\n\n> !\n> note\n> line2\n> \n\n1. one\nmore\n\n2. \n```\nx\n```\n\n\n<!-- widget -->\n\n<!-- embed: ref -->\n\n<!-- attributeView: v1 -->\n\n"
    );
    assert_eq!(res.lossy_types, vec!["callout", "widget", "embed", "attributeView"]);
    assert_eq!(res.filename, Some("T.md".to_string()));
    assert_eq!(res.blocks_exported, 12);
}

#[test]
fn parse_then_blank_text() {
    let r = MarkdownFormat::new().parse("", &ParseOptions::default()).unwrap();
    assert_eq!(r.blocks_created, 2);
    assert_eq!(r.root.properties.get("title"), Some(&"无标题文档".to_string()));
    assert_eq!(r.children[0].position, "a0");
}
