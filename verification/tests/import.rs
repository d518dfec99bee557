//! Importing text as a new document.

use wem_kernel::api::request::ImportTextReq;
use wem_kernel::api::response::ImportResult;
use wem_kernel::error::AppError;
use wem_kernel::model::{BlockType, ROOT_ID};
use wem_kernel::service::block::{create_document, get_block};
use wem_kernel::service::document::import_text;
use wem_kernel::service::store::BlockStore;

fn import_md(db: &mut BlockStore, content: &str) -> Result<ImportResult, AppError> {
    import_text(db, ImportTextReq {
        format: "markdown".to_string(),
        content: content.to_string(),
        parent_id: None,
        after_id: None,
        title: None,
    })
}

#[test]
fn import_simple_paragraph() {
    let mut db = BlockStore::new();
    let result = import_md(&mut db, "Hello world").unwrap();
    assert_eq!(result.root.block_type, BlockType::Document);
    assert_eq!(result.root.parent_id, ROOT_ID);
    assert!(result.blocks_imported >= 2);
}

#[test]
fn import_heading_and_paragraph() {
    let mut db = BlockStore::new();
    let result = import_md(&mut db, "# My Title\n\nSome content here").unwrap();
    assert_eq!(result.root.properties.get("title").unwrap(), "My Title");
    assert!(result.blocks_imported >= 3);
}

#[test]
fn import_empty_content() {
    let mut db = BlockStore::new();
    let result = import_md(&mut db, "").unwrap();
    assert_eq!(result.root.block_type, BlockType::Document);
    assert!(result.blocks_imported >= 2);
}

#[test]
fn import_with_title_override() {
    let mut db = BlockStore::new();
    let req = ImportTextReq {
        format: "markdown".to_string(),
        content: "# Original\n\nContent".to_string(),
        parent_id: None,
        after_id: None,
        title: Some("Overridden Title".to_string()),
    };
    let result = import_text(&mut db, req).unwrap();
    assert_eq!(result.root.properties.get("title").unwrap(), "Overridden Title");
}

#[test]
fn import_to_specific_parent() {
    let mut db = BlockStore::new();
    let parent = create_document(&mut db, "Parent Doc".to_string(), Some(ROOT_ID.to_string()), None).unwrap();
    let req = ImportTextReq {
        format: "markdown".to_string(),
        content: "# Child\n\nChild content".to_string(),
        parent_id: Some(parent.id.clone()),
        after_id: None,
        title: None,
    };
    let result = import_text(&mut db, req).unwrap();
    assert_eq!(result.root.parent_id, parent.id);
}

#[test]
fn import_invalid_format() {
    let mut db = BlockStore::new();
    let req = ImportTextReq {
        format: "pdf".to_string(),
        content: "some text".to_string(),
        parent_id: None,
        after_id: None,
        title: None,
    };
    assert!(import_text(&mut db, req).is_err());
}

#[test]
fn import_nonexistent_parent() {
    let mut db = BlockStore::new();
    let req = ImportTextReq {
        format: "markdown".to_string(),
        content: "Hello".to_string(),
        parent_id: Some("nonexistent_id_12345".to_string()),
        after_id: None,
        title: None,
    };
    assert!(import_text(&mut db, req).is_err());
}

#[test]
fn import_code_block() {
    let mut db = BlockStore::new();
    let result = import_md(&mut db, "```rust\nfn main() {}\n```").unwrap();
    assert!(result.blocks_imported >= 2);
}

#[test]
fn import_list() {
    let mut db = BlockStore::new();
    let result = import_md(&mut db, "- item 1\n- item 2\n- item 3").unwrap();
    assert!(result.blocks_imported >= 7);
}

#[test]
fn import_blockquote() {
    let mut db = BlockStore::new();
    let result = import_md(&mut db, "> This is a quote\n> Second line").unwrap();
    assert!(result.blocks_imported >= 3);
}

#[test]
fn import_multiple_documents() {
    let mut db = BlockStore::new();
    let r1 = import_md(&mut db, "# Doc 1").unwrap();
    let r2 = import_md(&mut db, "# Doc 2").unwrap();
    let r3 = import_md(&mut db, "# Doc 3").unwrap();
    assert_ne!(r1.root.id, r2.root.id);
    assert_ne!(r2.root.id, r3.root.id);
    assert!(r2.root.position > r1.root.position);
    assert!(r3.root.position > r2.root.position);
}

#[test]
fn import_md_alias() {
    let mut db = BlockStore::new();
    let req = ImportTextReq {
        format: "md".to_string(),
        content: "# Alias Test".to_string(),
        parent_id: None,
        after_id: None,
        title: None,
    };
    assert!(import_text(&mut db, req).is_ok());
}

#[test]
fn import_puts_every_parsed_block_in_the_store() {
    let mut db = BlockStore::new();
    let result = import_md(&mut db, "# Title\n\nfirst\n\nsecond").unwrap();
    assert_eq!(result.blocks_imported, 4);
    assert_eq!(db.len(), 1 + 4);
    assert_eq!(get_block(&db, &result.root.id, false).unwrap().block_type, BlockType::Document);
}
