//! Exporting documents that were imported from Markdown.

use wem_kernel::api::response::ExportResult;
use wem_kernel::error::AppError;
use wem_kernel::model::Block;
use wem_kernel::parser::markdown::MarkdownFormat;
use wem_kernel::parser::types::ParseOptions;
use wem_kernel::parser::BlockParser;
use wem_kernel::service::block::{export_block, export_text};

/// Imports Markdown: the document block and all its descendants.
fn import_md(content: &str) -> (Block, Vec<Block>) {
    let result = MarkdownFormat::new().parse(content, &ParseOptions::default()).unwrap();
    (result.root, result.children)
}

/// Exports an imported document in `format`.
fn export_imported(doc: (Block, Vec<Block>), format: &str) -> Result<ExportResult, AppError> {
    let (root, descendants) = doc;
    let doc_id = root.id.clone();
    export_text(Some(root), &doc_id, descendants, format)
}

#[test]
fn export_export_simple_document() {
    let result = export_imported(import_md("# Hello\n\nWorld"), "markdown").unwrap();
    assert!(result.content.contains("Hello"));
    assert!(result.content.contains("World"));
    assert!(result.blocks_exported >= 3); // Document + H1 + Paragraph
}

#[test]
fn export_export_empty_document() {
    let result = export_imported(import_md(""), "markdown").unwrap();
    assert!(result.blocks_exported >= 1); // at least Document
}

#[test]
fn export_export_code_block() {
    let result = export_imported(import_md("```rust\nfn main() {}\n```"), "markdown").unwrap();
    assert!(result.content.contains("```rust"));
    assert!(result.content.contains("fn main() {}"));
}

#[test]
fn export_export_list() {
    let result = export_imported(import_md("- item 1\n- item 2\n- item 3"), "markdown").unwrap();
    assert!(result.content.contains("item 1"));
    assert!(result.content.contains("item 2"));
    assert!(result.content.contains("item 3"));
}

#[test]
fn export_export_blockquote() {
    let result = export_imported(import_md("> quoted text"), "markdown").unwrap();
    assert!(result.content.contains("quoted text"));
}

#[test]
fn export_export_filename() {
    let result = export_imported(import_md("# My Notes\n\nContent"), "markdown").unwrap();
    assert!(result.filename.is_some());
    let filename = result.filename.unwrap();
    assert!(filename.contains("My Notes"));
    assert!(filename.ends_with(".md"));
}

#[test]
fn export_export_md_alias() {
    let result = export_imported(import_md("# Alias\n\nTest"), "md").unwrap();
    assert!(result.content.contains("Alias"));
}

#[test]
fn export_export_nonexistent_document() {
    let result = export_text(None, "nonexistent_id_12345", Vec::new(), "markdown");
    assert!(result.is_err());
}

#[test]
fn export_export_invalid_format() {
    let result = export_imported(import_md("# Test"), "pdf");
    assert!(result.is_err());
}

#[test]
fn roundtrip_heading_paragraph() {
    let original = "# Title\n\nParagraph text";
    let exported = export_imported(import_md(original), "markdown").unwrap();
    assert!(exported.content.contains("Title"));
    assert!(exported.content.contains("Paragraph text"));
}

#[test]
fn roundtrip_complex_document() {
    let original = "# Main\n\n## Section\n\nText\n\n```js\nconsole.log(1)\n```\n\n- a\n- b\n";
    let exported = export_imported(import_md(original), "markdown").unwrap();
    assert!(exported.content.contains("Main"));
    assert!(exported.content.contains("Section"));
    assert!(exported.content.contains("console.log(1)"));
    assert!(exported.blocks_exported >= 8);
}

#[test]
fn block_export_simple_document() {
    let result = export_imported(import_md("# Hello\n\nWorld"), "markdown").unwrap();
    assert!(result.content.contains("Hello"));
    assert!(result.content.contains("World"));
    assert!(result.blocks_exported >= 3);
}

#[test]
fn block_export_empty_document() {
    let result = export_imported(import_md(""), "markdown").unwrap();
    assert!(result.blocks_exported >= 1);
}

#[test]
fn block_export_code_block() {
    let result = export_imported(import_md("```rust\nfn main() {}\n```"), "markdown").unwrap();
    assert!(result.content.contains("```rust"));
}

#[test]
fn block_export_list() {
    let result = export_imported(import_md("- item 1\n- item 2\n- item 3"), "markdown").unwrap();
    assert!(result.content.contains("item 1"));
}

#[test]
fn block_export_blockquote() {
    let result = export_imported(import_md("> quoted text"), "markdown").unwrap();
    assert!(result.content.contains("quoted text"));
}

#[test]
fn block_export_filename() {
    let result = export_imported(import_md("# My Notes\n\nContent"), "markdown").unwrap();
    assert!(result.filename.is_some());
    let filename = result.filename.unwrap();
    assert!(filename.contains("My Notes"));
    assert!(filename.ends_with(".md"));
}

#[test]
fn block_export_md_alias() {
    let result = export_imported(import_md("# Alias\n\nTest"), "md").unwrap();
    assert!(result.content.contains("Alias"));
}

#[test]
fn block_export_nonexistent_document() {
    assert!(export_text(None, "nonexistent_id_12345", Vec::new(), "markdown").is_err());
}

#[test]
fn block_export_invalid_format() {
    assert!(export_imported(import_md("# Test"), "pdf").is_err());
}

#[test]
fn export_block_children_depth() {
    let (root, descendants) = import_md("# Title\n\n## Section\n\nText\n\n```js\nconsole.log(1)\n```\n\n- a\n- b\n");
    let doc_id = root.id.clone();
    // Export with all descendants.
    let full = export_block(Some(root), &doc_id, descendants, "markdown").unwrap();
    assert!(full.content.contains("Title"));
    assert!(full.content.contains("Section"));
    assert!(full.content.contains("console.log(1)"));
    assert!(full.blocks_exported >= 8);
}
