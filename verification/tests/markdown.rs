//! Markdown parsing and serialization.

use std::collections::HashMap;

use wem_kernel::model::{Block, BlockStatus, BlockType};
use wem_kernel::parser::markdown::MarkdownFormat;
use wem_kernel::parser::types::{ChildrenMap, ParseOptions};
use wem_kernel::parser::{BlockParser, BlockSerializer};

/// 辅助：解析 Markdown 文本，返回 (root, children)
fn parse_md(text: &str) -> (Block, Vec<Block>) {
    let p = MarkdownFormat::new();
    let result = p.parse(text, &ParseOptions::default()).unwrap();
    (result.root, result.children)
}

/// 辅助：根据 block_type 查找第一个匹配的 Block
fn find_by_type<'a>(blocks: &'a [Block], bt: &BlockType) -> &'a Block {
    blocks.iter().find(|b| b.block_type == *bt).expect("block type not found")
}

/// 辅助：查找指定 parent_id 下的所有子 Block
fn children_of<'a>(blocks: &'a [Block], parent_id: &str) -> Vec<&'a Block> {
    blocks.iter().filter(|b| b.parent_id == parent_id).collect()
}

/// 辅助：序列化 Block 树
fn serialize_md(root: &Block, children: &[Block]) -> String {
    let mut children_map = ChildrenMap::new();
    for b in children {
        children_map.push_child(b.parent_id.clone(), b.clone());
    }
    let s = MarkdownFormat::new();
    let result = s.serialize(root, &children_map).unwrap();
    result.content
}

// ── 解析器基础 ────────────────────────────────────────

#[test]
fn parse_empty_input() {
    let (root, children) = parse_md("");
    assert_eq!(root.block_type, BlockType::Document);
    assert_eq!(children.len(), 1); // 空 Paragraph
    assert_eq!(children[0].block_type, BlockType::Paragraph);
    assert_eq!(String::from_utf8_lossy(&root.content), "无标题文档");
}

#[test]
fn parse_whitespace_only() {
    let (root, children) = parse_md("   \n  \n  ");
    assert_eq!(root.block_type, BlockType::Document);
    assert_eq!(children.len(), 1);
    assert_eq!(children[0].block_type, BlockType::Paragraph);
}

#[test]
fn parse_single_heading() {
    let (root, children) = parse_md("# Hello World");
    assert_eq!(root.block_type, BlockType::Document);
    assert_eq!(String::from_utf8_lossy(&root.content), "Hello World");

    let h1 = find_by_type(&children, &BlockType::Heading { level: 1 });
    assert_eq!(String::from_utf8_lossy(&h1.content), "Hello World");
    assert_eq!(h1.parent_id, root.id);
}

#[test]
fn parse_heading_levels() {
    let md = "# H1\n## H2\n### H3\n#### H4";
    let (root, children) = parse_md(md);

    assert_eq!(children.len(), 4);

    // H1 直接挂在 Document 下
    let h1 = find_by_type(&children, &BlockType::Heading { level: 1 });
    assert_eq!(h1.parent_id, root.id);

    // H2 挂在 H1 下（HeadingStack 推断）
    let h2 = find_by_type(&children, &BlockType::Heading { level: 2 });
    assert_eq!(h2.parent_id, h1.id);

    // H3 挂在 H2 下
    let h3 = find_by_type(&children, &BlockType::Heading { level: 3 });
    assert_eq!(h3.parent_id, h2.id);

    // H4 挂在 H3 下
    let h4 = find_by_type(&children, &BlockType::Heading { level: 4 });
    assert_eq!(h4.parent_id, h3.id);
}

#[test]
fn parse_heading_same_level_siblings() {
    let md = "# A\n# B\n# C";
    let (root, children) = parse_md(md);

    let headings: Vec<_> = children.iter()
        .filter(|b| matches!(b.block_type, BlockType::Heading { level: 1 }))
        .collect();

    assert_eq!(headings.len(), 3);
    // 所有 H1 应该都是 Document 的子块
    for h in &headings {
        assert_eq!(h.parent_id, root.id);
    }
}

#[test]
fn parse_paragraph() {
    let (root, children) = parse_md("Hello world");
    let para = find_by_type(&children, &BlockType::Paragraph);
    assert_eq!(para.content, b"Hello world");
    assert_eq!(para.parent_id, root.id);
}

#[test]
fn parse_multiple_paragraphs() {
    let md = "First paragraph\n\nSecond paragraph\n\nThird";
    let (_root, children) = parse_md(md);

    let paras: Vec<_> = children.iter()
        .filter(|b| b.block_type == BlockType::Paragraph)
        .collect();
    assert_eq!(paras.len(), 3);

    assert_eq!(paras[0].content, b"First paragraph");
    assert_eq!(paras[1].content, b"Second paragraph");
    assert_eq!(paras[2].content, b"Third");
}

// ── 代码块 ────────────────────────────────────────────

#[test]
fn parse_fenced_code_block() {
    let md = "```rust\nfn main() {}\n```";
    let (_, children) = parse_md(md);

    let code = find_by_type(&children, &BlockType::CodeBlock { language: "rust".to_string() });
    assert_eq!(code.content, b"fn main() {}");
}

#[test]
fn parse_code_block_no_language() {
    let md = "```\nplain code\n```";
    let (_, children) = parse_md(md);

    let code = find_by_type(&children, &BlockType::CodeBlock { language: String::new() });
    assert_eq!(code.content, b"plain code");
}

#[test]
fn parse_code_block_multiline() {
    let md = "```python\ndef hello():\n    print(\"hi\")\n    return 42\n```";
    let (_, children) = parse_md(md);

    let code = find_by_type(&children, &BlockType::CodeBlock { language: "python".to_string() });
    let content = String::from_utf8_lossy(&code.content);
    assert!(content.contains("def hello():"));
    assert!(content.contains("print(\"hi\")"));
    assert!(content.contains("return 42"));
}

// ── 数学块 ────────────────────────────────────────────

#[test]
fn parse_math_block() {
    let md = "$$\nE = mc^2\n$$";
    let (_, children) = parse_md(md);

    let math = find_by_type(&children, &BlockType::MathBlock);
    let content = String::from_utf8_lossy(&math.content);
    assert!(content.contains("E = mc^2"));
}

#[test]
fn parse_inline_math() {
    let md = "The formula $x^2 + y^2 = z^2$ is Pythagorean";
    let (_, children) = parse_md(md);

    let para = find_by_type(&children, &BlockType::Paragraph);
    let content = String::from_utf8_lossy(&para.content);
    assert!(content.contains("$x^2 + y^2 = z^2$"));
}

// ── 分割线 ────────────────────────────────────────────

#[test]
fn parse_thematic_break() {
    let md = "before\n\n---\n\nafter";
    let (_, children) = parse_md(md);

    let tb = find_by_type(&children, &BlockType::ThematicBreak);
    assert!(tb.content.is_empty());
}

// ── 图片 ──────────────────────────────────────────────

#[test]
fn parse_standalone_image() {
    // pulldown-cmark 可能将图片放在段落内，检查行内图片重建
    let md = "![alt text](https://example.com/image.png)";
    let (_, children) = parse_md(md);

    // 图片可能被包裹在段落中作为行内内容
    let paras: Vec<_> = children.iter()
        .filter(|b| b.block_type == BlockType::Paragraph)
        .collect();
    // 至少有一个段落包含图片的 Markdown 语法
    let has_image = paras.iter().any(|p| {
        let content = String::from_utf8_lossy(&p.content);
        content.contains("![alt text]") && content.contains("https://example.com/image.png")
    });
    assert!(has_image, "应包含图片 Markdown 语法");
}

// ── 引用块 ────────────────────────────────────────────

#[test]
fn parse_blockquote() {
    let md = "> This is a quote\n> Second line";
    let (_, children) = parse_md(md);

    let bq = find_by_type(&children, &BlockType::Blockquote);
    assert_eq!(bq.parent_id, children.iter().find(|b| b.block_type == BlockType::Document).map(|d| d.id.clone()).unwrap_or_else(|| {
        // 没有 Document 在 children 中，所以 bq 的 parent 是 root
        children.iter().find(|b| b.block_type == BlockType::Blockquote).unwrap().parent_id.clone()
    }));
}

#[test]
fn parse_blockquote_contains_paragraph() {
    let md = "> quoted text";
    let (_, children) = parse_md(md);

    let bq = find_by_type(&children, &BlockType::Blockquote);
    let bq_children = children_of(&children, &bq.id);
    assert!(!bq_children.is_empty(), "引用块应该包含子块");

    let para = bq_children.iter().find(|b| b.block_type == BlockType::Paragraph);
    assert!(para.is_some(), "引用块应包含段落");
    let para_content = String::from_utf8_lossy(&para.unwrap().content);
    assert!(para_content.contains("quoted text"));
}

// ── 列表 ──────────────────────────────────────────────

#[test]
fn parse_unordered_list() {
    let md = "- first\n- second\n- third";
    let (_, children) = parse_md(md);

    let list = find_by_type(&children, &BlockType::List { ordered: false });
    let list_items = children_of(&children, &list.id);
    assert_eq!(list_items.len(), 3);

    // 所有 ListItem 的 parent 都是 List
    for item in &list_items {
        assert_eq!(item.block_type, BlockType::ListItem);
        assert_eq!(item.parent_id, list.id);
    }
}

#[test]
fn parse_ordered_list() {
    let md = "1. alpha\n2. beta\n3. gamma";
    let (_, children) = parse_md(md);

    let list = find_by_type(&children, &BlockType::List { ordered: true });
    let list_items = children_of(&children, &list.id);
    assert_eq!(list_items.len(), 3);
}

#[test]
fn parse_nested_list() {
    let md = "- item 1\n  - sub item 1\n  - sub item 2\n- item 2";
    let (_, children) = parse_md(md);

    let lists: Vec<_> = children.iter()
        .filter(|b| matches!(b.block_type, BlockType::List { .. }))
        .collect();
    assert!(lists.len() >= 2, "应至少有 2 个 List（外层 + 内层）");
}

// ── 行内格式 ──────────────────────────────────────────

#[test]
fn parse_inline_bold_italic() {
    let md = "This is **bold** and *italic* text";
    let (_, children) = parse_md(md);

    let para = find_by_type(&children, &BlockType::Paragraph);
    let content = String::from_utf8_lossy(&para.content);
    assert!(content.contains("**bold**"));
    assert!(content.contains("*italic*"));
}

#[test]
fn parse_inline_code() {
    let md = "Use `cargo test` to run";
    let (_, children) = parse_md(md);

    let para = find_by_type(&children, &BlockType::Paragraph);
    let content = String::from_utf8_lossy(&para.content);
    assert!(content.contains("`cargo test`"));
}

#[test]
fn parse_inline_link() {
    let md = "Visit [Rust](https://rust-lang.org) for more";
    let (_, children) = parse_md(md);

    let para = find_by_type(&children, &BlockType::Paragraph);
    let content = String::from_utf8_lossy(&para.content);
    assert!(content.contains("[Rust](https://rust-lang.org)"));
}

#[test]
fn parse_strikethrough() {
    let md = "This is ~~deleted~~ text";
    let (_, children) = parse_md(md);

    let para = find_by_type(&children, &BlockType::Paragraph);
    let content = String::from_utf8_lossy(&para.content);
    assert!(content.contains("~~deleted~~"));
}

// ── 混合文档 ──────────────────────────────────────────

#[test]
fn parse_mixed_document() {
    let md = r#"# My Document

First paragraph.

## Section 1

Some text in section 1.

```rust
fn main() {
println!("hello");
}
```

### Subsection

More content.

---

Final paragraph.
"#;
    let (root, children) = parse_md(md);

    assert_eq!(root.block_type, BlockType::Document);
    assert_eq!(String::from_utf8_lossy(&root.content), "My Document");

    // 验证各种块类型都存在
    let has_h1 = children.iter().any(|b| matches!(b.block_type, BlockType::Heading { level: 1 }));
    let has_h2 = children.iter().any(|b| matches!(b.block_type, BlockType::Heading { level: 2 }));
    let has_h3 = children.iter().any(|b| matches!(b.block_type, BlockType::Heading { level: 3 }));
    let has_code = children.iter().any(|b| matches!(b.block_type, BlockType::CodeBlock { .. }));
    let has_tb = children.iter().any(|b| b.block_type == BlockType::ThematicBreak);

    assert!(has_h1, "应包含 H1");
    assert!(has_h2, "应包含 H2");
    assert!(has_h3, "应包含 H3");
    assert!(has_code, "应包含代码块");
    assert!(has_tb, "应包含分割线");

    // 所有 Block 的 status 应该为 Normal
    for b in &children {
        assert_eq!(b.status, BlockStatus::Normal);
    }
}

#[test]
fn parse_blocks_created_count() {
    let md = "# Title\n\nParagraph 1\n\nParagraph 2";
    let p = MarkdownFormat::new();
    let result = p.parse(md, &ParseOptions::default()).unwrap();

    // root (Document) + H1 + Paragraph1 + Paragraph2 = 4
    assert_eq!(result.blocks_created, 4);
}

#[test]
fn parse_title_from_first_heading() {
    let (root, _) = parse_md("# Document Title\n\nSome content");
    assert_eq!(String::from_utf8_lossy(&root.content), "Document Title");
}

#[test]
fn parse_title_fallback_to_paragraph() {
    let (root, _) = parse_md("No heading here, just text");
    let title = String::from_utf8_lossy(&root.content);
    assert!(!title.is_empty());
    assert!(title.contains("No heading here"));
}

#[test]
fn parse_title_truncation() {
    let long_text: String = "A".repeat(200);
    let (root, _) = parse_md(&long_text);
    let title = String::from_utf8_lossy(&root.content);
    assert!(title.len() <= 60);
}

// ── 序列化器 ──────────────────────────────────────────

#[test]
fn serialize_document_with_title() {
    let doc = Block {
        id: "doc1".to_string(),
        parent_id: "doc1".to_string(),
        document_id: "doc1".to_string(),
        position: "a0".to_string(),
        block_type: BlockType::Document,
        content: "Test Doc".as_bytes().to_vec(),
        properties: HashMap::new(),
        version: 1,
        status: BlockStatus::Normal,
        schema_version: 1,
        encrypted: false,
        created: "2026-01-01T00:00:00.000Z".to_string(),
        modified: "2026-01-01T00:00:00.000Z".to_string(),
        author: "system".to_string(),
        owner_id: None,
    };

    let content = serialize_md(&doc, &[]);
    assert!(content.starts_with("# Test Doc"));
}

#[test]
fn serialize_heading() {
    let doc = make_doc("root");
    let h2 = Block {
        id: "h2".to_string(),
        parent_id: "root".to_string(),
        document_id: "root".to_string(),
        position: "a0".to_string(),
        block_type: BlockType::Heading { level: 2 },
        content: "Section".as_bytes().to_vec(),
        properties: HashMap::new(),
        version: 1,
        status: BlockStatus::Normal,
        schema_version: 1,
        encrypted: false,
        created: "2026-01-01T00:00:00.000Z".to_string(),
        modified: "2026-01-01T00:00:00.000Z".to_string(),
        author: "system".to_string(),
        owner_id: None,
    };

    let content = serialize_md(&doc, &[h2]);
    assert!(content.contains("## Section"));
}

#[test]
fn serialize_paragraph() {
    let doc = make_doc("root");
    let para = Block {
        id: "p1".to_string(),
        parent_id: "root".to_string(),
        document_id: "root".to_string(),
        position: "a0".to_string(),
        block_type: BlockType::Paragraph,
        content: b"Hello world".to_vec(),
        properties: HashMap::new(),
        version: 1,
        status: BlockStatus::Normal,
        schema_version: 1,
        encrypted: false,
        created: "2026-01-01T00:00:00.000Z".to_string(),
        modified: "2026-01-01T00:00:00.000Z".to_string(),
        author: "system".to_string(),
        owner_id: None,
    };

    let content = serialize_md(&doc, &[para]);
    assert!(content.contains("Hello world"));
}

#[test]
fn serialize_code_block() {
    let doc = make_doc("root");
    let code = Block {
        id: "c1".to_string(),
        parent_id: "root".to_string(),
        document_id: "root".to_string(),
        position: "a0".to_string(),
        block_type: BlockType::CodeBlock { language: "rust".to_string() },
        content: b"fn main() {}".to_vec(),
        properties: HashMap::new(),
        version: 1,
        status: BlockStatus::Normal,
        schema_version: 1,
        encrypted: false,
        created: "2026-01-01T00:00:00.000Z".to_string(),
        modified: "2026-01-01T00:00:00.000Z".to_string(),
        author: "system".to_string(),
        owner_id: None,
    };

    let content = serialize_md(&doc, &[code]);
    assert!(content.contains("```rust"));
    assert!(content.contains("fn main() {}"));
    assert!(content.contains("```"));
}

#[test]
fn serialize_math_block() {
    let doc = make_doc("root");
    let math = Block {
        id: "m1".to_string(),
        parent_id: "root".to_string(),
        document_id: "root".to_string(),
        position: "a0".to_string(),
        block_type: BlockType::MathBlock,
        content: b"E = mc^2".to_vec(),
        properties: HashMap::new(),
        version: 1,
        status: BlockStatus::Normal,
        schema_version: 1,
        encrypted: false,
        created: "2026-01-01T00:00:00.000Z".to_string(),
        modified: "2026-01-01T00:00:00.000Z".to_string(),
        author: "system".to_string(),
        owner_id: None,
    };

    let content = serialize_md(&doc, &[math]);
    assert!(content.contains("$$"));
    assert!(content.contains("E = mc^2"));
}

#[test]
fn serialize_thematic_break() {
    let doc = make_doc("root");
    let tb = Block {
        id: "t1".to_string(),
        parent_id: "root".to_string(),
        document_id: "root".to_string(),
        position: "a0".to_string(),
        block_type: BlockType::ThematicBreak,
        content: Vec::new(),
        properties: HashMap::new(),
        version: 1,
        status: BlockStatus::Normal,
        schema_version: 1,
        encrypted: false,
        created: "2026-01-01T00:00:00.000Z".to_string(),
        modified: "2026-01-01T00:00:00.000Z".to_string(),
        author: "system".to_string(),
        owner_id: None,
    };

    let content = serialize_md(&doc, &[tb]);
    assert!(content.contains("---"));
}

#[test]
fn serialize_image() {
    let doc = make_doc("root");
    let img = Block {
        id: "i1".to_string(),
        parent_id: "root".to_string(),
        document_id: "root".to_string(),
        position: "a0".to_string(),
        block_type: BlockType::Image { url: "https://example.com/img.png".to_string() },
        content: Vec::new(),
        properties: {
            let mut m = HashMap::new();
            m.insert("alt".to_string(), "photo".to_string());
            m
        },
        version: 1,
        status: BlockStatus::Normal,
        schema_version: 1,
        encrypted: false,
        created: "2026-01-01T00:00:00.000Z".to_string(),
        modified: "2026-01-01T00:00:00.000Z".to_string(),
        author: "system".to_string(),
        owner_id: None,
    };

    let content = serialize_md(&doc, &[img]);
    assert!(content.contains("![photo](https://example.com/img.png)"));
}

#[test]
fn serialize_unordered_list() {
    let doc = make_doc("root");
    let list = Block {
        id: "list1".to_string(),
        parent_id: "root".to_string(),
        document_id: "root".to_string(),
        position: "a0".to_string(),
        block_type: BlockType::List { ordered: false },
        content: Vec::new(),
        properties: HashMap::new(),
        version: 1,
        status: BlockStatus::Normal,
        schema_version: 1,
        encrypted: false,
        created: "2026-01-01T00:00:00.000Z".to_string(),
        modified: "2026-01-01T00:00:00.000Z".to_string(),
        author: "system".to_string(),
        owner_id: None,
    };
    let item1 = Block {
        id: "li1".to_string(),
        parent_id: "list1".to_string(),
        document_id: "root".to_string(),
        position: "a0".to_string(),
        block_type: BlockType::ListItem,
        content: Vec::new(),
        properties: HashMap::new(),
        version: 1,
        status: BlockStatus::Normal,
        schema_version: 1,
        encrypted: false,
        created: "2026-01-01T00:00:00.000Z".to_string(),
        modified: "2026-01-01T00:00:00.000Z".to_string(),
        author: "system".to_string(),
        owner_id: None,
    };
    let item1_para = Block {
        id: "p1".to_string(),
        parent_id: "li1".to_string(),
        document_id: "root".to_string(),
        position: "a0".to_string(),
        block_type: BlockType::Paragraph,
        content: b"item 1".to_vec(),
        properties: HashMap::new(),
        version: 1,
        status: BlockStatus::Normal,
        schema_version: 1,
        encrypted: false,
        created: "2026-01-01T00:00:00.000Z".to_string(),
        modified: "2026-01-01T00:00:00.000Z".to_string(),
        author: "system".to_string(),
        owner_id: None,
    };

    let content = serialize_md(&doc, &[list, item1, item1_para]);
    assert!(content.contains("- item 1"));
}

#[test]
fn serialize_ordered_list() {
    let doc = make_doc("root");
    let list = Block {
        id: "list1".to_string(),
        parent_id: "root".to_string(),
        document_id: "root".to_string(),
        position: "a0".to_string(),
        block_type: BlockType::List { ordered: true },
        content: Vec::new(),
        properties: HashMap::new(),
        version: 1,
        status: BlockStatus::Normal,
        schema_version: 1,
        encrypted: false,
        created: "2026-01-01T00:00:00.000Z".to_string(),
        modified: "2026-01-01T00:00:00.000Z".to_string(),
        author: "system".to_string(),
        owner_id: None,
    };
    let item1 = Block {
        id: "li1".to_string(),
        parent_id: "list1".to_string(),
        document_id: "root".to_string(),
        position: "a0".to_string(),
        block_type: BlockType::ListItem,
        content: Vec::new(),
        properties: HashMap::new(),
        version: 1,
        status: BlockStatus::Normal,
        schema_version: 1,
        encrypted: false,
        created: "2026-01-01T00:00:00.000Z".to_string(),
        modified: "2026-01-01T00:00:00.000Z".to_string(),
        author: "system".to_string(),
        owner_id: None,
    };
    let item1_para = Block {
        id: "p1".to_string(),
        parent_id: "li1".to_string(),
        document_id: "root".to_string(),
        position: "a0".to_string(),
        block_type: BlockType::Paragraph,
        content: b"first".to_vec(),
        properties: HashMap::new(),
        version: 1,
        status: BlockStatus::Normal,
        schema_version: 1,
        encrypted: false,
        created: "2026-01-01T00:00:00.000Z".to_string(),
        modified: "2026-01-01T00:00:00.000Z".to_string(),
        author: "system".to_string(),
        owner_id: None,
    };

    let content = serialize_md(&doc, &[list, item1, item1_para]);
    assert!(content.contains("1. first"));
}

#[test]
fn serialize_blockquote() {
    let doc = make_doc("root");
    let bq = Block {
        id: "bq1".to_string(),
        parent_id: "root".to_string(),
        document_id: "root".to_string(),
        position: "a0".to_string(),
        block_type: BlockType::Blockquote,
        content: Vec::new(),
        properties: HashMap::new(),
        version: 1,
        status: BlockStatus::Normal,
        schema_version: 1,
        encrypted: false,
        created: "2026-01-01T00:00:00.000Z".to_string(),
        modified: "2026-01-01T00:00:00.000Z".to_string(),
        author: "system".to_string(),
        owner_id: None,
    };
    let para = Block {
        id: "p1".to_string(),
        parent_id: "bq1".to_string(),
        document_id: "root".to_string(),
        position: "a0".to_string(),
        block_type: BlockType::Paragraph,
        content: b"quoted text".to_vec(),
        properties: HashMap::new(),
        version: 1,
        status: BlockStatus::Normal,
        schema_version: 1,
        encrypted: false,
        created: "2026-01-01T00:00:00.000Z".to_string(),
        modified: "2026-01-01T00:00:00.000Z".to_string(),
        author: "system".to_string(),
        owner_id: None,
    };

    let content = serialize_md(&doc, &[bq, para]);
    assert!(content.contains("> quoted text"));
}

// ── 降级序列化 ────────────────────────────────────────

#[test]
fn serialize_audio_lossy() {
    let doc = make_doc("root");
    let audio = Block {
        id: "a1".to_string(),
        parent_id: "root".to_string(),
        document_id: "root".to_string(),
        position: "a0".to_string(),
        block_type: BlockType::Audio { url: "https://example.com/audio.mp3".to_string() },
        content: Vec::new(),
        properties: HashMap::new(),
        version: 1,
        status: BlockStatus::Normal,
        schema_version: 1,
        encrypted: false,
        created: "2026-01-01T00:00:00.000Z".to_string(),
        modified: "2026-01-01T00:00:00.000Z".to_string(),
        author: "system".to_string(),
        owner_id: None,
    };

    let s = MarkdownFormat::new();
    let mut children_map = ChildrenMap::new();
    let _result = s.serialize(&doc, &children_map).unwrap();

    // 需要把 audio 作为 doc 的子块
    children_map.insert("root".to_string(), vec![audio]);
    let result = s.serialize(&doc, &children_map).unwrap();
    assert!(result.content.contains("[audio]"));
    assert!(result.lossy_types.contains(&"audio".to_string()));
}

#[test]
fn serialize_video_lossy() {
    let doc = make_doc("root");
    let video = Block {
        id: "v1".to_string(),
        parent_id: "root".to_string(),
        document_id: "root".to_string(),
        position: "a0".to_string(),
        block_type: BlockType::Video { url: "https://example.com/video.mp4".to_string() },
        content: Vec::new(),
        properties: HashMap::new(),
        version: 1,
        status: BlockStatus::Normal,
        schema_version: 1,
        encrypted: false,
        created: "2026-01-01T00:00:00.000Z".to_string(),
        modified: "2026-01-01T00:00:00.000Z".to_string(),
        author: "system".to_string(),
        owner_id: None,
    };

    let s = MarkdownFormat::new();
    let mut children_map = ChildrenMap::new();
    children_map.insert("root".to_string(), vec![video]);
    let result = s.serialize(&doc, &children_map).unwrap();
    assert!(result.content.contains("[video]"));
    assert!(result.lossy_types.contains(&"video".to_string()));
}

#[test]
fn serialize_deleted_block_skipped() {
    let doc = make_doc("root");
    let para = Block {
        id: "p1".to_string(),
        parent_id: "root".to_string(),
        document_id: "root".to_string(),
        position: "a0".to_string(),
        block_type: BlockType::Paragraph,
        content: b"should be skipped".to_vec(),
        properties: HashMap::new(),
        version: 1,
        status: BlockStatus::Deleted,
        schema_version: 1,
        encrypted: false,
        created: "2026-01-01T00:00:00.000Z".to_string(),
        modified: "2026-01-01T00:00:00.000Z".to_string(),
        author: "system".to_string(),
        owner_id: None,
    };

    let content = serialize_md(&doc, &[para]);
    assert!(!content.contains("should be skipped"));
}

#[test]
fn serialize_blocks_exported_count() {
    let doc = make_doc("root");
    let para = Block {
        id: "p1".to_string(),
        parent_id: "root".to_string(),
        document_id: "root".to_string(),
        position: "a0".to_string(),
        block_type: BlockType::Paragraph,
        content: b"content".to_vec(),
        properties: HashMap::new(),
        version: 1,
        status: BlockStatus::Normal,
        schema_version: 1,
        encrypted: false,
        created: "2026-01-01T00:00:00.000Z".to_string(),
        modified: "2026-01-01T00:00:00.000Z".to_string(),
        author: "system".to_string(),
        owner_id: None,
    };

    let s = MarkdownFormat::new();
    let mut children_map = ChildrenMap::new();
    children_map.insert("root".to_string(), vec![para]);
    let result = s.serialize(&doc, &children_map).unwrap();
    // Document + Paragraph = 2
    assert_eq!(result.blocks_exported, 2);
}

#[test]
fn serialize_filename_from_title() {
    let doc = Block {
        id: "root".to_string(),
        parent_id: "root".to_string(),
        document_id: "root".to_string(),
        position: "a0".to_string(),
        block_type: BlockType::Document,
        content: "My Notes".as_bytes().to_vec(),
        properties: HashMap::new(),
        version: 1,
        status: BlockStatus::Normal,
        schema_version: 1,
        encrypted: false,
        created: "2026-01-01T00:00:00.000Z".to_string(),
        modified: "2026-01-01T00:00:00.000Z".to_string(),
        author: "system".to_string(),
        owner_id: None,
    };

    let s = MarkdownFormat::new();
    let children_map = ChildrenMap::new();
    let result = s.serialize(&doc, &children_map).unwrap();
    assert_eq!(result.filename, Some("My Notes.md".to_string()));
}

// ── 往返测试 ──────────────────────────────────────────

#[test]
fn roundtrip_paragraph() {
    let md = "Hello world\n";
    let (root, children) = parse_md(md);
    let output = serialize_md(&root, &children);
    assert!(output.contains("Hello world"));
}

#[test]
fn roundtrip_heading_and_paragraph() {
    let md = "# Title\n\nSome content here\n";
    let (root, children) = parse_md(md);
    let output = serialize_md(&root, &children);

    assert!(output.contains("# Title") || output.contains("## Title"),
        "应包含标题，实际输出: {}", output);
    assert!(output.contains("Some content here"));
}

#[test]
fn roundtrip_code_block() {
    let md = "```rust\nfn main() {}\n```\n";
    let (root, children) = parse_md(md);
    let output = serialize_md(&root, &children);

    assert!(output.contains("```rust"));
    assert!(output.contains("fn main() {}"));
}

#[test]
fn roundtrip_list() {
    let md = "- item 1\n- item 2\n- item 3\n";
    let (root, children) = parse_md(md);
    let output = serialize_md(&root, &children);

    println!("=== roundtrip_list OUTPUT ===");
    println!("output: {:?}", output);
    println!("root: {:?}", root);
    println!("children count: {}", children.len());
    for (i, c) in children.iter().enumerate() {
        println!("  child[{}]: id={}, parent={}, type={:?}, content={:?}", 
            i, c.id, c.parent_id, c.block_type, String::from_utf8_lossy(&c.content));
    }

    assert!(output.contains("- item 1"), "actual output: {}", output);
    assert!(output.contains("- item 2"), "actual output: {}", output);
    assert!(output.contains("- item 3"), "actual output: {}", output);
}

#[test]
fn roundtrip_blockquote() {
    let md = "> quoted text\n";
    let (root, children) = parse_md(md);
    let output = serialize_md(&root, &children);

    assert!(output.contains("> quoted text") || output.contains("quoted text"),
        "应包含引用文本，实际输出: {}", output);
}

#[test]
fn roundtrip_math_block() {
    let md = "$$\nE = mc^2\n$$\n";
    let (root, children) = parse_md(md);
    let output = serialize_md(&root, &children);

    assert!(output.contains("$$"));
    assert!(output.contains("E = mc^2"));
}

// ── 辅助 ──────────────────────────────────────────────

fn make_doc(id: &str) -> Block {
    Block {
        id: id.to_string(),
        parent_id: id.to_string(),
        document_id: id.to_string(),
        position: "a0".to_string(),
        block_type: BlockType::Document,
        content: Vec::new(),
        properties: HashMap::new(),
        version: 1,
        status: BlockStatus::Normal,
        schema_version: 1,
        encrypted: false,
        created: "2026-01-01T00:00:00.000Z".to_string(),
        modified: "2026-01-01T00:00:00.000Z".to_string(),
        author: "system".to_string(),
        owner_id: None,
    }
}

fn tree_block(id: &str, parent: &str, position: &str, block_type: BlockType, content: &[u8], status: BlockStatus) -> Block {
    Block {
        id: id.to_string(),
        parent_id: parent.to_string(),
        document_id: "root".to_string(),
        position: position.to_string(),
        block_type,
        content: content.to_vec(),
        properties: HashMap::new(),
        version: 1,
        status,
        schema_version: 1,
        encrypted: false,
        created: "2026-01-01T00:00:00.000Z".to_string(),
        modified: "2026-01-01T00:00:00.000Z".to_string(),
        author: "system".to_string(),
        owner_id: None,
    }
}

#[test]
fn serialize_deleted_list_item_skipped_with_its_subtree() {
    let doc = tree_block("root", "root", "a0", BlockType::Document, b"", BlockStatus::Normal);
    let list = tree_block("list1", "root", "a0", BlockType::List { ordered: false }, b"", BlockStatus::Normal);
    let item = tree_block("li1", "list1", "a0", BlockType::ListItem, b"", BlockStatus::Deleted);
    let para = tree_block("p1", "li1", "a0", BlockType::Paragraph, b"gone", BlockStatus::Normal);
    let kept = tree_block("li2", "list1", "a1", BlockType::ListItem, b"", BlockStatus::Normal);
    let kept_para = tree_block("p2", "li2", "a0", BlockType::Paragraph, b"kept", BlockStatus::Normal);

    let s = MarkdownFormat::new();
    let mut children_map = ChildrenMap::new();
    children_map.insert("root".to_string(), vec![list.clone()]);
    children_map.insert("list1".to_string(), vec![item.clone()]);
    children_map.insert("li1".to_string(), vec![para.clone()]);
    let result = s.serialize(&doc, &children_map).unwrap();
    assert!(!result.content.contains("gone"));
    assert_eq!(result.blocks_exported, 2);

    let mut with_live = ChildrenMap::new();
    with_live.insert("root".to_string(), vec![list]);
    with_live.insert("list1".to_string(), vec![item, kept]);
    with_live.insert("li1".to_string(), vec![para]);
    with_live.insert("li2".to_string(), vec![kept_para]);
    let result = s.serialize(&doc, &with_live).unwrap();
    assert!(!result.content.contains("gone"));
    assert!(result.content.contains("2. kept") || result.content.contains("- kept"));
    assert_eq!(result.blocks_exported, 4);
}

#[test]
fn parsed_sibling_positions_increase_in_document_order() {
    let text: String = (0..12).map(|i| format!("para {}\n\n", i)).collect();
    let (root, children) = parse_md(&text);
    let under_root = children_of(&children, &root.id);
    assert_eq!(under_root.len(), 12);
    assert_eq!(under_root[0].position, "a0");
    assert_eq!(under_root[1].position, "a1");
    assert_eq!(under_root[9].position, "a9");
    assert_eq!(under_root[10].position, "aA");
    for i in 0..11 {
        assert!(under_root[i].position < under_root[i + 1].position);
    }
    let mut sorted = under_root.clone();
    sorted.sort_by(|a, b| a.position.cmp(&b.position));
    let texts: Vec<String> = sorted.iter().map(|b| String::from_utf8_lossy(&b.content).to_string()).collect();
    let expected: Vec<String> = (0..12).map(|i| format!("para {}", i)).collect();
    assert_eq!(texts, expected);
}
