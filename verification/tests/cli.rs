//! Command-line helpers.

use wem_kernel::cli::{block_type_short, parse_block_type, parse_u8, split_cmd, truncate, truncate_str, AppPhase};
use wem_kernel::model::BlockType;

#[test]
fn phase_labels() {
    assert_eq!(AppPhase::Idle.label(), "");
    assert_eq!(AppPhase::Streaming.label(), "Responding");
    assert_eq!(AppPhase::WaitingPermission.label(), "Awaiting approval");
}

#[test]
fn commands_split_at_first_space() {
    assert_eq!(split_cmd("add-block  p  hello "), ("add-block".to_string(), "p  hello".to_string()));
    assert_eq!(split_cmd("help"), ("help".to_string(), String::new()));
}

#[test]
fn short_type_names() {
    assert_eq!(block_type_short(&BlockType::Heading { level: 3 }), "h3");
    assert_eq!(block_type_short(&BlockType::CodeBlock { language: "rs".into() }), "code(rs)");
    assert_eq!(block_type_short(&BlockType::List { ordered: true }), "ol");
    assert_eq!(block_type_short(&BlockType::Callout), "Callout");
    assert_eq!(block_type_short(&BlockType::Image { url: "u\"x".into() }), "Image { url: \"u\\\"x\" }");
}

#[test]
fn block_type_names_parse() {
    assert_eq!(parse_block_type("p"), Ok(BlockType::Paragraph));
    assert_eq!(parse_block_type("document"), Ok(BlockType::Document));
    assert_eq!(parse_block_type("quote"), Ok(BlockType::Blockquote));
    assert_eq!(parse_block_type("heading2"), Ok(BlockType::Heading { level: 2 }));
    assert_eq!(parse_block_type("h+3"), Ok(BlockType::Heading { level: 3 }));
    assert_eq!(parse_block_type("h300"), Err("无效 heading level: h300".to_string()));
    assert_eq!(parse_block_type("hello"), Err("无效 heading level: hello".to_string()));
    assert_eq!(parse_block_type("code(rust)"), Ok(BlockType::CodeBlock { language: "rust".into() }));
    assert_eq!(parse_block_type("code"), Ok(BlockType::CodeBlock { language: "text".into() }));
    assert_eq!(parse_block_type("table"), Err("未知 block type: table".to_string()));
}

#[test]
fn u8_parsing() {
    assert_eq!(parse_u8(&"255".chars().collect()), Some(255));
    assert_eq!(parse_u8(&"007".chars().collect()), Some(7));
    assert_eq!(parse_u8(&"256".chars().collect()), None);
    assert_eq!(parse_u8(&"+".chars().collect()), None);
    assert_eq!(parse_u8(&"".chars().collect()), None);
    assert_eq!(parse_u8(&"-1".chars().collect()), None);
}

#[test]
fn truncation() {
    assert_eq!(truncate("héllo", 2), "hé");
    assert_eq!(truncate("abc", 10), "abc");
    assert_eq!(truncate_str("héllo", 2), "h...");
    assert_eq!(truncate_str("héllo", 3), "hé...");
    assert_eq!(truncate_str("abc", 3), "abc");
}
