//! Block data model: blocks, their types and statuses, identifiers and
//! timestamps.

pub mod oplog;

use std::collections::HashMap;
use vstd::prelude::*;
use crate::text::{append_chars, decimal, decimal_chars, from_chars, push_char, to_chars};

verus! {

/// Identifier of the global root block under which all documents hang.
pub const ROOT_ID: &'static str = "/";

/// Lifecycle status of a block.
#[derive(Debug, Clone, Copy, PartialEq, Eq, Structural)]
pub enum BlockStatus {
    Normal,
    Draft,
    Deleted,
}

impl BlockStatus {
    /// Storage name of the status.
    pub fn as_str(&self) -> (r: &'static str)
        ensures
            r@ == status_name(*self),
    {
        proof {
            reveal_strlit("normal");
            reveal_strlit("draft");
            reveal_strlit("deleted");
        }
        match self {
            BlockStatus::Normal => "normal",
            BlockStatus::Draft => "draft",
            BlockStatus::Deleted => "deleted",
        }
    }
}

/// Storage name of a status.
pub open spec fn status_name(s: BlockStatus) -> Seq<char> {
    match s {
        BlockStatus::Normal => seq!['n', 'o', 'r', 'm', 'a', 'l'],
        BlockStatus::Draft => seq!['d', 'r', 'a', 'f', 't'],
        BlockStatus::Deleted => seq!['d', 'e', 'l', 'e', 't', 'e', 'd'],
    }
}

/// Kind of a block, with the data that kind carries.
#[derive(Debug, Clone, PartialEq, Eq)]
pub enum BlockType {
    Document,
    Heading { level: u8 },
    Paragraph,
    CodeBlock { language: String },
    MathBlock,
    ThematicBreak,
    Image { url: String },
    List { ordered: bool },
    ListItem,
    Blockquote,
    Callout,
    Audio { url: String },
    Video { url: String },
    Iframe { url: String },
    Embed,
    AttributeView { av_id: String },
    Widget,
}

/// A block: one node of a document tree.
#[derive(Debug, Clone)]
pub struct Block {
    pub id: String,
    pub parent_id: String,
    pub document_id: String,
    pub position: String,
    pub block_type: BlockType,
    pub content: Vec<u8>,
    pub properties: HashMap<String, String>,
    pub version: u64,
    pub status: BlockStatus,
    pub schema_version: u32,
    pub encrypted: bool,
    pub created: String,
    pub modified: String,
    pub author: String,
    pub owner_id: Option<String>,
}

/// A warning raised while parsing text into blocks.
#[derive(Debug, Clone)]
pub struct ParseWarning {
    /// 1-based line number, 0 when unknown.
    pub line: usize,
    pub warning_type: String,
    pub message: String,
    pub action: String,
}

/// `rand::random::<u64>()`: a uniformly random 64-bit number.
#[verifier::external_body]
pub(crate) fn random_u64() -> (r: u64) {
    rand::random::<u64>()
}

/// The current time as an RFC 3339 UTC string with milliseconds
/// (`chrono::Utc::now().to_rfc3339_opts(Millis, true)`).
#[verifier::external_body]
pub(crate) fn now_iso() -> (r: String) {
    chrono::Utc::now().to_rfc3339_opts(chrono::SecondsFormat::Millis, true)
}

/// Characters block identifiers are drawn from.
pub open spec fn id_char(c: char) -> bool {
    ('0' <= c <= '9') || ('a' <= c <= 'z')
}

/// A fresh random block identifier of twenty lowercase alphanumerics.
pub fn generate_block_id() -> (r: String)
    ensures
        r@.len() == 20,
        forall|i: int| 0 <= i < 20 ==> id_char(#[trigger] r@[i]),
{
    let mut s = String::new();
    let mut i: usize = 0;
    while i < 20
        invariant
            i <= 20,
            s@.len() == i,
            forall|j: int| 0 <= j < i ==> id_char(#[trigger] s@[j]),
        decreases 20 - i,
    {
        let k = (random_u64() % 36) as u8;
        let c = if k < 10 {
            (k + 48) as char
        } else {
            (k + 87) as char
        };
        push_char(&mut s, c);
        i += 1;
    }
    s
}

/// What `{:?}` writes for a string: the text in double quotes, with
/// characters escaped as `char::escape_debug` does.
pub uninterp spec fn str_debug(s: Seq<char>) -> Seq<char>;

/// `format!("{:?}", s)` for a string slice.
#[verifier::external_body]
fn debug_str(s: &str) -> (r: String)
    ensures
        r@ == str_debug(s@),
{
    format!("{:?}", s)
}

/// `true` or `false`.
pub open spec fn bool_text(b: bool) -> Seq<char> {
    if b {
        "true"@
    } else {
        "false"@
    }
}

/// The debug form of a block type: the variant's name, followed for a
/// variant with data by `{ field: value }`.
pub open spec fn block_type_debug(bt: BlockType) -> Seq<char> {
    match bt {
        BlockType::Document => "Document"@,
        BlockType::Heading { level } => "Heading { level: "@ + decimal(level as nat) + " }"@,
        BlockType::Paragraph => "Paragraph"@,
        BlockType::CodeBlock { language } => "CodeBlock { language: "@ + str_debug(language@) + " }"@,
        BlockType::MathBlock => "MathBlock"@,
        BlockType::ThematicBreak => "ThematicBreak"@,
        BlockType::Image { url } => "Image { url: "@ + str_debug(url@) + " }"@,
        BlockType::List { ordered } => "List { ordered: "@ + bool_text(ordered) + " }"@,
        BlockType::ListItem => "ListItem"@,
        BlockType::Blockquote => "Blockquote"@,
        BlockType::Callout => "Callout"@,
        BlockType::Audio { url } => "Audio { url: "@ + str_debug(url@) + " }"@,
        BlockType::Video { url } => "Video { url: "@ + str_debug(url@) + " }"@,
        BlockType::Iframe { url } => "Iframe { url: "@ + str_debug(url@) + " }"@,
        BlockType::Embed => "Embed"@,
        BlockType::AttributeView { av_id } => "AttributeView { av_id: "@ + str_debug(av_id@) + " }"@,
        BlockType::Widget => "Widget"@,
    }
}

/// `head`, then `body`, then ` }`.
fn wrap_field(head: &str, body: &Vec<char>) -> (r: Vec<char>)
    ensures
        r@ == head@ + body@ + " }"@,
{
    let mut r = to_chars(head);
    append_chars(&mut r, body);
    let tail = to_chars(" }");
    append_chars(&mut r, &tail);
    r
}

/// Two blocks hold the same values, field by field.
pub open spec fn same_block(a: Block, b: Block) -> bool {
    &&& a.id == b.id
    &&& a.parent_id == b.parent_id
    &&& a.document_id == b.document_id
    &&& a.position == b.position
    &&& a.block_type == b.block_type
    &&& a.content@ == b.content@
    &&& a.properties@ == b.properties@
    &&& a.version == b.version
    &&& a.status == b.status
    &&& a.schema_version == b.schema_version
    &&& a.encrypted == b.encrypted
    &&& a.created == b.created
    &&& a.modified == b.modified
    &&& a.author == b.author
    &&& a.owner_id == b.owner_id
}

/// A copy of a block.
pub fn copy_block(b: &Block) -> (r: Block)
    ensures
        same_block(r, *b),
{
    Block {
        id: b.id.clone(),
        parent_id: b.parent_id.clone(),
        document_id: b.document_id.clone(),
        position: b.position.clone(),
        block_type: b.block_type.copy(),
        content: copy_bytes(&b.content),
        properties: b.properties.clone(),
        version: b.version,
        status: b.status,
        schema_version: b.schema_version,
        encrypted: b.encrypted,
        created: b.created.clone(),
        modified: b.modified.clone(),
        author: b.author.clone(),
        owner_id: match &b.owner_id {
            Some(o) => Some(o.clone()),
            None => None,
        },
    }
}

/// A copy of a byte vector.
pub(crate) fn copy_bytes(v: &Vec<u8>) -> (r: Vec<u8>)
    ensures
        r@ == v@,
{
    let mut r: Vec<u8> = Vec::new();
    let mut i: usize = 0;
    while i < v.len()
        invariant
            i <= v.len(),
            r@ == v@.take(i as int),
        decreases v.len() - i,
    {
        r.push(v[i]);
        i += 1;
        assert(r@ =~= v@.take(i as int));
    }
    assert(v@.take(v.len() as int) =~= v@);
    r
}

impl BlockType {
    /// A copy of the block type.
    pub fn copy(&self) -> (r: BlockType)
        ensures
            r == *self,
    {
        match self {
            BlockType::Document => BlockType::Document,
            BlockType::Heading { level } => BlockType::Heading { level: *level },
            BlockType::Paragraph => BlockType::Paragraph,
            BlockType::CodeBlock { language } => BlockType::CodeBlock { language: language.clone() },
            BlockType::MathBlock => BlockType::MathBlock,
            BlockType::ThematicBreak => BlockType::ThematicBreak,
            BlockType::Image { url } => BlockType::Image { url: url.clone() },
            BlockType::List { ordered } => BlockType::List { ordered: *ordered },
            BlockType::ListItem => BlockType::ListItem,
            BlockType::Blockquote => BlockType::Blockquote,
            BlockType::Callout => BlockType::Callout,
            BlockType::Audio { url } => BlockType::Audio { url: url.clone() },
            BlockType::Video { url } => BlockType::Video { url: url.clone() },
            BlockType::Iframe { url } => BlockType::Iframe { url: url.clone() },
            BlockType::Embed => BlockType::Embed,
            BlockType::AttributeView { av_id } => BlockType::AttributeView { av_id: av_id.clone() },
            BlockType::Widget => BlockType::Widget,
        }
    }

    /// The text `{:?}` writes for the block type.
    pub fn debug_text(&self) -> (r: String)
        ensures
            r@ == block_type_debug(*self),
    {
        let v: Vec<char> = match self {
            BlockType::Document => to_chars("Document"),
            BlockType::Heading { level } => wrap_field("Heading { level: ", &decimal_chars(*level as usize)),
            BlockType::Paragraph => to_chars("Paragraph"),
            BlockType::CodeBlock { language } => wrap_field(
                "CodeBlock { language: ",
                &to_chars(debug_str(language.as_str()).as_str()),
            ),
            BlockType::MathBlock => to_chars("MathBlock"),
            BlockType::ThematicBreak => to_chars("ThematicBreak"),
            BlockType::Image { url } => wrap_field("Image { url: ", &to_chars(debug_str(url.as_str()).as_str())),
            BlockType::List { ordered } => wrap_field(
                "List { ordered: ",
                &to_chars(
                    if *ordered {
                        "true"
                    } else {
                        "false"
                    },
                ),
            ),
            BlockType::ListItem => to_chars("ListItem"),
            BlockType::Blockquote => to_chars("Blockquote"),
            BlockType::Callout => to_chars("Callout"),
            BlockType::Audio { url } => wrap_field("Audio { url: ", &to_chars(debug_str(url.as_str()).as_str())),
            BlockType::Video { url } => wrap_field("Video { url: ", &to_chars(debug_str(url.as_str()).as_str())),
            BlockType::Iframe { url } => wrap_field("Iframe { url: ", &to_chars(debug_str(url.as_str()).as_str())),
            BlockType::Embed => to_chars("Embed"),
            BlockType::AttributeView { av_id } => wrap_field(
                "AttributeView { av_id: ",
                &to_chars(debug_str(av_id.as_str()).as_str()),
            ),
            BlockType::Widget => to_chars("Widget"),
        };
        from_chars(v.as_slice())
    }
}

} // verus!
