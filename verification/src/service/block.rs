//! Block reads, listings and exports: what each returns for the rows the
//! store handed back.

use vstd::prelude::*;
use crate::api::response::{ChildrenResult, DeleteResult, DocumentTreeResult, ExportResult, RestoreResult};
use crate::error::AppError;
use crate::model::{Block, BlockStatus, BlockType};
use std::collections::HashMap;
use crate::parser::{get_serializer, is_markdown_name, unsupported_message, BlockSerializer};
use crate::parser::serializer::{acyclic, export_filename, render, render_count, Kids};
use crate::parser::types::ChildrenMap;
use crate::service::heading::{heading_level_message, missing_block_message, HeadingOps};
use crate::service::traits::BlockTypeOps;
use crate::text::{push_str, str_eq, string_into_bytes, to_chars};
use crate::api::request::{CreateBlockReq, MoveBlockReq, PropertiesMode, UpdateBlockReq};
use crate::model::{block_type_debug, copy_block, copy_bytes, generate_block_id, now_iso, same_block, ROOT_ID};
use crate::position::{before_spec, generate_before, law_before_keeps_valid, generate_between, lex_less, lex_lt, after_spec, between_spec, calculate_position, generate_after, generate_first, law_after_keeps_valid,
    law_between_is_between, law_valid_positions_do_not_underflow, valid_pos};
use crate::service::heading::{bad_heading_level, opt_view};
use crate::service::list::{validate_list_child_type, validate_parent_child_constraint};
use crate::service::outline::{move_heading_in_flat, rebuild_document};
use crate::service::store::{picked_upto, lemma_prev_child_pos, prev_child_pos, count_rows, in_subtree, under, lemma_index_same_ids, row_ok, children_sorted, index_of, lemma_index_of, lemma_index_unique, live_child, lemma_max_child_pos, lemma_next_child_pos, live_row, max_child_pos,
    next_child_pos, row_of, store_wf, BlockStore};
use vstd::utf8::encode_utf8;

verus! {

// ─── Type dispatch ───────────────────────────────────────────────

/// Checks a block type before creation (only headings have a rule: a level
/// in `1..=6`).
pub fn validate_on_create(block_type: &BlockType) -> (r: Result<(), AppError>)
    ensures
        r is Ok <==> !crate::service::heading::bad_heading_level(*block_type),
        r matches Err(e) ==> e matches AppError::BadRequest(msg) && msg@ == heading_level_message(*block_type),
{
    match block_type {
        BlockType::Heading { .. } => HeadingOps::validate_on_create(block_type),
        _ => Ok(()),
    }
}

/// Whether moving a block of this type goes through the document's flat
/// list (headings do).
pub fn use_flat_list_move(block_type: &BlockType) -> (r: bool)
    ensures
        r == (*block_type is Heading),
{
    match block_type {
        BlockType::Heading { .. } => HeadingOps::use_flat_list_move(),
        _ => false,
    }
}

// ─── Reads ───────────────────────────────────────────────────────

/// The block stored under `id` as a read returns it: `raw` is the stored
/// row, if any; a deleted block is returned only when `include_deleted`.
pub fn read_block(raw: Option<Block>, id: &str, include_deleted: bool) -> (r: Result<Block, AppError>)
    ensures
        r is Ok <==> (raw matches Some(b) && (include_deleted || b.status != BlockStatus::Deleted)),
        r matches Ok(b) ==> raw == Some(b),
        r matches Err(e) ==> e matches AppError::NotFound(msg) && msg@ == missing_block_message(id@),
{
    match raw {
        Some(b) => {
            if include_deleted || b.status != BlockStatus::Deleted {
                return Ok(b);
            }
        },
        None => {},
    }
    let mut msg = "Block ".to_owned();
    push_str(&mut msg, id);
    push_str(&mut msg, " 不存在或已删除");
    Err(AppError::NotFound(msg))
}

/// The block `id` of the store; a deleted one only when `include_deleted`.
pub fn get_block(store: &BlockStore, id: &str, include_deleted: bool) -> (r: Result<Block, AppError>)
    ensures
        r is Ok <==> (row_of(store@, id@) matches Some(b) && (include_deleted || b.status != BlockStatus::Deleted)),
        r matches Ok(b) ==> row_of(store@, id@) matches Some(x) && same_block(b, x),
        r matches Err(e) ==> e matches AppError::NotFound(msg) && msg@ == missing_block_message(id@),
{
    let raw = match store.find(id) {
        Some(i) => Some(copy_block(store.row_at(i))),
        None => None,
    };
    read_block(raw, id, include_deleted)
}

// ─── Creating a block ────────────────────────────────────────────

/// The message for a parent that is missing or deleted.
pub open spec fn missing_parent_message(id: Seq<char>) -> Seq<char> {
    "父块 "@ + id + " 不存在或已删除"@
}

/// The message for an anchor that is not a live child of `parent`.
pub open spec fn not_child_message(id: Seq<char>, parent: Seq<char>) -> Seq<char> {
    "Block "@ + id + " 不是 "@ + parent + " 的有效子块"@
}

/// The message for a row whose identifier is already taken.
pub open spec fn duplicate_id_message() -> Seq<char> {
    "插入 Block 失败: UNIQUE constraint failed: blocks.id"@
}

/// The document a child of `parent` belongs to: the parent itself when it is
/// a document, else the parent's document.
pub open spec fn document_of_child(parent: Block) -> Seq<char> {
    if parent.block_type == BlockType::Document {
        parent.id@
    } else {
        parent.document_id@
    }
}

/// The position of the live child `id` of `p`.
pub open spec fn sibling_pos(s: Seq<Block>, id: Seq<char>, p: Seq<char>) -> Option<Seq<char>> {
    match live_row(s, id) {
        Some(b) => if b.parent_id@ == p {
            Some(b.position@)
        } else {
            None
        },
        None => None,
    }
}

/// The view of an optional owned string.
pub open spec fn opt_id(o: Option<String>) -> Option<Seq<char>> {
    match o {
        Some(x) => Some(x@),
        None => None,
    }
}

/// Where a new child of `p` goes: after the live child `after`, below the
/// next child when there is one; else after the last child; else first.
/// `None` when no position fits between the neighbours.
pub open spec fn insert_position(s: Seq<Block>, p: Seq<char>, after: Option<Seq<char>>) -> Option<Seq<char>> {
    match after {
        Some(aid) => {
            let ap = sibling_pos(s, aid, p)->0;
            match next_child_pos(s, p, ap) {
                Some(n) => between_spec(ap, n),
                None => Some(after_spec(ap)),
            }
        },
        None => match max_child_pos(s, p) {
            Some(m) => Some(after_spec(m)),
            None => Some(seq!['a', '0']),
        },
    }
}

/// A create request that fails whatever identifier it gets: a bad heading
/// level, a missing or deleted parent, a list rule broken, an anchor that
/// is not a live child of the parent, or no position between neighbours.
pub open spec fn create_refused(s: Seq<Block>, req: CreateBlockReq) -> bool {
    let bt = req.block_type;
    let parent = live_row(s, req.parent_id@);
    ||| bad_heading_level(bt)
    ||| parent is None
    ||| (bt is ListItem && !(parent->0.block_type is List))
    ||| (parent->0.block_type is List && !(bt is ListItem))
    ||| (req.after_id matches Some(a) && sibling_pos(s, a@, req.parent_id@) is None)
    ||| insert_position(s, req.parent_id@, opt_id(req.after_id)) is None
}

/// The error a refused create request gets: that of the first check it
/// fails, in the order of `create_refused`.
pub open spec fn create_error(s: Seq<Block>, req: CreateBlockReq, e: AppError) -> bool {
    let bt = req.block_type;
    let parent = live_row(s, req.parent_id@);
    if bad_heading_level(bt) {
        e matches AppError::BadRequest(m) && m@ == heading_level_message(bt)
    } else if parent is None {
        e matches AppError::BadRequest(m) && m@ == missing_parent_message(req.parent_id@)
    } else if bt is ListItem && !(parent->0.block_type is List) {
        e matches AppError::BadRequest(m) && m@ == "ListItem 必须挂在 List 类型块下，实际父块类型为 "@
            + block_type_debug(parent->0.block_type)
    } else if parent->0.block_type is List && !(bt is ListItem) {
        e matches AppError::BadRequest(m) && m@ == "List 块的直接子块必须是 ListItem，实际为 "@ + block_type_debug(bt)
    } else if req.after_id is Some && sibling_pos(s, req.after_id->Some_0@, req.parent_id@) is None {
        e matches AppError::BadRequest(m) && m@ == not_child_message(req.after_id->Some_0@, req.parent_id@)
    } else {
        e is Internal
    }
}

/// `b` is the block a create request makes with identifier `id` at time
/// `now`.
pub open spec fn created_as(s: Seq<Block>, req: CreateBlockReq, id: Seq<char>, now: Seq<char>, b: Block) -> bool {
    &&& b.id@ == id
    &&& b.parent_id == req.parent_id
    &&& b.document_id@ == document_of_child(live_row(s, req.parent_id@)->0)
    &&& b.position@ == insert_position(s, req.parent_id@, opt_id(req.after_id))->0
    &&& b.block_type == req.block_type
    &&& b.content@ == encode_utf8(req.content@)
    &&& b.properties@ == req.properties@
    &&& b.version == 1
    &&& b.status == BlockStatus::Normal
    &&& b.schema_version == 1
    &&& !b.encrypted
    &&& b.created@ == now
    &&& b.modified@ == now
    &&& b.author@ == "system"@
    &&& b.owner_id is None
}

/// Computes where a new child of `parent_id` goes (see `insert_position`).
pub(crate) fn insert_position_of(store: &BlockStore, parent_id: &str, after_id: Option<&str>) -> (r: Result<String, AppError>)
    requires
        store_wf(store@),
    ensures
        match after_id {
            Some(a) => if sibling_pos(store@, a@, parent_id@) is None {
                r matches Err(AppError::BadRequest(m)) && m@ == not_child_message(a@, parent_id@)
            } else {
                match r {
                    Ok(x) => insert_position(store@, parent_id@, Some(a@)) == Some(x@),
                    Err(e) => insert_position(store@, parent_id@, Some(a@)) is None && e is Internal,
                }
            },
            None => r matches Ok(x) && insert_position(store@, parent_id@, None) == Some(x@),
        },
        r matches Ok(x) ==> valid_pos(x@),
{
    proof {
        lemma_max_child_pos(store@, parent_id@);
    }
    match after_id {
        Some(aid) => {
            let sib = match store.find(aid) {
                Some(i) => {
                    let b = store.row_at(i);
                    if b.status != BlockStatus::Deleted && str_eq(b.parent_id.as_str(), parent_id) {
                        Some(b.position.clone())
                    } else {
                        None
                    }
                },
                None => None,
            };
            let ap = match sib {
                Some(x) => x,
                None => {
                    let mut msg = "Block ".to_owned();
                    push_str(&mut msg, aid);
                    push_str(&mut msg, " 不是 ");
                    push_str(&mut msg, parent_id);
                    push_str(&mut msg, " 的有效子块");
                    return Err(AppError::BadRequest(msg));
                },
            };
            proof {
                lemma_index_of(store@, aid@);
                lemma_next_child_pos(store@, parent_id@, ap@);
                law_after_keeps_valid(ap@);
            }
            match store.next_child_position(parent_id, ap.as_str()) {
                Some(n) => {
                    proof {
                        law_valid_positions_do_not_underflow(ap@, n@);
                        if between_spec(ap@, n@) is Some {
                            law_between_is_between(ap@, n@);
                        }
                    }
                    calculate_position(parent_id, Some(ap.as_str()), Some(n.as_str()))
                },
                None => calculate_position(parent_id, Some(ap.as_str()), None),
            }
        },
        None => match store.max_child_position(parent_id) {
            Some(m) => {
                proof {
                    law_after_keeps_valid(m@);
                }
                Ok(generate_after(m.as_str()))
            },
            None => {
                let r = generate_first();
                assert(valid_pos(r@)) by {
                    crate::position::lemma_alpha_char(10);
                    crate::position::lemma_alpha_char(0);
                }
                Ok(r)
            },
        },
    }
}

/// Creates a block as `create_block` does, with the identifier `id` and the
/// time `now` given.
pub fn create_block_with(store: &mut BlockStore, req: CreateBlockReq, id: String, now: String) -> (r: Result<Block, AppError>)
    requires
        store_wf(old(store)@),
    ensures
        store_wf(final(store)@),
        r is Ok <==> !create_refused(old(store)@, req) && index_of(old(store)@, id@) is None,
        r matches Ok(b) ==> final(store)@ == old(store)@.push(final(store)@.last()) && same_block(b, final(store)@.last())
            && created_as(old(store)@, req, id@, now@, b),
        r matches Err(e) ==> final(store)@ == old(store)@ && (if create_refused(old(store)@, req) {
            create_error(old(store)@, req, e)
        } else {
            e matches AppError::Internal(m) && m@ == duplicate_id_message()
        }),
{
    let ghost s = store@;
    let ghost req0 = req;
    if let Err(e) = validate_on_create(&req.block_type) {
        return Err(e);
    }
    let parent = match store.find(req.parent_id.as_str()) {
        Some(i) => {
            let b = store.row_at(i);
            if b.status != BlockStatus::Deleted {
                Some(copy_block(b))
            } else {
                None
            }
        },
        None => None,
    };
    let parent = match parent {
        Some(p) => p,
        None => {
            let mut msg = "父块 ".to_owned();
            push_str(&mut msg, req.parent_id.as_str());
            push_str(&mut msg, " 不存在或已删除");
            return Err(AppError::BadRequest(msg));
        },
    };
    assert(live_row(s, req.parent_id@) matches Some(x) && same_block(parent, x));
    if let Err(e) = validate_parent_child_constraint(&parent, &req.block_type) {
        return Err(e);
    }
    if let Err(e) = validate_list_child_type(&parent.block_type, &req.block_type) {
        return Err(e);
    }
    let document_id = if matches!(parent.block_type, BlockType::Document) {
        parent.id.clone()
    } else {
        parent.document_id.clone()
    };
    let after = match &req.after_id {
        Some(a) => Some(a.as_str()),
        None => None,
    };
    let position = match insert_position_of(store, req.parent_id.as_str(), after) {
        Ok(p) => p,
        Err(e) => {
            return Err(e);
        },
    };
    if store.find(id.as_str()).is_some() {
        return Err(AppError::Internal("插入 Block 失败: UNIQUE constraint failed: blocks.id".to_owned()));
    }
    proof {
        reveal_strlit("插入 Block 失败: UNIQUE constraint failed: blocks.id");
        reveal_strlit("system");
    }
    let b = Block {
        id,
        parent_id: req.parent_id,
        document_id,
        position,
        block_type: req.block_type,
        content: string_into_bytes(req.content),
        properties: req.properties,
        version: 1,
        status: BlockStatus::Normal,
        schema_version: 1,
        encrypted: false,
        created: now.clone(),
        modified: now,
        author: "system".to_owned(),
        owner_id: None,
    };
    let r = copy_block(&b);
    store.push_row(b);
    Ok(r)
}

/// Creates a block under a live parent: checks the type and the list rules,
/// places it after `after_id` (or last), gives it a fresh identifier and
/// the current time, and stores it.
pub fn create_block(store: &mut BlockStore, req: CreateBlockReq) -> (r: Result<Block, AppError>)
    requires
        store_wf(old(store)@),
    ensures
        store_wf(final(store)@),
        create_refused(old(store)@, req) ==> r is Err,
        r matches Ok(b) ==> final(store)@ == old(store)@.push(final(store)@.last()) && same_block(b, final(store)@.last())
            && created_as(old(store)@, req, b.id@, b.created@, b) && b.id@.len() == 20,
        r matches Err(e) ==> final(store)@ == old(store)@ && (if create_refused(old(store)@, req) {
            create_error(old(store)@, req, e)
        } else {
            e matches AppError::Internal(m) && m@ == duplicate_id_message()
        }),
{
    let id = generate_block_id();
    let now = now_iso();
    create_block_with(store, req, id, now)
}

// ─── Writing rows ────────────────────────────────────────────────

/// `b` is `cur` written `n` times with the given content, properties, type
/// and status, last at time `now`: its version goes up by `n`.
pub open spec fn written_n(
    b: Block,
    cur: Block,
    content: Seq<u8>,
    props: Map<String, String>,
    bt: BlockType,
    status: BlockStatus,
    now: Seq<char>,
    n: int,
) -> bool {
    &&& b.id == cur.id
    &&& b.parent_id == cur.parent_id
    &&& b.document_id == cur.document_id
    &&& b.position == cur.position
    &&& b.block_type == bt
    &&& b.content@ == content
    &&& b.properties@ == props
    &&& b.version == cur.version + n
    &&& b.status == status
    &&& b.schema_version == cur.schema_version
    &&& b.encrypted == cur.encrypted
    &&& b.created == cur.created
    &&& b.modified@ == now
    &&& b.author == cur.author
    &&& b.owner_id == cur.owner_id
}

/// `b` is `cur` written once with the given content, properties, type and
/// status at time `now`.
pub open spec fn written(
    b: Block,
    cur: Block,
    content: Seq<u8>,
    props: Map<String, String>,
    bt: BlockType,
    status: BlockStatus,
    now: Seq<char>,
) -> bool {
    written_n(b, cur, content, props, bt, status, now, 1)
}

/// Every row of the store has room for `n` more version bumps.
pub open spec fn versions_fit(s: Seq<Block>, n: int) -> bool {
    forall|k: int| 0 <= k < s.len() ==> (#[trigger] s[k]).version + n <= u64::MAX
}

/// Writes row `i` with new content, properties, type and status.
pub(crate) fn write_row(
    store: &mut BlockStore,
    i: usize,
    content: Vec<u8>,
    props: HashMap<String, String>,
    bt: BlockType,
    status: BlockStatus,
    now: &String,
)
    requires
        store_wf(old(store)@),
        i < old(store)@.len(),
        old(store)@[i as int].version < u64::MAX,
    ensures
        store_wf(final(store)@),
        final(store)@.len() == old(store)@.len(),
        final(store)@ == old(store)@.update(i as int, final(store)@[i as int]),
        written(final(store)@[i as int], old(store)@[i as int], content@, props@, bt, status, now@),
{
    let cur = copy_block(store.row_at(i));
    let b = Block {
        id: cur.id,
        parent_id: cur.parent_id,
        document_id: cur.document_id,
        position: cur.position,
        block_type: bt,
        content,
        properties: props,
        version: cur.version + 1,
        status,
        schema_version: cur.schema_version,
        encrypted: cur.encrypted,
        created: cur.created,
        modified: now.clone(),
        author: cur.author,
        owner_id: cur.owner_id,
    };
    proof {
        assert(store@.contains(store@[i as int]));
    }
    store.set_row(i, b);
}

// ─── Updating a block ────────────────────────────────────────────

/// `HashMap::extend`: every entry of `other` is inserted into `m`, a key
/// already there taking the new value.
#[verifier::external_body]
fn extend_properties(m: &mut HashMap<String, String>, other: HashMap<String, String>)
    ensures
        final(m)@ == old(m)@.union_prefer_right(other@),
{
    m.extend(other);
}

/// The properties an update leaves: the new ones in replace mode, the
/// current ones overwritten by the new ones in merge mode, the current ones
/// when the request has none.
pub open spec fn updated_properties(
    cur: Map<String, String>,
    new: Option<HashMap<String, String>>,
    mode: PropertiesMode,
) -> Map<String, String> {
    match new {
        Some(np) => if mode == PropertiesMode::Replace {
            np@
        } else {
            cur.union_prefer_right(np@)
        },
        None => cur,
    }
}

/// Combines the current properties with those of a request.
fn merge_properties(
    cur: &HashMap<String, String>,
    new: Option<HashMap<String, String>>,
    mode: PropertiesMode,
) -> (r: HashMap<String, String>)
    ensures
        r@ == updated_properties(cur@, new, mode),
{
    match new {
        Some(np) => match mode {
            PropertiesMode::Replace => np,
            PropertiesMode::Merge => {
                let mut m = cur.clone();
                extend_properties(&mut m, np);
                m
            },
        },
        None => cur.clone(),
    }
}

/// An update request that fails: a bad heading level, a block that is
/// missing or deleted, or a heading change in a document that is missing
/// or deleted (its tree cannot be rebuilt).
pub open spec fn update_refused(s: Seq<Block>, id: Seq<char>, req: UpdateBlockReq) -> bool {
    let cur = live_row(s, id)->0;
    ||| (req.block_type is Some && bad_heading_level(req.block_type->Some_0))
    ||| live_row(s, id) is None
    ||| (heading_change(cur, req) && live_row(s, cur.document_id@) is None)
}

/// The error of a refused update request.
pub open spec fn update_error(s: Seq<Block>, id: Seq<char>, req: UpdateBlockReq, e: AppError) -> bool {
    if req.block_type is Some && bad_heading_level(req.block_type->Some_0) {
        e matches AppError::BadRequest(m) && m@ == heading_level_message(req.block_type->Some_0)
    } else if live_row(s, id) is None {
        e matches AppError::NotFound(m) && m@ == missing_block_message(id)
    } else {
        e matches AppError::Internal(m) && m@ == unreadable_parent_message(live_row(s, id)->0.document_id@)
    }
}

/// The content an update writes.
pub open spec fn updated_content(cur: Block, req: UpdateBlockReq) -> Seq<u8> {
    match req.content {
        Some(c) => encode_utf8(c@),
        None => cur.content@,
    }
}

/// The type an update writes.
pub open spec fn updated_type(cur: Block, req: UpdateBlockReq) -> BlockType {
    match req.block_type {
        Some(t) => t,
        None => cur.block_type,
    }
}

/// The type change touches a heading (it was one, or becomes one).
pub open spec fn heading_change(cur: Block, req: UpdateBlockReq) -> bool {
    req.block_type is Some && (cur.block_type is Heading || req.block_type->Some_0 is Heading)
}

/// The type change makes a list out of a block (not a heading change).
pub open spec fn to_list_change(cur: Block, req: UpdateBlockReq) -> bool {
    req.block_type is Some && !heading_change(cur, req) && req.block_type->Some_0 is List
}

/// The type change turns a list into another type (not a heading change).
pub open spec fn from_list_change(cur: Block, req: UpdateBlockReq) -> bool {
    req.block_type is Some && !heading_change(cur, req) && !(req.block_type->Some_0 is List)
        && cur.block_type is List
}

/// Index of the first live list item under `p` in position order (the
/// earlier row among equal positions), if any.
pub open spec fn first_item(s: Seq<Block>, p: Seq<char>) -> Option<int>
    decreases s.len(),
{
    if s.len() == 0 {
        None
    } else {
        let r = first_item(s.drop_last(), p);
        let b = s.last();
        if live_child(b, p) && b.block_type is ListItem && (r is None || lex_lt(b.position@, s[r->0].position@)) {
            Some(s.len() - 1)
        } else {
            r
        }
    }
}

pub proof fn lemma_first_item(s: Seq<Block>, p: Seq<char>)
    ensures
        first_item(s, p) matches Some(k) ==> 0 <= k < s.len() && live_child(s[k], p) && s[k].block_type is ListItem,
    decreases s.len(),
{
    if s.len() > 0 {
        lemma_first_item(s.drop_last(), p);
        if let Some(k) = first_item(s.drop_last(), p) {
            assert(s.drop_last()[k] == s[k]);
        }
    }
}

/// The new list item a block turned into a list gets: identifier `id`,
/// first under `list`, holding `content`.
pub open spec fn new_item(b: Block, id: Seq<char>, list: Block, content: Seq<u8>, now: Seq<char>) -> bool {
    &&& b.id@ == id
    &&& b.parent_id == list.id
    &&& b.document_id == list.document_id
    &&& b.position@ == seq!['a', '0']
    &&& b.block_type == BlockType::ListItem
    &&& b.content@ == content
    &&& b.properties@ == Map::<String, String>::empty()
    &&& b.version == 1
    &&& b.status == BlockStatus::Normal
    &&& b.schema_version == 1
    &&& !b.encrypted
    &&& b.created@ == now
    &&& b.modified@ == now
    &&& b.author@ == "system"@
    &&& b.owner_id is None
}

/// What an accepted update does to the store at time `now` (with `item_id`
/// for the list item a block turned into a list gets).
///
/// The block is written with the new content, properties and type. Turned
/// into a list, it is written once more with empty content and gets a first
/// list item holding that content. Turned from a list into another type, it
/// takes the content of its first list item when that is not empty, and its
/// live children are deleted.
pub open spec fn update_applied(
    s0: Seq<Block>,
    s1: Seq<Block>,
    id: Seq<char>,
    req: UpdateBlockReq,
    now: Seq<char>,
    item_id: Seq<char>,
) -> bool {
    let i = index_of(s0, id)->0;
    let cur = s0[i];
    let content = updated_content(cur, req);
    let props = updated_properties(cur.properties@, req.properties, req.properties_mode);
    let bt = updated_type(cur, req);
    if to_list_change(cur, req) {
        &&& s1.len() == s0.len() + 1
        &&& s1.take(s0.len() as int) == s0.update(i, s1[i])
        &&& written_n(s1[i], cur, Seq::empty(), props, bt, cur.status, now, 2)
        &&& new_item(s1[s0.len() as int], item_id, cur, content, now)
    } else if from_list_change(cur, req) {
        let item = first_item(s0, id);
        let extracted = if item is Some {
            s0[item->0].content@
        } else {
            Seq::empty()
        };
        &&& s1.len() == s0.len()
        &&& (if extracted.len() > 0 {
            written_n(s1[i], cur, extracted, props, bt, cur.status, now, 2)
        } else {
            written(s1[i], cur, content, props, bt, cur.status, now)
        })
        &&& forall|k: int|
            0 <= k < s0.len() && k != i ==> if live_child(#[trigger] s0[k], id) {
                written(s1[k], s0[k], s0[k].content@, s0[k].properties@, s0[k].block_type, BlockStatus::Deleted, now)
            } else {
                s1[k] == s0[k]
            }
    } else if heading_change(cur, req) {
        exists|mid: Seq<Block>|
            mid == s0.update(i, mid[i]) && written(mid[i], cur, content, props, bt, cur.status, now)
                && crate::service::outline::document_rebuilt(mid, s1, cur.document_id@, now)
    } else {
        &&& s1 == s0.update(i, s1[i])
        &&& written(s1[i], cur, content, props, bt, cur.status, now)
    }
}

/// Index of the first live list item under `p` (see `first_item`).
fn find_first_item(store: &BlockStore, p: &str) -> (r: Option<usize>)
    ensures
        r matches Some(k) ==> first_item(store@, p@) == Some(k as int),
        r is None ==> first_item(store@, p@) is None,
{
    let mut best: Option<usize> = None;
    let mut i: usize = 0;
    while i < store.len()
        invariant
            i <= store@.len(),
            best matches Some(k) ==> first_item(store@.take(i as int), p@) == Some(k as int) && k < i,
            best is None ==> first_item(store@.take(i as int), p@) is None,
        decreases store@.len() - i,
    {
        assert(store@.take(i + 1).drop_last() =~= store@.take(i as int));
        let b = store.row_at(i);
        if b.status != BlockStatus::Deleted && str_eq(b.parent_id.as_str(), p) && matches!(b.block_type, BlockType::ListItem) {
            let take = match best {
                None => true,
                Some(k) => {
                    let bc = to_chars(b.position.as_str());
                    let kc = to_chars(store.row_at(k).position.as_str());
                    assert(store@.take(i + 1)[k as int] == store@[k as int]);
                    lex_less(bc.as_slice(), kc.as_slice())
                },
            };
            if take {
                best = Some(i);
            }
        }
        i += 1;
    }
    assert(store@.take(store@.len() as int) =~= store@);
    best
}

/// Updates block `id` as `update_block` does, at time `now`, with
/// `item_id` for the list item a block turned into a list gets.
pub fn update_block_at(
    store: &mut BlockStore,
    id: &str,
    req: UpdateBlockReq,
    now: String,
    item_id: String,
) -> (r: Result<Block, AppError>)
    requires
        store_wf(old(store)@),
        versions_fit(old(store)@, 2),
    ensures
        store_wf(final(store)@),
        r is Ok <==> !update_refused(old(store)@, id@, req) && !(to_list_change(
            old(store)@[index_of(old(store)@, id@)->0],
            req,
        ) && index_of(old(store)@, item_id@) is Some),
        r matches Ok(b) ==> update_applied(old(store)@, final(store)@, id@, req, now@, item_id@) && (row_of(
            final(store)@,
            id@,
        ) matches Some(x) && same_block(b, x)),
        r matches Err(e) ==> final(store)@ == old(store)@ && (if update_refused(old(store)@, id@, req) {
            update_error(old(store)@, id@, req, e)
        } else {
            e matches AppError::Internal(m) && m@ == duplicate_id_message()
        }),
{
    let ghost s0 = store@;
    let ghost req0 = req;
    let ghost now0 = now@;
    let ghost item0 = item_id@;
    if let Some(bt) = &req.block_type {
        if let Err(e) = validate_on_create(bt) {
            return Err(e);
        }
    }
    let i = match store.find(id) {
        Some(i) => {
            if store.row_at(i).status == BlockStatus::Deleted {
                let mut msg = "Block ".to_owned();
                push_str(&mut msg, id);
                push_str(&mut msg, " 不存在或已删除");
                return Err(AppError::NotFound(msg));
            }
            i
        },
        None => {
            let mut msg = "Block ".to_owned();
            push_str(&mut msg, id);
            push_str(&mut msg, " 不存在或已删除");
            return Err(AppError::NotFound(msg));
        },
    };
    let cur = copy_block(store.row_at(i));
    let was_heading = matches!(cur.block_type, BlockType::Heading { .. });
    let was_list = matches!(cur.block_type, BlockType::List { .. });
    let (changed, now_heading, now_list) = match &req.block_type {
        Some(t) => (true, matches!(t, BlockType::Heading { .. }), matches!(t, BlockType::List { .. })),
        None => (false, false, false),
    };
    let heading_change = changed && (was_heading || now_heading);
    proof {
        lemma_index_unique(s0, i as int);
    }
    if heading_change {
        let alive = match store.find(cur.document_id.as_str()) {
            Some(di) => store.row_at(di).status != BlockStatus::Deleted,
            None => false,
        };
        if !alive {
            let mut msg = "查询 parent ".to_owned();
            push_str(&mut msg, cur.document_id.as_str());
            push_str(&mut msg, " 失败: Query returned no rows");
            return Err(AppError::Internal(msg));
        }
    }
    let to_list = changed && !heading_change && now_list;
    let from_list = changed && !heading_change && !now_list && was_list;
    if to_list && store.find(item_id.as_str()).is_some() {
        proof {
            reveal_strlit("插入 Block 失败: UNIQUE constraint failed: blocks.id");
        }
        return Err(AppError::Internal("插入 Block 失败: UNIQUE constraint failed: blocks.id".to_owned()));
    }
    let content = match req.content {
        Some(c) => string_into_bytes(c),
        None => copy_bytes(&cur.content),
    };
    let bt = match &req.block_type {
        Some(t) => t.copy(),
        None => cur.block_type.copy(),
    };
    let props = merge_properties(&cur.properties, req.properties, req.properties_mode);
    proof {
        lemma_index_unique(s0, i as int);
    }
    if to_list {
        let props2 = props.clone();
        let item_content = copy_bytes(&content);
        write_row(store, i, content, props, bt.copy(), cur.status, &now);
        write_row(store, i, Vec::new(), props2, bt, cur.status, &now);
        proof {
            reveal_strlit("system");
            lemma_index_of(s0, item_id@);
        }
        let item = Block {
            id: item_id,
            parent_id: cur.id.clone(),
            document_id: cur.document_id.clone(),
            position: generate_first(),
            block_type: BlockType::ListItem,
            content: item_content,
            properties: HashMap::new(),
            version: 1,
            status: BlockStatus::Normal,
            schema_version: 1,
            encrypted: false,
            created: now.clone(),
            modified: now,
            author: "system".to_owned(),
            owner_id: None,
        };
        assert(valid_pos(item.position@)) by {
            crate::position::lemma_alpha_char(10);
            crate::position::lemma_alpha_char(0);
        }
        assert(index_of(store@, item.id@) is None) by {
            lemma_index_of(store@, item.id@);
            assert forall|k: int| 0 <= k < store@.len() implies (#[trigger] store@[k]).id@ != item.id@ by {
                assert(store@[k].id == s0[k].id);
            }
        }
        store.push_row(item);
        proof {
            assert(store@.take(s0.len() as int) =~= s0.update(i as int, store@[i as int]));
            assert(update_applied(s0, store@, id@, req0, now0, item0));
        }
    } else if from_list {
        let first = find_first_item(store, id);
        proof {
            lemma_first_item(s0, id@);
        }
        let extracted = match first {
            Some(k) => copy_bytes(&store.row_at(k).content),
            None => Vec::new(),
        };
        if extracted.len() > 0 {
            let props2 = props.clone();
            write_row(store, i, content, props, bt.copy(), cur.status, &now);
            write_row(store, i, extracted, props2, bt, cur.status, &now);
        } else {
            write_row(store, i, content, props, bt, cur.status, &now);
        }
        let ghost s1 = store@;
        let mut k: usize = 0;
        while k < store.len()
            invariant
                store_wf(store@),
                store@.len() == s0.len(),
                k <= s0.len(),
                i < s0.len(),
                versions_fit(s0, 2),
                store@[i as int] == s1[i as int],
                s1.len() == s0.len(),
                forall|j: int| 0 <= j < s0.len() && j != i ==> #[trigger] s1[j] == s0[j],
                forall|j: int|
                    0 <= j < k && j != i ==> if live_child(#[trigger] s0[j], id@) {
                        written(store@[j], s0[j], s0[j].content@, s0[j].properties@, s0[j].block_type, BlockStatus::Deleted, now@)
                    } else {
                        store@[j] == s0[j]
                    },
                forall|j: int| k <= j < s0.len() && j != i ==> #[trigger] store@[j] == s0[j],
            decreases s0.len() - k,
        {
            if k != i {
                let b = store.row_at(k);
                if b.status != BlockStatus::Deleted && str_eq(b.parent_id.as_str(), id) {
                    let c = copy_bytes(&b.content);
                    let pr = b.properties.clone();
                    let t = b.block_type.copy();
                    let ghost before = store@;
                    write_row(store, k, c, pr, t, BlockStatus::Deleted, &now);
                    assert forall|j: int| 0 <= j < s0.len() && j != k implies store@[j] == before[j] by {}
                }
            }
            k += 1;
        }
        proof {
            assert(update_applied(s0, store@, id@, req0, now0, item0));
        }
    } else {
        write_row(store, i, content, props, bt, cur.status, &now);
        if heading_change {
            let ghost mid = store@;
            proof {
                lemma_index_same_ids(mid, s0, cur.document_id@);
                lemma_index_of(s0, cur.document_id@);
                assert(versions_fit(mid, 1)) by {
                    assert forall|k: int| 0 <= k < mid.len() implies (#[trigger] mid[k]).version + 1 <= u64::MAX by {
                        assert(s0[k].version + 2 <= u64::MAX);
                        if k != i {
                            assert(mid[k] == s0[k]);
                        }
                    }
                }
            }
            let rr = rebuild_document(store, cur.document_id.as_str(), &now);
            proof {
                assert(rr is Ok);
                assert(crate::service::outline::document_rebuilt(mid, store@, cur.document_id@, now@));
                lemma_index_same_ids(store@, s0, id@);
            }
        }
        proof {
            assert(update_applied(s0, store@, id@, req0, now0, item0));
        }
    }
    proof {
        lemma_index_unique(store@, i as int);
    }
    Ok(copy_block(store.row_at(i)))
}

/// Updates block `id`: checks the type, writes the new content, properties
/// and type, and carries out the list conversions a type change asks for.
pub fn update_block(store: &mut BlockStore, id: &str, req: UpdateBlockReq) -> (r: Result<Block, AppError>)
    requires
        store_wf(old(store)@),
        versions_fit(old(store)@, 2),
    ensures
        store_wf(final(store)@),
        update_refused(old(store)@, id@, req) ==> r is Err,
        !update_refused(old(store)@, id@, req) && !to_list_change(old(store)@[index_of(old(store)@, id@)->0], req)
            ==> r is Ok,
        r matches Ok(b) ==> (row_of(final(store)@, id@) matches Some(x) && same_block(b, x)) && exists|now: Seq<char>, item: Seq<char>|
            update_applied(old(store)@, final(store)@, id@, req, now, item),
        r matches Err(e) ==> final(store)@ == old(store)@ && (if update_refused(old(store)@, id@, req) {
            update_error(old(store)@, id@, req, e)
        } else {
            e matches AppError::Internal(m) && m@ == duplicate_id_message()
        }),
{
    let now = now_iso();
    let item_id = generate_block_id();
    update_block_at(store, id, req, now, item_id)
}

// ─── Deleting a block ────────────────────────────────────────────

/// `b` is `cur` moved under `parent` at `position` in `document` at time
/// `now`: its version goes up by one.
pub open spec fn relocated(b: Block, cur: Block, parent: Seq<char>, position: Seq<char>, document: Seq<char>, now: Seq<char>) -> bool {
    &&& b.id == cur.id
    &&& b.parent_id@ == parent
    &&& b.document_id@ == document
    &&& b.position@ == position
    &&& b.block_type == cur.block_type
    &&& b.content@ == cur.content@
    &&& b.properties@ == cur.properties@
    &&& b.version == cur.version + 1
    &&& b.status == cur.status
    &&& b.schema_version == cur.schema_version
    &&& b.encrypted == cur.encrypted
    &&& b.created == cur.created
    &&& b.modified@ == now
    &&& b.author == cur.author
    &&& b.owner_id == cur.owner_id
}

/// `b` is `cur` soft-deleted at time `now`.
pub open spec fn soft_deleted(b: Block, cur: Block, now: Seq<char>) -> bool {
    written(b, cur, cur.content@, cur.properties@, cur.block_type, BlockStatus::Deleted, now)
}

/// Moves row `i` under `parent` at `position` in `document`.
pub(crate) fn relocate_row(store: &mut BlockStore, i: usize, parent: String, position: String, document: String, now: &String)
    requires
        store_wf(old(store)@),
        i < old(store)@.len(),
        old(store)@[i as int].version < u64::MAX,
        valid_pos(position@),
        parent@ != old(store)@[i as int].id@,
    ensures
        store_wf(final(store)@),
        final(store)@ == old(store)@.update(i as int, final(store)@[i as int]),
        relocated(final(store)@[i as int], old(store)@[i as int], parent@, position@, document@, now@),
{
    let cur = copy_block(store.row_at(i));
    let b = Block {
        id: cur.id,
        parent_id: parent,
        document_id: document,
        position,
        block_type: cur.block_type,
        content: cur.content,
        properties: cur.properties,
        version: cur.version + 1,
        status: cur.status,
        schema_version: cur.schema_version,
        encrypted: cur.encrypted,
        created: cur.created,
        modified: now.clone(),
        author: cur.author,
        owner_id: cur.owner_id,
    };
    store.set_row(i, b);
}

/// Soft-deletes row `i`.
pub(crate) fn delete_row(store: &mut BlockStore, i: usize, now: &String)
    requires
        store_wf(old(store)@),
        i < old(store)@.len(),
        old(store)@[i as int].version < u64::MAX,
    ensures
        store_wf(final(store)@),
        final(store)@ == old(store)@.update(i as int, final(store)@[i as int]),
        soft_deleted(final(store)@[i as int], old(store)@[i as int], now@),
{
    let c = copy_bytes(&store.row_at(i).content);
    let pr = store.row_at(i).properties.clone();
    let t = store.row_at(i).block_type.copy();
    write_row(store, i, c, pr, t, BlockStatus::Deleted, now);
}

/// The `m` positions that follow `anchor`, each after the previous one and
/// below `bound` when there is one; `None` when one cannot be generated.
pub open spec fn run_positions(anchor: Seq<char>, bound: Option<Seq<char>>, m: nat) -> Option<Seq<Seq<char>>>
    decreases m,
{
    if m == 0 {
        Some(Seq::empty())
    } else {
        match run_positions(anchor, bound, (m - 1) as nat) {
            None => None,
            Some(ps) => {
                let prev = if ps.len() == 0 {
                    anchor
                } else {
                    ps.last()
                };
                let nx = match bound {
                    Some(b) => between_spec(prev, b),
                    None => Some(after_spec(prev)),
                };
                match nx {
                    Some(x) => Some(ps.push(x)),
                    None => None,
                }
            },
        }
    }
}

pub proof fn lemma_run_positions(anchor: Seq<char>, bound: Option<Seq<char>>, m: nat)
    requires
        valid_pos(anchor),
        bound matches Some(b) ==> valid_pos(b),
    ensures
        run_positions(anchor, bound, m) matches Some(ps) ==> ps.len() == m && forall|t: int| 0 <= t < m ==> valid_pos(
            #[trigger] ps[t],
        ),
    decreases m,
{
    if m > 0 {
        lemma_run_positions(anchor, bound, (m - 1) as nat);
        if let Some(ps) = run_positions(anchor, bound, (m - 1) as nat) {
            let prev = if ps.len() == 0 {
                anchor
            } else {
                ps.last()
            };
            assert(valid_pos(prev));
            match bound {
                Some(b) => {
                    if between_spec(prev, b) is Some {
                        law_between_is_between(prev, b);
                    }
                },
                None => {
                    law_after_keeps_valid(prev);
                },
            }
        }
    }
}

/// Once a position cannot be generated, no longer run can be.
pub proof fn lemma_run_positions_stuck(anchor: Seq<char>, bound: Option<Seq<char>>, m: nat, m2: nat)
    requires
        run_positions(anchor, bound, m) is None,
        m <= m2,
    ensures
        run_positions(anchor, bound, m2) is None,
    decreases m2 - m,
{
    if m < m2 {
        lemma_run_positions_stuck(anchor, bound, m, (m2 - 1) as nat);
    }
}

/// The message for a parent row that cannot be read.
pub open spec fn unreadable_parent_message(id: Seq<char>) -> Seq<char> {
    "查询 parent "@ + id + " 失败: Query returned no rows"@
}

/// A delete request that fails: the global root, a block missing or
/// deleted, or children to move up when the parent cannot be read or no
/// positions can be generated for them.
pub open spec fn delete_refused(s: Seq<Block>, id: Seq<char>) -> bool {
    let cur = live_row(s, id)->0;
    let cs = children_sorted(s, id);
    ||| id == ROOT_ID@
    ||| live_row(s, id) is None
    ||| (cs.len() > 0 && live_row(s, cur.parent_id@) is None)
    ||| (cs.len() > 0 && run_positions(cur.position@, next_child_pos(s, cur.parent_id@, cur.position@), (cs.len() + 1) as nat) is None)
}

/// The error of a refused delete request.
pub open spec fn delete_error(s: Seq<Block>, id: Seq<char>, e: AppError) -> bool {
    let cur = live_row(s, id)->0;
    if id == ROOT_ID@ {
        e matches AppError::BadRequest(m) && m@ == "全局根块不可删除"@
    } else if live_row(s, id) is None {
        e matches AppError::NotFound(m) && m@ == missing_block_message(id)
    } else if live_row(s, cur.parent_id@) is None {
        e matches AppError::Internal(m) && m@ == unreadable_parent_message(cur.parent_id@)
    } else {
        e is Internal
    }
}

/// A deleted list item takes its list with it when the list has no other
/// live child left.
pub open spec fn list_emptied(s: Seq<Block>, i: int) -> bool {
    let cur = s[i];
    &&& cur.block_type is ListItem
    &&& children_sorted(s, cur.id@).len() == 0
    &&& row_of(s, cur.parent_id@) is Some
    &&& forall|k: int| 0 <= k < s.len() && k != i ==> !live_child(#[trigger] s[k], cur.parent_id@)
}

/// What an accepted delete does at time `now`: the live children of the
/// block move up under its parent, right after it, in their order; the
/// block is soft-deleted; a list left empty by its last item goes too.
pub open spec fn delete_applied(s0: Seq<Block>, s1: Seq<Block>, id: Seq<char>, now: Seq<char>) -> bool {
    let i = index_of(s0, id)->0;
    let cur = s0[i];
    let p = cur.parent_id@;
    let cs = children_sorted(s0, id);
    let ps = run_positions(cur.position@, next_child_pos(s0, p, cur.position@), (cs.len() + 1) as nat)->0;
    let doc = document_of_child(live_row(s0, p)->0);
    &&& s1.len() == s0.len()
    &&& soft_deleted(s1[i], cur, now)
    &&& forall|t: int| 0 <= t < cs.len() ==> relocated(s1[#[trigger] cs[t]], s0[cs[t]], p, ps[t], doc, now)
    &&& list_emptied(s0, i) ==> soft_deleted(s1[index_of(s0, p)->0], s0[index_of(s0, p)->0], now)
    &&& forall|k: int|
        0 <= k < s0.len() && k != i && !cs.contains(k) && !(list_emptied(s0, i) && k == index_of(s0, p)->0) ==> s1[k]
            == s0[k]
}

/// No live child of block `id` is its parent (a cycle of two; the global
/// root, its own parent and live child, is the one block where this fails).
pub open spec fn parent_not_child(s: Seq<Block>, id: Seq<char>) -> bool {
    forall|k: int| 0 <= k < s.len() && live_child(#[trigger] s[k], id) ==> s[k].id@ != live_row(s, id)->0.parent_id@
}

/// Whether a live child of the live block `id` is its parent: the case that
/// `parent_not_child` rules out, which a caller tests before deleting or
/// merging the block.
pub fn parent_is_child(store: &BlockStore, id: &str) -> (r: bool)
    requires
        store_wf(store@),
    ensures
        live_row(store@, id@) is Some ==> r == !parent_not_child(store@, id@),
{
    let i = match store.find(id) {
        Some(i) => i,
        None => {
            return false;
        },
    };
    if store.row_at(i).status == BlockStatus::Deleted {
        return false;
    }
    let p = store.row_at(i).parent_id.as_str();
    let mut k: usize = 0;
    while k < store.len()
        invariant
            k <= store@.len(),
            i < store@.len(),
            index_of(store@, id@) == Some(i as int),
            store@[i as int].status != BlockStatus::Deleted,
            p@ == store@[i as int].parent_id@,
            forall|t: int| 0 <= t < k && live_child(#[trigger] store@[t], id@) ==> store@[t].id@ != p@,
        decreases store@.len() - k,
    {
        let b = store.row_at(k);
        if b.status != BlockStatus::Deleted && str_eq(b.parent_id.as_str(), id) && str_eq(b.id.as_str(), p) {
            return true;
        }
        k += 1;
    }
    false
}

/// Deletes block `id` as `delete_block` does, at time `now`.
pub fn delete_block_at(store: &mut BlockStore, id: &str, now: String) -> (r: Result<DeleteResult, AppError>)
    requires
        store_wf(old(store)@),
        versions_fit(old(store)@, 1),
        id@ != ROOT_ID@ ==> parent_not_child(old(store)@, id@),
    ensures
        store_wf(final(store)@),
        r is Ok <==> !delete_refused(old(store)@, id@),
        r matches Ok(d) ==> delete_applied(old(store)@, final(store)@, id@, now@) && d.id@ == id@
            && d.document_id == live_row(old(store)@, id@)->0.document_id && d.version == final(store)@[index_of(
            old(store)@,
            id@,
        )->0].version && d.cascade_count == 0,
        r matches Err(e) ==> final(store)@ == old(store)@ && delete_error(old(store)@, id@, e),
{
    let ghost s0 = store@;
    proof {
        reveal_strlit("/");
        reveal_strlit("全局根块不可删除");
    }
    if str_eq(id, ROOT_ID) {
        return Err(AppError::BadRequest("全局根块不可删除".to_owned()));
    }
    let i = match store.find(id) {
        Some(i) => {
            if store.row_at(i).status == BlockStatus::Deleted {
                let mut msg = "Block ".to_owned();
                push_str(&mut msg, id);
                push_str(&mut msg, " 不存在或已删除");
                return Err(AppError::NotFound(msg));
            }
            i
        },
        None => {
            let mut msg = "Block ".to_owned();
            push_str(&mut msg, id);
            push_str(&mut msg, " 不存在或已删除");
            return Err(AppError::NotFound(msg));
        },
    };
    let cur = copy_block(store.row_at(i));
    proof {
        lemma_index_unique(s0, i as int);
        assert(row_ok(s0[i as int]));
    }
    let cs = store.sorted_children(id);
    let ghost csv = cs@.map_values(|x: usize| x as int);
    let mut ps: Vec<String> = Vec::new();
    let mut doc = String::new();
    if cs.len() > 0 {
        let parent = match store.find(cur.parent_id.as_str()) {
            Some(pi) => {
                if store.row_at(pi).status == BlockStatus::Deleted {
                    None
                } else {
                    Some(copy_block(store.row_at(pi)))
                }
            },
            None => None,
        };
        let parent = match parent {
            Some(p) => p,
            None => {
                let mut msg = "查询 parent ".to_owned();
                push_str(&mut msg, cur.parent_id.as_str());
                push_str(&mut msg, " 失败: Query returned no rows");
                return Err(AppError::Internal(msg));
            },
        };
        doc = if matches!(parent.block_type, BlockType::Document) {
            parent.id.clone()
        } else {
            parent.document_id.clone()
        };
        let bound = store.next_child_position(cur.parent_id.as_str(), cur.position.as_str());
        proof {
            lemma_next_child_pos(s0, cur.parent_id@, cur.position@);
        }
        let n = cs.len();
        while ps.len() <= n
            invariant
                ps@.len() <= n + 1,
                n == csv.len(),
                store@ == s0,
                store_wf(s0),
                valid_pos(cur.position@),
                bound matches Some(b) ==> valid_pos(b@),
                run_positions(cur.position@, opt_id(bound), ps@.len() as nat) matches Some(v) && v == ps@.map_values(
                    |x: String| x@,
                ),
                forall|u: int| 0 <= u < ps@.len() ==> valid_pos(#[trigger] ps@[u]@),
                !delete_refused(s0, id@) <==> run_positions(cur.position@, opt_id(bound), (n + 1) as nat) is Some,
                live_row(s0, cur.parent_id@) is Some,
                id@ != ROOT_ID@,
                i < s0.len(),
                live_row(s0, id@) == Some(s0[i as int]),
                cur.parent_id@ == s0[i as int].parent_id@,
                cur.position@ == s0[i as int].position@,
            decreases n + 1 - ps@.len(),
        {
            proof {
                lemma_run_positions(cur.position@, opt_id(bound), ps@.len() as nat);
            }
            let l = ps.len();
            let prev: String = if l == 0 {
                cur.position.clone()
            } else {
                ps[l - 1].clone()
            };
            let nx = match &bound {
                Some(b) => {
                    proof {
                        law_valid_positions_do_not_underflow(prev@, b@);
                    }
                    match generate_between(prev.as_str(), b.as_str()) {
                        Ok(x) => {
                            proof {
                                law_between_is_between(prev@, b@);
                            }
                            x
                        },
                        Err(e) => {
                            proof {
                                lemma_run_positions_stuck(cur.position@, opt_id(bound), (l + 1) as nat, (n + 1) as nat);
                            }
                            return Err(e);
                        },
                    }
                },
                None => {
                    proof {
                        law_after_keeps_valid(prev@);
                    }
                    generate_after(prev.as_str())
                },
            };
            let ghost p0 = ps@;
            ps.push(nx);
            assert(ps@.map_values(|x: String| x@) =~= p0.map_values(|x: String| x@).push(nx@));
        }
        proof {
            lemma_run_positions(cur.position@, opt_id(bound), ps@.len() as nat);
        }
    }
    let ghost psv = ps@.map_values(|x: String| x@);
    let mut t: usize = 0;
    while t < cs.len()
        invariant
            store_wf(store@),
            store@.len() == s0.len(),
            t <= cs@.len(),
            csv == cs@.map_values(|x: usize| x as int),
            csv == children_sorted(s0, id@),
            psv == ps@.map_values(|x: String| x@),
            cs@.len() > 0 ==> ps@.len() == cs@.len() + 1,
            forall|u: int| 0 <= u < ps@.len() ==> valid_pos(#[trigger] ps@[u]@),
            forall|u: int| 0 <= u < cs@.len() ==> (#[trigger] cs@[u]) < s0.len() && live_child(s0[cs@[u] as int], id@),
            forall|u: int, w: int| 0 <= u < w < cs@.len() ==> (#[trigger] cs@[u]) != (#[trigger] cs@[w]),
            versions_fit(s0, 1),
            parent_not_child(s0, id@),
            live_row(s0, id@) == Some(s0[i as int]),
            cur.parent_id@ == s0[i as int].parent_id@,
            forall|u: int| 0 <= u < t ==> relocated(store@[#[trigger] csv[u]], s0[csv[u]], cur.parent_id@, psv[u], doc@, now@),
            forall|k: int| 0 <= k < s0.len() && !(exists|u: int| 0 <= u < t && csv[u] == k) ==> #[trigger] store@[k] == s0[k],
        decreases cs@.len() - t,
    {
        let k = cs[t];
        assert(csv[t as int] == k);
        assert(store@[k as int] == s0[k as int]) by {
            if exists|u: int| 0 <= u < t && csv[u] == k {
                let u = choose|u: int| 0 <= u < t && csv[u] == k;
                assert(cs@[u] == cs@[t as int]);
            }
        }
        let ghost before = store@;
        relocate_row(store, k, cur.parent_id.clone(), ps[t].clone(), doc.clone(), &now);
        proof {
            assert forall|u: int| 0 <= u < t + 1 implies relocated(store@[#[trigger] csv[u]], s0[csv[u]], cur.parent_id@, psv[u], doc@, now@) by {
                if u < t {
                    assert(cs@[u] != cs@[t as int]);
                }
            }
            assert forall|kk: int| 0 <= kk < s0.len() && !(exists|u: int| 0 <= u < t + 1 && csv[u] == kk) implies #[trigger] store@[kk] == s0[kk] by {
                assert(kk != k);
                assert(!(exists|u: int| 0 <= u < t && csv[u] == kk)) by {
                    if exists|u: int| 0 <= u < t && csv[u] == kk {
                        let u = choose|u: int| 0 <= u < t && csv[u] == kk;
                        assert(0 <= u < t + 1 && csv[u] == kk);
                    }
                }
            }
        }
        t += 1;
    }
    let ghost s_mid = store@;
    proof {
        assert(!live_child(s0[i as int], id@));
        assert(!(exists|u: int| 0 <= u < cs@.len() && csv[u] == i)) by {
            if exists|u: int| 0 <= u < cs@.len() && csv[u] == i {
                let u = choose|u: int| 0 <= u < cs@.len() && csv[u] == i;
                assert(live_child(s0[cs@[u] as int], id@));
            }
        }
        assert(s_mid[i as int] == s0[i as int]);
    }
    delete_row(store, i, &now);
    let ghost s_a = store@;
    proof {
        if cs@.len() > 0 {
            assert(csv[0] != i);
            assert(live_child(s_a[csv[0]], cur.parent_id@));
        }
        assert forall|k: int| 0 <= k < s0.len() implies (#[trigger] s_a[k]).id@ == s0[k].id@ by {
            if k != i && (exists|u: int| 0 <= u < cs@.len() && csv[u] == k) {
                let u = choose|u: int| 0 <= u < cs@.len() && csv[u] == k;
                assert(relocated(s_mid[csv[u]], s0[csv[u]], cur.parent_id@, psv[u], doc@, now@));
            }
        }
        lemma_index_same_ids(s_a, s0, cur.parent_id@);
        lemma_index_of(s0, cur.parent_id@);
    }
    let ghost mut cleaned: Option<int> = None;
    if matches!(cur.block_type, BlockType::ListItem) {
        if !store.has_live_child(cur.parent_id.as_str()) {
            match store.find(cur.parent_id.as_str()) {
                Some(pi) => {
                    proof {
                        assert(pi != i);
                        assert(s_a[pi as int] == s0[pi as int]);
                        assert forall|k: int| 0 <= k < s0.len() && k != i implies !live_child(#[trigger] s0[k], cur.parent_id@) by {
                            assert(!live_child(s_a[k], cur.parent_id@));
                            if (exists|u: int| 0 <= u < cs@.len() && csv[u] == k) {
                                let u = choose|u: int| 0 <= u < cs@.len() && csv[u] == k;
                                assert(relocated(s_a[csv[u]], s0[csv[u]], cur.parent_id@, psv[u], doc@, now@));
                            }
                        }
                        assert(list_emptied(s0, i as int));
                        cleaned = Some(pi as int);
                    }
                    delete_row(store, pi, &now);
                },
                None => {},
            }
        }
    }
    proof {
        if cleaned is None {
            assert(store@ == s_a);
            if list_emptied(s0, i as int) {
                assert(!live_child(s_a[i as int], cur.parent_id@));
                assert forall|k: int| 0 <= k < s_a.len() implies !live_child(#[trigger] s_a[k], cur.parent_id@) by {
                    if k != i {
                        assert(s_a[k] == s0[k]);
                    }
                }
                assert(false);
            }
        }
    }
    proof {
        let p = s0[i as int].parent_id@;
        assert forall|k: int|
            0 <= k < s0.len() && k != i && !csv.contains(k) && !(list_emptied(s0, i as int) && k == index_of(s0, p)->0)
            implies store@[k] == s0[k] by {
            if exists|u: int| 0 <= u < cs@.len() && csv[u] == k {
                let u = choose|u: int| 0 <= u < cs@.len() && csv[u] == k;
                assert(csv.contains(k));
            }
            assert(s_mid[k] == s0[k]);
        }
        assert(delete_applied(s0, store@, id@, now@));
    }
    let version = store.row_at(i).version;
    Ok(DeleteResult { id: id.to_owned(), document_id: cur.document_id, version, cascade_count: 0 })
}

/// Deletes a single block: its live children move up under its parent,
/// right after it, and a list left without items goes too.
pub fn delete_block(store: &mut BlockStore, id: &str) -> (r: Result<DeleteResult, AppError>)
    requires
        store_wf(old(store)@),
        versions_fit(old(store)@, 1),
        id@ != ROOT_ID@ ==> parent_not_child(old(store)@, id@),
    ensures
        store_wf(final(store)@),
        r is Ok <==> !delete_refused(old(store)@, id@),
        r matches Ok(d) ==> (exists|now: Seq<char>| delete_applied(old(store)@, final(store)@, id@, now)) && d.id@ == id@
            && d.document_id == live_row(old(store)@, id@)->0.document_id && d.version == final(store)@[index_of(
            old(store)@,
            id@,
        )->0].version && d.cascade_count == 0,
        r matches Err(e) ==> final(store)@ == old(store)@ && delete_error(old(store)@, id@, e),
{
    delete_block_at(store, id, now_iso())
}

// ─── Requests made against a known version ───────────────────────

/// The message for a request made against another version of the block
/// than its current one.
pub open spec fn version_conflict_message(id: Seq<char>, current: u64) -> Seq<char> {
    "Block "@ + id + " 版本冲突（当前版本 "@ + crate::text::decimal(current as nat) + "）"@
}

/// The block is live and its version is not `version`.
pub open spec fn version_mismatch(s: Seq<Block>, id: Seq<char>, version: u64) -> bool {
    live_row(s, id) matches Some(b) && b.version != version
}

/// Version check of a request on block `id`: the conflict error when the
/// block is live at another version.
fn check_version(store: &BlockStore, id: &str, version: u64) -> (r: Result<(), AppError>)
    ensures
        r is Err <==> version_mismatch(store@, id@, version),
        r matches Err(e) ==> e matches AppError::VersionConflict(m) && m@ == version_conflict_message(
            id@,
            live_row(store@, id@)->0.version,
        ),
{
    match store.find(id) {
        Some(i) => {
            let b = store.row_at(i);
            if b.status != BlockStatus::Deleted && b.version != version {
                let mut m: Vec<char> = crate::text::to_chars("Block ");
                let idc = crate::text::to_chars(id);
                crate::text::append_chars(&mut m, &idc);
                let mid = crate::text::to_chars(" 版本冲突（当前版本 ");
                crate::text::append_chars(&mut m, &mid);
                let d = crate::text::decimal_chars_u64(b.version);
                crate::text::append_chars(&mut m, &d);
                let tail = crate::text::to_chars("）");
                crate::text::append_chars(&mut m, &tail);
                proof {
                    assert(m@ =~= version_conflict_message(id@, b.version));
                }
                Err(AppError::VersionConflict(crate::text::from_chars(m.as_slice())))
            } else {
                Ok(())
            }
        },
        None => Ok(()),
    }
}

/// Updates block `id` as `update_block` does, provided the caller's
/// `version` is the block's current one; a live block at another version is
/// left as it is and answered with the conflict.
pub fn update_block_versioned(store: &mut BlockStore, id: &str, req: UpdateBlockReq, version: u64) -> (r: Result<
    Block,
    AppError,
>)
    requires
        store_wf(old(store)@),
        versions_fit(old(store)@, 2),
    ensures
        store_wf(final(store)@),
        version_mismatch(old(store)@, id@, version) ==> final(store)@ == old(store)@ && (r matches Err(
            AppError::VersionConflict(m),
        ) && m@ == version_conflict_message(id@, live_row(old(store)@, id@)->0.version)),
        !version_mismatch(old(store)@, id@, version) ==> {
            &&& update_refused(old(store)@, id@, req) ==> r is Err
            &&& !update_refused(old(store)@, id@, req) && !to_list_change(old(store)@[index_of(old(store)@, id@)->0], req)
                ==> r is Ok
            &&& r matches Ok(b) ==> (row_of(final(store)@, id@) matches Some(x) && same_block(b, x)) && exists|
                now: Seq<char>,
                item: Seq<char>,
            | update_applied(old(store)@, final(store)@, id@, req, now, item)
            &&& r matches Err(e) ==> final(store)@ == old(store)@ && (if update_refused(old(store)@, id@, req) {
                update_error(old(store)@, id@, req, e)
            } else {
                e matches AppError::Internal(m) && m@ == duplicate_id_message()
            })
        },
{
    match check_version(store, id, version) {
        Err(e) => Err(e),
        Ok(()) => update_block(store, id, req),
    }
}

/// Deletes block `id` with its whole subtree, as `delete_tree` does,
/// provided the caller's `version` is the block's current one; a live block
/// at another version is left as it is and answered with the conflict.
pub fn delete_block_versioned(store: &mut BlockStore, id: &str, version: u64) -> (r: Result<DeleteResult, AppError>)
    requires
        store_wf(old(store)@),
        versions_fit(old(store)@, 1),
    ensures
        store_wf(final(store)@),
        id@ != ROOT_ID@ && version_mismatch(old(store)@, id@, version) ==> final(store)@ == old(store)@ && (r matches Err(
            AppError::VersionConflict(m),
        ) && m@ == version_conflict_message(id@, live_row(old(store)@, id@)->0.version)),
        !(id@ != ROOT_ID@ && version_mismatch(old(store)@, id@, version)) ==> {
            &&& r is Ok <==> !tree_delete_refused(old(store)@, id@)
            &&& r matches Ok(d) ==> (exists|now: Seq<char>| tree_deleted(old(store)@, final(store)@, id@, now)) && d.id@
                == id@ && d.document_id == live_row(old(store)@, id@)->0.document_id && d.version == final(store)@[index_of(
                old(store)@,
                id@,
            )->0].version && d.cascade_count == (count_rows(
                old(store)@,
                old(store)@.len() as int,
                |k: int| in_subtree(old(store)@, k, id@),
            ) - 1) as u32
            &&& r matches Err(e) ==> final(store)@ == old(store)@ && (if id@ == ROOT_ID@ {
                e matches AppError::BadRequest(m) && m@ == "全局根块不可删除"@
            } else {
                e matches AppError::NotFound(m) && m@ == missing_block_message(id@)
            })
        },
{
    if str_eq(id, ROOT_ID) {
        return delete_tree(store, id);
    }
    match check_version(store, id, version) {
        Err(e) => Err(e),
        Ok(()) => delete_tree(store, id),
    }
}

// ─── Deleting and restoring subtrees ─────────────────────────────

/// What deleting the subtree of `id` does at time `now`: every row of the
/// subtree that is not deleted yet is soft-deleted.
pub open spec fn tree_deleted(s0: Seq<Block>, s1: Seq<Block>, id: Seq<char>, now: Seq<char>) -> bool {
    &&& s1.len() == s0.len()
    &&& forall|k: int|
        0 <= k < s0.len() ==> if in_subtree(s0, k, id) && s0[k].status != BlockStatus::Deleted {
            soft_deleted(#[trigger] s1[k], s0[k], now)
        } else {
            s1[k] == s0[k]
        }
}

/// Soft-deletes every live row of the subtree of the row at `i` (of `id`).
fn delete_subtree_rows(store: &mut BlockStore, id: &str, now: &String) -> (count: usize)
    requires
        store_wf(old(store)@),
        versions_fit(old(store)@, 1),
    ensures
        store_wf(final(store)@),
        tree_deleted(old(store)@, final(store)@, id@, now@),
        count == count_rows(old(store)@, old(store)@.len() as int, |k: int| in_subtree(old(store)@, k, id@)),
{
    let ghost s0 = store@;
    let ghost f = |k: int| in_subtree(s0, k, id@);
    let mut count: usize = 0;
    let mut k: usize = 0;
    while k < store.len()
        invariant
            store_wf(store@),
            store@.len() == s0.len(),
            k <= s0.len(),
            versions_fit(s0, 1),
            f == (|k: int| in_subtree(s0, k, id@)),
            count == count_rows(s0, k as int, f),
            count <= k,
            forall|j: int| 0 <= j < s0.len() ==> (#[trigger] store@[j]).id@ == s0[j].id@ && store@[j].parent_id@
                == s0[j].parent_id@,
            forall|j: int|
                0 <= j < k ==> if in_subtree(s0, j, id@) && s0[j].status != BlockStatus::Deleted {
                    soft_deleted(#[trigger] store@[j], s0[j], now@)
                } else {
                    store@[j] == s0[j]
                },
            forall|j: int| k <= j < s0.len() ==> #[trigger] store@[j] == s0[j],
        decreases s0.len() - k,
    {
        proof {
            lemma_index_same_ids(store@, s0, id@);
            assert forall|j: int| 0 <= j < s0.len() implies (#[trigger] store@[j]).id@ == s0[j].id@ by {}
            lemma_under_same_links(store@, s0, k as int, id@, s0.len());
        }
        let inside = store.is_under(k, id);
        if inside {
            count += 1;
            if store.row_at(k).status != BlockStatus::Deleted {
                let ghost before = store@;
                delete_row(store, k, now);
            }
        }
        k += 1;
    }
    count
}

/// Rows whose identifiers and parent links agree lie in the same subtrees.
pub proof fn lemma_under_same_links(s: Seq<Block>, t: Seq<Block>, k: int, id: Seq<char>, fuel: nat)
    requires
        s.len() == t.len(),
        forall|j: int| 0 <= j < s.len() ==> (#[trigger] s[j]).id@ == t[j].id@ && s[j].parent_id@ == t[j].parent_id@,
    ensures
        under(s, k, id, fuel) == under(t, k, id, fuel),
    decreases fuel,
{
    if 0 <= k < s.len() && s[k].id@ != id && fuel > 0 {
        lemma_index_same_ids(s, t, s[k].parent_id@);
        if let Some(pk) = index_of(s, s[k].parent_id@) {
            lemma_index_of(s, s[k].parent_id@);
            lemma_under_same_links(s, t, pk, id, (fuel - 1) as nat);
        }
    }
}

/// A subtree delete request that fails: the global root, or a block
/// missing or deleted.
pub open spec fn tree_delete_refused(s: Seq<Block>, id: Seq<char>) -> bool {
    id == ROOT_ID@ || live_row(s, id) is None
}

/// Deletes block `id` with its whole subtree, at time `now`.
pub fn delete_tree_at(store: &mut BlockStore, id: &str, now: String) -> (r: Result<DeleteResult, AppError>)
    requires
        store_wf(old(store)@),
        versions_fit(old(store)@, 1),
    ensures
        store_wf(final(store)@),
        r is Ok <==> !tree_delete_refused(old(store)@, id@),
        r matches Ok(d) ==> tree_deleted(old(store)@, final(store)@, id@, now@) && d.id@ == id@ && d.document_id
            == live_row(old(store)@, id@)->0.document_id && d.version == final(store)@[index_of(old(store)@, id@)->0].version
            && d.cascade_count == (count_rows(old(store)@, old(store)@.len() as int, |k: int| in_subtree(old(store)@, k, id@))
            - 1) as u32,
        r matches Err(e) ==> final(store)@ == old(store)@ && (if id@ == ROOT_ID@ {
            e matches AppError::BadRequest(m) && m@ == "全局根块不可删除"@
        } else {
            e matches AppError::NotFound(m) && m@ == missing_block_message(id@)
        }),
{
    let ghost s0 = store@;
    proof {
        reveal_strlit("/");
        reveal_strlit("全局根块不可删除");
    }
    if str_eq(id, ROOT_ID) {
        return Err(AppError::BadRequest("全局根块不可删除".to_owned()));
    }
    let i = match store.find(id) {
        Some(i) => {
            if store.row_at(i).status == BlockStatus::Deleted {
                let mut msg = "Block ".to_owned();
                push_str(&mut msg, id);
                push_str(&mut msg, " 不存在或已删除");
                return Err(AppError::NotFound(msg));
            }
            i
        },
        None => {
            let mut msg = "Block ".to_owned();
            push_str(&mut msg, id);
            push_str(&mut msg, " 不存在或已删除");
            return Err(AppError::NotFound(msg));
        },
    };
    let document_id = store.row_at(i).document_id.clone();
    let count = delete_subtree_rows(store, id, &now);
    let version = store.row_at(i).version;
    let cascade = if count > 0 {
        count - 1
    } else {
        0
    };
    proof {
        assert(in_subtree(s0, i as int, id@));
        lemma_count_rows_pos(s0, s0.len() as int, |k: int| in_subtree(s0, k, id@), i as int);
    }
    Ok(DeleteResult { id: id.to_owned(), document_id, version, cascade_count: cascade as u32 })
}

/// A row satisfying `f` among the first `n` makes the count positive.
pub proof fn lemma_count_rows_pos(s: Seq<Block>, n: int, f: spec_fn(int) -> bool, k: int)
    requires
        0 <= k < n,
        f(k),
    ensures
        count_rows(s, n, f) > 0,
    decreases n,
{
    if k < n - 1 {
        lemma_count_rows_pos(s, n - 1, f, k);
    }
}

/// Deletes block `id` with its whole subtree.
pub fn delete_tree(store: &mut BlockStore, id: &str) -> (r: Result<DeleteResult, AppError>)
    requires
        store_wf(old(store)@),
        versions_fit(old(store)@, 1),
    ensures
        store_wf(final(store)@),
        r is Ok <==> !tree_delete_refused(old(store)@, id@),
        r matches Ok(d) ==> (exists|now: Seq<char>| tree_deleted(old(store)@, final(store)@, id@, now)) && d.id@ == id@
            && d.document_id == live_row(old(store)@, id@)->0.document_id && d.version == final(store)@[index_of(
            old(store)@,
            id@,
        )->0].version && d.cascade_count == (count_rows(old(store)@, old(store)@.len() as int, |k: int| in_subtree(old(store)@, k, id@))
            - 1) as u32,
        r matches Err(e) ==> final(store)@ == old(store)@ && (if id@ == ROOT_ID@ {
            e matches AppError::BadRequest(m) && m@ == "全局根块不可删除"@
        } else {
            e matches AppError::NotFound(m) && m@ == missing_block_message(id@)
        }),
{
    delete_tree_at(store, id, now_iso())
}

/// The message for restoring a block that is not deleted.
pub open spec fn not_deleted_message(id: Seq<char>) -> Seq<char> {
    "Block "@ + id + " 不是已删除状态"@
}

/// The message for restoring a block under a deleted parent.
pub open spec fn dead_parent_message(p: Seq<char>) -> Seq<char> {
    "父块 "@ + p + " 已被删除，请先恢复父块"@
}

/// The parent `p` counts as deleted: deleted, or missing.
pub open spec fn parent_dead(s: Seq<Block>, p: Seq<char>) -> bool {
    row_of(s, p) is None || row_of(s, p)->0.status == BlockStatus::Deleted
}

/// A restore request that fails: the block is not a deleted one, or its
/// parent (unless it is its own) counts as deleted.
pub open spec fn restore_refused(s: Seq<Block>, id: Seq<char>) -> bool {
    let cur = row_of(s, id)->0;
    ||| !(row_of(s, id) is Some && cur.status == BlockStatus::Deleted)
    ||| (cur.parent_id@ != cur.id@ && parent_dead(s, cur.parent_id@))
}

/// What restoring block `id` does at time `now`: every deleted row of its
/// subtree, itself included, becomes normal again.
pub open spec fn tree_restored(s0: Seq<Block>, s1: Seq<Block>, id: Seq<char>, now: Seq<char>) -> bool {
    &&& s1.len() == s0.len()
    &&& forall|k: int|
        0 <= k < s0.len() ==> if in_subtree(s0, k, id) && s0[k].status == BlockStatus::Deleted {
            written(#[trigger] s1[k], s0[k], s0[k].content@, s0[k].properties@, s0[k].block_type, BlockStatus::Normal, now)
        } else {
            s1[k] == s0[k]
        }
}

/// Restores block `id` with the deleted rows of its subtree, at time `now`.
pub fn restore_block_at(store: &mut BlockStore, id: &str, now: String) -> (r: Result<RestoreResult, AppError>)
    requires
        store_wf(old(store)@),
        versions_fit(old(store)@, 1),
    ensures
        store_wf(final(store)@),
        r is Ok <==> !restore_refused(old(store)@, id@),
        r matches Ok(d) ==> tree_restored(old(store)@, final(store)@, id@, now@) && d.id@ == id@ && d.document_id
            == row_of(old(store)@, id@)->0.document_id && d.version == final(store)@[index_of(old(store)@, id@)->0].version
            && d.cascade_count == (count_rows(
            old(store)@,
            old(store)@.len() as int,
            |k: int| in_subtree(old(store)@, k, id@) && old(store)@[k].status == BlockStatus::Deleted,
        ) - 1) as u32,
        r matches Err(e) ==> final(store)@ == old(store)@ && (if !(row_of(old(store)@, id@) is Some && row_of(
            old(store)@,
            id@,
        )->0.status == BlockStatus::Deleted) {
            e matches AppError::BadRequest(m) && m@ == not_deleted_message(id@)
        } else {
            e matches AppError::BadRequest(m) && m@ == dead_parent_message(row_of(old(store)@, id@)->0.parent_id@)
        }),
{
    let ghost s0 = store@;
    let i = match store.find(id) {
        Some(i) => {
            if store.row_at(i).status != BlockStatus::Deleted {
                let mut msg = "Block ".to_owned();
                push_str(&mut msg, id);
                push_str(&mut msg, " 不是已删除状态");
                return Err(AppError::BadRequest(msg));
            }
            i
        },
        None => {
            let mut msg = "Block ".to_owned();
            push_str(&mut msg, id);
            push_str(&mut msg, " 不是已删除状态");
            return Err(AppError::BadRequest(msg));
        },
    };
    let cur = copy_block(store.row_at(i));
    if !str_eq(cur.parent_id.as_str(), cur.id.as_str()) {
        let dead = match store.find(cur.parent_id.as_str()) {
            Some(pi) => store.row_at(pi).status == BlockStatus::Deleted,
            None => true,
        };
        if dead {
            let mut msg = "父块 ".to_owned();
            push_str(&mut msg, cur.parent_id.as_str());
            push_str(&mut msg, " 已被删除，请先恢复父块");
            return Err(AppError::BadRequest(msg));
        }
    }
    let ghost f = |k: int| in_subtree(s0, k, id@) && s0[k].status == BlockStatus::Deleted;
    let mut count: usize = 0;
    let mut k: usize = 0;
    while k < store.len()
        invariant
            store_wf(store@),
            store@.len() == s0.len(),
            k <= s0.len(),
            versions_fit(s0, 1),
            f == (|k: int| in_subtree(s0, k, id@) && s0[k].status == BlockStatus::Deleted),
            count == count_rows(s0, k as int, f),
            count <= k,
            forall|j: int| 0 <= j < s0.len() ==> (#[trigger] store@[j]).id@ == s0[j].id@ && store@[j].parent_id@
                == s0[j].parent_id@,
            forall|j: int|
                0 <= j < k ==> if in_subtree(s0, j, id@) && s0[j].status == BlockStatus::Deleted {
                    written(#[trigger] store@[j], s0[j], s0[j].content@, s0[j].properties@, s0[j].block_type, BlockStatus::Normal, now@)
                } else {
                    store@[j] == s0[j]
                },
            forall|j: int| k <= j < s0.len() ==> #[trigger] store@[j] == s0[j],
        decreases s0.len() - k,
    {
        proof {
            lemma_under_same_links(store@, s0, k as int, id@, s0.len());
        }
        let inside = store.is_under(k, id);
        if inside && store.row_at(k).status == BlockStatus::Deleted {
            count += 1;
            let c = copy_bytes(&store.row_at(k).content);
            let pr = store.row_at(k).properties.clone();
            let t = store.row_at(k).block_type.copy();
            write_row(store, k, c, pr, t, BlockStatus::Normal, &now);
        }
        k += 1;
    }
    let version = store.row_at(i).version;
    let cascade = if count > 0 {
        count - 1
    } else {
        0
    };
    proof {
        lemma_index_unique(s0, i as int);
        assert(in_subtree(s0, i as int, id@));
        lemma_count_rows_pos(s0, s0.len() as int, f, i as int);
    }
    Ok(RestoreResult { id: id.to_owned(), document_id: cur.document_id, version, cascade_count: cascade as u32 })
}

/// Restores a deleted block, with the deleted rows of its subtree, when its
/// parent is not deleted.
pub fn restore_block(store: &mut BlockStore, id: &str) -> (r: Result<RestoreResult, AppError>)
    requires
        store_wf(old(store)@),
        versions_fit(old(store)@, 1),
    ensures
        store_wf(final(store)@),
        r is Ok <==> !restore_refused(old(store)@, id@),
        r matches Ok(d) ==> (exists|now: Seq<char>| tree_restored(old(store)@, final(store)@, id@, now)) && d.id@ == id@
            && d.document_id == row_of(old(store)@, id@)->0.document_id && d.version == final(store)@[index_of(
            old(store)@,
            id@,
        )->0].version && d.cascade_count == (count_rows(
            old(store)@,
            old(store)@.len() as int,
            |k: int| in_subtree(old(store)@, k, id@) && old(store)@[k].status == BlockStatus::Deleted,
        ) - 1) as u32,
        r matches Err(e) ==> final(store)@ == old(store)@ && (if !(row_of(old(store)@, id@) is Some && row_of(
            old(store)@,
            id@,
        )->0.status == BlockStatus::Deleted) {
            e matches AppError::BadRequest(m) && m@ == not_deleted_message(id@)
        } else {
            e matches AppError::BadRequest(m) && m@ == dead_parent_message(row_of(old(store)@, id@)->0.parent_id@)
        }),
{
    restore_block_at(store, id, now_iso())
}

// ─── Moving a block ──────────────────────────────────────────────

/// The message for a move whose neighbours are out of order.
pub open spec fn misordered_message() -> Seq<char> {
    "after 位置必须在 before 位置之前"@
}

/// Where a moved block goes under `t`: between the live children `after`
/// and `before` when both are named; right after `after` (below the next
/// child); right before `before` (above the previous child); else before
/// the first child, or first. `None` when a named block is not a live
/// child of `t`, when `after` is not below `before`, or when no position
/// fits.
pub open spec fn move_position(s: Seq<Block>, t: Seq<char>, before: Option<Seq<char>>, after: Option<Seq<char>>) -> Option<
    Seq<char>,
> {
    match (before, after) {
        (Some(b), Some(a)) => {
            let ap = sibling_pos(s, a, t);
            let bp = sibling_pos(s, b, t);
            if ap is None || bp is None || !lex_lt(ap->0, bp->0) {
                None
            } else {
                between_spec(ap->0, bp->0)
            }
        },
        (Some(b), None) => match sibling_pos(s, b, t) {
            None => None,
            Some(bp) => match prev_child_pos(s, t, bp) {
                Some(pp) => between_spec(pp, bp),
                None => Some(before_spec(bp)),
            },
        },
        (None, Some(a)) => match sibling_pos(s, a, t) {
            None => None,
            Some(ap) => match next_child_pos(s, t, ap) {
                Some(n) => between_spec(ap, n),
                None => Some(after_spec(ap)),
            },
        },
        (None, None) => {
            let cs = children_sorted(s, t);
            if cs.len() > 0 {
                Some(before_spec(s[cs[0]].position@))
            } else {
                Some(seq!['a', '0'])
            }
        },
    }
}

/// The error `move_position` fails with: the first named block that is not
/// a live child of `t` (`after` first), neighbours out of order, or a
/// position that cannot be generated.
pub open spec fn move_position_error(s: Seq<Block>, t: Seq<char>, before: Option<Seq<char>>, after: Option<Seq<char>>, e: AppError) -> bool {
    if after is Some && sibling_pos(s, after->Some_0, t) is None {
        e matches AppError::BadRequest(m) && m@ == not_child_message(after->Some_0, t)
    } else if before is Some && sibling_pos(s, before->Some_0, t) is None {
        e matches AppError::BadRequest(m) && m@ == not_child_message(before->Some_0, t)
    } else if before is Some && after is Some && !lex_lt(
        sibling_pos(s, after->Some_0, t)->0,
        sibling_pos(s, before->Some_0, t)->0,
    ) {
        e matches AppError::BadRequest(m) && m@ == misordered_message()
    } else {
        e is Internal
    }
}

/// The position of the live child `sid` of `t`, or the error for a block
/// that is not one.
fn sibling_position(store: &BlockStore, sid: &str, t: &str) -> (r: Result<String, AppError>)
    requires
        store_wf(store@),
    ensures
        match r {
            Ok(x) => sibling_pos(store@, sid@, t@) == Some(x@) && valid_pos(x@),
            Err(e) => sibling_pos(store@, sid@, t@) is None && (e matches AppError::BadRequest(m) && m@
                == not_child_message(sid@, t@)),
        },
{
    match store.find(sid) {
        Some(i) => {
            let b = store.row_at(i);
            if b.status != BlockStatus::Deleted && str_eq(b.parent_id.as_str(), t) {
                proof {
                    lemma_index_of(store@, sid@);
                    assert(row_ok(store@[i as int]));
                }
                return Ok(b.position.clone());
            }
        },
        None => {},
    }
    let mut msg = "Block ".to_owned();
    push_str(&mut msg, sid);
    push_str(&mut msg, " 不是 ");
    push_str(&mut msg, t);
    push_str(&mut msg, " 的有效子块");
    Err(AppError::BadRequest(msg))
}

/// Computes where a moved block goes under `t` (see `move_position`).
pub(crate) fn move_position_of(store: &BlockStore, t: &str, before: Option<&str>, after: Option<&str>) -> (r: Result<String, AppError>)
    requires
        store_wf(store@),
    ensures
        match r {
            Ok(x) => move_position(store@, t@, opt_view(before), opt_view(after)) == Some(x@) && valid_pos(x@),
            Err(e) => move_position(store@, t@, opt_view(before), opt_view(after)) is None && move_position_error(
                store@,
                t@,
                opt_view(before),
                opt_view(after),
                e,
            ),
        },
{
    proof {
        reveal_strlit("after 位置必须在 before 位置之前");
    }
    match (before, after) {
        (Some(bid), Some(aid)) => {
            let ap = match sibling_position(store, aid, t) {
                Ok(x) => x,
                Err(e) => {
                    return Err(e);
                },
            };
            let bp = match sibling_position(store, bid, t) {
                Ok(x) => x,
                Err(e) => {
                    return Err(e);
                },
            };
            proof {
                law_valid_positions_do_not_underflow(ap@, bp@);
                if lex_lt(ap@, bp@) && between_spec(ap@, bp@) is Some {
                    law_between_is_between(ap@, bp@);
                }
            }
            let r = calculate_position(t, Some(ap.as_str()), Some(bp.as_str()));
            assert(r matches Ok(x) ==> move_position(store@, t@, opt_view(before), opt_view(after)) == Some(x@));
            assert(r matches Ok(x) ==> valid_pos(x@));
            r
        },
        (Some(bid), None) => {
            let bp = match sibling_position(store, bid, t) {
                Ok(x) => x,
                Err(e) => {
                    return Err(e);
                },
            };
            proof {
                lemma_prev_child_pos(store@, t@, bp@);
            }
            match store.prev_child_position(t, bp.as_str()) {
                Some(pp) => {
                    proof {
                        law_valid_positions_do_not_underflow(pp@, bp@);
                        if between_spec(pp@, bp@) is Some {
                            law_between_is_between(pp@, bp@);
                        }
                    }
                    let r = calculate_position(t, Some(pp.as_str()), Some(bp.as_str()));
                    assert(r matches Ok(x) ==> move_position(store@, t@, opt_view(before), opt_view(after)) == Some(x@));
                    assert(r matches Ok(x) ==> valid_pos(x@));
                    r
                },
                None => {
                    proof {
                        law_before_keeps_valid(bp@);
                    }
                    let r = generate_before(bp.as_str());
                    assert(move_position(store@, t@, opt_view(before), opt_view(after)) == Some(r@));
                    Ok(r)
                },
            }
        },
        (None, Some(aid)) => {
            let ap = match sibling_position(store, aid, t) {
                Ok(x) => x,
                Err(e) => {
                    return Err(e);
                },
            };
            proof {
                lemma_next_child_pos(store@, t@, ap@);
            }
            match store.next_child_position(t, ap.as_str()) {
                Some(n) => {
                    proof {
                        law_valid_positions_do_not_underflow(ap@, n@);
                        if between_spec(ap@, n@) is Some {
                            law_between_is_between(ap@, n@);
                        }
                    }
                    let r = calculate_position(t, Some(ap.as_str()), Some(n.as_str()));
                    assert(r matches Ok(x) ==> move_position(store@, t@, opt_view(before), opt_view(after)) == Some(x@));
                    assert(r matches Ok(x) ==> valid_pos(x@));
                    r
                },
                None => {
                    proof {
                        law_after_keeps_valid(ap@);
                    }
                    let r = generate_after(ap.as_str());
                    assert(move_position(store@, t@, opt_view(before), opt_view(after)) == Some(r@));
                    Ok(r)
                },
            }
        },
        (None, None) => {
            let cs = store.sorted_children(t);
            if cs.len() > 0 {
                let first = store.row_at(cs[0]);
                proof {
                    assert(cs@.map_values(|x: usize| x as int)[0] == cs@[0] as int);
                    assert(row_ok(store@[cs@[0] as int]));
                    law_before_keeps_valid(first.position@);
                }
                let r = generate_before(first.position.as_str());
                assert(children_sorted(store@, t@).len() > 0);
                assert(move_position(store@, t@, opt_view(before), opt_view(after)) == Some(r@));
                Ok(r)
            } else {
                assert(children_sorted(store@, t@).len() == 0);
                let r = generate_first();
                assert(valid_pos(r@)) by {
                    crate::position::lemma_alpha_char(10);
                    crate::position::lemma_alpha_char(0);
                }
                assert(move_position(store@, t@, opt_view(before), opt_view(after)) == Some(r@));
                Ok(r)
            }
        },
    }
}

/// The block a move is placed next to: `before_id`, else `after_id`.
pub open spec fn move_anchor(req: MoveBlockReq) -> Option<Seq<char>> {
    match req.before_id {
        Some(b) => Some(b@),
        None => opt_id(req.after_id),
    }
}

/// The parent a move targets: the anchor's parent, else `target_parent_id`.
pub open spec fn move_target(s: Seq<Block>, req: MoveBlockReq) -> Option<Seq<char>> {
    match move_anchor(req) {
        Some(a) => Some(live_row(s, a)->0.parent_id@),
        None => opt_id(req.target_parent_id),
    }
}

/// Block `t` lies in the subtree of block `id`, or is `id`.
pub open spec fn within(s: Seq<Block>, t: Seq<char>, id: Seq<char>) -> bool {
    t == id || (index_of(s, t) matches Some(k) && in_subtree(s, k, id))
}

/// The message for an anchor block that is missing or deleted.
pub open spec fn missing_anchor_message(id: Seq<char>) -> Seq<char> {
    "定位块 "@ + id + " 不存在或已删除"@
}

/// The message for a target parent that is missing or deleted.
pub open spec fn missing_target_message(id: Seq<char>) -> Seq<char> {
    "目标父块 "@ + id + " 不存在或已删除"@
}

/// A move request that fails: the global root, a block missing or deleted,
/// an anchor missing or deleted, no target named, or (when the target is
/// not the block or inside it) a target missing or deleted, a list rule
/// broken, or no position for it.
pub open spec fn general_move_refused(s: Seq<Block>, id: Seq<char>, req: MoveBlockReq) -> bool {
    let cur = live_row(s, id)->0;
    let t = move_target(s, req)->0;
    let tp = live_row(s, t)->0;
    ||| id == ROOT_ID@
    ||| live_row(s, id) is None
    ||| (cur.block_type == BlockType::Document && relink_refused(s, id, req))
    ||| (cur.block_type != BlockType::Document && move_anchor(req) is Some && live_row(s, move_anchor(req)->0) is None)
    ||| (cur.block_type != BlockType::Document && move_target(s, req) is None)
    ||| (cur.block_type != BlockType::Document && !within(s, t, id) && (live_row(s, t) is None || (cur.block_type is ListItem
        && !(tp.block_type is List)) || (tp.block_type is List && !(cur.block_type is ListItem)) || move_position(
        s,
        t,
        opt_id(req.before_id),
        opt_id(req.after_id),
    ) is None))
}

/// A relink (the move of a document, and of any block in a batch) goes
/// under the parent named, else stays under its own.
pub open spec fn relink_target(cur: Block, req: MoveBlockReq) -> Seq<char> {
    match req.target_parent_id {
        Some(t) => t@,
        None => cur.parent_id@,
    }
}

/// A relink of block `id` under `t` that fails: to a new parent that is
/// the block itself, inside it, or missing or deleted; or no position for
/// it.
pub open spec fn relink_fails(s: Seq<Block>, id: Seq<char>, t: Seq<char>, before: Option<Seq<char>>, after: Option<Seq<char>>) -> bool {
    let cur = live_row(s, id)->0;
    let changed = t != cur.parent_id@;
    ||| (changed && (within(s, t, id) || live_row(s, t) is None))
    ||| move_position(s, t, before, after) is None
}

/// The error of a failed relink.
pub open spec fn relink_fail_error(
    s: Seq<Block>,
    id: Seq<char>,
    t: Seq<char>,
    before: Option<Seq<char>>,
    after: Option<Seq<char>>,
    e: AppError,
) -> bool {
    let cur = live_row(s, id)->0;
    let changed = t != cur.parent_id@;
    if changed && t == id {
        e matches AppError::BadRequest(m) && m@ == "不能将 Block 移动到自身下"@
    } else if changed && within(s, t, id) {
        e is CycleReference
    } else if changed && live_row(s, t) is None {
        e matches AppError::BadRequest(m) && m@ == missing_target_message(t)
    } else {
        move_position_error(s, t, before, after, e)
    }
}

/// A relink request that fails (see `relink_fails`).
pub open spec fn relink_refused(s: Seq<Block>, id: Seq<char>, req: MoveBlockReq) -> bool {
    relink_fails(s, id, relink_target(live_row(s, id)->0, req), opt_id(req.before_id), opt_id(req.after_id))
}

/// The error of a refused relink request.
pub open spec fn relink_error(s: Seq<Block>, id: Seq<char>, req: MoveBlockReq, e: AppError) -> bool {
    relink_fail_error(s, id, relink_target(live_row(s, id)->0, req), opt_id(req.before_id), opt_id(req.after_id), e)
}

/// The error of a refused move request.
pub open spec fn general_move_error(s: Seq<Block>, id: Seq<char>, req: MoveBlockReq, e: AppError) -> bool {
    let cur = live_row(s, id)->0;
    let t = move_target(s, req)->0;
    let tp = live_row(s, t)->0;
    if id == ROOT_ID@ {
        e matches AppError::BadRequest(m) && m@ == "全局根块不可移动"@
    } else if live_row(s, id) is None {
        e matches AppError::NotFound(m) && m@ == missing_block_message(id)
    } else if cur.block_type == BlockType::Document {
        relink_error(s, id, req, e)
    } else if move_anchor(req) is Some && live_row(s, move_anchor(req)->0) is None {
        e matches AppError::NotFound(m) && m@ == missing_anchor_message(move_anchor(req)->0)
    } else if move_target(s, req) is None {
        e matches AppError::BadRequest(m) && m@ == "必须指定 before_id、after_id 或 target_parent_id"@
    } else if live_row(s, t) is None {
        e matches AppError::BadRequest(m) && m@ == missing_target_message(t)
    } else if cur.block_type is ListItem && !(tp.block_type is List) {
        e matches AppError::BadRequest(m) && m@ == "ListItem 必须挂在 List 类型块下，实际父块类型为 "@ + block_type_debug(
            tp.block_type,
        )
    } else if tp.block_type is List && !(cur.block_type is ListItem) {
        e matches AppError::BadRequest(m) && m@ == "List 块的直接子块必须是 ListItem，实际为 "@ + block_type_debug(
            cur.block_type,
        )
    } else {
        move_position_error(s, t, opt_id(req.before_id), opt_id(req.after_id), e)
    }
}

/// A moved list item takes its old list with it when the list has no other
/// live child left.
pub open spec fn list_left_empty(s: Seq<Block>, i: int, t: Seq<char>) -> bool {
    let cur = s[i];
    &&& cur.block_type is ListItem
    &&& t != cur.parent_id@
    &&& row_of(s, cur.parent_id@) is Some
    &&& forall|k: int| 0 <= k < s.len() && k != i ==> !live_child(#[trigger] s[k], cur.parent_id@)
}

/// What an accepted move does at time `now`: nothing when the target is the
/// block or inside it; else the block hangs under the target at the move
/// position (its document left as it was), and a list left empty by its
/// last item goes.
pub open spec fn general_move_applied(s0: Seq<Block>, s1: Seq<Block>, id: Seq<char>, req: MoveBlockReq, now: Seq<char>) -> bool {
    let i = index_of(s0, id)->0;
    let cur = s0[i];
    let t = move_target(s0, req)->0;
    let pos = move_position(s0, t, opt_id(req.before_id), opt_id(req.after_id))->0;
    let ip = index_of(s0, cur.parent_id@)->0;
    if cur.block_type == BlockType::Document {
        let dt = relink_target(cur, req);
        &&& s1 == s0.update(i, s1[i])
        &&& relocated(s1[i], cur, dt, move_position(s0, dt, opt_id(req.before_id), opt_id(req.after_id))->0, cur.document_id@, now)
    } else if within(s0, t, id) {
        s1 == s0
    } else {
        &&& s1.len() == s0.len()
        &&& relocated(s1[i], cur, t, pos, cur.document_id@, now)
        &&& list_left_empty(s0, i, t) ==> soft_deleted(s1[ip], s0[ip], now)
        &&& forall|k: int| 0 <= k < s0.len() && k != i && !(list_left_empty(s0, i, t) && k == ip) ==> #[trigger] s1[k] == s0[k]
    }
}

/// A heading moved next to a block of its own document (`before_id` or
/// `after_id` named): it moves within the document's flat list.
pub open spec fn heading_flat_case(s: Seq<Block>, id: Seq<char>, req: MoveBlockReq) -> bool {
    let cur = live_row(s, id)->0;
    &&& id != ROOT_ID@
    &&& live_row(s, id) is Some
    &&& cur.block_type is Heading
    &&& move_anchor(req) is Some
    &&& live_row(s, move_anchor(req)->0) is Some
    &&& live_row(s, move_anchor(req)->0)->0.document_id@ == cur.document_id@
}

/// The document a heading moves into when a move takes it under a new
/// parent in another document (`None` for any other move).
pub open spec fn cross_document(s: Seq<Block>, id: Seq<char>, req: MoveBlockReq) -> Option<Seq<char>> {
    let cur = live_row(s, id)->0;
    let t = move_target(s, req)->0;
    let d = document_of_child(live_row(s, t)->0);
    if cur.block_type is Heading && !within(s, t, id) && t != cur.parent_id@ && d != cur.document_id@ {
        Some(d)
    } else {
        None
    }
}

/// A move request that fails: a heading moved in its flat list that is not
/// in it, or whose document is missing or deleted; else a refused general
/// move, or a heading moved into a document that is missing or deleted.
pub open spec fn move_refused(s: Seq<Block>, id: Seq<char>, req: MoveBlockReq) -> bool {
    let cur = live_row(s, id)->0;
    if heading_flat_case(s, id, req) {
        !crate::service::outline::flat_rows(s, cur.document_id@).contains(index_of(s, id)->0) || live_row(
            s,
            cur.document_id@,
        ) is None
    } else {
        general_move_refused(s, id, req) || (cross_document(s, id, req) matches Some(d) && live_row(s, d) is None)
    }
}

/// The error of a refused move request.
pub open spec fn move_error(s: Seq<Block>, id: Seq<char>, req: MoveBlockReq, e: AppError) -> bool {
    let cur = live_row(s, id)->0;
    if heading_flat_case(s, id, req) {
        if !crate::service::outline::flat_rows(s, cur.document_id@).contains(index_of(s, id)->0) {
            e matches AppError::Internal(m) && m@ == crate::service::heading::not_in_flat_message()
        } else {
            e matches AppError::Internal(m) && m@ == unreadable_parent_message(cur.document_id@)
        }
    } else if general_move_refused(s, id, req) {
        general_move_error(s, id, req, e)
    } else {
        e matches AppError::Internal(m) && m@ == unreadable_parent_message(cross_document(s, id, req)->0)
    }
}

/// What an accepted move does at time `now`: a heading moved in its flat
/// list has the tree rebuilt from it; otherwise the general move, followed,
/// for a heading taken into another document, by rebuilding that
/// document's tree.
pub open spec fn move_applied(s0: Seq<Block>, s1: Seq<Block>, id: Seq<char>, req: MoveBlockReq, now: Seq<char>) -> bool {
    if heading_flat_case(s0, id, req) {
        crate::service::outline::heading_flat_moved(
            s0,
            s1,
            index_of(s0, id)->0,
            opt_id(req.before_id),
            opt_id(req.after_id),
            now,
        )
    } else {
        match cross_document(s0, id, req) {
            None => general_move_applied(s0, s1, id, req, now),
            Some(d) => exists|mid: Seq<Block>|
                general_move_applied(s0, mid, id, req, now) && crate::service::outline::document_rebuilt(mid, s1, d, now),
        }
    }
}

/// Moves block `id` as `move_block` does, at time `now`.
pub fn move_block_at(store: &mut BlockStore, id: &str, req: MoveBlockReq, now: String) -> (r: Result<Block, AppError>)
    requires
        store_wf(old(store)@),
        versions_fit(old(store)@, 2),
    ensures
        store_wf(final(store)@),
        r is Ok <==> !move_refused(old(store)@, id@, req),
        r matches Ok(b) ==> move_applied(old(store)@, final(store)@, id@, req, now@) && (row_of(final(store)@, id@) matches Some(
            x,
        ) && same_block(b, x)),
        r matches Err(e) ==> final(store)@ == old(store)@ && move_error(old(store)@, id@, req, e),
{
    let ghost s0 = store@;
    assert(versions_fit(s0, 1)) by {
        assert forall|k: int| 0 <= k < s0.len() implies (#[trigger] s0[k]).version + 1 <= u64::MAX by {
            assert(s0[k].version + 2 <= u64::MAX);
        }
    }
    proof {
        reveal_strlit("/");
        reveal_strlit("全局根块不可移动");
        reveal_strlit("必须指定 before_id、after_id 或 target_parent_id");
    }
    if str_eq(id, ROOT_ID) {
        return Err(AppError::BadRequest("全局根块不可移动".to_owned()));
    }
    let i = match store.find(id) {
        Some(i) => {
            if store.row_at(i).status == BlockStatus::Deleted {
                let mut msg = "Block ".to_owned();
                push_str(&mut msg, id);
                push_str(&mut msg, " 不存在或已删除");
                return Err(AppError::NotFound(msg));
            }
            i
        },
        None => {
            let mut msg = "Block ".to_owned();
            push_str(&mut msg, id);
            push_str(&mut msg, " 不存在或已删除");
            return Err(AppError::NotFound(msg));
        },
    };
    let cur = copy_block(store.row_at(i));
    proof {
        lemma_index_unique(s0, i as int);
    }
    if matches!(cur.block_type, BlockType::Document) {
        let target = match req.target_parent_id {
            Some(t) => t,
            None => cur.parent_id.clone(),
        };
        return relink_block(store, i, cur, target, req.before_id, req.after_id, now);
    }
    let before: Option<&str> = match &req.before_id {
        Some(b) => Some(b.as_str()),
        None => None,
    };
    let after: Option<&str> = match &req.after_id {
        Some(a) => Some(a.as_str()),
        None => None,
    };
    if matches!(cur.block_type, BlockType::Heading { .. }) {
        let sid: Option<&str> = match before {
            Some(b) => Some(b),
            None => after,
        };
        if let Some(sid) = sid {
            if let Some(si) = store.find(sid) {
                if store.row_at(si).status != BlockStatus::Deleted && str_eq(
                    store.row_at(si).document_id.as_str(),
                    cur.document_id.as_str(),
                ) {
                    proof {
                        lemma_index_of(s0, sid@);
                        assert(heading_flat_case(s0, id@, req));
                    }
                    let r = move_heading_in_flat(store, i, cur, before, after, &now);
                    proof {
                        assert(opt_view(before) == opt_id(req.before_id));
                        assert(opt_view(after) == opt_id(req.after_id));
                        lemma_index_same_ids(store@, s0, id@);
                    }
                    return r;
                }
            }
        }
    }
    assert(!heading_flat_case(s0, id@, req));
    let anchor: Option<&str> = match &req.before_id {
        Some(b) => Some(b.as_str()),
        None => match &req.after_id {
            Some(a) => Some(a.as_str()),
            None => None,
        },
    };
    let target: String = match anchor {
        Some(sid) => {
            let row = match store.find(sid) {
                Some(si) => {
                    if store.row_at(si).status == BlockStatus::Deleted {
                        None
                    } else {
                        Some(si)
                    }
                },
                None => None,
            };
            match row {
                Some(si) => store.row_at(si).parent_id.clone(),
                None => {
                    let mut msg = "定位块 ".to_owned();
                    push_str(&mut msg, sid);
                    push_str(&mut msg, " 不存在或已删除");
                    return Err(AppError::NotFound(msg));
                },
            }
        },
        None => match &req.target_parent_id {
            Some(t) => t.clone(),
            None => {
                return Err(AppError::BadRequest("必须指定 before_id、after_id 或 target_parent_id".to_owned()));
            },
        },
    };
    assert(move_target(s0, req) == Some(target@));
    let inside = if str_eq(target.as_str(), id) {
        true
    } else {
        match store.find(target.as_str()) {
            Some(ti) => store.is_under(ti, id),
            None => false,
        }
    };
    if inside {
        return Ok(cur);
    }
    let tp = match store.find(target.as_str()) {
        Some(ti) => {
            if store.row_at(ti).status == BlockStatus::Deleted {
                None
            } else {
                Some(copy_block(store.row_at(ti)))
            }
        },
        None => None,
    };
    let tp = match tp {
        Some(b) => b,
        None => {
            let mut msg = "目标父块 ".to_owned();
            push_str(&mut msg, target.as_str());
            push_str(&mut msg, " 不存在或已删除");
            return Err(AppError::BadRequest(msg));
        },
    };
    if let Err(e) = validate_parent_child_constraint(&tp, &cur.block_type) {
        return Err(e);
    }
    if let Err(e) = validate_list_child_type(&tp.block_type, &cur.block_type) {
        return Err(e);
    }
    let pos = match move_position_of(store, target.as_str(), before, after) {
        Ok(p) => p,
        Err(e) => {
            return Err(e);
        },
    };
    let parent_changed = !str_eq(target.as_str(), cur.parent_id.as_str());
    let target_doc = if matches!(tp.block_type, BlockType::Document) {
        tp.id.clone()
    } else {
        tp.document_id.clone()
    };
    let new_doc: Option<String> = if matches!(cur.block_type, BlockType::Heading { .. }) && parent_changed && !str_eq(
        target_doc.as_str(),
        cur.document_id.as_str(),
    ) {
        Some(target_doc)
    } else {
        None
    };
    assert(opt_id(new_doc) == cross_document(s0, id@, req));
    if let Some(nd) = &new_doc {
        let alive = match store.find(nd.as_str()) {
            Some(di) => store.row_at(di).status != BlockStatus::Deleted,
            None => false,
        };
        if !alive {
            let mut msg = "查询 parent ".to_owned();
            push_str(&mut msg, nd.as_str());
            push_str(&mut msg, " 失败: Query returned no rows");
            return Err(AppError::Internal(msg));
        }
    }
    proof {
        assert(row_ok(s0[i as int]));
        assert(target@ != cur.id@);
    }
    relocate_row(store, i, target.clone(), pos, cur.document_id.clone(), &now);
    let ghost s_a = store@;
    let ghost mut cleaned = false;
    if parent_changed && matches!(cur.block_type, BlockType::ListItem) {
        if !store.has_live_child(cur.parent_id.as_str()) {
            match store.find(cur.parent_id.as_str()) {
                Some(pi) => {
                    proof {
                        lemma_index_same_ids(s_a, s0, cur.parent_id@);
                        lemma_index_of(s0, cur.parent_id@);
                        assert(pi != i);
                        assert forall|k: int| 0 <= k < s0.len() && k != i implies !live_child(#[trigger] s0[k], cur.parent_id@) by {
                            assert(!live_child(s_a[k], cur.parent_id@));
                        }
                        cleaned = true;
                    }
                    delete_row(store, pi, &now);
                },
                None => {
                    proof {
                        lemma_index_same_ids(s_a, s0, cur.parent_id@);
                    }
                },
            }
        }
    }
    proof {
        lemma_index_same_ids(s_a, s0, cur.parent_id@);
        lemma_index_of(s0, cur.parent_id@);
        if !cleaned && list_left_empty(s0, i as int, target@) {
            assert forall|k: int| 0 <= k < s_a.len() implies !live_child(#[trigger] s_a[k], cur.parent_id@) by {
                if k != i {
                    assert(s_a[k] == s0[k]);
                }
            }
            assert(false);
        }
        assert(general_move_applied(s0, store@, id@, req, now@));
    }
    if let Some(nd) = new_doc {
        let ghost s_g = store@;
        proof {
            lemma_index_same_ids(s_g, s0, nd@);
            lemma_index_of(s0, nd@);
            assert(versions_fit(s_g, 1)) by {
                assert(!list_left_empty(s0, i as int, target@));
                assert forall|k: int| 0 <= k < s_g.len() implies (#[trigger] s_g[k]).version + 1 <= u64::MAX by {
                    assert(s0[k].version + 2 <= u64::MAX);
                    if k != i {
                        assert(s_g[k] == s0[k]);
                    }
                }
            }
        }
        let rr = rebuild_document(store, nd.as_str(), &now);
        proof {
            assert(rr is Ok);
            assert(crate::service::outline::document_rebuilt(s_g, store@, nd@, now@));
        }
    }
    proof {
        lemma_index_unique(store@, i as int);
        assert(move_applied(s0, store@, id@, req, now@));
    }
    Ok(copy_block(store.row_at(i)))
}

/// Where the live block at row `i` (`cur`, a copy of it) goes when
/// relinked under `target`: checks a new parent (not the block itself,
/// nor inside it, and live) and gives the move position.
pub(crate) fn relink_position(
    store: &BlockStore,
    i: usize,
    cur: &Block,
    target: &str,
    before_id: &Option<String>,
    after_id: &Option<String>,
) -> (r: Result<String, AppError>)
    requires
        store_wf(store@),
        i < store@.len(),
        same_block(*cur, store@[i as int]),
        cur.status != BlockStatus::Deleted,
        index_of(store@, cur.id@) == Some(i as int),
        cur.id@ != ROOT_ID@,
    ensures
        r is Ok <==> !relink_fails(store@, cur.id@, target@, opt_id(*before_id), opt_id(*after_id)),
        r matches Ok(p) ==> p@ == move_position(store@, target@, opt_id(*before_id), opt_id(*after_id))->0 && valid_pos(p@)
            && target@ != cur.id@,
        r matches Err(e) ==> relink_fail_error(store@, cur.id@, target@, opt_id(*before_id), opt_id(*after_id), e),
{
    let ghost s0 = store@;
    proof {
        reveal_strlit("不能将 Block 移动到自身下");
    }
    let changed = !str_eq(target, cur.parent_id.as_str());
    if changed {
        if str_eq(target, cur.id.as_str()) {
            return Err(AppError::BadRequest("不能将 Block 移动到自身下".to_owned()));
        }
        let inside = match store.find(target) {
            Some(ti) => store.is_under(ti, cur.id.as_str()),
            None => false,
        };
        if inside {
            return Err(AppError::CycleReference);
        }
        let alive = match store.find(target) {
            Some(ti) => store.row_at(ti).status != BlockStatus::Deleted,
            None => false,
        };
        if !alive {
            let mut msg = "目标父块 ".to_owned();
            push_str(&mut msg, target);
            push_str(&mut msg, " 不存在或已删除");
            return Err(AppError::BadRequest(msg));
        }
    }
    let before: Option<&str> = match before_id {
        Some(b) => Some(b.as_str()),
        None => None,
    };
    let after: Option<&str> = match after_id {
        Some(a) => Some(a.as_str()),
        None => None,
    };
    let pos = match move_position_of(store, target, before, after) {
        Ok(p) => p,
        Err(e) => {
            return Err(e);
        },
    };
    proof {
        assert(row_ok(s0[i as int]));
        if target@ == cur.id@ {
            assert(!changed);
            assert(cur.parent_id@ == cur.id@);
        }
    }
    Ok(pos)
}

/// Moves the live block at row `i` (`cur`, a copy of it) under the parent
/// named, else its own, keeping its document; refuses a new parent that is
/// the block itself, inside it, or missing or deleted.
pub(crate) fn relink_block(
    store: &mut BlockStore,
    i: usize,
    cur: Block,
    target: String,
    before_id: Option<String>,
    after_id: Option<String>,
    now: String,
) -> (r: Result<Block, AppError>)
    requires
        store_wf(old(store)@),
        old(store)@[i as int].version < u64::MAX,
        i < old(store)@.len(),
        same_block(cur, old(store)@[i as int]),
        cur.status != BlockStatus::Deleted,
        index_of(old(store)@, cur.id@) == Some(i as int),
        cur.id@ != ROOT_ID@,
    ensures
        store_wf(final(store)@),
        r is Ok <==> !relink_fails(old(store)@, cur.id@, target@, opt_id(before_id), opt_id(after_id)),
        r matches Ok(b) ==> (row_of(final(store)@, cur.id@) matches Some(x) && same_block(b, x)),
        r matches Ok(b) ==> final(store)@ == old(store)@.update(i as int, final(store)@[i as int]) && relocated(
            final(store)@[i as int],
            old(store)@[i as int],
            target@,
            move_position(old(store)@, target@, opt_id(before_id), opt_id(after_id))->0,
            cur.document_id@,
            now@,
        ) && same_block(b, final(store)@[i as int]),
        r matches Err(e) ==> final(store)@ == old(store)@ && relink_fail_error(
            old(store)@,
            cur.id@,
            target@,
            opt_id(before_id),
            opt_id(after_id),
            e,
        ),
{
    let pos = match relink_position(store, i, &cur, target.as_str(), &before_id, &after_id) {
        Ok(p) => p,
        Err(e) => {
            return Err(e);
        },
    };
    relocate_row(store, i, target, pos, cur.document_id.clone(), &now);
    proof {
        lemma_index_unique(store@, i as int);
    }
    Ok(copy_block(store.row_at(i)))
}

/// Moves a block under the target parent (the anchor's parent, or
/// `target_parent_id`), before `before_id`, after `after_id`, or first; a
/// target that is the block itself or inside it leaves everything as it is.
pub fn move_block(store: &mut BlockStore, id: &str, req: MoveBlockReq) -> (r: Result<Block, AppError>)
    requires
        store_wf(old(store)@),
        versions_fit(old(store)@, 2),
    ensures
        store_wf(final(store)@),
        r is Ok <==> !move_refused(old(store)@, id@, req),
        r matches Ok(b) ==> (exists|now: Seq<char>| move_applied(old(store)@, final(store)@, id@, req, now)) && (row_of(
            final(store)@,
            id@,
        ) matches Some(x) && same_block(b, x)),
        r matches Err(e) ==> final(store)@ == old(store)@ && move_error(old(store)@, id@, req, e),
{
    move_block_at(store, id, req, now_iso())
}

// ─── Documents ───────────────────────────────────────────────────

/// The message for a parent document that is missing or deleted.
pub open spec fn missing_parent_document_message(id: Seq<char>) -> Seq<char> {
    "父文档 "@ + id + " 不存在"@
}

/// The parent a new document hangs under: the one named, else the global
/// root.
pub open spec fn document_parent(parent: Option<String>) -> Seq<char> {
    match parent {
        Some(p) => p@,
        None => ROOT_ID@,
    }
}

/// A create-document request that fails whatever identifiers it gets: a
/// named parent that is missing, deleted or not a document, an anchor that
/// is not a live child of the parent, or no position.
pub open spec fn document_refused(s: Seq<Block>, parent: Option<String>, after: Option<String>) -> bool {
    let p = document_parent(parent);
    ||| (parent is Some && live_row(s, p) is None)
    ||| (parent is Some && live_row(s, p)->0.block_type != BlockType::Document)
    ||| (after is Some && sibling_pos(s, after->Some_0@, p) is None)
    ||| insert_position(s, p, opt_id(after)) is None
}

/// The error of a refused create-document request.
pub open spec fn document_error(s: Seq<Block>, parent: Option<String>, after: Option<String>, e: AppError) -> bool {
    let p = document_parent(parent);
    if parent is Some && live_row(s, p) is None {
        e matches AppError::BadRequest(m) && m@ == missing_parent_document_message(p)
    } else if parent is Some && live_row(s, p)->0.block_type != BlockType::Document {
        e matches AppError::BadRequest(m) && m@ == "parent_id 必须指向文档类型的 Block"@
    } else if after is Some && sibling_pos(s, after->Some_0@, p) is None {
        e matches AppError::BadRequest(m) && m@ == not_child_message(after->Some_0@, p)
    } else {
        e is Internal
    }
}

/// `doc` and `para` are the document titled `title` and its empty paragraph
/// that a create-document request makes with the given identifiers at time
/// `now`.
pub open spec fn document_created(
    s: Seq<Block>,
    title: Seq<char>,
    parent: Option<String>,
    after: Option<String>,
    doc_id: Seq<char>,
    para_id: Seq<char>,
    now: Seq<char>,
    doc: Block,
    para: Block,
) -> bool {
    &&& doc.id@ == doc_id
    &&& doc.parent_id@ == document_parent(parent)
    &&& doc.document_id@ == doc_id
    &&& doc.position@ == insert_position(s, document_parent(parent), opt_id(after))->0
    &&& doc.block_type == BlockType::Document
    &&& doc.content@ == encode_utf8(title)
    &&& doc.properties@.dom().len() == 1
    &&& exists|k: String| k@ == "title"@ && doc.properties@.contains_key(k) && doc.properties@[k]@ == title
    &&& fresh_row(doc, now)
    &&& para.id@ == para_id
    &&& para.parent_id@ == doc_id
    &&& para.document_id@ == doc_id
    &&& para.position@ == seq!['a', '0']
    &&& para.block_type == BlockType::Paragraph
    &&& para.content@.len() == 0
    &&& para.properties@ == Map::<String, String>::empty()
    &&& fresh_row(para, now)
}

/// The bookkeeping fields of a row created at time `now`.
pub open spec fn fresh_row(b: Block, now: Seq<char>) -> bool {
    &&& b.version == 1
    &&& b.status == BlockStatus::Normal
    &&& b.schema_version == 1
    &&& !b.encrypted
    &&& b.created@ == now
    &&& b.modified@ == now
    &&& b.author@ == "system"@
    &&& b.owner_id is None
}

/// Creates a document as `create_document` does, with the identifiers and
/// the time given.
pub fn create_document_with(
    store: &mut BlockStore,
    title: String,
    parent_id: Option<String>,
    after_id: Option<String>,
    doc_id: String,
    para_id: String,
    now: String,
) -> (r: Result<Block, AppError>)
    requires
        store_wf(old(store)@),
    ensures
        store_wf(final(store)@),
        r is Ok <==> !document_refused(old(store)@, parent_id, after_id) && index_of(old(store)@, doc_id@) is None
            && index_of(old(store)@, para_id@) is None && para_id@ != doc_id@,
        r matches Ok(b) ==> final(store)@.len() == old(store)@.len() + 2 && final(store)@.take(old(store)@.len() as int)
            == old(store)@ && document_created(
            old(store)@,
            title@,
            parent_id,
            after_id,
            doc_id@,
            para_id@,
            now@,
            final(store)@[old(store)@.len() as int],
            final(store)@[old(store)@.len() + 1int],
        ) && same_block(b, final(store)@[old(store)@.len() as int]),
        r matches Err(e) ==> final(store)@ == old(store)@ && (if document_refused(old(store)@, parent_id, after_id) {
            document_error(old(store)@, parent_id, after_id, e)
        } else {
            e matches AppError::Internal(m) && m@ == duplicate_id_message()
        }),
{
    let ghost s0 = store@;
    proof {
        reveal_strlit("/");
        reveal_strlit("parent_id 必须指向文档类型的 Block");
        reveal_strlit("插入 Block 失败: UNIQUE constraint failed: blocks.id");
        reveal_strlit("system");
        reveal_strlit("title");
    }
    let parent: String = match &parent_id {
        Some(pid) => {
            let row = match store.find(pid.as_str()) {
                Some(pi) => {
                    if store.row_at(pi).status == BlockStatus::Deleted {
                        None
                    } else {
                        Some(pi)
                    }
                },
                None => None,
            };
            match row {
                Some(pi) => {
                    if !matches!(store.row_at(pi).block_type, BlockType::Document) {
                        return Err(AppError::BadRequest("parent_id 必须指向文档类型的 Block".to_owned()));
                    }
                },
                None => {
                    let mut msg = "父文档 ".to_owned();
                    push_str(&mut msg, pid.as_str());
                    push_str(&mut msg, " 不存在");
                    return Err(AppError::BadRequest(msg));
                },
            }
            pid.clone()
        },
        None => ROOT_ID.to_owned(),
    };
    let after = match &after_id {
        Some(a) => Some(a.as_str()),
        None => None,
    };
    let position = match insert_position_of(store, parent.as_str(), after) {
        Ok(p) => p,
        Err(e) => {
            return Err(e);
        },
    };
    if store.find(doc_id.as_str()).is_some() || store.find(para_id.as_str()).is_some() || str_eq(
        doc_id.as_str(),
        para_id.as_str(),
    ) {
        return Err(AppError::Internal("插入 Block 失败: UNIQUE constraint failed: blocks.id".to_owned()));
    }
    let key = "title".to_owned();
    let ghost kk = key;
    let props = crate::parser::markdown::single_property(key, title.clone());
    proof {
        assert(props@.contains_key(kk));
        assert(props@.dom() =~= Set::empty().insert(kk));
    }
    let doc = Block {
        id: doc_id.clone(),
        parent_id: parent,
        document_id: doc_id.clone(),
        position,
        block_type: BlockType::Document,
        content: string_into_bytes(title),
        properties: props,
        version: 1,
        status: BlockStatus::Normal,
        schema_version: 1,
        encrypted: false,
        created: now.clone(),
        modified: now.clone(),
        author: "system".to_owned(),
        owner_id: None,
    };
    let para = Block {
        id: para_id,
        parent_id: doc_id.clone(),
        document_id: doc_id,
        position: generate_first(),
        block_type: BlockType::Paragraph,
        content: Vec::new(),
        properties: HashMap::new(),
        version: 1,
        status: BlockStatus::Normal,
        schema_version: 1,
        encrypted: false,
        created: now.clone(),
        modified: now,
        author: "system".to_owned(),
        owner_id: None,
    };
    assert(valid_pos(para.position@)) by {
        crate::position::lemma_alpha_char(10);
        crate::position::lemma_alpha_char(0);
    }
    let r = copy_block(&doc);
    proof {
        lemma_index_of(s0, doc.id@);
        lemma_index_of(s0, para.id@);
        if doc.parent_id@ == doc.id@ {
            if parent_id is Some {
                lemma_index_of(s0, parent_id->Some_0@);
            }
        }
    }
    store.push_row(doc);
    proof {
        lemma_index_of(store@, para.id@);
        assert forall|k: int| 0 <= k < store@.len() implies (#[trigger] store@[k]).id@ != para.id@ by {
            if k < s0.len() {
                assert(store@[k] == s0[k]);
            }
        }
    }
    store.push_row(para);
    proof {
        assert(store@.take(s0.len() as int) =~= s0);
    }
    Ok(r)
}

/// Creates a document titled `title` under `parent_id` (a document) or the
/// global root, after `after_id` or last, with an empty paragraph in it.
pub fn create_document(store: &mut BlockStore, title: String, parent_id: Option<String>, after_id: Option<String>) -> (r:
    Result<Block, AppError>)
    requires
        store_wf(old(store)@),
    ensures
        store_wf(final(store)@),
        document_refused(old(store)@, parent_id, after_id) ==> r is Err,
        r matches Ok(b) ==> final(store)@.len() == old(store)@.len() + 2 && final(store)@.take(old(store)@.len() as int)
            == old(store)@ && document_created(
            old(store)@,
            title@,
            parent_id,
            after_id,
            b.id@,
            final(store)@[old(store)@.len() + 1int].id@,
            b.created@,
            final(store)@[old(store)@.len() as int],
            final(store)@[old(store)@.len() + 1int],
        ) && same_block(b, final(store)@[old(store)@.len() as int]),
        r matches Err(e) ==> final(store)@ == old(store)@ && (if document_refused(old(store)@, parent_id, after_id) {
            document_error(old(store)@, parent_id, after_id, e)
        } else {
            e matches AppError::Internal(m) && m@ == duplicate_id_message()
        }),
{
    let doc_id = generate_block_id();
    let para_id = generate_block_id();
    let now = now_iso();
    create_document_with(store, title, parent_id, after_id, doc_id, para_id, now)
}

// ─── Children, a page at a time ──────────────────────────────────

/// The page size actually used: the requested one brought into `1..=500`.
pub open spec fn page_limit(limit: u32) -> int {
    if limit < 1 {
        1
    } else if limit > 500 {
        500
    } else {
        limit as int
    }
}

/// How many children to fetch for a page: one more than the page size, to
/// learn whether more follow.
pub fn children_fetch_limit(limit: u32) -> (r: u32)
    ensures
        r == page_limit(limit) + 1,
{
    let l = if limit < 1 {
        1
    } else if limit > 500 {
        500
    } else {
        limit
    };
    l + 1
}

/// A page of the children of `parent_id`: `fetched` holds the children
/// after the cursor, in position order, at most one more than the page
/// size. `NotFound` when the parent does not exist.
pub fn children_page(parent_exists: bool, parent_id: &str, limit: u32, fetched: Vec<Block>) -> (r: Result<
    ChildrenResult,
    AppError,
>)
    ensures
        r is Ok <==> parent_exists,
        r matches Err(e) ==> e matches AppError::NotFound(msg) && msg@ == "Block "@ + parent_id@ + " 不存在"@,
        r matches Ok(page) ==> {
            &&& page.has_more == (fetched@.len() > page_limit(limit))
            &&& page.blocks@ == (if page.has_more {
                fetched@.take(page_limit(limit))
            } else {
                fetched@
            })
            &&& match page.next_cursor {
                Some(c) => page.has_more && c@ == page.blocks@.last().position@,
                None => !page.has_more,
            }
        },
{
    if !parent_exists {
        let mut msg = "Block ".to_owned();
        push_str(&mut msg, parent_id);
        push_str(&mut msg, " 不存在");
        return Err(AppError::NotFound(msg));
    }
    let l: usize = if limit < 1 {
        1
    } else if limit > 500 {
        500
    } else {
        limit as usize
    };
    let has_more = fetched.len() > l;
    let mut blocks = fetched;
    if has_more {
        blocks.truncate(l);
    }
    let next_cursor = if has_more {
        Some(blocks[l - 1].position.clone())
    } else {
        None
    };
    Ok(ChildrenResult { blocks, has_more, next_cursor })
}

/// The live children of `p` after `cursor` (all of them without one), in
/// position order.
pub open spec fn children_after(s: Seq<Block>, p: Seq<char>, cursor: Option<Seq<char>>) -> Seq<int> {
    picked_upto(s, |k: int| child_after(s, p, cursor, k), s.len() as int)
}

/// Row `k` is a live child of `p` after `cursor`.
pub open spec fn child_after(s: Seq<Block>, p: Seq<char>, cursor: Option<Seq<char>>, k: int) -> bool {
    live_child(s[k], p) && (cursor matches Some(c) ==> lex_lt(c, s[k].position@))
}

/// The blocks at the given row indices.
pub open spec fn rows_at(s: Seq<Block>, idx: Seq<int>) -> Seq<Block> {
    idx.map_values(|k: int| s[k])
}

/// Copies of the rows at `idx`, at most `max` of them.
pub(crate) fn copy_rows(store: &BlockStore, idx: &Vec<usize>, max: usize) -> (r: Vec<Block>)
    requires
        forall|t: int| 0 <= t < idx@.len() ==> (#[trigger] idx@[t]) < store@.len(),
    ensures
        r@.len() == if idx@.len() < max {
            idx@.len()
        } else {
            max as nat
        },
        forall|t: int| 0 <= t < r@.len() ==> same_block(#[trigger] r@[t], store@[idx@[t] as int]),
{
    let mut r: Vec<Block> = Vec::new();
    let mut t: usize = 0;
    while t < idx.len() && t < max
        invariant
            t <= idx@.len(),
            t <= max,
            r@.len() == t,
            forall|t: int| 0 <= t < idx@.len() ==> (#[trigger] idx@[t]) < store@.len(),
            forall|u: int| 0 <= u < t ==> same_block(#[trigger] r@[u], store@[idx@[u] as int]),
        decreases idx@.len() - t,
    {
        r.push(copy_block(store.row_at(idx[t])));
        t += 1;
    }
    r
}

/// A page of the live children of `parent_id` after `cursor`, in position
/// order, `limit` brought into `1..=500`; `NotFound` when the parent is
/// missing or deleted.
pub fn get_children(store: &BlockStore, parent_id: &str, limit: u32, cursor: Option<&str>) -> (r: Result<ChildrenResult, AppError>)
    requires
        store_wf(store@),
    ensures
        r is Ok <==> live_row(store@, parent_id@) is Some,
        r matches Err(e) ==> e matches AppError::NotFound(msg) && msg@ == "Block "@ + parent_id@ + " 不存在"@,
        r matches Ok(page) ==> {
            let all = children_after(store@, parent_id@, opt_view(cursor));
            &&& page.has_more == (all.len() > page_limit(limit))
            &&& page.blocks@.len() == (if page.has_more {
                page_limit(limit)
            } else {
                all.len() as int
            })
            &&& forall|t: int| 0 <= t < page.blocks@.len() ==> same_block(#[trigger] page.blocks@[t], store@[all[t]])
            &&& match page.next_cursor {
                Some(c) => page.has_more && c@ == page.blocks@.last().position@,
                None => !page.has_more,
            }
        },
{
    let exists = match store.find(parent_id) {
        Some(i) => store.row_at(i).status != BlockStatus::Deleted,
        None => false,
    };
    let ghost f = |k: int| child_after(store@, parent_id@, opt_view(cursor), k);
    let mut flags: Vec<bool> = Vec::new();
    let mut k: usize = 0;
    while k < store.len()
        invariant
            k <= store@.len(),
            f == (|k: int| child_after(store@, parent_id@, opt_view(cursor), k)),
            flags@.len() == k,
            forall|j: int| 0 <= j < k ==> flags@[j] == f(j),
        decreases store@.len() - k,
    {
        let b = store.row_at(k);
        let mut pick = b.status != BlockStatus::Deleted && str_eq(b.parent_id.as_str(), parent_id);
        if pick {
            if let Some(c) = cursor {
                let cc = to_chars(c);
                let pc = to_chars(b.position.as_str());
                pick = lex_less(cc.as_slice(), pc.as_slice());
            }
        }
        flags.push(pick);
        k += 1;
    }
    let idx = store.sorted_rows(&flags, Ghost(f));
    let fetch = children_fetch_limit(limit) as usize;
    let fetched = copy_rows(store, &idx, fetch);
    proof {
        if exists {
            lemma_index_of(store@, parent_id@);
        }
    }
    let r = children_page(exists, parent_id, limit, fetched);
    proof {
        assert(idx@.map_values(|x: usize| x as int) == children_after(store@, parent_id@, opt_view(cursor)));
    }
    r
}

/// The global root, deleted or not; an internal error when the store has
/// none.
pub fn get_root(store: &BlockStore) -> (r: Result<Block, AppError>)
    ensures
        r is Ok <==> row_of(store@, ROOT_ID@) is Some,
        r matches Ok(b) ==> same_block(b, row_of(store@, ROOT_ID@)->0),
        r matches Err(e) ==> e matches AppError::Internal(m) && m@ == "全局根块不存在（数据库未正确初始化）"@,
{
    proof {
        reveal_strlit("全局根块不存在（数据库未正确初始化）");
    }
    match store.find(ROOT_ID) {
        Some(i) => Ok(copy_block(store.row_at(i))),
        None => Err(AppError::Internal("全局根块不存在（数据库未正确初始化）".to_owned())),
    }
}

/// The documents directly under the global root (not the root itself), live,
/// in position order.
pub open spec fn root_documents(s: Seq<Block>) -> Seq<int> {
    picked_upto(s, |k: int| root_document(s, k), s.len() as int)
}

/// Row `k` is a live document directly under the global root.
pub open spec fn root_document(s: Seq<Block>, k: int) -> bool {
    live_child(s[k], ROOT_ID@) && s[k].block_type == BlockType::Document && s[k].id@ != ROOT_ID@
}

/// The live documents directly under the global root, in position order.
pub fn list_root_documents(store: &BlockStore) -> (r: Vec<Block>)
    ensures
        r@.len() == root_documents(store@).len(),
        forall|t: int| 0 <= t < r@.len() ==> same_block(#[trigger] r@[t], store@[root_documents(store@)[t]]),
{
    proof {
        reveal_strlit("/");
    }
    let ghost f = |k: int| root_document(store@, k);
    let mut flags: Vec<bool> = Vec::new();
    let mut k: usize = 0;
    while k < store.len()
        invariant
            k <= store@.len(),
            f == (|k: int| root_document(store@, k)),
            flags@.len() == k,
            forall|j: int| 0 <= j < k ==> flags@[j] == f(j),
        decreases store@.len() - k,
    {
        let b = store.row_at(k);
        let pick = b.status != BlockStatus::Deleted && str_eq(b.parent_id.as_str(), ROOT_ID) && matches!(
            b.block_type,
            BlockType::Document
        ) && !str_eq(b.id.as_str(), ROOT_ID);
        flags.push(pick);
        k += 1;
    }
    let idx = store.sorted_rows(&flags, Ghost(f));
    let n = idx.len();
    let r = copy_rows(store, &idx, n);
    proof {
        assert(idx@.map_values(|x: usize| x as int) == root_documents(store@));
    }
    r
}

/// The live blocks under document `doc_id` (not itself), in position order.
pub open spec fn document_blocks(s: Seq<Block>, doc_id: Seq<char>) -> Seq<int> {
    picked_upto(s, |k: int| document_block(s, doc_id, k), s.len() as int)
}

/// Row `k` is a live block under document `doc_id`, other than the document.
pub open spec fn document_block(s: Seq<Block>, doc_id: Seq<char>, k: int) -> bool {
    in_subtree(s, k, doc_id) && s[k].id@ != doc_id && s[k].status != BlockStatus::Deleted
}

/// A document and its live descendants in position order; `NotFound` when
/// the document is missing or deleted.
pub fn get_document_tree(store: &BlockStore, doc_id: &str) -> (r: Result<DocumentTreeResult, AppError>)
    ensures
        r is Ok <==> live_row(store@, doc_id@) is Some,
        r matches Err(e) ==> e matches AppError::NotFound(m) && m@ == "文档 "@ + doc_id@ + " 不存在"@,
        r matches Ok(t) ==> same_block(t.root, live_row(store@, doc_id@)->0) && t.blocks@.len() == document_blocks(
            store@,
            doc_id@,
        ).len() && forall|u: int|
            0 <= u < t.blocks@.len() ==> same_block(#[trigger] t.blocks@[u], store@[document_blocks(store@, doc_id@)[u]]),
{
    let root = match store.find(doc_id) {
        Some(i) => {
            if store.row_at(i).status == BlockStatus::Deleted {
                None
            } else {
                Some(copy_block(store.row_at(i)))
            }
        },
        None => None,
    };
    let root = match root {
        Some(b) => b,
        None => {
            let mut msg = "文档 ".to_owned();
            push_str(&mut msg, doc_id);
            push_str(&mut msg, " 不存在");
            return Err(AppError::NotFound(msg));
        },
    };
    let ghost f = |k: int| document_block(store@, doc_id@, k);
    let mut flags: Vec<bool> = Vec::new();
    let mut k: usize = 0;
    while k < store.len()
        invariant
            k <= store@.len(),
            f == (|k: int| document_block(store@, doc_id@, k)),
            flags@.len() == k,
            forall|j: int| 0 <= j < k ==> flags@[j] == f(j),
        decreases store@.len() - k,
    {
        let pick = store.is_under(k, doc_id) && !str_eq(store.row_at(k).id.as_str(), doc_id) && store.row_at(k).status
            != BlockStatus::Deleted;
        flags.push(pick);
        k += 1;
    }
    let idx = store.sorted_rows(&flags, Ghost(f));
    let n = idx.len();
    let blocks = copy_rows(store, &idx, n);
    proof {
        assert(idx@.map_values(|x: usize| x as int) == document_blocks(store@, doc_id@));
    }
    Ok(DocumentTreeResult { root, blocks })
}

// ─── Export ──────────────────────────────────────────────────────

/// The blocks of `bs` whose parent is `id`, in order.
pub open spec fn blocks_under(bs: Seq<Block>, id: Seq<char>) -> Seq<Block>
    decreases bs.len(),
{
    if bs.len() == 0 {
        Seq::empty()
    } else if bs.last().parent_id@ == id {
        blocks_under(bs.drop_last(), id).push(bs.last())
    } else {
        blocks_under(bs.drop_last(), id)
    }
}

/// The children each block has among `bs`.
pub open spec fn children_in(bs: Seq<Block>) -> Kids {
    |id: Seq<char>| blocks_under(bs, id)
}

/// Groups `blocks` by parent, keeping their order.
pub fn children_map_of(blocks: Vec<Block>) -> (m: ChildrenMap)
    ensures
        m.kids() == children_in(blocks@),
{
    let ghost all = blocks@;
    let mut m = ChildrenMap::new();
    let mut blocks = blocks;
    let mut rest: Vec<Block> = Vec::new();
    let total: usize = blocks.len();
    let ghost n = all.len();
    while blocks.len() > 0
        invariant
            blocks@ == all.take(blocks@.len() as int),
            blocks@.len() <= n,
            n == all.len(),
            rest@ == all.skip(blocks@.len() as int).reverse(),
        decreases blocks.len(),
    {
        let ghost k = blocks@.len() as int;
        let b = blocks.pop().unwrap();
        rest.push(b);
        proof {
            assert(blocks@ =~= all.take(k - 1));
            assert(rest@ =~= all.skip(k - 1).reverse());
        }
    }
    let mut done: usize = 0;
    assert(all.skip(0) =~= all);
    while rest.len() > 0
        invariant
            done + rest@.len() == n,
            n == all.len(),
            n == total,
            rest@ == all.skip(done as int).reverse(),
            forall|id: Seq<char>| #[trigger] m.children_of(id) == blocks_under(all.take(done as int), id),
        decreases rest.len(),
    {
        proof {
            let sk = all.skip(done as int);
            assert(rest@[rest@.len() - 1] == sk[0]);
        }
        let b = rest.pop().unwrap();
        proof {
            assert(b == all[done as int]);
            assert(all.take(done + 1).drop_last() =~= all.take(done as int));
        }
        let parent = b.parent_id.clone();
        m.push_child(parent, b);
        done += 1;
        proof {
            assert(rest@ =~= all.skip(done as int).reverse());
        }
    }
    proof {
        assert(all.take(n as int) =~= all);
        assert(m.kids() =~= children_in(all));
    }
    m
}

/// The message for a document that is missing or deleted.
pub open spec fn missing_document_message(id: Seq<char>) -> Seq<char> {
    "文档 "@ + id + " 不存在或已删除"@
}

/// `res` is the Markdown export of `root` with the children `kids`.
pub open spec fn exported_as(res: ExportResult, kids: Kids, root: Block) -> bool {
    &&& res.content@ == render(kids, root).0
    &&& res.blocks_exported == render_count(kids, root)
    &&& res.lossy_types@.map_values(|t: String| t@) == render(kids, root).1
    &&& match res.filename {
        Some(f) => export_filename(root) == Some(f@),
        None => export_filename(root) is None,
    }
}

fn export_tree(root: Block, blocks: Vec<Block>, format: &str) -> (r: Result<ExportResult, AppError>)
    requires
        acyclic(children_in(blocks@)) && render_count(children_in(blocks@), root) <= usize::MAX,
    ensures
        if is_markdown_name(format@) {
            r matches Ok(res) && exported_as(res, children_in(blocks@), root)
        } else {
            r matches Err(e) && e matches AppError::BadRequest(msg) && msg@ == unsupported_message(
                "不支持的目标格式: '"@,
                format@,
            )
        },
{
    let children_map = children_map_of(blocks);
    let serializer = match get_serializer(format) {
        Ok(s) => s,
        Err(e) => {
            return Err(e);
        },
    };
    let result = match serializer.serialize(&root, &children_map) {
        Ok(res) => res,
        Err(e) => {
            return Err(e);
        },
    };
    Ok(
        ExportResult {
            content: result.content,
            filename: result.filename,
            blocks_exported: result.blocks_exported,
            lossy_types: result.lossy_types,
        },
    )
}

/// Exports document `doc_id` (`root`, `None` when missing or deleted) in
/// `format`, given all its descendants.
pub fn export_text(root: Option<Block>, doc_id: &str, descendants: Vec<Block>, format: &str) -> (r: Result<
    ExportResult,
    AppError,
>)
    requires
        root matches Some(rt) ==> acyclic(children_in(descendants@)) && render_count(children_in(descendants@), rt)
            <= usize::MAX,
    ensures
        match root {
            None => r matches Err(e) && e matches AppError::NotFound(msg) && msg@ == missing_document_message(doc_id@),
            Some(rt) => if !is_markdown_name(format@) {
                r matches Err(e) && e matches AppError::BadRequest(msg) && msg@ == unsupported_message(
                    "不支持的目标格式: '"@,
                    format@,
                )
            } else {
                r matches Ok(res) && exported_as(res, children_in(descendants@), rt)
            },
        },
{
    match root {
        Some(b) => export_tree(b, descendants, format),
        None => {
            let mut msg = "文档 ".to_owned();
            push_str(&mut msg, doc_id);
            push_str(&mut msg, " 不存在或已删除");
            Err(AppError::NotFound(msg))
        },
    }
}

/// Exports the subtree of block `block_id` (`root`, `None` when missing or
/// deleted) in `format`, given the blocks under it that the export depth
/// takes (its children, or all its descendants).
pub fn export_block(root: Option<Block>, block_id: &str, blocks: Vec<Block>, format: &str) -> (r: Result<
    ExportResult,
    AppError,
>)
    requires
        root matches Some(rt) ==> acyclic(children_in(blocks@)) && render_count(children_in(blocks@), rt)
            <= usize::MAX,
    ensures
        match root {
            None => r matches Err(e) && e matches AppError::NotFound(msg) && msg@ == missing_block_message(block_id@),
            Some(rt) => if !is_markdown_name(format@) {
                r matches Err(e) && e matches AppError::BadRequest(msg) && msg@ == unsupported_message(
                    "不支持的目标格式: '"@,
                    format@,
                )
            } else {
                r matches Ok(res) && exported_as(res, children_in(blocks@), rt)
            },
        },
{
    match root {
        Some(b) => export_tree(b, blocks, format),
        None => {
            let mut msg = "Block ".to_owned();
            push_str(&mut msg, block_id);
            push_str(&mut msg, " 不存在或已删除");
            Err(AppError::NotFound(msg))
        },
    }
}

} // verus!
