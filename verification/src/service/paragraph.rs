//! Paragraph operations: splitting a block in two at the cursor, and merging
//! a block into the one before it.

use vstd::prelude::*;
use crate::api::request::{MergeReq, SplitReq};
use crate::api::response::{MergeResult, SplitResult};
use crate::error::AppError;
use crate::model::{copy_block, generate_block_id, now_iso, same_block, Block, BlockStatus, BlockType, ROOT_ID};
use crate::service::block::{move_position, move_position_of, delete_row, document_of_child, insert_position, insert_position_of, parent_not_child, relocate_row, relocated, sibling_pos, soft_deleted, versions_fit, write_row, written};
use crate::position::{lex_lt, after_spec, between_spec, generate_after, generate_between, generate_first, law_after_keeps_valid, law_between_is_between, law_valid_positions_do_not_underflow, valid_pos};
use crate::service::store::{children_sorted, lemma_max_child_pos, lemma_next_child_least, lemma_next_child_pos, lemma_prev_child_row, lemma_prev_child_row_is, live_child, max_child_pos, next_child_pos, prev_child_row};
use crate::text::{from_utf8_lossy, utf8_lossy};
use crate::service::heading::{group_position, lemma_group_position_valid, missing_block_message};
use crate::service::store::{index_of, lemma_index_of, lemma_index_unique, live_row, row_ok, store_wf, BlockStore};
use crate::text::{push_str, str_eq, string_into_bytes};
use std::collections::HashMap;
use vstd::utf8::{decode_utf8, encode_utf8, valid_utf8};

verus! {

// ─── Split ───────────────────────────────────────────────────────

/// The split asks for the new block to go under the split block.
pub open spec fn nests(req: SplitReq) -> bool {
    req.nest_under_parent == Some(true)
}

/// The parent of the block split off `cur`: `cur` itself when nesting,
/// else `cur`'s parent.
pub open spec fn split_parent(cur: Block, req: SplitReq) -> Seq<char> {
    if nests(req) {
        cur.id@
    } else {
        cur.parent_id@
    }
}

/// The position of the block split off `cur`: first under `cur` when
/// nesting, else right after `cur` (below its next sibling).
pub open spec fn split_position(s: Seq<Block>, cur: Block, req: SplitReq) -> Option<Seq<char>> {
    if nests(req) {
        move_position(s, cur.id@, None, None)
    } else {
        insert_position(s, cur.parent_id@, Some(cur.id@))
    }
}

/// The type of the block split off `cur`: the requested one, else a list
/// item under a live list, else a paragraph.
pub open spec fn split_type(s: Seq<Block>, cur: Block, req: SplitReq) -> BlockType {
    match req.new_block_type {
        Some(t) => t,
        None => if live_row(s, split_parent(cur, req)) matches Some(p) && p.block_type is List {
            BlockType::ListItem
        } else {
            BlockType::Paragraph
        },
    }
}

/// A split that fails whatever identifier the new block gets: the block is
/// missing or deleted, or no position fits right after it.
pub open spec fn split_refused(s: Seq<Block>, id: Seq<char>, req: SplitReq) -> bool {
    live_row(s, id) is None || split_position(s, live_row(s, id)->0, req) is None
}

/// The message for a new row whose identifier is already taken.
pub open spec fn duplicate_new_id_message() -> Seq<char> {
    "插入新 Block 失败: UNIQUE constraint failed: blocks.id"@
}

/// `new_id` is free for the block split off block `id`: no row holds it,
/// and it is not the identifier of the new block's parent.
pub open spec fn fresh_for(s: Seq<Block>, id: Seq<char>, req: SplitReq, new_id: Seq<char>) -> bool {
    index_of(s, new_id) is None && new_id != split_parent(live_row(s, id)->0, req)
}

/// `b` is the block split off `cur` with identifier `new_id` at time `now`:
/// a sibling right after `cur` (or its first child when nesting), holding
/// the text after the cursor.
pub open spec fn split_off(s: Seq<Block>, cur: Block, req: SplitReq, new_id: Seq<char>, now: Seq<char>, b: Block) -> bool {
    &&& b.id@ == new_id
    &&& b.parent_id@ == split_parent(cur, req)
    &&& b.document_id@ == document_of_child(cur)
    &&& b.position@ == split_position(s, cur, req)->0
    &&& b.block_type == split_type(s, cur, req)
    &&& b.content@ == encode_utf8(req.content_after@)
    &&& b.properties@ == Map::<String, String>::empty()
    &&& b.version == 1
    &&& b.status == BlockStatus::Normal
    &&& b.schema_version == 1
    &&& !b.encrypted
    &&& b.created@ == now
    &&& b.modified@ == now
    &&& b.author@ == "system"@
    &&& b.owner_id is None
}

/// What an accepted split does: the block keeps the text before the cursor
/// and a new block after it gets the rest.
pub open spec fn split_applied(s0: Seq<Block>, s1: Seq<Block>, id: Seq<char>, req: SplitReq, new_id: Seq<char>, now: Seq<char>) -> bool {
    let i = index_of(s0, id)->0;
    let cur = s0[i];
    &&& s1.len() == s0.len() + 1
    &&& s1.take(s0.len() as int) == s0.update(i, s1[i])
    &&& written(s1[i], cur, encode_utf8(req.content_before@), cur.properties@, cur.block_type, cur.status, now)
    &&& split_off(s0, cur, req, new_id, now, s1.last())
}

/// Splits block `id` as `split_block` does, giving the new block the
/// identifier `new_id` and both rows the time `now`.
pub fn split_block_with(store: &mut BlockStore, id: &str, req: SplitReq, new_id: String, now: String) -> (r: Result<
    SplitResult,
    AppError,
>)
    requires
        store_wf(old(store)@),
        versions_fit(old(store)@, 1),
    ensures
        store_wf(final(store)@),
        r is Ok <==> !split_refused(old(store)@, id@, req) && fresh_for(old(store)@, id@, req, new_id@),
        r matches Ok(res) ==> split_applied(old(store)@, final(store)@, id@, req, new_id@, now@) && same_block(
            res.updated_block,
            final(store)@[index_of(old(store)@, id@)->0],
        ) && same_block(res.new_block, final(store)@.last()),
        r matches Err(e) ==> final(store)@ == old(store)@ && if live_row(old(store)@, id@) is None {
            e matches AppError::NotFound(m) && m@ == missing_block_message(id@)
        } else if split_refused(old(store)@, id@, req) {
            e is Internal
        } else {
            e matches AppError::Internal(m) && m@ == duplicate_new_id_message()
        },
{
    let ghost s0 = store@;
    let i = match store.find(id) {
        Some(i) => {
            if store.row_at(i).status == BlockStatus::Deleted {
                None
            } else {
                Some(i)
            }
        },
        None => None,
    };
    let i = match i {
        Some(i) => i,
        None => {
            let mut msg = "Block ".to_owned();
            push_str(&mut msg, id);
            push_str(&mut msg, " 不存在或已删除");
            return Err(AppError::NotFound(msg));
        },
    };
    let cur = copy_block(store.row_at(i));
    proof {
        lemma_index_unique(s0, i as int);
        assert(sibling_pos(s0, id@, cur.parent_id@) is Some);
    }
    let nest = match req.nest_under_parent {
        Some(b) => b,
        None => false,
    };
    let parent = if nest {
        cur.id.clone()
    } else {
        cur.parent_id.clone()
    };
    let position = if nest {
        match move_position_of(store, id, None, None) {
            Ok(p) => p,
            Err(e) => {
                return Err(e);
            },
        }
    } else {
        match insert_position_of(store, cur.parent_id.as_str(), Some(id)) {
            Ok(p) => p,
            Err(e) => {
                return Err(e);
            },
        }
    };
    if store.find(new_id.as_str()).is_some() || str_eq(new_id.as_str(), parent.as_str()) {
        return Err(AppError::Internal("插入新 Block 失败: UNIQUE constraint failed: blocks.id".to_owned()));
    }
    let block_type = match req.new_block_type {
        Some(t) => t,
        None => {
            let in_list = match store.find(parent.as_str()) {
                Some(pi) => store.row_at(pi).status != BlockStatus::Deleted && matches!(
                    store.row_at(pi).block_type,
                    BlockType::List { .. }
                ),
                None => false,
            };
            if in_list {
                BlockType::ListItem
            } else {
                BlockType::Paragraph
            }
        },
    };
    proof {
        lemma_index_of(s0, parent@);
        lemma_index_of(s0, new_id@);
    }
    let document_id = if matches!(cur.block_type, BlockType::Document) {
        cur.id.clone()
    } else {
        cur.document_id.clone()
    };
    let props = cur.properties.clone();
    let t = cur.block_type.copy();
    write_row(store, i, string_into_bytes(req.content_before), props, t, cur.status, &now);
    let ghost s_mid = store@;
    proof {
        reveal_strlit("插入新 Block 失败: UNIQUE constraint failed: blocks.id");
        reveal_strlit("system");
        assert forall|k: int| 0 <= k < s_mid.len() implies (#[trigger] s_mid[k]).id@ != new_id@ by {
            if k != i {
                assert(s_mid[k] == s0[k]);
            }
        }
        lemma_index_of(s_mid, new_id@);
    }
    let b = Block {
        id: new_id,
        parent_id: parent,
        document_id,
        position,
        block_type,
        content: string_into_bytes(req.content_after),
        properties: HashMap::new(),
        version: 1,
        status: BlockStatus::Normal,
        schema_version: 1,
        encrypted: false,
        created: now.clone(),
        modified: now,
        author: "system".to_owned(),
        owner_id: None,
    };
    let nb = copy_block(&b);
    store.push_row(b);
    proof {
        assert(store@.take(s0.len() as int) =~= s_mid);
        assert(store@[i as int] == s_mid[i as int]);
    }
    let ub = copy_block(store.row_at(i));
    Ok(SplitResult { updated_block: ub, new_block: nb })
}

/// Splits a block at the cursor: it keeps `content_before`, and a new block
/// right after it, under the same parent, gets `content_after`.
pub fn split_block(store: &mut BlockStore, id: &str, req: SplitReq) -> (r: Result<SplitResult, AppError>)
    requires
        store_wf(old(store)@),
        versions_fit(old(store)@, 1),
    ensures
        store_wf(final(store)@),
        split_refused(old(store)@, id@, req) ==> r is Err,
        r matches Ok(res) ==> split_applied(old(store)@, final(store)@, id@, req, res.new_block.id@, res.new_block.created@)
            && same_block(res.updated_block, final(store)@[index_of(old(store)@, id@)->0]) && same_block(
            res.new_block,
            final(store)@.last(),
        ),
        r matches Err(e) ==> final(store)@ == old(store)@ && if live_row(old(store)@, id@) is None {
            e matches AppError::NotFound(m) && m@ == missing_block_message(id@)
        } else if split_refused(old(store)@, id@, req) {
            e is Internal
        } else {
            e matches AppError::Internal(m) && m@ == duplicate_new_id_message()
        },
{
    let new_id = generate_block_id();
    let now = now_iso();
    split_block_with(store, id, req, new_id, now)
}

// ─── Merge ───────────────────────────────────────────────────────

/// The block a merge of block `id` goes into, and whether that is its
/// parent: the live sibling right before it, else its parent when that is
/// live and not the global root.
pub open spec fn merge_target(s: Seq<Block>, id: Seq<char>) -> Option<(int, bool)> {
    let cur = live_row(s, id)->0;
    match prev_child_row(s, cur.parent_id@, cur.position@) {
        Some(k) => Some((k, false)),
        None => if cur.parent_id@ != ROOT_ID@ && live_row(s, cur.parent_id@) is Some {
            Some((index_of(s, cur.parent_id@)->0, true))
        } else {
            None
        },
    }
}

/// The row a merge of block `id` goes into (see `merge_target`).
pub open spec fn merge_row(s: Seq<Block>, id: Seq<char>) -> int {
    let (k, _) = merge_target(s, id)->0;
    k
}

/// The position the first child of a merged block takes under the block it
/// merges into: right after the merged block when that is the parent, below
/// the next sibling if any; else after the last child of the target, or
/// first. `None` when no position fits.
pub open spec fn merge_first_pos(s: Seq<Block>, id: Seq<char>) -> Option<Seq<char>> {
    let cur = live_row(s, id)->0;
    let (k, into_parent) = merge_target(s, id)->0;
    if into_parent {
        match next_child_pos(s, cur.parent_id@, cur.position@) {
            Some(b) => between_spec(cur.position@, b),
            None => Some(after_spec(cur.position@)),
        }
    } else {
        match max_child_pos(s, s[k].id@) {
            Some(m) => Some(after_spec(m)),
            None => Some(seq!['a', '0']),
        }
    }
}

/// A merge that fails: the block is missing or deleted, is the global root,
/// has nothing to merge into, would merge into a list, or has children and
/// no position fits for them.
pub open spec fn merge_refused(s: Seq<Block>, id: Seq<char>) -> bool {
    ||| live_row(s, id) is None
    ||| id == ROOT_ID@
    ||| merge_target(s, id) is None
    ||| s[merge_row(s, id)].block_type is List
    ||| (children_sorted(s, id).len() > 0 && merge_first_pos(s, id) is None)
}

/// The error of a refused merge: that of the first check it fails.
pub open spec fn merge_error(s: Seq<Block>, id: Seq<char>, e: AppError) -> bool {
    let cur = live_row(s, id)->0;
    if live_row(s, id) is None {
        e matches AppError::NotFound(m) && m@ == missing_block_message(id)
    } else if id == ROOT_ID@ {
        e matches AppError::BadRequest(m) && m@ == "全局根块不可合并"@
    } else if merge_target(s, id) is None {
        if cur.parent_id@ == ROOT_ID@ {
            e matches AppError::BadRequest(m) && m@ == "Block "@ + id + " 是根块的第一个子块，无法合并"@
        } else {
            e matches AppError::NotFound(m) && m@ == "父块 "@ + cur.parent_id@ + " 不存在"@
        }
    } else if s[merge_row(s, id)].block_type is List {
        e matches AppError::BadRequest(m) && m@
            == "不能合并到 List 容器块。ListItem 在列表首位时应使用“退出列表”操作"@
    } else {
        e is Internal
    }
}

/// What an accepted merge does at time `now`: the target takes its own text
/// followed by that of the block, the live children of the block move under
/// the target in their order, and the block is soft-deleted.
pub open spec fn merge_applied(s0: Seq<Block>, s1: Seq<Block>, id: Seq<char>, now: Seq<char>) -> bool {
    let i = index_of(s0, id)->0;
    let cur = s0[i];
    let k = merge_row(s0, id);
    let tgt = s0[k];
    let cs = children_sorted(s0, id);
    let first = merge_first_pos(s0, id)->0;
    let merged = encode_utf8(utf8_lossy(tgt.content@) + utf8_lossy(cur.content@));
    &&& s1.len() == s0.len()
    &&& written(s1[k], tgt, merged, tgt.properties@, tgt.block_type, tgt.status, now)
    &&& (valid_utf8(tgt.content@) && valid_utf8(cur.content@) ==> merged == encode_utf8(
        decode_utf8(tgt.content@) + decode_utf8(cur.content@),
    ))
    &&& soft_deleted(s1[i], cur, now)
    &&& forall|t: int|
        0 <= t < cs.len() ==> relocated(
            s1[#[trigger] cs[t]],
            s0[cs[t]],
            tgt.id@,
            group_position(first, t as nat),
            document_of_child(tgt),
            now,
        )
    &&& forall|j: int| 0 <= j < s0.len() && j != i && j != k && !cs.contains(j) ==> s1[j] == s0[j]
}

/// `m` positions, the first `first` and each after the one before.
fn positions_from(first: String, m: usize) -> (r: Vec<String>)
    requires
        valid_pos(first@),
    ensures
        r@.len() == m,
        forall|t: int| 0 <= t < m ==> (#[trigger] r@[t])@ == group_position(first@, t as nat) && valid_pos(r@[t]@),
{
    let ghost f = first@;
    let mut r: Vec<String> = Vec::new();
    let mut cur = first;
    while r.len() < m
        invariant
            r@.len() <= m,
            valid_pos(f),
            cur@ == group_position(f, r@.len() as nat),
            forall|t: int| 0 <= t < r@.len() ==> (#[trigger] r@[t])@ == group_position(f, t as nat) && valid_pos(r@[t]@),
        decreases m - r@.len(),
    {
        proof {
            lemma_group_position_valid(f, r@.len() as nat);
        }
        let next = generate_after(cur.as_str());
        r.push(cur);
        cur = next;
    }
    r
}

/// Moves the rows `cs` under `parent`, row `cs[t]` to position `ps[t]`, in
/// `doc`; the other rows stay as they are.
pub(crate) fn relocate_rows(store: &mut BlockStore, cs: &Vec<usize>, parent: &String, ps: &Vec<String>, doc: &String, now: &String)
    requires
        store_wf(old(store)@),
        ps@.len() == cs@.len(),
        forall|t: int|
            0 <= t < cs@.len() ==> (#[trigger] cs@[t]) < old(store)@.len() && old(store)@[cs@[t] as int].version
                < u64::MAX && old(store)@[cs@[t] as int].id@ != parent@,
        forall|t: int, u: int| 0 <= t < u < cs@.len() ==> (#[trigger] cs@[t]) != (#[trigger] cs@[u]),
        forall|t: int| 0 <= t < ps@.len() ==> valid_pos((#[trigger] ps@[t])@),
    ensures
        store_wf(final(store)@),
        final(store)@.len() == old(store)@.len(),
        forall|t: int|
            0 <= t < cs@.len() ==> relocated(
                final(store)@[#[trigger] cs@[t] as int],
                old(store)@[cs@[t] as int],
                parent@,
                ps@[t]@,
                doc@,
                now@,
            ),
        forall|j: int|
            0 <= j < old(store)@.len() && !cs@.map_values(|x: usize| x as int).contains(j) ==> final(store)@[j] == old(
                store,
            )@[j],
{
    let ghost s0 = store@;
    let ghost csv = cs@.map_values(|x: usize| x as int);
    let mut t: usize = 0;
    while t < cs.len()
        invariant
            store_wf(store@),
            store@.len() == s0.len(),
            t <= cs@.len(),
            ps@.len() == cs@.len(),
            csv == cs@.map_values(|x: usize| x as int),
            forall|u: int|
                0 <= u < cs@.len() ==> (#[trigger] cs@[u]) < s0.len() && s0[cs@[u] as int].version < u64::MAX
                    && s0[cs@[u] as int].id@ != parent@,
            forall|u: int, w: int| 0 <= u < w < cs@.len() ==> (#[trigger] cs@[u]) != (#[trigger] cs@[w]),
            forall|u: int| 0 <= u < ps@.len() ==> valid_pos((#[trigger] ps@[u])@),
            forall|u: int| 0 <= u < t ==> relocated(store@[#[trigger] csv[u]], s0[csv[u]], parent@, ps@[u]@, doc@, now@),
            forall|j: int| 0 <= j < s0.len() && !(exists|u: int| 0 <= u < t && csv[u] == j) ==> #[trigger] store@[j] == s0[j],
        decreases cs@.len() - t,
    {
        let k = cs[t];
        assert(csv[t as int] == k);
        assert(store@[k as int] == s0[k as int]) by {
            if exists|u: int| 0 <= u < t && csv[u] == k {
                let u = choose|u: int| 0 <= u < t && csv[u] == k;
                assert(cs@[u] == cs@[t as int]);
            }
        }
        relocate_row(store, k, parent.clone(), ps[t].clone(), doc.clone(), now);
        proof {
            assert forall|u: int| 0 <= u < t + 1 implies relocated(store@[#[trigger] csv[u]], s0[csv[u]], parent@, ps@[u]@, doc@, now@) by {
                if u < t {
                    assert(cs@[u] != cs@[t as int]);
                }
            }
            assert forall|j: int| 0 <= j < s0.len() && !(exists|u: int| 0 <= u < t + 1 && csv[u] == j) implies #[trigger] store@[j] == s0[j] by {
                assert(j != k);
                assert(!(exists|u: int| 0 <= u < t && csv[u] == j)) by {
                    if exists|u: int| 0 <= u < t && csv[u] == j {
                        let u = choose|u: int| 0 <= u < t && csv[u] == j;
                        assert(0 <= u < t + 1 && csv[u] == j);
                    }
                }
            }
        }
        t += 1;
    }
    proof {
        assert forall|u: int| 0 <= u < cs@.len() implies relocated(
            store@[#[trigger] cs@[u] as int],
            s0[cs@[u] as int],
            parent@,
            ps@[u]@,
            doc@,
            now@,
        ) by {
            assert(csv[u] == cs@[u] as int);
        }
        assert forall|j: int| 0 <= j < s0.len() && !csv.contains(j) implies store@[j] == s0[j] by {
            if exists|u: int| 0 <= u < cs@.len() && csv[u] == j {
                let u = choose|u: int| 0 <= u < cs@.len() && csv[u] == j;
                assert(csv.contains(j));
            }
        }
    }
}

/// Merges block `id` as `merge_block` does, at time `now`.
pub fn merge_block_at(store: &mut BlockStore, id: &str, req: MergeReq, now: String) -> (r: Result<MergeResult, AppError>)
    requires
        store_wf(old(store)@),
        versions_fit(old(store)@, 1),
        id@ != ROOT_ID@ ==> parent_not_child(old(store)@, id@),
    ensures
        store_wf(final(store)@),
        r is Ok <==> !merge_refused(old(store)@, id@),
        r matches Ok(res) ==> merge_applied(old(store)@, final(store)@, id@, now@) && res.deleted_block_id@ == id@
            && same_block(res.merged_block, final(store)@[merge_row(old(store)@, id@)]),
        r matches Err(e) ==> final(store)@ == old(store)@ && merge_error(old(store)@, id@, e),
{
    let ghost s0 = store@;
    proof {
        reveal_strlit("/");
        reveal_strlit("全局根块不可合并");
        reveal_strlit("不能合并到 List 容器块。ListItem 在列表首位时应使用“退出列表”操作");
    }
    let i = match store.find(id) {
        Some(i) => {
            if store.row_at(i).status == BlockStatus::Deleted {
                None
            } else {
                Some(i)
            }
        },
        None => None,
    };
    let i = match i {
        Some(i) => i,
        None => {
            let mut msg = "Block ".to_owned();
            push_str(&mut msg, id);
            push_str(&mut msg, " 不存在或已删除");
            return Err(AppError::NotFound(msg));
        },
    };
    if str_eq(id, ROOT_ID) {
        return Err(AppError::BadRequest("全局根块不可合并".to_owned()));
    }
    let cur = copy_block(store.row_at(i));
    proof {
        lemma_index_unique(s0, i as int);
        lemma_prev_child_row(s0, cur.parent_id@, cur.position@);
        lemma_index_of(s0, cur.parent_id@);
        assert(row_ok(s0[i as int]));
    }
    let (k, into_parent) = match store.prev_child_index(cur.parent_id.as_str(), cur.position.as_str()) {
        Some(k) => (k, false),
        None => {
            if str_eq(cur.parent_id.as_str(), ROOT_ID) {
                let mut msg = "Block ".to_owned();
                push_str(&mut msg, id);
                push_str(&mut msg, " 是根块的第一个子块，无法合并");
                return Err(AppError::BadRequest(msg));
            }
            let pk = match store.find(cur.parent_id.as_str()) {
                Some(pi) => {
                    if store.row_at(pi).status == BlockStatus::Deleted {
                        None
                    } else {
                        Some(pi)
                    }
                },
                None => None,
            };
            match pk {
                Some(pi) => (pi, true),
                None => {
                    let mut msg = "父块 ".to_owned();
                    push_str(&mut msg, cur.parent_id.as_str());
                    push_str(&mut msg, " 不存在");
                    return Err(AppError::NotFound(msg));
                },
            }
        },
    };
    assert(merge_target(s0, id@) == Some((k as int, into_parent)));
    let tgt = copy_block(store.row_at(k));
    if matches!(tgt.block_type, BlockType::List { .. }) {
        return Err(AppError::BadRequest(
            "不能合并到 List 容器块。ListItem 在列表首位时应使用“退出列表”操作".to_owned(),
        ));
    }
    proof {
        assert(k != i) by {
            if !into_parent {
                assert(live_child(s0[k as int], cur.parent_id@));
            }
        }
    }
    let cs = store.sorted_children(id);
    let ghost csv = cs@.map_values(|x: usize| x as int);
    let mut ps: Vec<String> = Vec::new();
    if cs.len() > 0 {
        let first = if into_parent {
            proof {
                lemma_next_child_pos(s0, cur.parent_id@, cur.position@);
            }
            match store.next_child_position(cur.parent_id.as_str(), cur.position.as_str()) {
                Some(b) => {
                    proof {
                        law_valid_positions_do_not_underflow(cur.position@, b@);
                    }
                    match generate_between(cur.position.as_str(), b.as_str()) {
                        Ok(x) => {
                            proof {
                                law_between_is_between(cur.position@, b@);
                            }
                            x
                        },
                        Err(e) => {
                            return Err(e);
                        },
                    }
                },
                None => {
                    proof {
                        law_after_keeps_valid(cur.position@);
                    }
                    generate_after(cur.position.as_str())
                },
            }
        } else {
            proof {
                lemma_max_child_pos(s0, tgt.id@);
            }
            match store.max_child_position(tgt.id.as_str()) {
                Some(m) => {
                    proof {
                        law_after_keeps_valid(m@);
                    }
                    generate_after(m.as_str())
                },
                None => {
                    let f = generate_first();
                    assert(valid_pos(f@)) by {
                        crate::position::lemma_alpha_char(10);
                        crate::position::lemma_alpha_char(0);
                    }
                    f
                },
            }
        };
        assert(merge_first_pos(s0, id@) == Some(first@));
        ps = positions_from(first, cs.len());
    }
    let doc = if matches!(tgt.block_type, BlockType::Document) {
        tgt.id.clone()
    } else {
        tgt.document_id.clone()
    };
    let mut merged = from_utf8_lossy(tgt.content.as_slice());
    let tail = from_utf8_lossy(cur.content.as_slice());
    push_str(&mut merged, tail.as_str());
    write_row(store, k, string_into_bytes(merged), tgt.properties.clone(), tgt.block_type.copy(), tgt.status, &now);
    let ghost s_w = store@;
    proof {
        assert forall|t: int| 0 <= t < cs@.len() implies (#[trigger] cs@[t]) < s_w.len() && s_w[cs@[t] as int].version
            < u64::MAX && s_w[cs@[t] as int].id@ != tgt.id@ by {
            assert(live_child(s0[cs@[t] as int], id@));
            assert(cs@[t] as int != k) by {
                if into_parent {
                    assert(s0[cs@[t] as int].id@ != live_row(s0, id@)->0.parent_id@);
                } else {
                    assert(row_ok(s0[i as int]));
                }
            }
            assert(s_w[cs@[t] as int] == s0[cs@[t] as int]);
        }
    }
    relocate_rows(store, &cs, &tgt.id, &ps, &doc, &now);
    let ghost s_r = store@;
    proof {
        assert(!csv.contains(i as int)) by {
            if csv.contains(i as int) {
                let u = choose|u: int| 0 <= u < csv.len() && csv[u] == i as int;
                assert(live_child(s0[cs@[u] as int], id@));
            }
        }
        assert(s_r[i as int] == s0[i as int]);
    }
    delete_row(store, i, &now);
    proof {
        assert(!csv.contains(k as int)) by {
            if csv.contains(k as int) {
                let u = choose|u: int| 0 <= u < csv.len() && csv[u] == k as int;
                assert(cs@[u] as int == k as int);
            }
        }
        assert forall|t: int| 0 <= t < csv.len() implies relocated(
            store@[#[trigger] csv[t]],
            s0[csv[t]],
            tgt.id@,
            group_position(merge_first_pos(s0, id@)->0, t as nat),
            document_of_child(tgt),
            now@,
        ) by {
            assert(csv[t] == cs@[t] as int);
            assert(csv[t] != i as int);
        }
        assert(merge_applied(s0, store@, id@, now@));
    }
    let merged_block = copy_block(store.row_at(k));
    Ok(MergeResult { merged_block, deleted_block_id: id.to_owned() })
}

/// Merges a block into the live sibling before it, or into its parent when
/// it comes first: the target takes its text at the end, its live children
/// move under the target, and the block is soft-deleted.
pub fn merge_block(store: &mut BlockStore, id: &str, req: MergeReq) -> (r: Result<MergeResult, AppError>)
    requires
        store_wf(old(store)@),
        versions_fit(old(store)@, 1),
        id@ != ROOT_ID@ ==> parent_not_child(old(store)@, id@),
    ensures
        store_wf(final(store)@),
        r is Ok <==> !merge_refused(old(store)@, id@),
        r matches Ok(res) ==> (exists|now: Seq<char>| merge_applied(old(store)@, final(store)@, id@, now))
            && res.deleted_block_id@ == id@ && same_block(res.merged_block, final(store)@[merge_row(old(store)@, id@)]),
        r matches Err(e) ==> final(store)@ == old(store)@ && merge_error(old(store)@, id@, e),
{
    let now = now_iso();
    merge_block_at(store, id, req, now)
}

// ─── Split, then merge ───────────────────────────────────────────

/// Merging the block split off a block (placed after it, not nested under
/// it) gives the block back its whole text: the merge goes into the block
/// that was split, which then holds the
/// text before the cursor followed by the text after it. (This needs the
/// block's position to be its own among its siblings; positions the
/// library generates always are.)
pub proof fn law_merge_undoes_split(
    s0: Seq<Block>,
    s1: Seq<Block>,
    s2: Seq<Block>,
    id: Seq<char>,
    req: SplitReq,
    new_id: Seq<char>,
    t1: Seq<char>,
    t2: Seq<char>,
)
    requires
        store_wf(s0),
        store_wf(s1),
        live_row(s0, id) is Some,
        forall|k: int|
            0 <= k < s0.len() && k != index_of(s0, id)->0 && live_child(#[trigger] s0[k], live_row(s0, id)->0.parent_id@)
                ==> s0[k].position@ != live_row(s0, id)->0.position@,
        !nests(req),
        !split_refused(s0, id, req),
        split_applied(s0, s1, id, req, new_id, t1),
        merge_applied(s1, s2, new_id, t2),
    ensures
        merge_target(s1, new_id) == Some((index_of(s0, id)->0, false)),
        s2[index_of(s0, id)->0].content@ == encode_utf8(req.content_before@ + req.content_after@),
{
    lemma_index_of(s0, id);
    let i = index_of(s0, id)->0;
    let cur = s0[i];
    let p = cur.parent_id@;
    let n = s0.len() as int;
    let nb = s1[n];
    assert(s1.last() == nb);
    assert(s1.take(n) == s0.update(i, s1[i]));
    assert forall|k: int| 0 <= k < n && k != i implies #[trigger] s1[k] == s0[k] by {
        assert(s1[k] == s1.take(n)[k]);
    }
    assert(s1[i] == s1.take(n)[i]);
    // The new block is live under the same parent, right after the split one.
    lemma_index_unique(s1, n);
    assert(live_row(s1, new_id) == Some(nb));
    assert(sibling_pos(s0, id, p) == Some(cur.position@));
    lemma_next_child_pos(s0, p, cur.position@);
    lemma_next_child_least(s0, p, cur.position@);
    let np = nb.position@;
    match next_child_pos(s0, p, cur.position@) {
        Some(nx) => {
            law_valid_positions_do_not_underflow(cur.position@, nx);
            law_between_is_between(cur.position@, nx);
        },
        None => {
            crate::position::law_after_is_greater(cur.position@);
        },
    }
    assert(lex_lt(cur.position@, np));
    // The split block is the previous sibling of the new one.
    assert forall|k: int|
        0 <= k < s1.len() && k != i && live_child(#[trigger] s1[k], p) && lex_lt(s1[k].position@, np) implies lex_lt(
        s1[k].position@,
        s1[i].position@,
    ) by {
        crate::position::lemma_lex_lt_total(np, np);
        if k < n {
            assert(s1[k] == s0[k]);
            assert(s0[k].position@ != cur.position@);
            crate::position::lemma_lex_lt_total(s0[k].position@, cur.position@);
            if lex_lt(cur.position@, s0[k].position@) {
                match next_child_pos(s0, p, cur.position@) {
                    Some(nx) => {
                        assert(!lex_lt(s0[k].position@, nx));
                        crate::position::lemma_lex_lt_total(s0[k].position@, nx);
                        if s0[k].position@ != nx {
                            crate::position::lemma_lex_lt_transitive(np, nx, s0[k].position@);
                        }
                        crate::position::lemma_lex_lt_total(s0[k].position@, np);
                    },
                    None => {},
                }
            }
        }
    }
    assert(live_child(s1[i], p));
    lemma_prev_child_row_is(s1, p, np, i);
    assert(merge_target(s1, new_id) == Some((i, false)));
    // The text: each part was written as UTF-8, so it decodes back.
    crate::text::lemma_lossy_of_encoded(req.content_before@);
    crate::text::lemma_lossy_of_encoded(req.content_after@);
}

} // verus!
