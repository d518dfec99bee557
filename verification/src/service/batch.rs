//! Batches: up to 50 block operations applied in order, each independently;
//! a create may name a temporary identifier that later operations use.

use vstd::prelude::*;
use crate::api::request::{BatchOp, BatchReq, UpdateBlockReq};
use crate::api::response::{BatchOpResult, BatchResult};
use crate::error::AppError;
use crate::model::{copy_block, generate_block_id, now_iso, same_block, Block, BlockStatus, BlockType, ROOT_ID};
use crate::service::outline::{document_rebuilt, lemma_document_rebuilt_versions, rebuild_document};
use crate::service::block::{relink_position, relocate_row, unreadable_parent_message, delete_tree_at, document_of_child, insert_position, insert_position_of, missing_parent_message, move_position, not_child_message, opt_id, relink_fail_error, relink_fails, relocated, sibling_pos, tree_delete_refused, tree_deleted, update_block_at, updated_properties, validate_on_create, versions_fit, written};
use crate::service::heading::{bad_heading_level, heading_level_message, missing_block_message};
use crate::service::store::{index_of, lemma_index_of, lemma_index_same_ids, lemma_index_unique, live_row, store_wf, BlockStore};
use crate::text::{push_str, str_eq, string_into_bytes};
use std::collections::HashMap;
use vstd::utf8::encode_utf8;

verus! {

// ─── Temporary identifiers ───────────────────────────────────────

/// The map the pairs stand for: each temporary identifier to its real one
/// (a later pair wins).
pub open spec fn pairs_map(v: Seq<(String, String)>) -> Map<Seq<char>, Seq<char>>
    decreases v.len(),
{
    if v.len() == 0 {
        Map::empty()
    } else {
        pairs_map(v.drop_last()).insert(v.last().0@, v.last().1@)
    }
}

/// No temporary identifier occurs twice.
pub open spec fn keys_unique(v: Seq<(String, String)>) -> bool {
    forall|i: int, j: int| 0 <= i < j < v.len() ==> (#[trigger] v[i]).0@ != (#[trigger] v[j]).0@
}

/// The keys of the map are those of the pairs, and with no key twice each
/// pair's value is the map's.
pub proof fn lemma_pairs_map(v: Seq<(String, String)>)
    ensures
        forall|k: Seq<char>| #[trigger] pairs_map(v).contains_key(k) <==> exists|j: int| 0 <= j < v.len() && v[j].0@ == k,
        keys_unique(v) ==> forall|j: int| 0 <= j < v.len() ==> #[trigger] pairs_map(v)[v[j].0@] == v[j].1@,
    decreases v.len(),
{
    if v.len() > 0 {
        let d = v.drop_last();
        let n = v.len() - 1;
        lemma_pairs_map(d);
        assert(v[n] == v.last());
        assert forall|k: Seq<char>| #[trigger] pairs_map(v).contains_key(k) <==> exists|j: int| 0 <= j < v.len() && v[j].0@ == k by {
            if k == v[n].0@ {
                assert(0 <= n < v.len() && v[n].0@ == k);
            } else {
                if pairs_map(d).contains_key(k) {
                    let j = choose|j: int| 0 <= j < d.len() && d[j].0@ == k;
                    assert(v[j] == d[j]);
                }
                if exists|j: int| 0 <= j < v.len() && v[j].0@ == k {
                    let j = choose|j: int| 0 <= j < v.len() && v[j].0@ == k;
                    assert(j != n);
                    assert(v[j] == d[j]);
                    assert(pairs_map(d).contains_key(k));
                }
            }
        }
        if keys_unique(v) {
            assert forall|i: int, j: int| 0 <= i < j < d.len() implies (#[trigger] d[i]).0@ != (#[trigger] d[j]).0@ by {
                assert(d[i] == v[i] && d[j] == v[j]);
            }
            assert forall|j: int| 0 <= j < v.len() implies #[trigger] pairs_map(v)[v[j].0@] == v[j].1@ by {
                if j < n {
                    assert(v[j] == d[j]);
                    assert(v[j].0@ != v[n].0@);
                    assert(pairs_map(d)[d[j].0@] == d[j].1@);
                }
            }
        }
    }
}

/// An identifier read through the map: the real one for a temporary
/// identifier, else itself.
pub open spec fn resolve(m: Map<Seq<char>, Seq<char>>, x: Seq<char>) -> Seq<char> {
    if m.contains_key(x) {
        m[x]
    } else {
        x
    }
}

/// An optional identifier read through the map.
pub open spec fn resolve_opt(m: Map<Seq<char>, Seq<char>>, x: Option<String>) -> Option<Seq<char>> {
    match x {
        Some(v) => Some(resolve(m, v@)),
        None => None,
    }
}

/// Reads `x` through the pairs (see `resolve`).
fn resolve_id(pairs: &Vec<(String, String)>, x: &str) -> (r: String)
    requires
        keys_unique(pairs@),
    ensures
        r@ == resolve(pairs_map(pairs@), x@),
{
    proof {
        lemma_pairs_map(pairs@);
    }
    let mut j: usize = 0;
    while j < pairs.len()
        invariant
            keys_unique(pairs@),
            j <= pairs@.len(),
            forall|u: int| 0 <= u < j ==> (#[trigger] pairs@[u]).0@ != x@,
        decreases pairs@.len() - j,
    {
        if str_eq(pairs[j].0.as_str(), x) {
            proof {
                lemma_pairs_map(pairs@);
                assert(pairs_map(pairs@)[pairs@[j as int].0@] == pairs@[j as int].1@);
            }
            return pairs[j].1.clone();
        }
        j += 1;
    }
    x.to_owned()
}

/// Reads an optional identifier through the pairs.
fn resolve_opt_id(pairs: &Vec<(String, String)>, x: &Option<String>) -> (r: Option<String>)
    requires
        keys_unique(pairs@),
    ensures
        opt_id(r) == resolve_opt(pairs_map(pairs@), *x),
{
    match x {
        Some(v) => Some(resolve_id(pairs, v.as_str())),
        None => None,
    }
}

/// Records that temporary identifier `k` stands for `v`.
fn record_pair(pairs: &mut Vec<(String, String)>, k: String, v: String)
    requires
        keys_unique(old(pairs)@),
    ensures
        keys_unique(final(pairs)@),
        pairs_map(final(pairs)@) == pairs_map(old(pairs)@).insert(k@, v@),
{
    let ghost p0 = pairs@;
    proof {
        lemma_pairs_map(p0);
    }
    let mut j: usize = 0;
    while j < pairs.len()
        invariant
            pairs@ == p0,
            old(pairs)@ == p0,
            keys_unique(p0),
            j <= p0.len(),
            forall|u: int| 0 <= u < j ==> (#[trigger] p0[u]).0@ != k@,
        decreases p0.len() - j,
    {
        if str_eq(pairs[j].0.as_str(), k.as_str()) {
            pairs.set(j, (k, v));
            let ghost p1 = pairs@;
            proof {
                lemma_pairs_map(p0);
                assert forall|a: int, b: int| 0 <= a < b < p1.len() implies (#[trigger] p1[a]).0@ != (#[trigger] p1[b]).0@ by {
                    assert(p0[a].0@ != p0[b].0@);
                }
                lemma_pairs_map(p1);
                assert(p1[j as int].0@ == k@);
                assert(p0[j as int].0@ == k@);
                assert forall|key: Seq<char>| #[trigger] pairs_map(p1).contains_key(key) <==> pairs_map(p0).insert(
                    k@,
                    v@,
                ).contains_key(key) by {
                    if pairs_map(p1).contains_key(key) {
                        let u = choose|u: int| 0 <= u < p1.len() && p1[u].0@ == key;
                        if u != j {
                            assert(p1[u] == p0[u]);
                            assert(pairs_map(p0).contains_key(key));
                        }
                    }
                    if pairs_map(p0).contains_key(key) {
                        let u = choose|u: int| 0 <= u < p0.len() && p0[u].0@ == key;
                        if u != j {
                            assert(p1[u] == p0[u]);
                        }
                        assert(p1[u].0@ == key);
                        assert(pairs_map(p1).contains_key(key));
                    }
                    if key == k@ {
                        assert(pairs_map(p1).contains_key(key));
                    }
                }
                assert forall|key: Seq<char>| #[trigger] pairs_map(p1).contains_key(key) implies pairs_map(p1)[key]
                    == pairs_map(p0).insert(k@, v@)[key] by {
                    let u = choose|u: int| 0 <= u < p1.len() && p1[u].0@ == key;
                    assert(pairs_map(p1)[p1[u].0@] == p1[u].1@);
                    if u != j {
                        assert(p1[u] == p0[u]);
                        assert(p0[u].0@ != p0[j as int].0@);
                        assert(pairs_map(p0)[p0[u].0@] == p0[u].1@);
                    }
                }
                assert(pairs_map(p1) =~= pairs_map(p0).insert(k@, v@));
            }
            return;
        }
        j += 1;
    }
    pairs.push((k, v));
    proof {
        let p1 = pairs@;
        assert(p1.drop_last() =~= p0);
        assert forall|a: int, b: int| 0 <= a < b < p1.len() implies (#[trigger] p1[a]).0@ != (#[trigger] p1[b]).0@ by {
            if b < p0.len() {
                assert(p1[a] == p0[a] && p1[b] == p0[b]);
            } else {
                assert(p1[a] == p0[a]);
            }
        }
    }
}

// ─── Create ──────────────────────────────────────────────────────

/// A batch create under `p` that fails whatever identifier it gets: a bad
/// heading level, a parent missing or deleted, an anchor that is not a live
/// child of the parent, or no position between neighbours. (Unlike a single
/// create, a batch create does not check the list rules.)
pub open spec fn batch_create_refused(s: Seq<Block>, p: Seq<char>, bt: BlockType, after: Option<Seq<char>>) -> bool {
    ||| bad_heading_level(bt)
    ||| live_row(s, p) is None
    ||| (after matches Some(a) && sibling_pos(s, a, p) is None)
    ||| insert_position(s, p, after) is None
}

/// The error of a refused batch create: that of the first check it fails.
pub open spec fn batch_create_error(s: Seq<Block>, p: Seq<char>, bt: BlockType, after: Option<Seq<char>>, e: AppError) -> bool {
    if bad_heading_level(bt) {
        e matches AppError::BadRequest(m) && m@ == heading_level_message(bt)
    } else if live_row(s, p) is None {
        e matches AppError::BadRequest(m) && m@ == missing_parent_message(p)
    } else if after is Some && sibling_pos(s, after->Some_0, p) is None {
        e matches AppError::BadRequest(m) && m@ == not_child_message(after->Some_0, p)
    } else {
        e is Internal
    }
}

/// The message for a batch-created row whose identifier is already taken.
pub open spec fn batch_duplicate_message() -> Seq<char> {
    "批量创建 Block 失败: UNIQUE constraint failed: blocks.id"@
}

/// `b` is the block a batch create makes under `p` with identifier `id` at
/// time `now`.
pub open spec fn batch_created(
    s: Seq<Block>,
    p: Seq<char>,
    bt: BlockType,
    content: Seq<char>,
    props: Map<String, String>,
    after: Option<Seq<char>>,
    id: Seq<char>,
    now: Seq<char>,
    b: Block,
) -> bool {
    &&& b.id@ == id
    &&& b.parent_id@ == p
    &&& b.document_id@ == document_of_child(live_row(s, p)->0)
    &&& b.position@ == insert_position(s, p, after)->0
    &&& b.block_type == bt
    &&& b.content@ == encode_utf8(content)
    &&& b.properties@ == props
    &&& b.version == 1
    &&& b.status == BlockStatus::Normal
    &&& b.schema_version == 1
    &&& !b.encrypted
    &&& b.created@ == now
    &&& b.modified@ == now
    &&& b.author@ == "system"@
    &&& b.owner_id is None
}

/// Creates a block for a batch, with identifier `id` at time `now`.
fn batch_create_at(
    store: &mut BlockStore,
    parent: String,
    bt: BlockType,
    content: String,
    props: HashMap<String, String>,
    after: Option<String>,
    id: String,
    now: String,
) -> (r: Result<Block, AppError>)
    requires
        store_wf(old(store)@),
    ensures
        store_wf(final(store)@),
        r is Ok <==> !batch_create_refused(old(store)@, parent@, bt, opt_id(after)) && index_of(old(store)@, id@) is None,
        r matches Ok(b) ==> final(store)@ == old(store)@.push(final(store)@.last()) && same_block(b, final(store)@.last())
            && batch_created(old(store)@, parent@, bt, content@, props@, opt_id(after), id@, now@, b),
        r matches Err(e) ==> final(store)@ == old(store)@ && (if batch_create_refused(old(store)@, parent@, bt, opt_id(after)) {
            batch_create_error(old(store)@, parent@, bt, opt_id(after), e)
        } else {
            e matches AppError::Internal(m) && m@ == batch_duplicate_message()
        }),
{
    let ghost s = store@;
    if let Err(e) = validate_on_create(&bt) {
        return Err(e);
    }
    let pi = match store.find(parent.as_str()) {
        Some(i) => {
            if store.row_at(i).status != BlockStatus::Deleted {
                Some(i)
            } else {
                None
            }
        },
        None => None,
    };
    let pi = match pi {
        Some(i) => i,
        None => {
            let mut msg = "父块 ".to_owned();
            push_str(&mut msg, parent.as_str());
            push_str(&mut msg, " 不存在或已删除");
            return Err(AppError::BadRequest(msg));
        },
    };
    let document_id = if matches!(store.row_at(pi).block_type, BlockType::Document) {
        store.row_at(pi).id.clone()
    } else {
        store.row_at(pi).document_id.clone()
    };
    let a: Option<&str> = match &after {
        Some(x) => Some(x.as_str()),
        None => None,
    };
    let position = match insert_position_of(store, parent.as_str(), a) {
        Ok(p) => p,
        Err(e) => {
            return Err(e);
        },
    };
    if store.find(id.as_str()).is_some() {
        return Err(AppError::Internal("批量创建 Block 失败: UNIQUE constraint failed: blocks.id".to_owned()));
    }
    proof {
        reveal_strlit("批量创建 Block 失败: UNIQUE constraint failed: blocks.id");
        reveal_strlit("system");
        lemma_index_of(s, parent@);
        lemma_index_of(s, id@);
    }
    let b = Block {
        id,
        parent_id: parent,
        document_id,
        position,
        block_type: bt,
        content: string_into_bytes(content),
        properties: props,
        version: 1,
        status: BlockStatus::Normal,
        schema_version: 1,
        encrypted: false,
        created: now.clone(),
        modified: now,
        author: "system".to_owned(),
        owner_id: None,
    };
    let r = copy_block(&b);
    store.push_row(b);
    Ok(r)
}

// ─── One operation ───────────────────────────────────────────────

/// The content a batch update writes: the new text, else the current one.
pub open spec fn batch_content(cur: Block, content: Option<String>) -> Seq<u8> {
    match content {
        Some(c) => encode_utf8(c@),
        None => cur.content@,
    }
}

/// What one batch operation does, with the temporary identifiers of `m`
/// read through: from store `s` to `s2`, from map `m` to `m2`, with result
/// `r`, a create taking identifier `id`, all at time `now`. A failed
/// operation leaves store and map as they were and reports its error under
/// the identifier it was given.
pub open spec fn batch_step(
    s: Seq<Block>,
    m: Map<Seq<char>, Seq<char>>,
    op: BatchOp,
    id: Seq<char>,
    now: Seq<char>,
    s2: Seq<Block>,
    m2: Map<Seq<char>, Seq<char>>,
    r: BatchOpResult,
) -> bool {
    match op {
        BatchOp::Create { temp_id, parent_id, block_type, content, properties, after_id } => {
            let p = resolve(m, parent_id@);
            let a = resolve_opt(m, after_id);
            let refused = batch_create_refused(s, p, block_type, a);
            &&& r.action@ == "create"@
            &&& if refused || index_of(s, id) is Some {
                &&& s2 == s
                &&& m2 == m
                &&& r.block_id@ == temp_id@
                &&& r.version is None
                &&& r.error matches Some(e) && if refused {
                    batch_create_error(s, p, block_type, a, e)
                } else {
                    e matches AppError::Internal(x) && x@ == batch_duplicate_message()
                }
            } else {
                &&& s2 == s.push(s2.last())
                &&& batch_created(s, p, block_type, content@, properties@, a, id, now, s2.last())
                &&& m2 == m.insert(temp_id@, id)
                &&& r.block_id@ == id
                &&& r.version == Some(1u64)
                &&& r.error is None
            }
        },
        BatchOp::Update { block_id, content, properties, properties_mode } => {
            let bid = resolve(m, block_id@);
            let i = index_of(s, bid)->0;
            let cur = s[i];
            &&& m2 == m
            &&& r.action@ == "update"@
            &&& if live_row(s, bid) is None {
                &&& s2 == s
                &&& r.block_id@ == block_id@
                &&& r.version is None
                &&& r.error matches Some(e) && e matches AppError::NotFound(x) && x@ == missing_block_message(bid)
            } else {
                &&& s2 == s.update(i, s2[i])
                &&& written(
                    s2[i],
                    cur,
                    batch_content(cur, content),
                    updated_properties(cur.properties@, properties, properties_mode),
                    cur.block_type,
                    cur.status,
                    now,
                )
                &&& r.block_id@ == bid
                &&& r.version == Some(s2[i].version)
                &&& r.error is None
            }
        },
        BatchOp::Delete { block_id } => {
            let bid = resolve(m, block_id@);
            &&& m2 == m
            &&& r.action@ == "delete"@
            &&& if tree_delete_refused(s, bid) {
                &&& s2 == s
                &&& r.block_id@ == block_id@
                &&& r.version is None
                &&& r.error matches Some(e) && if bid == ROOT_ID@ {
                    e matches AppError::BadRequest(x) && x@ == "全局根块不可删除"@
                } else {
                    e matches AppError::NotFound(x) && x@ == missing_block_message(bid)
                }
            } else {
                &&& tree_deleted(s, s2, bid, now)
                &&& r.block_id@ == bid
                &&& r.version == Some(s2[index_of(s, bid)->0].version)
                &&& r.error is None
            }
        },
        BatchOp::Move { block_id, target_parent_id, before_id, after_id } => {
            let bid = resolve(m, block_id@);
            &&& m2 == m
            &&& r.action@ == "move"@
            &&& if batch_move_refused(s, m, bid, target_parent_id, before_id, after_id) {
                &&& s2 == s
                &&& r.block_id@ == block_id@
                &&& r.version is None
                &&& r.error matches Some(e) && batch_move_error(s, m, bid, target_parent_id, before_id, after_id, e)
            } else {
                &&& batch_moved(s, s2, m, bid, target_parent_id, before_id, after_id, now)
                &&& r.block_id@ == bid
                &&& r.version == Some(s2[index_of(s, bid)->0].version)
                &&& r.error is None
            }
        },
    }
}

/// The parent a batch move of block `bid` targets: the one named, read
/// through the map, else the block's own.
pub open spec fn batch_move_target(s: Seq<Block>, m: Map<Seq<char>, Seq<char>>, bid: Seq<char>, tp: Option<String>) -> Seq<char> {
    match tp {
        Some(x) => resolve(m, x@),
        None => s[index_of(s, bid)->0].parent_id@,
    }
}

/// The document a heading moves into when a batch move takes it under a
/// new parent in another document (`None` for any other move).
pub open spec fn batch_cross_document(s: Seq<Block>, m: Map<Seq<char>, Seq<char>>, bid: Seq<char>, tp: Option<String>) -> Option<
    Seq<char>,
> {
    let cur = s[index_of(s, bid)->0];
    let t = batch_move_target(s, m, bid, tp);
    let d = document_of_child(live_row(s, t)->0);
    if cur.block_type is Heading && t != cur.parent_id@ && d != cur.document_id@ {
        Some(d)
    } else {
        None
    }
}

/// A batch move that fails: the global root, a block missing or deleted,
/// a relink that fails, or a heading moved into a document that is missing
/// or deleted.
pub open spec fn batch_move_refused(
    s: Seq<Block>,
    m: Map<Seq<char>, Seq<char>>,
    bid: Seq<char>,
    tp: Option<String>,
    before: Option<String>,
    after: Option<String>,
) -> bool {
    ||| bid == ROOT_ID@
    ||| live_row(s, bid) is None
    ||| relink_fails(s, bid, batch_move_target(s, m, bid, tp), resolve_opt(m, before), resolve_opt(m, after))
    ||| (batch_cross_document(s, m, bid, tp) matches Some(d) && live_row(s, d) is None)
}

/// The error of a refused batch move.
pub open spec fn batch_move_error(
    s: Seq<Block>,
    m: Map<Seq<char>, Seq<char>>,
    bid: Seq<char>,
    tp: Option<String>,
    before: Option<String>,
    after: Option<String>,
    e: AppError,
) -> bool {
    if bid == ROOT_ID@ {
        e matches AppError::BadRequest(x) && x@ == "全局根块不可移动"@
    } else if live_row(s, bid) is None {
        e matches AppError::NotFound(x) && x@ == missing_block_message(bid)
    } else if relink_fails(s, bid, batch_move_target(s, m, bid, tp), resolve_opt(m, before), resolve_opt(m, after)) {
        relink_fail_error(s, bid, batch_move_target(s, m, bid, tp), resolve_opt(m, before), resolve_opt(m, after), e)
    } else {
        e matches AppError::Internal(x) && x@ == unreadable_parent_message(batch_cross_document(s, m, bid, tp)->0)
    }
}

/// The block hangs under the target at the move position, its document
/// left as it was.
pub open spec fn batch_relinked(
    s: Seq<Block>,
    s2: Seq<Block>,
    m: Map<Seq<char>, Seq<char>>,
    bid: Seq<char>,
    tp: Option<String>,
    before: Option<String>,
    after: Option<String>,
    now: Seq<char>,
) -> bool {
    let i = index_of(s, bid)->0;
    let t = batch_move_target(s, m, bid, tp);
    &&& s2 == s.update(i, s2[i])
    &&& relocated(
        s2[i],
        s[i],
        t,
        move_position(s, t, resolve_opt(m, before), resolve_opt(m, after))->0,
        s[i].document_id@,
        now,
    )
}

/// What an accepted batch move does at time `now`: the block is relinked,
/// and a heading taken into another document has that document's tree
/// rebuilt.
pub open spec fn batch_moved(
    s: Seq<Block>,
    s2: Seq<Block>,
    m: Map<Seq<char>, Seq<char>>,
    bid: Seq<char>,
    tp: Option<String>,
    before: Option<String>,
    after: Option<String>,
    now: Seq<char>,
) -> bool {
    match batch_cross_document(s, m, bid, tp) {
        None => batch_relinked(s, s2, m, bid, tp, before, after, now),
        Some(d) => exists|mid: Seq<Block>|
            store_wf(mid) && batch_relinked(s, mid, m, bid, tp, before, after, now) && document_rebuilt(mid, s2, d, now),
    }
}

/// Moves block `bid` for a batch, at time `now`, reading the target and the
/// neighbours through the pairs; gives the block's new version.
fn batch_move_at(
    store: &mut BlockStore,
    pairs: &Vec<(String, String)>,
    bid: &str,
    target_parent_id: Option<String>,
    before_id: Option<String>,
    after_id: Option<String>,
    now: String,
) -> (r: Result<u64, AppError>)
    requires
        store_wf(old(store)@),
        versions_fit(old(store)@, 2),
        keys_unique(pairs@),
    ensures
        store_wf(final(store)@),
        r is Ok <==> !batch_move_refused(old(store)@, pairs_map(pairs@), bid@, target_parent_id, before_id, after_id),
        r matches Ok(v) ==> batch_moved(old(store)@, final(store)@, pairs_map(pairs@), bid@, target_parent_id, before_id, after_id, now@)
            && v == final(store)@[index_of(old(store)@, bid@)->0].version,
        r matches Err(e) ==> final(store)@ == old(store)@ && batch_move_error(
            old(store)@,
            pairs_map(pairs@),
            bid@,
            target_parent_id,
            before_id,
            after_id,
            e,
        ),
{
    let ghost s = store@;
    proof {
        reveal_strlit("/");
        reveal_strlit("全局根块不可移动");
    }
    if str_eq(bid, ROOT_ID) {
        return Err(AppError::BadRequest("全局根块不可移动".to_owned()));
    }
    let i = match store.find(bid) {
        Some(i) => {
            if store.row_at(i).status == BlockStatus::Deleted {
                None
            } else {
                Some(i)
            }
        },
        None => None,
    };
    let i = match i {
        Some(i) => i,
        None => {
            let mut msg = "Block ".to_owned();
            push_str(&mut msg, bid);
            push_str(&mut msg, " 不存在或已删除");
            return Err(AppError::NotFound(msg));
        },
    };
    let cur = copy_block(store.row_at(i));
    proof {
        lemma_index_unique(s, i as int);
    }
    let target = match &target_parent_id {
        Some(x) => resolve_id(pairs, x.as_str()),
        None => cur.parent_id.clone(),
    };
    let before = resolve_opt_id(pairs, &before_id);
    let after = resolve_opt_id(pairs, &after_id);
    let pos = match relink_position(store, i, &cur, target.as_str(), &before, &after) {
        Ok(p) => p,
        Err(e) => {
            return Err(e);
        },
    };
    let mut new_doc: Option<String> = None;
    if matches!(cur.block_type, BlockType::Heading { .. }) && !str_eq(target.as_str(), cur.parent_id.as_str()) {
        let ti = store.find(target.as_str()).unwrap();
        let d = if matches!(store.row_at(ti).block_type, BlockType::Document) {
            store.row_at(ti).id.clone()
        } else {
            store.row_at(ti).document_id.clone()
        };
        if !str_eq(d.as_str(), cur.document_id.as_str()) {
            let alive = match store.find(d.as_str()) {
                Some(di) => store.row_at(di).status != BlockStatus::Deleted,
                None => false,
            };
            if !alive {
                let mut msg = "查询 parent ".to_owned();
                push_str(&mut msg, d.as_str());
                push_str(&mut msg, " 失败: Query returned no rows");
                return Err(AppError::Internal(msg));
            }
            new_doc = Some(d);
        }
    }
    assert(opt_id(new_doc) == batch_cross_document(s, pairs_map(pairs@), bid@, target_parent_id));
    relocate_row(store, i, target, pos, cur.document_id.clone(), &now);
    let ghost mid = store@;
    if let Some(d) = new_doc {
        proof {
            lemma_index_same_ids(mid, s, d@);
            lemma_index_of(s, d@);
            assert(versions_fit(mid, 1)) by {
                assert forall|k: int| 0 <= k < mid.len() implies (#[trigger] mid[k]).version + 1 <= u64::MAX by {
                    assert(s[k].version + 2 <= u64::MAX);
                    if k != i {
                        assert(mid[k] == s[k]);
                    }
                }
            }
        }
        let rr = rebuild_document(store, d.as_str(), &now);
        assert(rr is Ok);
    }
    proof {
        lemma_index_unique(s, i as int);
    }
    Ok(store.row_at(i).version)
}

/// Every row of `s` has its version raised by at most two in `s2`, and the
/// rows `s2` adds have version 1.
pub open spec fn bumped(s: Seq<Block>, s2: Seq<Block>) -> bool {
    &&& s.len() <= s2.len()
    &&& forall|k: int| 0 <= k < s.len() ==> (#[trigger] s2[k]).version <= s[k].version + 2
    &&& forall|k: int| s.len() <= k < s2.len() ==> (#[trigger] s2[k]).version == 1
}

/// A batch operation raises each version by at most two.
pub proof fn lemma_step_bumped(
    s: Seq<Block>,
    m: Map<Seq<char>, Seq<char>>,
    op: BatchOp,
    id: Seq<char>,
    now: Seq<char>,
    s2: Seq<Block>,
    m2: Map<Seq<char>, Seq<char>>,
    r: BatchOpResult,
)
    requires
        batch_step(s, m, op, id, now, s2, m2, r),
    ensures
        bumped(s, s2),
{
    match op {
        BatchOp::Create { .. } => {
            if s2.len() == s.len() + 1 {
                assert forall|k: int| 0 <= k < s.len() implies (#[trigger] s2[k]).version <= s[k].version + 1 by {
                    assert(s2[k] == s.push(s2.last())[k]);
                }
                assert(s2[s.len() as int] == s2.last());
            }
        },
        BatchOp::Update { block_id, .. } => {
            let bid = resolve(m, block_id@);
            let i = index_of(s, bid)->0;
            lemma_index_of(s, bid);
            if live_row(s, bid) is Some {
                assert forall|k: int| 0 <= k < s.len() implies (#[trigger] s2[k]).version <= s[k].version + 1 by {
                    if k != i {
                        assert(s2[k] == s.update(i, s2[i])[k]);
                    }
                }
            }
        },
        BatchOp::Delete { .. } => {},
        BatchOp::Move { block_id, target_parent_id, before_id, after_id } => {
            let bid = resolve(m, block_id@);
            let i = index_of(s, bid)->0;
            lemma_index_of(s, bid);
            if !batch_move_refused(s, m, bid, target_parent_id, before_id, after_id) {
                match batch_cross_document(s, m, bid, target_parent_id) {
                    None => {
                        assert forall|k: int| 0 <= k < s.len() implies (#[trigger] s2[k]).version <= s[k].version + 2 by {
                            if k != i {
                                assert(s2[k] == s.update(i, s2[i])[k]);
                            }
                        }
                    },
                    Some(d) => {
                        let mid = choose|mid: Seq<Block>|
                            store_wf(mid) && batch_relinked(s, mid, m, bid, target_parent_id, before_id, after_id, now)
                                && document_rebuilt(mid, s2, d, now);
                        lemma_document_rebuilt_versions(mid, s2, d, now);
                        assert forall|k: int| 0 <= k < s.len() implies (#[trigger] s2[k]).version <= s[k].version + 2 by {
                            assert(s2[k].version <= mid[k].version + 1);
                            if k != i {
                                assert(mid[k] == s.update(i, mid[i])[k]);
                            }
                        }
                    },
                }
            }
        },
    }
}

/// Raising each version by at most two leaves room for two bumps fewer.
pub proof fn lemma_bumped_fit(s: Seq<Block>, s2: Seq<Block>, n: int)
    requires
        bumped(s, s2),
        versions_fit(s, n + 2),
        0 <= n <= 200,
    ensures
        versions_fit(s2, n),
{
    assert forall|k: int| 0 <= k < s2.len() implies (#[trigger] s2[k]).version + n <= u64::MAX by {
        if k < s.len() {
            assert(s[k].version + n + 2 <= u64::MAX);
        }
    }
}

// ─── The batch ───────────────────────────────────────────────────

/// The run of a batch through the stores `states` and maps `maps`: from
/// `s0` and the empty map to `s1` and `m1`, operation `u` taking
/// `states[u]` to `states[u + 1]` with result `results[u]`.
pub open spec fn batch_chain(
    s0: Seq<Block>,
    ops: Seq<BatchOp>,
    ids: Seq<Seq<char>>,
    nows: Seq<Seq<char>>,
    s1: Seq<Block>,
    m1: Map<Seq<char>, Seq<char>>,
    results: Seq<BatchOpResult>,
    states: Seq<Seq<Block>>,
    maps: Seq<Map<Seq<char>, Seq<char>>>,
) -> bool {
    &&& states.len() == ops.len() + 1
    &&& maps.len() == ops.len() + 1
    &&& results.len() == ops.len()
    &&& states[0] == s0
    &&& maps[0] == Map::<Seq<char>, Seq<char>>::empty()
    &&& states[ops.len() as int] == s1
    &&& maps[ops.len() as int] == m1
    &&& forall|u: int|
        0 <= u < ops.len() ==> batch_step(
            states[u],
            maps[u],
            ops[u],
            ids[u],
            nows[u],
            states[u + 1],
            maps[u + 1],
            #[trigger] results[u],
        )
}

/// What an accepted batch does: its operations applied in order, the
/// `u`-th creating with identifier `ids[u]`, each at its time `nows[u]`.
pub open spec fn batch_applied(
    s0: Seq<Block>,
    ops: Seq<BatchOp>,
    ids: Seq<Seq<char>>,
    nows: Seq<Seq<char>>,
    s1: Seq<Block>,
    m1: Map<Seq<char>, Seq<char>>,
    results: Seq<BatchOpResult>,
) -> bool {
    exists|states: Seq<Seq<Block>>, maps: Seq<Map<Seq<char>, Seq<char>>>|
        batch_chain(s0, ops, ids, nows, s1, m1, results, states, maps)
}

/// The most operations one batch takes.
pub const MAX_BATCH_OPS: usize = 50;

/// Runs a batch as `batch_operations` does, the `u`-th operation creating
/// with identifier `ids[u]` at time `nows[u]`.
pub fn batch_operations_at(store: &mut BlockStore, req: BatchReq, ids: Vec<String>, nows: Vec<String>) -> (r: Result<
    BatchResult,
    AppError,
>)
    requires
        store_wf(old(store)@),
        versions_fit(old(store)@, 2 * MAX_BATCH_OPS + 2),
        ids@.len() == req.operations@.len(),
        nows@.len() == req.operations@.len(),
    ensures
        store_wf(final(store)@),
        r is Ok <==> req.operations@.len() <= MAX_BATCH_OPS,
        r matches Ok(res) ==> keys_unique(res.id_map@) && batch_applied(
            old(store)@,
            req.operations@,
            ids@.map_values(|x: String| x@),
            nows@.map_values(|x: String| x@),
            final(store)@,
            pairs_map(res.id_map@),
            res.results@,
        ),
        r matches Err(e) ==> final(store)@ == old(store)@ && (e matches AppError::BadRequest(m) && m@
            == "单次批量操作上限 50 条"@),
{
    if req.operations.len() > MAX_BATCH_OPS {
        return Err(AppError::BadRequest("单次批量操作上限 50 条".to_owned()));
    }
    let ghost s0 = store@;
    let ghost all = req.operations@;
    let ghost idv = ids@.map_values(|x: String| x@);
    let ghost nowv = nows@.map_values(|x: String| x@);
    let n = req.operations.len();
    let mut ops = req.operations;
    let mut pairs: Vec<(String, String)> = Vec::new();
    let mut results: Vec<BatchOpResult> = Vec::new();
    let ghost mut states: Seq<Seq<Block>> = seq![s0];
    let ghost mut maps: Seq<Map<Seq<char>, Seq<char>>> = seq![pairs_map(pairs@)];
    let mut t: usize = 0;
    while t < n
        invariant
            n == all.len(),
            n <= MAX_BATCH_OPS,
            t <= n,
            ops@ == all.skip(t as int),
            ids@.len() == n,
            nows@.len() == n,
            idv == ids@.map_values(|x: String| x@),
            nowv == nows@.map_values(|x: String| x@),
            store_wf(store@),
            versions_fit(store@, 2 * (MAX_BATCH_OPS - t) + 2),
            keys_unique(pairs@),
            results@.len() == t,
            states.len() == t + 1,
            maps.len() == t + 1,
            states[0] == s0,
            maps[0] == Map::<Seq<char>, Seq<char>>::empty(),
            states[t as int] == store@,
            maps[t as int] == pairs_map(pairs@),
            forall|u: int|
                0 <= u < t ==> batch_step(
                    states[u],
                    maps[u],
                    all[u],
                    idv[u],
                    nowv[u],
                    states[u + 1],
                    maps[u + 1],
                    #[trigger] results@[u],
                ),
        decreases n - t,
    {
        let ghost s = store@;
        let ghost m = pairs_map(pairs@);
        assert(ops@[0] == all[t as int]);
        let op = ops.remove(0);
        assert(ops@ =~= all.skip(t + 1));
        let id = ids[t].clone();
        let now = nows[t].clone();
        assert(idv[t as int] == id@ && nowv[t as int] == now@);
        let res = match op {
            BatchOp::Create { temp_id, parent_id, block_type, content, properties, after_id } => {
                let p = resolve_id(&pairs, parent_id.as_str());
                let a = resolve_opt_id(&pairs, &after_id);
                match batch_create_at(store, p, block_type, content, properties, a, id, now) {
                    Ok(b) => {
                        record_pair(&mut pairs, temp_id, b.id.clone());
                        BatchOpResult { action: "create".to_owned(), block_id: b.id, version: Some(b.version), error: None }
                    },
                    Err(e) => BatchOpResult { action: "create".to_owned(), block_id: temp_id, version: None, error: Some(e) },
                }
            },
            BatchOp::Update { block_id, content, properties, properties_mode } => {
                let bid = resolve_id(&pairs, block_id.as_str());
                let ureq = UpdateBlockReq { content, block_type: None, properties, properties_mode };
                match update_block_at(store, bid.as_str(), ureq, now, id) {
                    Ok(b) => {
                        proof {
                            lemma_index_of(s, bid@);
                            let i = index_of(s, bid@)->0;
                            assert(store@[i].id@ == bid@);
                            lemma_index_unique(store@, i);
                        }
                        BatchOpResult { action: "update".to_owned(), block_id: bid, version: Some(b.version), error: None }
                    },
                    Err(e) => BatchOpResult { action: "update".to_owned(), block_id, version: None, error: Some(e) },
                }
            },
            BatchOp::Delete { block_id } => {
                let bid = resolve_id(&pairs, block_id.as_str());
                match delete_tree_at(store, bid.as_str(), now) {
                    Ok(d) => BatchOpResult { action: "delete".to_owned(), block_id: bid, version: Some(d.version), error: None },
                    Err(e) => BatchOpResult { action: "delete".to_owned(), block_id, version: None, error: Some(e) },
                }
            },
            BatchOp::Move { block_id, target_parent_id, before_id, after_id } => {
                let bid = resolve_id(&pairs, block_id.as_str());
                match batch_move_at(store, &pairs, bid.as_str(), target_parent_id, before_id, after_id, now) {
                    Ok(v) => BatchOpResult { action: "move".to_owned(), block_id: bid, version: Some(v), error: None },
                    Err(e) => BatchOpResult { action: "move".to_owned(), block_id, version: None, error: Some(e) },
                }
            },
        };
        assert(batch_step(s, m, all[t as int], idv[t as int], nowv[t as int], store@, pairs_map(pairs@), res));
        proof {
            lemma_step_bumped(s, m, all[t as int], idv[t as int], nowv[t as int], store@, pairs_map(pairs@), res);
            lemma_bumped_fit(s, store@, 2 * (MAX_BATCH_OPS - t) as int);
            states = states.push(store@);
            maps = maps.push(pairs_map(pairs@));
        }
        results.push(res);
        t += 1;
    }
    proof {
        assert(batch_chain(s0, all, idv, nowv, store@, pairs_map(pairs@), results@, states, maps));
    }
    Ok(BatchResult { id_map: pairs, results })
}

/// Runs up to 50 block operations in order, each on its own: a failed
/// operation reports its error and changes nothing, the others go on. A
/// create names a temporary identifier that later operations may use for
/// the block it made.
pub fn batch_operations(store: &mut BlockStore, req: BatchReq) -> (r: Result<BatchResult, AppError>)
    requires
        store_wf(old(store)@),
        versions_fit(old(store)@, 2 * MAX_BATCH_OPS + 2),
    ensures
        store_wf(final(store)@),
        r is Ok <==> req.operations@.len() <= MAX_BATCH_OPS,
        r matches Ok(res) ==> keys_unique(res.id_map@) && exists|ids: Seq<Seq<char>>, nows: Seq<Seq<char>>|
            ids.len() == req.operations@.len() && nows.len() == req.operations@.len() && batch_applied(
                old(store)@,
                req.operations@,
                ids,
                nows,
                final(store)@,
                pairs_map(res.id_map@),
                res.results@,
            ),
        r matches Err(e) ==> final(store)@ == old(store)@ && (e matches AppError::BadRequest(m) && m@
            == "单次批量操作上限 50 条"@),
{
    if req.operations.len() > MAX_BATCH_OPS {
        return Err(AppError::BadRequest("单次批量操作上限 50 条".to_owned()));
    }
    let n = req.operations.len();
    let mut ids: Vec<String> = Vec::new();
    let mut nows: Vec<String> = Vec::new();
    while ids.len() < n
        invariant
            ids@.len() == nows@.len(),
            ids@.len() <= n,
        decreases n - ids@.len(),
    {
        ids.push(generate_block_id());
        nows.push(now_iso());
    }
    batch_operations_at(store, req, ids, nows)
}

} // verus!
