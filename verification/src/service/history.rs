//! Undo and redo over the block store.
//!
//! An operation leaves one [`BlockChange`] per block it touched, holding the
//! block's row before and after it. Undo writes the `before` rows back (a
//! block the operation created is soft-deleted); redo writes the `after`
//! rows back. What a restore writes is the part of a row a snapshot keeps:
//! parent, document, position, type, content, properties and status; the
//! row's identifier, version and creation data stay, and its modification
//! time becomes the time of the restore.

use vstd::prelude::*;
use crate::model::{copy_block, now_iso, same_block, Block, BlockStatus};
use crate::model::oplog::ChangeType;
use crate::api::request::{CreateBlockReq, UpdateBlockReq};
use crate::error::AppError;
use crate::service::block::{
    create_block, create_error, create_refused, created_as, duplicate_id_message, from_list_change, heading_change,
    to_list_change, update_applied, update_block, update_error, update_refused, versions_fit,
};
use crate::service::store::{
    index_of, lemma_index_of, lemma_index_same_ids, row_of, row_ok, store_wf, BlockStore,
};

verus! {

/// What one operation did to one block: its row before (`None` when the
/// operation created it) and after.
#[derive(Debug, Clone)]
pub struct BlockChange {
    pub block_id: String,
    pub change_type: ChangeType,
    pub before: Option<Block>,
    pub after: Option<Block>,
}

// ─── What a restore writes ───────────────────────────────────────

/// The row an undo (`before`) or a redo (`after`) writes back.
pub open spec fn snapshot_row(c: BlockChange, use_before: bool) -> Option<Block> {
    if use_before {
        c.before
    } else {
        c.after
    }
}

/// With no row to write back, the block is soft-deleted: a creation being
/// undone, or a deletion being redone.
pub open spec fn soft_on_restore(c: BlockChange, use_before: bool) -> bool {
    (use_before && c.change_type == ChangeType::Created) || (!use_before && c.change_type == ChangeType::Deleted)
}

/// Two rows agree on what a snapshot keeps.
pub open spec fn same_state(a: Block, b: Block) -> bool {
    &&& a.parent_id@ == b.parent_id@
    &&& a.document_id@ == b.document_id@
    &&& a.position@ == b.position@
    &&& a.block_type == b.block_type
    &&& a.content@ == b.content@
    &&& a.properties@ == b.properties@
    &&& a.status == b.status
}

/// Row `cur` with the kept part of `snap` written back at time `now`.
pub open spec fn restored(cur: Block, snap: Block, now: String) -> Block {
    Block {
        id: cur.id,
        parent_id: snap.parent_id,
        document_id: snap.document_id,
        position: snap.position,
        block_type: snap.block_type,
        content: snap.content,
        properties: snap.properties,
        version: cur.version,
        status: snap.status,
        schema_version: cur.schema_version,
        encrypted: cur.encrypted,
        created: cur.created,
        modified: now,
        author: cur.author,
        owner_id: cur.owner_id,
    }
}

/// Row `cur` soft-deleted at time `now`, its version left as it is.
pub open spec fn soft_removed(cur: Block, now: String) -> Block {
    Block {
        id: cur.id,
        parent_id: cur.parent_id,
        document_id: cur.document_id,
        position: cur.position,
        block_type: cur.block_type,
        content: cur.content,
        properties: cur.properties,
        version: cur.version,
        status: BlockStatus::Deleted,
        schema_version: cur.schema_version,
        encrypted: cur.encrypted,
        created: cur.created,
        modified: now,
        author: cur.author,
        owner_id: cur.owner_id,
    }
}

/// A recorded row put back as a new row at time `now`.
pub open spec fn revived(snap: Block, now: String) -> Block {
    Block {
        id: snap.id,
        parent_id: snap.parent_id,
        document_id: snap.document_id,
        position: snap.position,
        block_type: snap.block_type,
        content: snap.content,
        properties: snap.properties,
        version: snap.version,
        status: snap.status,
        schema_version: snap.schema_version,
        encrypted: snap.encrypted,
        created: snap.created,
        modified: now,
        author: snap.author,
        owner_id: snap.owner_id,
    }
}

/// The store after restoring one change: the row is written back, or
/// soft-deleted; a created block whose row is gone gets its row again; a
/// change whose block is missing otherwise does nothing.
pub open spec fn restore_one(s: Seq<Block>, c: BlockChange, use_before: bool, now: String) -> Seq<Block> {
    match snapshot_row(c, use_before) {
        Some(snap) => match index_of(s, c.block_id@) {
            Some(i) => s.update(i, restored(s[i], snap, now)),
            None => if c.change_type == ChangeType::Created {
                s.push(revived(snap, now))
            } else {
                s
            },
        },
        None => if soft_on_restore(c, use_before) {
            match index_of(s, c.block_id@) {
                Some(i) => s.update(i, soft_removed(s[i], now)),
                None => s,
            }
        } else {
            s
        },
    }
}

/// The store after restoring the changes `cs`, in order.
pub open spec fn restore_all(s: Seq<Block>, cs: Seq<BlockChange>, use_before: bool, now: String) -> Seq<Block>
    decreases cs.len(),
{
    if cs.len() == 0 {
        s
    } else {
        restore_one(restore_all(s, cs.drop_last(), use_before, now), cs.last(), use_before, now)
    }
}

/// The rows a change carries belong to its block and obey the store's row
/// rules.
pub open spec fn changes_ok(cs: Seq<BlockChange>) -> bool {
    forall|i: int|
        #![trigger cs[i]]
        0 <= i < cs.len() ==> (cs[i].before matches Some(b) ==> b.id@ == cs[i].block_id@ && row_ok(b)) && (
        cs[i].after matches Some(a) ==> a.id@ == cs[i].block_id@ && row_ok(a))
}

/// Stores whose rows hold the same values, row by row.
pub open spec fn similar(s: Seq<Block>, t: Seq<Block>) -> bool {
    s.len() == t.len() && forall|k: int| 0 <= k < s.len() ==> same_block(#[trigger] s[k], t[k])
}

proof fn lemma_restore_one_similar(s: Seq<Block>, t: Seq<Block>, c: BlockChange, ub: bool, now: String)
    requires
        similar(s, t),
    ensures
        similar(restore_one(s, c, ub, now), restore_one(t, c, ub, now)),
{
    assert forall|k: int| 0 <= k < s.len() implies (#[trigger] s[k]).id@ == t[k].id@ by {
        assert(same_block(s[k], t[k]));
    }
    lemma_index_same_ids(s, t, c.block_id@);
    lemma_index_of(s, c.block_id@);
    let a = restore_one(s, c, ub, now);
    let b = restore_one(t, c, ub, now);
    assert forall|k: int| 0 <= k < a.len() implies same_block(#[trigger] a[k], b[k]) by {
        if k < s.len() {
            assert(same_block(s[k], t[k]));
        }
    }
}

// ─── Applying a restore ──────────────────────────────────────────

fn restore_change(store: &mut BlockStore, c: &BlockChange, use_before: bool, now: &String)
    requires
        store_wf(old(store)@),
        changes_ok(seq![*c]),
    ensures
        store_wf(final(store)@),
        similar(final(store)@, restore_one(old(store)@, *c, use_before, *now)),
{
    proof {
        assert(seq![*c][0] == *c);
        lemma_index_of(store@, c.block_id@);
    }
    let ghost s = store@;
    let snap = if use_before {
        &c.before
    } else {
        &c.after
    };
    match snap {
        Some(b) => match store.find(c.block_id.as_str()) {
            Some(i) => {
                let cur = copy_block(store.row_at(i));
                let nb = Block {
                    id: cur.id,
                    parent_id: b.parent_id.clone(),
                    document_id: b.document_id.clone(),
                    position: b.position.clone(),
                    block_type: b.block_type.copy(),
                    content: crate::model::copy_bytes(&b.content),
                    properties: b.properties.clone(),
                    version: cur.version,
                    status: b.status,
                    schema_version: cur.schema_version,
                    encrypted: cur.encrypted,
                    created: cur.created,
                    modified: now.clone(),
                    author: cur.author,
                    owner_id: cur.owner_id,
                };
                store.set_row(i, nb);
                assert(similar(store@, restore_one(s, *c, use_before, *now)));
            },
            None => {
                if c.change_type == ChangeType::Created {
                    let mut nb = copy_block(b);
                    nb.modified = now.clone();
                    store.push_row(nb);
                    assert(similar(store@, restore_one(s, *c, use_before, *now)));
                } else {
                    assert(similar(store@, restore_one(s, *c, use_before, *now)));
                }
            },
        },
        None => {
            let soft = if use_before {
                c.change_type == ChangeType::Created
            } else {
                c.change_type == ChangeType::Deleted
            };
            if soft {
                match store.find(c.block_id.as_str()) {
                    Some(i) => {
                        let cur = copy_block(store.row_at(i));
                        let nb = Block {
                            id: cur.id,
                            parent_id: cur.parent_id,
                            document_id: cur.document_id,
                            position: cur.position,
                            block_type: cur.block_type,
                            content: cur.content,
                            properties: cur.properties,
                            version: cur.version,
                            status: BlockStatus::Deleted,
                            schema_version: cur.schema_version,
                            encrypted: cur.encrypted,
                            created: cur.created,
                            modified: now.clone(),
                            author: cur.author,
                            owner_id: cur.owner_id,
                        };
                        store.set_row(i, nb);
                        assert(similar(store@, restore_one(s, *c, use_before, *now)));
                    },
                    None => {
                        assert(similar(store@, restore_one(s, *c, use_before, *now)));
                    },
                }
            } else {
                assert(similar(store@, restore_one(s, *c, use_before, *now)));
            }
        },
    }
}

fn restore_changes_at(store: &mut BlockStore, cs: &Vec<BlockChange>, use_before: bool, now: &String)
    requires
        store_wf(old(store)@),
        changes_ok(cs@),
    ensures
        store_wf(final(store)@),
        similar(final(store)@, restore_all(old(store)@, cs@, use_before, *now)),
{
    let ghost s0 = store@;
    let mut k: usize = 0;
    proof {
        assert(cs@.take(0) =~= Seq::<BlockChange>::empty());
        assert forall|j: int| 0 <= j < store@.len() implies same_block(#[trigger] store@[j], s0[j]) by {}
    }
    while k < cs.len()
        invariant
            k <= cs.len(),
            store_wf(store@),
            changes_ok(cs@),
            similar(store@, restore_all(s0, cs@.take(k as int), use_before, *now)),
        decreases cs.len() - k,
    {
        let ghost before = store@;
        let ghost expect = restore_all(s0, cs@.take(k as int), use_before, *now);
        proof {
            assert(cs@.take(k + 1).drop_last() =~= cs@.take(k as int));
            assert(cs@.take(k + 1).last() == cs@[k as int]);
            assert(changes_ok(seq![cs@[k as int]])) by {
                assert(seq![cs@[k as int]][0] == cs@[k as int]);
            }
        }
        restore_change(store, &cs[k], use_before, now);
        proof {
            lemma_restore_one_similar(before, expect, cs@[k as int], use_before, *now);
            let a = restore_one(before, cs@[k as int], use_before, *now);
            let b = restore_one(expect, cs@[k as int], use_before, *now);
            assert forall|j: int| 0 <= j < store@.len() implies same_block(#[trigger] store@[j], b[j]) by {
                assert(same_block(store@[j], a[j]));
                assert(same_block(a[j], b[j]));
            }
        }
        k += 1;
    }
    proof {
        assert(cs@.take(cs@.len() as int) =~= cs@);
    }
}

/// Undoes an operation whose changes are `changes`: each block's `before`
/// row is written back, and a block the operation created is soft-deleted.
pub fn undo_changes(store: &mut BlockStore, changes: &Vec<BlockChange>)
    requires
        store_wf(old(store)@),
        changes_ok(changes@),
    ensures
        store_wf(final(store)@),
        exists|now: String| similar(final(store)@, restore_all(old(store)@, changes@, true, now)),
{
    let now = now_iso();
    restore_changes_at(store, changes, true, &now);
}

/// Redoes an undone operation whose changes are `changes`: each block's
/// `after` row is written back.
pub fn redo_changes(store: &mut BlockStore, changes: &Vec<BlockChange>)
    requires
        store_wf(old(store)@),
        changes_ok(changes@),
    ensures
        store_wf(final(store)@),
        exists|now: String| similar(final(store)@, restore_all(old(store)@, changes@, false, now)),
{
    let now = now_iso();
    restore_changes_at(store, changes, false, &now);
}

// ─── Laws ────────────────────────────────────────────────────────

/// Two optional rows are both missing, or both there with the same values.
pub open spec fn same_opt(x: Option<Block>, y: Option<Block>) -> bool {
    match (x, y) {
        (Some(a), Some(b)) => same_block(a, b),
        (None, None) => true,
        _ => false,
    }
}

/// `cs` is the record of an operation that took the store from `s0` to
/// `s1`: one change per block it touched, holding that block's rows before
/// and after (every touched block still has a row afterwards, deletions
/// being soft), a change without a `before` row being a creation; every
/// block without a change kept its row.
pub open spec fn records(s0: Seq<Block>, s1: Seq<Block>, cs: Seq<BlockChange>) -> bool {
    &&& changes_ok(cs)
    &&& forall|i: int, j: int| 0 <= i < j < cs.len() ==> (#[trigger] cs[i]).block_id@ != (#[trigger] cs[j]).block_id@
    &&& forall|i: int|
        #![trigger cs[i]]
        0 <= i < cs.len() ==> {
            &&& same_opt(cs[i].before, row_of(s0, cs[i].block_id@))
            &&& cs[i].after is Some
            &&& same_opt(cs[i].after, row_of(s1, cs[i].block_id@))
            &&& cs[i].before is None ==> cs[i].change_type == ChangeType::Created
        }
    &&& forall|id: Seq<char>|
        (forall|i: int| 0 <= i < cs.len() ==> (#[trigger] cs[i]).block_id@ != id) ==> same_opt(
            #[trigger] row_of(s0, id),
            row_of(s1, id),
        )
}

/// Index of the change for block `id` (the last one), if any.
pub open spec fn change_index(cs: Seq<BlockChange>, id: Seq<char>) -> Option<int>
    decreases cs.len(),
{
    if cs.len() == 0 {
        None
    } else if cs.last().block_id@ == id {
        Some(cs.len() - 1)
    } else {
        change_index(cs.drop_last(), id)
    }
}

proof fn lemma_change_index(cs: Seq<BlockChange>, id: Seq<char>)
    ensures
        change_index(cs, id) matches Some(m) ==> 0 <= m < cs.len() && cs[m].block_id@ == id,
        change_index(cs, id) is None ==> forall|i: int| 0 <= i < cs.len() ==> (#[trigger] cs[i]).block_id@ != id,
    decreases cs.len(),
{
    if cs.len() > 0 && cs.last().block_id@ != id {
        lemma_change_index(cs.drop_last(), id);
        if change_index(cs, id) is None {
            assert forall|i: int| 0 <= i < cs.len() implies (#[trigger] cs[i]).block_id@ != id by {
                if i < cs.len() - 1 {
                    assert(cs[i] == cs.drop_last()[i]);
                }
            }
        }
    }
}

/// What restoring change `c` makes of row `cur`.
pub open spec fn step_row(cur: Block, c: BlockChange, use_before: bool, now: String) -> Block {
    match snapshot_row(c, use_before) {
        Some(snap) => restored(cur, snap, now),
        None => if soft_on_restore(c, use_before) {
            soft_removed(cur, now)
        } else {
            cur
        },
    }
}

pub open spec fn distinct_ids(s: Seq<Block>) -> bool {
    forall|i: int, j: int| 0 <= i < j < s.len() ==> (#[trigger] s[i]).id@ != (#[trigger] s[j]).id@
}

pub open spec fn all_present(s: Seq<Block>, cs: Seq<BlockChange>) -> bool {
    forall|i: int| 0 <= i < cs.len() ==> (#[trigger] index_of(s, cs[i].block_id@)) is Some
}

/// Restoring changes for distinct blocks that all have rows rewrites each
/// such row once, in place.
proof fn lemma_restore_all_pointwise(s: Seq<Block>, cs: Seq<BlockChange>, ub: bool, now: String)
    requires
        distinct_ids(s),
        forall|i: int, j: int| 0 <= i < j < cs.len() ==> (#[trigger] cs[i]).block_id@ != (#[trigger] cs[j]).block_id@,
        all_present(s, cs),
    ensures
        restore_all(s, cs, ub, now).len() == s.len(),
        forall|k: int|
            0 <= k < s.len() ==> (#[trigger] restore_all(s, cs, ub, now)[k]) == match change_index(cs, s[k].id@) {
                Some(m) => step_row(s[k], cs[m], ub, now),
                None => s[k],
            },
    decreases cs.len(),
{
    if cs.len() > 0 {
        let d = cs.drop_last();
        let c = cs.last();
        assert forall|i: int, j: int| 0 <= i < j < d.len() implies (#[trigger] d[i]).block_id@ != (#[trigger] d[j]).block_id@ by {
            assert(d[i] == cs[i] && d[j] == cs[j]);
        }
        assert forall|i: int| 0 <= i < d.len() implies (#[trigger] index_of(s, d[i].block_id@)) is Some by {
            assert(d[i] == cs[i]);
        }
        lemma_restore_all_pointwise(s, d, ub, now);
        let t = restore_all(s, d, ub, now);
        assert forall|k: int| 0 <= k < s.len() implies (#[trigger] s[k]).id@ == t[k].id@ by {
            assert(t[k] == t[k]);
        }
        lemma_index_same_ids(s, t, c.block_id@);
        assert(index_of(s, cs[cs.len() - 1].block_id@) is Some);
        lemma_index_of(s, c.block_id@);
        let i = index_of(s, c.block_id@)->0;
        lemma_change_index(d, c.block_id@);
        if change_index(d, c.block_id@) is Some {
            let m = change_index(d, c.block_id@)->0;
            assert(d[m] == cs[m]);
        }
        assert(t[i] == s[i]);
        assert forall|k: int| 0 <= k < s.len() implies (#[trigger] restore_all(s, cs, ub, now)[k]) == match change_index(cs, s[k].id@) {
            Some(m) => step_row(s[k], cs[m], ub, now),
            None => s[k],
        } by {
            if k != i {
                assert(s[k].id@ != s[i].id@);
                assert(t[k] == match change_index(d, s[k].id@) {
                    Some(m) => step_row(s[k], d[m], ub, now),
                    None => s[k],
                });
                lemma_change_index(d, s[k].id@);
                if change_index(d, s[k].id@) is Some {
                    assert(d[change_index(d, s[k].id@)->0] == cs[change_index(d, s[k].id@)->0]);
                }
            }
        }
    }
}

/// Undo after an operation brings back the state before it: every block
/// that existed before has again what it had (parent, document, position,
/// type, content, properties, status), and a block the operation created is
/// soft-deleted.
pub proof fn law_undo_restores_before(s0: Seq<Block>, s1: Seq<Block>, cs: Seq<BlockChange>, now: String)
    requires
        store_wf(s1),
        records(s0, s1, cs),
    ensures
        forall|id: Seq<char>|
            #![trigger row_of(s0, id)]
            (row_of(s0, id) matches Some(b0) ==> row_of(restore_all(s1, cs, true, now), id) matches Some(b2) && same_state(b2, b0))
            && (row_of(s0, id) is None ==> row_of(restore_all(s1, cs, true, now), id) == match row_of(s1, id) {
                Some(b1) => Some(soft_removed(b1, now)),
                None => None,
            }),
{
    assert forall|i: int| 0 <= i < cs.len() implies (#[trigger] index_of(s1, cs[i].block_id@)) is Some by {
        assert(same_opt(cs[i].after, row_of(s1, cs[i].block_id@)));
    }
    lemma_restore_all_pointwise(s1, cs, true, now);
    let s2 = restore_all(s1, cs, true, now);
    assert forall|id: Seq<char>|
        #![trigger row_of(s0, id)]
        (row_of(s0, id) matches Some(b0) ==> row_of(s2, id) matches Some(b2) && same_state(b2, b0))
        && (row_of(s0, id) is None ==> row_of(s2, id) == match row_of(s1, id) {
            Some(b1) => Some(soft_removed(b1, now)),
            None => None,
        }) by {
        assert forall|k: int| 0 <= k < s1.len() implies (#[trigger] s1[k]).id@ == s2[k].id@ by {
            assert(s2[k] == s2[k]);
        }
        lemma_index_same_ids(s1, s2, id);
        lemma_index_of(s1, id);
        lemma_change_index(cs, id);
        match change_index(cs, id) {
            Some(m) => {
                assert(same_opt(cs[m].before, row_of(s0, cs[m].block_id@)));
                assert(same_opt(cs[m].after, row_of(s1, cs[m].block_id@)));
                let k = index_of(s1, id)->0;
                assert(s2[k] == step_row(s1[k], cs[m], true, now));
            },
            None => {
                assert(same_opt(row_of(s0, id), row_of(s1, id)));
                if index_of(s1, id) is Some {
                    let k = index_of(s1, id)->0;
                    assert(s2[k] == s1[k]);
                }
            },
        }
    }
}

/// Redo after undo brings back the state right after the operation: every
/// block has again what it had then, and no block appears that was not
/// there.
pub proof fn law_redo_restores_after(s0: Seq<Block>, s1: Seq<Block>, cs: Seq<BlockChange>, now: String, later: String)
    requires
        store_wf(s1),
        records(s0, s1, cs),
    ensures
        forall|id: Seq<char>|
            #![trigger row_of(s1, id)]
            (row_of(s1, id) matches Some(b1) ==> row_of(restore_all(restore_all(s1, cs, true, now), cs, false, later), id)
                matches Some(b3) && same_state(b3, b1))
            && (row_of(s1, id) is None ==> row_of(restore_all(restore_all(s1, cs, true, now), cs, false, later), id) is None),
{
    assert forall|i: int| 0 <= i < cs.len() implies (#[trigger] index_of(s1, cs[i].block_id@)) is Some by {
        assert(same_opt(cs[i].after, row_of(s1, cs[i].block_id@)));
    }
    lemma_restore_all_pointwise(s1, cs, true, now);
    let s2 = restore_all(s1, cs, true, now);
    assert forall|k: int| 0 <= k < s1.len() implies (#[trigger] s1[k]).id@ == s2[k].id@ by {
        assert(s2[k] == s2[k]);
    }
    assert forall|i: int| 0 <= i < cs.len() implies (#[trigger] index_of(s2, cs[i].block_id@)) is Some by {
        lemma_index_same_ids(s1, s2, cs[i].block_id@);
    }
    assert forall|i: int, j: int| 0 <= i < j < s2.len() implies (#[trigger] s2[i]).id@ != (#[trigger] s2[j]).id@ by {
        assert(s1[i].id@ != s1[j].id@);
    }
    lemma_restore_all_pointwise(s2, cs, false, later);
    let s3 = restore_all(s2, cs, false, later);
    assert forall|id: Seq<char>|
        #![trigger row_of(s1, id)]
        (row_of(s1, id) matches Some(b1) ==> row_of(s3, id) matches Some(b3) && same_state(b3, b1))
        && (row_of(s1, id) is None ==> row_of(s3, id) is None) by {
        assert forall|k: int| 0 <= k < s2.len() implies (#[trigger] s2[k]).id@ == s3[k].id@ by {
            assert(s3[k] == s3[k]);
        }
        lemma_index_same_ids(s1, s2, id);
        lemma_index_same_ids(s2, s3, id);
        lemma_index_of(s1, id);
        lemma_change_index(cs, id);
        if index_of(s1, id) is Some {
            let k = index_of(s1, id)->0;
            match change_index(cs, id) {
                Some(m) => {
                    assert(same_opt(cs[m].after, row_of(s1, cs[m].block_id@)));
                    assert(s3[k] == step_row(s2[k], cs[m], false, later));
                },
                None => {
                    assert(s2[k] == s1[k]);
                    assert(s3[k] == s2[k]);
                },
            }
        }
    }
}

// ─── Operations that return what they changed ────────────────────

/// A copy of the row of block `id`, if there is one.
fn row_copy(store: &BlockStore, id: &str) -> (r: Option<Block>)
    requires
        store_wf(store@),
    ensures
        same_opt(r, row_of(store@, id@)),
        r matches Some(b) ==> b.id@ == id@ && row_ok(b),
{
    match store.find(id) {
        Some(i) => {
            let b = copy_block(store.row_at(i));
            assert(row_ok(store@[i as int]));
            Some(b)
        },
        None => None,
    }
}

/// Creates a block as `create_block` does, and returns with it the change
/// that records the creation.
pub fn create_block_recorded(store: &mut BlockStore, req: CreateBlockReq) -> (r: Result<(Block, Vec<BlockChange>), AppError>)
    requires
        store_wf(old(store)@),
    ensures
        store_wf(final(store)@),
        create_refused(old(store)@, req) ==> r is Err,
        r matches Ok((b, cs)) ==> final(store)@ == old(store)@.push(final(store)@.last()) && same_block(b, final(store)@.last())
            && created_as(old(store)@, req, b.id@, b.created@, b) && b.id@.len() == 20 && cs@.len() == 1
            && cs@[0].block_id@ == b.id@ && cs@[0].change_type == ChangeType::Created && records(
            old(store)@,
            final(store)@,
            cs@,
        ),
        r matches Err(e) ==> final(store)@ == old(store)@ && (if create_refused(old(store)@, req) {
            create_error(old(store)@, req, e)
        } else {
            e matches AppError::Internal(m) && m@ == duplicate_id_message()
        }),
{
    let ghost s0 = store@;
    match create_block(store, req) {
        Ok(b) => {
            let after = row_copy(store, b.id.as_str());
            let change = BlockChange { block_id: b.id.clone(), change_type: ChangeType::Created, before: None, after };
            let mut cs: Vec<BlockChange> = Vec::new();
            cs.push(change);
            proof {
                let s1 = store@;
                let n = s0.len() as int;
                assert(s1[n] == s1.last());
                assert(index_of(s1, b.id@) == Some(n));
                lemma_index_of(s0, b.id@);
                assert forall|k: int| 0 <= k < s0.len() implies (#[trigger] s0[k]).id@ != b.id@ by {
                    assert(s1[k] == s0[k]);
                    assert(s1[k].id@ != s1[n].id@);
                }
                assert(index_of(s0, b.id@) is None);
                assert forall|id: Seq<char>|
                    (forall|i: int| 0 <= i < cs@.len() ==> (#[trigger] cs@[i]).block_id@ != id) implies same_opt(
                    #[trigger] row_of(s0, id),
                    row_of(s1, id),
                ) by {
                    assert(cs@[0].block_id@ != id);
                    assert(s1.drop_last() =~= s0);
                    lemma_index_of(s0, id);
                }
            }
            Ok((b, cs))
        },
        Err(e) => Err(e),
    }
}

/// A plain update: neither the list nor the heading rules apply.
pub open spec fn plain_update(cur: Block, req: UpdateBlockReq) -> bool {
    !heading_change(cur, req) && !to_list_change(cur, req) && !from_list_change(cur, req)
}

/// Updates a block as `update_block` does, and returns with it the change
/// recording the block's rows before and after. For a plain update that
/// change is the whole record of the operation.
pub fn update_block_recorded(store: &mut BlockStore, id: &str, req: UpdateBlockReq) -> (r: Result<
    (Block, Vec<BlockChange>),
    AppError,
>)
    requires
        store_wf(old(store)@),
        versions_fit(old(store)@, 2),
    ensures
        store_wf(final(store)@),
        update_refused(old(store)@, id@, req) ==> r is Err,
        !update_refused(old(store)@, id@, req) && !to_list_change(old(store)@[index_of(old(store)@, id@)->0], req)
            ==> r is Ok,
        r matches Ok((b, cs)) ==> {
            &&& row_of(final(store)@, id@) matches Some(x) && same_block(b, x)
            &&& exists|now: Seq<char>, item: Seq<char>| update_applied(old(store)@, final(store)@, id@, req, now, item)
            &&& cs@.len() == 1 && cs@[0].block_id@ == id@ && cs@[0].change_type == ChangeType::Updated
            &&& same_opt(cs@[0].before, row_of(old(store)@, id@)) && same_opt(cs@[0].after, row_of(final(store)@, id@))
            &&& plain_update(old(store)@[index_of(old(store)@, id@)->0], req) ==> records(old(store)@, final(store)@, cs@)
        },
        r matches Err(e) ==> final(store)@ == old(store)@ && (if update_refused(old(store)@, id@, req) {
            update_error(old(store)@, id@, req, e)
        } else {
            e matches AppError::Internal(m) && m@ == duplicate_id_message()
        }),
{
    let ghost s0 = store@;
    let ghost rq = req;
    let before = row_copy(store, id);
    match update_block(store, id, req) {
        Ok(b) => {
            let after = row_copy(store, id);
            let change = BlockChange { block_id: id.to_owned(), change_type: ChangeType::Updated, before, after };
            let mut cs: Vec<BlockChange> = Vec::new();
            cs.push(change);
            proof {
                let s1 = store@;
                lemma_index_of(s0, id@);
                lemma_index_of(s1, id@);
                let i = index_of(s0, id@)->0;
                if plain_update(s0[i], rq) {
                    let (now, item) = choose|now: Seq<char>, item: Seq<char>| update_applied(s0, s1, id@, rq, now, item);
                    assert(s1 == s0.update(i, s1[i]));
                    assert forall|k: int| 0 <= k < s0.len() implies (#[trigger] s0[k]).id@ == s1[k].id@ by {
                        if k != i {
                            assert(s1[k] == s0[k]);
                        }
                    }
                    assert forall|x: Seq<char>|
                        (forall|t: int| 0 <= t < cs@.len() ==> (#[trigger] cs@[t]).block_id@ != x) implies same_opt(
                        #[trigger] row_of(s0, x),
                        row_of(s1, x),
                    ) by {
                        assert(cs@[0].block_id@ != x);
                        lemma_index_same_ids(s0, s1, x);
                        lemma_index_of(s0, x);
                    }
                }
            }
            Ok((b, cs))
        },
        Err(e) => Err(e),
    }
}

} // verus!
