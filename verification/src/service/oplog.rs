//! Operation log: recording operations, planning undo and redo, and listing
//! the history.

use vstd::prelude::*;
use crate::error::AppError;
use crate::model::{now_iso, Block};
use crate::model::oplog::{
    action_name, change_type_name, Action, BlockSnapshot, Change, ChangeSummary, ChangeType,
    HistoryEntry, Operation, UndoRedoResult,
};
use crate::text::{from_chars, str_eq};

verus! {

/// Operations kept in the log; older ones are dropped past this count.
pub const MAX_OPERATIONS: usize = 1000;

// ─── Operation identifiers ───────────────────────────────────────

/// `chrono::Utc::now().timestamp_millis()`: milliseconds since the Unix
/// epoch.
#[verifier::external_body]
fn now_millis() -> (r: i64) {
    chrono::Utc::now().timestamp_millis()
}

/// `rand::random::<u16>()`: a uniformly random 16-bit number.
#[verifier::external_body]
fn random_u16() -> (r: u16) {
    rand::random::<u16>()
}

/// Lowercase hexadecimal digit of `d < 16`.
pub open spec fn hex_digit(d: nat) -> char {
    if d < 10 {
        ((d + 48) as u8) as char
    } else {
        ((d + 87) as u8) as char
    }
}

/// The last `width` hexadecimal digits of `n`, zero-padded.
pub open spec fn hex_fixed(n: nat, width: nat) -> Seq<char>
    decreases width,
{
    if width == 0 {
        Seq::empty()
    } else {
        hex_fixed(n / 16, (width - 1) as nat).push(hex_digit(n % 16))
    }
}

fn hex_fixed_chars(n: u64, width: usize) -> (r: Vec<char>)
    ensures
        r@ == hex_fixed(n as nat, width as nat),
    decreases width,
{
    if width == 0 {
        Vec::new()
    } else {
        let mut r = hex_fixed_chars(n / 16, width - 1);
        let d = (n % 16) as u8;
        let c = if d < 10 {
            (d + 48) as char
        } else {
            (d + 87) as char
        };
        r.push(c);
        r
    }
}

/// The operation identifier made of a timestamp and a random suffix:
/// sixteen hex digits of the timestamp (two's complement), `-`, four hex
/// digits of the suffix. Identifiers sort by time as text.
pub open spec fn operation_id_text(millis: i64, suffix: u16) -> Seq<char> {
    hex_fixed(millis as u64 as nat, 16) + seq!['-'] + hex_fixed(suffix as nat, 4)
}

/// Formats an operation identifier from a timestamp and a random suffix.
pub fn operation_id(millis: i64, suffix: u16) -> (r: String)
    ensures
        r@ == operation_id_text(millis, suffix),
{
    let mut v = hex_fixed_chars(millis as u64, 16);
    v.push('-');
    let s = hex_fixed_chars(suffix as u64, 4);
    crate::text::append_chars(&mut v, &s);
    from_chars(v.as_slice())
}

/// A fresh time-ordered identifier: the current time in milliseconds and a
/// random suffix.
pub fn new_operation_id() -> (r: String)
    ensures
        exists|millis: i64, suffix: u16| r@ == operation_id_text(millis, suffix),
{
    let millis = now_millis();
    let suffix = random_u16();
    operation_id(millis, suffix)
}

// ─── Building records ────────────────────────────────────────────

/// A new operation on `document_id`, with a fresh identifier and the current
/// time, not undone.
pub fn new_operation(action: Action, document_id: &str, editor_id: Option<String>) -> (r: Operation)
    ensures
        exists|millis: i64, suffix: u16| r.id@ == operation_id_text(millis, suffix),
        r.document_id@ == document_id@,
        r.action == action,
        r.description is None,
        !r.undone,
        r.editor_id == editor_id,
{
    Operation {
        id: new_operation_id(),
        document_id: document_id.to_owned(),
        action,
        description: None,
        timestamp: now_iso(),
        undone: false,
        editor_id,
    }
}

/// A change record (not yet stored: its row identifier is 0).
pub fn new_change(
    operation_id: &str,
    block_id: &str,
    change_type: ChangeType,
    before: Option<BlockSnapshot>,
    after: Option<BlockSnapshot>,
) -> (r: Change)
    ensures
        r.id == 0,
        r.operation_id@ == operation_id@,
        r.block_id@ == block_id@,
        r.change_type == change_type,
        r.before == before,
        r.after == after,
{
    Change {
        id: 0,
        operation_id: operation_id.to_owned(),
        block_id: block_id.to_owned(),
        change_type,
        before,
        after,
    }
}

/// A change holding snapshots of a block before and after an operation;
/// each snapshot takes the JSON text of that block's type and properties.
pub fn block_change_pair(
    operation_id: &str,
    block_id: &str,
    change_type: ChangeType,
    before_block: &Block,
    before_json: (String, String),
    after_block: &Block,
    after_json: (String, String),
) -> (r: Change)
    ensures
        r.id == 0,
        r.operation_id@ == operation_id@,
        r.block_id@ == block_id@,
        r.change_type == change_type,
        r.before matches Some(b) && snapshot_of(b, *before_block, before_json.0, before_json.1),
        r.after matches Some(a) && snapshot_of(a, *after_block, after_json.0, after_json.1),
{
    let (bt, bp) = before_json;
    let (at, ap) = after_json;
    Change {
        id: 0,
        operation_id: operation_id.to_owned(),
        block_id: block_id.to_owned(),
        change_type,
        before: Some(BlockSnapshot::from_block(before_block, bt, bp)),
        after: Some(BlockSnapshot::from_block(after_block, at, ap)),
    }
}

/// `s` is the snapshot of `b` with the given JSON texts.
pub open spec fn snapshot_of(s: BlockSnapshot, b: Block, type_json: String, props_json: String) -> bool {
    &&& s.parent_id@ == b.parent_id@
    &&& s.document_id@ == b.document_id@
    &&& s.position@ == b.position@
    &&& s.block_type == type_json
    &&& s.content@ == b.content@
    &&& s.properties == props_json
    &&& s.status@ == crate::model::status_name(b.status)
}

// ─── Undo and redo ───────────────────────────────────────────────

/// Whether an undo or a redo is being planned.
#[derive(Debug, Clone, Copy, PartialEq, Eq, Structural)]
pub enum UndoRedoMode {
    Undo,
    Redo,
}

/// What to do to one block when undoing or redoing a change.
#[derive(Debug, Clone, Copy, PartialEq, Eq, Structural)]
pub enum RestoreKind {
    /// Write the snapshot back, creating the row if it is gone (a creation
    /// being redone).
    Upsert,
    /// Write the snapshot back over the row.
    Restore,
    /// Soft-delete the block (a creation undone, a deletion redone).
    SoftDelete,
}

/// One step of a restore: the kind of write and the index of the change
/// whose block (and snapshot) it concerns.
#[derive(Debug, Clone, Copy, PartialEq, Eq, Structural)]
pub struct RestoreStep {
    pub change_index: usize,
    pub kind: RestoreKind,
}

/// The snapshot an undo (`before`) or a redo (`after`) restores.
pub open spec fn restored_snapshot(c: Change, use_before: bool) -> Option<BlockSnapshot> {
    if use_before {
        c.before
    } else {
        c.after
    }
}

/// What restoring change `c` does, if anything: write its snapshot back, or
/// soft-delete the block when there is no snapshot and the change was a
/// creation being undone or a deletion being redone.
pub open spec fn restore_kind(c: Change, use_before: bool) -> Option<RestoreKind> {
    match restored_snapshot(c, use_before) {
        Some(_) => Some(
            if c.change_type == ChangeType::Created {
                RestoreKind::Upsert
            } else {
                RestoreKind::Restore
            },
        ),
        None => if (use_before && c.change_type == ChangeType::Created) || (!use_before && c.change_type
            == ChangeType::Deleted) {
            Some(RestoreKind::SoftDelete)
        } else {
            None
        },
    }
}

/// The steps restoring `cs`, in order.
pub open spec fn restore_steps(cs: Seq<Change>, use_before: bool) -> Seq<RestoreStep>
    decreases cs.len(),
{
    if cs.len() == 0 {
        Seq::empty()
    } else {
        let prev = restore_steps(cs.drop_last(), use_before);
        match restore_kind(cs.last(), use_before) {
            Some(k) => prev.push(RestoreStep { change_index: (cs.len() - 1) as usize, kind: k }),
            None => prev,
        }
    }
}

/// The blocks a restore of `cs` touches, in order.
pub open spec fn affected_blocks(cs: Seq<Change>, use_before: bool) -> Seq<Seq<char>>
    decreases cs.len(),
{
    if cs.len() == 0 {
        Seq::empty()
    } else {
        let prev = affected_blocks(cs.drop_last(), use_before);
        if restore_kind(cs.last(), use_before) is Some {
            prev.push(cs.last().block_id@)
        } else {
            prev
        }
    }
}

/// The documents of the snapshots a restore of `cs` writes back, each once,
/// in order of first appearance.
pub open spec fn affected_documents(cs: Seq<Change>, use_before: bool) -> Seq<Seq<char>>
    decreases cs.len(),
{
    if cs.len() == 0 {
        Seq::empty()
    } else {
        let prev = affected_documents(cs.drop_last(), use_before);
        match restored_snapshot(cs.last(), use_before) {
            Some(s) => if prev.contains(s.document_id@) {
                prev
            } else {
                prev.push(s.document_id@)
            },
            None => prev,
        }
    }
}

/// A planned undo or redo: the result to report, the writes to perform, and
/// the `undone` flag to set on the operation afterwards.
#[derive(Debug, Clone)]
pub struct UndoRedoPlan {
    pub result: UndoRedoResult,
    pub steps: Vec<RestoreStep>,
    pub mark_undone: bool,
}

/// The answer when there is nothing to undo or redo.
pub open spec fn nothing_to_message(mode: UndoRedoMode) -> Seq<char> {
    match mode {
        UndoRedoMode::Undo => "没有可撤销的操作"@,
        UndoRedoMode::Redo => "没有可重做的操作"@,
    }
}

/// `p` is the plan for undoing (`mode` Undo) or redoing operation `op`
/// with changes `cs`.
pub open spec fn plan_ok(p: UndoRedoPlan, op: Operation, cs: Seq<Change>, mode: UndoRedoMode) -> bool {
    let ub = mode == UndoRedoMode::Undo;
    &&& p.result.operation_id@ == op.id@
    &&& p.result.action@ == action_name(op.action)
    &&& p.result.affected_block_ids@.map_values(|s: String| s@) == affected_blocks(cs, ub)
    &&& p.result.affected_document_ids@.map_values(|s: String| s@) == affected_documents(cs, ub)
    &&& p.steps@ == restore_steps(cs, ub)
    &&& p.mark_undone == ub
}

/// Plans the restore of `changes`.
fn plan_restore(changes: &Vec<Change>, use_before: bool) -> (r: (Vec<RestoreStep>, Vec<String>, Vec<String>))
    ensures
        r.0@ == restore_steps(changes@, use_before),
        r.1@.map_values(|s: String| s@) == affected_blocks(changes@, use_before),
        r.2@.map_values(|s: String| s@) == affected_documents(changes@, use_before),
{
    let mut steps: Vec<RestoreStep> = Vec::new();
    let mut blocks: Vec<String> = Vec::new();
    let mut docs: Vec<String> = Vec::new();
    let mut i: usize = 0;
    while i < changes.len()
        invariant
            i <= changes@.len(),
            steps@ == restore_steps(changes@.take(i as int), use_before),
            blocks@.map_values(|s: String| s@) == affected_blocks(changes@.take(i as int), use_before),
            docs@.map_values(|s: String| s@) == affected_documents(changes@.take(i as int), use_before),
        decreases changes.len() - i,
    {
        let ghost t = changes@.take(i + 1);
        proof {
            assert(t.drop_last() =~= changes@.take(i as int));
            assert(t.last() == changes@[i as int]);
        }
        let change = &changes[i];
        let snapshot: Option<&BlockSnapshot> = if use_before {
            change.before.as_ref()
        } else {
            change.after.as_ref()
        };
        let ghost b0 = blocks@.map_values(|s: String| s@);
        let ghost d0 = docs@.map_values(|s: String| s@);
        match snapshot {
            Some(snap) => {
                let kind = if change.change_type == ChangeType::Created {
                    RestoreKind::Upsert
                } else {
                    RestoreKind::Restore
                };
                steps.push(RestoreStep { change_index: i, kind });
                blocks.push(change.block_id.clone());
                assert(blocks@.map_values(|s: String| s@) =~= b0.push(change.block_id@));
                let mut seen = false;
                let mut j: usize = 0;
                while j < docs.len()
                    invariant
                        j <= docs@.len(),
                        d0 == docs@.map_values(|s: String| s@),
                        seen == (exists|k: int| 0 <= k < j && d0[k] == snap.document_id@),
                    decreases docs.len() - j,
                {
                    let ghost was = seen;
                    if str_eq(docs[j].as_str(), snap.document_id.as_str()) {
                        seen = true;
                    }
                    proof {
                        assert(d0[j as int] == docs@[j as int]@);
                        if was {
                            let k = choose|k: int| 0 <= k < j && d0[k] == snap.document_id@;
                            assert(0 <= k < j + 1 && d0[k] == snap.document_id@);
                        }
                        if !seen {
                            assert forall|k: int| 0 <= k < j + 1 implies d0[k] != snap.document_id@ by {
                                if k < j {
                                    if d0[k] == snap.document_id@ {
                                        assert(was);
                                    }
                                }
                            }
                        }
                    }
                    j += 1;
                }
                proof {
                    if d0.contains(snap.document_id@) {
                        let k = choose|k: int| 0 <= k < d0.len() && d0[k] == snap.document_id@;
                        assert(seen);
                    }
                }
                if !seen {
                    docs.push(snap.document_id.clone());
                    assert(docs@.map_values(|s: String| s@) =~= d0.push(snap.document_id@));
                }
            },
            None => {
                let soft = if use_before {
                    change.change_type == ChangeType::Created
                } else {
                    change.change_type == ChangeType::Deleted
                };
                if soft {
                    steps.push(RestoreStep { change_index: i, kind: RestoreKind::SoftDelete });
                    blocks.push(change.block_id.clone());
                    assert(blocks@.map_values(|s: String| s@) =~= b0.push(change.block_id@));
                }
            },
        }
        i += 1;
    }
    proof {
        assert(changes@.take(changes@.len() as int) =~= changes@);
    }
    (steps, blocks, docs)
}

fn plan_undo_redo(op: Option<Operation>, changes: &Vec<Change>, mode: UndoRedoMode) -> (r: Result<
    UndoRedoPlan,
    AppError,
>)
    ensures
        r is Ok <==> op is Some,
        r matches Ok(p) ==> plan_ok(p, op->Some_0, changes@, mode),
        r matches Err(e) ==> e matches AppError::BadRequest(msg) && msg@ == nothing_to_message(mode),
{
    let use_before = match mode {
        UndoRedoMode::Undo => true,
        UndoRedoMode::Redo => false,
    };
    match op {
        None => {
            let msg = match mode {
                UndoRedoMode::Undo => "没有可撤销的操作".to_owned(),
                UndoRedoMode::Redo => "没有可重做的操作".to_owned(),
            };
            Err(AppError::BadRequest(msg))
        },
        Some(op) => {
            let (steps, affected_block_ids, affected_document_ids) = plan_restore(changes, use_before);
            let action = op.action.as_str().to_owned();
            Ok(
                UndoRedoPlan {
                    result: UndoRedoResult {
                        operation_id: op.id,
                        affected_block_ids,
                        affected_document_ids,
                        action,
                    },
                    steps,
                    mark_undone: use_before,
                },
            )
        },
    }
}

/// Plans undoing `op`, the latest operation of its document not yet undone
/// (`None` when there is none), whose changes are `changes`: each change's
/// `before` snapshot is written back.
pub fn undo(op: Option<Operation>, changes: &Vec<Change>) -> (r: Result<UndoRedoPlan, AppError>)
    ensures
        r is Ok <==> op is Some,
        r matches Ok(p) ==> plan_ok(p, op->Some_0, changes@, UndoRedoMode::Undo),
        r matches Err(e) ==> e matches AppError::BadRequest(msg) && msg@ == nothing_to_message(
            UndoRedoMode::Undo,
        ),
{
    plan_undo_redo(op, changes, UndoRedoMode::Undo)
}

/// Plans redoing `op`, the latest undone operation of its document (`None`
/// when there is none), whose changes are `changes`: each change's `after`
/// snapshot is written back.
pub fn redo(op: Option<Operation>, changes: &Vec<Change>) -> (r: Result<UndoRedoPlan, AppError>)
    ensures
        r is Ok <==> op is Some,
        r matches Ok(p) ==> plan_ok(p, op->Some_0, changes@, UndoRedoMode::Redo),
        r matches Err(e) ==> e matches AppError::BadRequest(msg) && msg@ == nothing_to_message(
            UndoRedoMode::Redo,
        ),
{
    plan_undo_redo(op, changes, UndoRedoMode::Redo)
}

/// Each document a restore touches is reported once.
pub proof fn law_affected_documents_unique(cs: Seq<Change>, use_before: bool)
    ensures
        affected_documents(cs, use_before).no_duplicates(),
    decreases cs.len(),
{
    if cs.len() > 0 {
        law_affected_documents_unique(cs.drop_last(), use_before);
    }
}

/// Restoring `c` writes back a snapshot of a block of document `d`.
pub open spec fn restores_into(c: Change, use_before: bool, d: Seq<char>) -> bool {
    match restored_snapshot(c, use_before) {
        Some(s) => s.document_id@ == d,
        None => false,
    }
}

/// Every document a restore reports is the document of a snapshot it writes
/// back.
pub proof fn law_affected_documents_from_snapshots(cs: Seq<Change>, use_before: bool, d: Seq<char>)
    requires
        affected_documents(cs, use_before).contains(d),
    ensures
        exists|i: int| 0 <= i < cs.len() && #[trigger] restores_into(cs[i], use_before, d),
    decreases cs.len(),
{
    let prev = affected_documents(cs.drop_last(), use_before);
    if prev.contains(d) {
        law_affected_documents_from_snapshots(cs.drop_last(), use_before, d);
        let i = choose|i: int| 0 <= i < cs.drop_last().len() && #[trigger] restores_into(cs.drop_last()[i], use_before, d);
        assert(cs[i] == cs.drop_last()[i]);
    } else {
        let i = cs.len() - 1;
        assert(restores_into(cs[i], use_before, d));
    }
}

// ─── History ─────────────────────────────────────────────────────

/// `s` lists change `c`.
pub open spec fn summary_of(s: ChangeSummary, c: Change) -> bool {
    s.block_id@ == c.block_id@ && s.change_type@ == change_type_name(c.change_type)
}

/// `e` lists operation `op` with the changes `cs`.
pub open spec fn entry_of(e: HistoryEntry, op: Operation, cs: Seq<Change>) -> bool {
    &&& e.operation_id@ == op.id@
    &&& e.action@ == action_name(op.action)
    &&& match (e.description, op.description) {
        (Some(a), Some(b)) => a@ == b@,
        (None, None) => true,
        _ => false,
    }
    &&& e.timestamp@ == op.timestamp@
    &&& e.undone == op.undone
    &&& e.changes@.len() == cs.len()
    &&& forall|k: int| 0 <= k < cs.len() ==> summary_of(#[trigger] e.changes@[k], cs[k])
}

/// The changes of `cs` that concern block `id`, in order.
pub open spec fn related_changes(cs: Seq<Change>, id: Seq<char>) -> Seq<Change>
    decreases cs.len(),
{
    if cs.len() == 0 {
        Seq::empty()
    } else if cs.last().block_id@ == id {
        related_changes(cs.drop_last(), id).push(cs.last())
    } else {
        related_changes(cs.drop_last(), id)
    }
}

fn history_entry(op: &Operation, changes: &Vec<Change>, only: Option<&str>) -> (r: HistoryEntry)
    ensures
        entry_of(
            r,
            *op,
            match only {
                Some(id) => related_changes(changes@, id@),
                None => changes@,
            },
        ),
{
    let ghost want = match only {
        Some(id) => related_changes(changes@, id@),
        None => changes@,
    };
    let mut summaries: Vec<ChangeSummary> = Vec::new();
    let mut i: usize = 0;
    while i < changes.len()
        invariant
            i <= changes@.len(),
            want == match only {
                Some(id) => related_changes(changes@, id@),
                None => changes@,
            },
            ({
                let got = match only {
                    Some(id) => related_changes(changes@.take(i as int), id@),
                    None => changes@.take(i as int),
                };
                &&& summaries@.len() == got.len()
                &&& forall|k: int| 0 <= k < got.len() ==> summary_of(#[trigger] summaries@[k], got[k])
            }),
        decreases changes.len() - i,
    {
        let ghost t = changes@.take(i + 1);
        proof {
            assert(t.drop_last() =~= changes@.take(i as int));
            assert(t.last() == changes@[i as int]);
        }
        let c = &changes[i];
        let keep = match only {
            Some(id) => str_eq(c.block_id.as_str(), id),
            None => true,
        };
        if keep {
            summaries.push(
                ChangeSummary { block_id: c.block_id.clone(), change_type: c.change_type.as_str().to_owned() },
            );
        }
        i += 1;
    }
    proof {
        assert(changes@.take(changes@.len() as int) =~= changes@);
    }
    let description = match &op.description {
        Some(d) => Some(d.clone()),
        None => None,
    };
    HistoryEntry {
        operation_id: op.id.clone(),
        action: op.action.as_str().to_owned(),
        description,
        timestamp: op.timestamp.clone(),
        undone: op.undone,
        changes: summaries,
    }
}

/// The history of a document: one entry per operation (as found, with its
/// changes), listing all its changes.
pub fn get_history(ops: &Vec<(Operation, Vec<Change>)>) -> (r: Vec<HistoryEntry>)
    ensures
        r@.len() == ops@.len(),
        forall|k: int| 0 <= k < ops@.len() ==> entry_of(#[trigger] r@[k], ops@[k].0, ops@[k].1@),
{
    let mut entries: Vec<HistoryEntry> = Vec::new();
    let mut i: usize = 0;
    while i < ops.len()
        invariant
            i <= ops@.len(),
            entries@.len() == i,
            forall|k: int| 0 <= k < i ==> entry_of(#[trigger] entries@[k], ops@[k].0, ops@[k].1@),
        decreases ops.len() - i,
    {
        let e = history_entry(&ops[i].0, &ops[i].1, None);
        entries.push(e);
        i += 1;
    }
    entries
}

/// The history of one block: `NotFound` when the block does not exist;
/// otherwise one entry per operation that touched it, listing only its
/// changes.
pub fn get_block_history(block_exists: bool, block_id: &str, ops: &Vec<(Operation, Vec<Change>)>) -> (r: Result<
    Vec<HistoryEntry>,
    AppError,
>)
    ensures
        r is Ok <==> block_exists,
        r matches Ok(es) ==> es@.len() == ops@.len() && forall|k: int|
            0 <= k < ops@.len() ==> entry_of(#[trigger] es@[k], ops@[k].0, related_changes(ops@[k].1@, block_id@)),
        r matches Err(e) ==> e matches AppError::NotFound(msg) && msg@ == "Block "@ + block_id@
            + " 不存在或已删除"@,
{
    if !block_exists {
        let mut msg = "Block ".to_owned();
        crate::text::push_str(&mut msg, block_id);
        crate::text::push_str(&mut msg, " 不存在或已删除");
        return Err(AppError::NotFound(msg));
    }
    let mut entries: Vec<HistoryEntry> = Vec::new();
    let mut i: usize = 0;
    while i < ops.len()
        invariant
            i <= ops@.len(),
            entries@.len() == i,
            forall|k: int|
                0 <= k < i ==> entry_of(#[trigger] entries@[k], ops@[k].0, related_changes(ops@[k].1@, block_id@)),
        decreases ops.len() - i,
    {
        let e = history_entry(&ops[i].0, &ops[i].1, Some(block_id));
        entries.push(e);
        i += 1;
    }
    Ok(entries)
}

} // verus!
