//! Operation log: the record of user operations that undo and redo replay.
//!
//! Every user operation yields one [`Operation`]; each block it touched
//! yields a [`Change`] holding the block's state before and after. Undo
//! restores the `before` states, redo the `after` states.

use vstd::prelude::*;
use crate::model::{status_name, Block};
use crate::text::str_eq;

verus! {

/// One user operation.
#[derive(Debug, Clone)]
pub struct Operation {
    /// Time-ordered unique identifier.
    pub id: String,
    /// Document the operation belongs to (undo and redo are per document).
    pub document_id: String,
    pub action: Action,
    /// Optional description, such as "split paragraph".
    pub description: Option<String>,
    /// When the operation happened (ISO 8601).
    pub timestamp: String,
    /// Whether the operation has been undone.
    pub undone: bool,
    /// Editor session that made the operation.
    pub editor_id: Option<String>,
}

/// Kind of a user operation.
#[derive(Debug, Clone, Copy, PartialEq, Eq, Structural)]
pub enum Action {
    Create,
    Update,
    Delete,
    Move,
    Restore,
    Split,
    Merge,
    BatchOps,
    Import,
}

/// Storage name of an action.
pub open spec fn action_name(a: Action) -> Seq<char> {
    match a {
        Action::Create => seq!['c', 'r', 'e', 'a', 't', 'e'],
        Action::Update => seq!['u', 'p', 'd', 'a', 't', 'e'],
        Action::Delete => seq!['d', 'e', 'l', 'e', 't', 'e'],
        Action::Move => seq!['m', 'o', 'v', 'e'],
        Action::Restore => seq!['r', 'e', 's', 't', 'o', 'r', 'e'],
        Action::Split => seq!['s', 'p', 'l', 'i', 't'],
        Action::Merge => seq!['m', 'e', 'r', 'g', 'e'],
        Action::BatchOps => seq!['b', 'a', 't', 'c', 'h', '_', 'o', 'p', 's'],
        Action::Import => seq!['i', 'm', 'p', 'o', 'r', 't'],
    }
}

/// The action stored under `s`, if any.
pub open spec fn action_named(s: Seq<char>) -> Option<Action> {
    if s == action_name(Action::Create) {
        Some(Action::Create)
    } else if s == action_name(Action::Update) {
        Some(Action::Update)
    } else if s == action_name(Action::Delete) {
        Some(Action::Delete)
    } else if s == action_name(Action::Move) {
        Some(Action::Move)
    } else if s == action_name(Action::Restore) {
        Some(Action::Restore)
    } else if s == action_name(Action::Split) {
        Some(Action::Split)
    } else if s == action_name(Action::Merge) {
        Some(Action::Merge)
    } else if s == action_name(Action::BatchOps) {
        Some(Action::BatchOps)
    } else if s == action_name(Action::Import) {
        Some(Action::Import)
    } else {
        None
    }
}

impl Action {
    /// Storage name of the action.
    pub fn as_str(&self) -> (r: &'static str)
        ensures
            r@ == action_name(*self),
    {
        proof {
            reveal_strlit("create");
            reveal_strlit("update");
            reveal_strlit("delete");
            reveal_strlit("move");
            reveal_strlit("restore");
            reveal_strlit("split");
            reveal_strlit("merge");
            reveal_strlit("batch_ops");
            reveal_strlit("import");
        }
        match self {
            Action::Create => "create",
            Action::Update => "update",
            Action::Delete => "delete",
            Action::Move => "move",
            Action::Restore => "restore",
            Action::Split => "split",
            Action::Merge => "merge",
            Action::BatchOps => "batch_ops",
            Action::Import => "import",
        }
    }

    /// The action stored under `s`; `None` for an unknown name.
    pub fn from_str_lossy(s: &str) -> (r: Option<Action>)
        ensures
            r == action_named(s@),
    {
        let names = [
            Action::Create,
            Action::Update,
            Action::Delete,
            Action::Move,
            Action::Restore,
            Action::Split,
            Action::Merge,
            Action::BatchOps,
            Action::Import,
        ];
        let mut i: usize = 0;
        while i < 9
            invariant
                i <= 9,
                names@ == seq![
                    Action::Create,
                    Action::Update,
                    Action::Delete,
                    Action::Move,
                    Action::Restore,
                    Action::Split,
                    Action::Merge,
                    Action::BatchOps,
                    Action::Import,
                ],
                forall|k: int| 0 <= k < i ==> s@ != action_name(#[trigger] names@[k]),
            decreases 9 - i,
        {
            let a = names[i];
            if str_eq(s, a.as_str()) {
                return Some(a);
            }
            i += 1;
        }
        None
    }
}

/// Reading back the stored name of an action gives the action.
pub proof fn law_action_name_roundtrip(a: Action)
    ensures
        action_named(action_name(a)) == Some(a),
{
}

/// A name that reads as an action is that action's stored name.
pub proof fn law_action_named_inverse(s: Seq<char>)
    ensures
        action_named(s) matches Some(a) ==> action_name(a) == s,
{
}

/// One block touched by an operation.
#[derive(Debug, Clone)]
pub struct Change {
    /// Row identifier (0 until stored).
    pub id: i64,
    pub operation_id: String,
    pub block_id: String,
    pub change_type: ChangeType,
    /// State before the operation (`None` for a creation).
    pub before: Option<BlockSnapshot>,
    /// State after the operation (`None` for a deletion).
    pub after: Option<BlockSnapshot>,
}

/// Kind of change a block underwent.
#[derive(Debug, Clone, Copy, PartialEq, Eq, Structural)]
pub enum ChangeType {
    Created,
    Updated,
    Deleted,
    Moved,
    Restored,
    /// Hung under another parent (children of a merged block).
    Reparented,
}

/// Storage name of a change type.
pub open spec fn change_type_name(c: ChangeType) -> Seq<char> {
    match c {
        ChangeType::Created => seq!['c', 'r', 'e', 'a', 't', 'e', 'd'],
        ChangeType::Updated => seq!['u', 'p', 'd', 'a', 't', 'e', 'd'],
        ChangeType::Deleted => seq!['d', 'e', 'l', 'e', 't', 'e', 'd'],
        ChangeType::Moved => seq!['m', 'o', 'v', 'e', 'd'],
        ChangeType::Restored => seq!['r', 'e', 's', 't', 'o', 'r', 'e', 'd'],
        ChangeType::Reparented => seq!['r', 'e', 'p', 'a', 'r', 'e', 'n', 't', 'e', 'd'],
    }
}

/// The change type stored under `s`, if any.
pub open spec fn change_type_named(s: Seq<char>) -> Option<ChangeType> {
    if s == change_type_name(ChangeType::Created) {
        Some(ChangeType::Created)
    } else if s == change_type_name(ChangeType::Updated) {
        Some(ChangeType::Updated)
    } else if s == change_type_name(ChangeType::Deleted) {
        Some(ChangeType::Deleted)
    } else if s == change_type_name(ChangeType::Moved) {
        Some(ChangeType::Moved)
    } else if s == change_type_name(ChangeType::Restored) {
        Some(ChangeType::Restored)
    } else if s == change_type_name(ChangeType::Reparented) {
        Some(ChangeType::Reparented)
    } else {
        None
    }
}

impl ChangeType {
    /// Storage name of the change type.
    pub fn as_str(&self) -> (r: &'static str)
        ensures
            r@ == change_type_name(*self),
    {
        proof {
            reveal_strlit("created");
            reveal_strlit("updated");
            reveal_strlit("deleted");
            reveal_strlit("moved");
            reveal_strlit("restored");
            reveal_strlit("reparented");
        }
        match self {
            ChangeType::Created => "created",
            ChangeType::Updated => "updated",
            ChangeType::Deleted => "deleted",
            ChangeType::Moved => "moved",
            ChangeType::Restored => "restored",
            ChangeType::Reparented => "reparented",
        }
    }

    /// The change type stored under `s`; `None` for an unknown name.
    pub fn from_str_lossy(s: &str) -> (r: Option<ChangeType>)
        ensures
            r == change_type_named(s@),
    {
        let names = [
            ChangeType::Created,
            ChangeType::Updated,
            ChangeType::Deleted,
            ChangeType::Moved,
            ChangeType::Restored,
            ChangeType::Reparented,
        ];
        let mut i: usize = 0;
        while i < 6
            invariant
                i <= 6,
                names@ == seq![
                    ChangeType::Created,
                    ChangeType::Updated,
                    ChangeType::Deleted,
                    ChangeType::Moved,
                    ChangeType::Restored,
                    ChangeType::Reparented,
                ],
                forall|k: int| 0 <= k < i ==> s@ != change_type_name(#[trigger] names@[k]),
            decreases 6 - i,
        {
            let c = names[i];
            if str_eq(s, c.as_str()) {
                return Some(c);
            }
            i += 1;
        }
        None
    }
}

/// Reading back the stored name of a change type gives the change type.
pub proof fn law_change_type_name_roundtrip(c: ChangeType)
    ensures
        change_type_named(change_type_name(c)) == Some(c),
{
}

/// A name that reads as a change type is that change type's stored name.
pub proof fn law_change_type_named_inverse(s: Seq<char>)
    ensures
        change_type_named(s) matches Some(c) ==> change_type_name(c) == s,
{
}

/// The state of a block that undo and redo restore (the identifier is kept
/// on the [`Change`]).
#[derive(Debug, Clone)]
pub struct BlockSnapshot {
    pub parent_id: String,
    pub document_id: String,
    pub position: String,
    /// The block type, as JSON.
    pub block_type: String,
    pub content: Vec<u8>,
    /// The properties, as JSON.
    pub properties: String,
    /// Storage name of the status.
    pub status: String,
}

impl BlockSnapshot {
    /// Snapshot of `block`, given the JSON text of its block type and of its
    /// properties.
    pub fn from_block(block: &Block, block_type_json: String, properties_json: String) -> (r: Self)
        ensures
            r.parent_id@ == block.parent_id@,
            r.document_id@ == block.document_id@,
            r.position@ == block.position@,
            r.block_type == block_type_json,
            r.content@ == block.content@,
            r.properties == properties_json,
            r.status@ == status_name(block.status),
    {
        BlockSnapshot {
            parent_id: block.parent_id.clone(),
            document_id: block.document_id.clone(),
            position: block.position.clone(),
            block_type: block_type_json,
            content: block.content.clone(),
            properties: properties_json,
            status: block.status.as_str().to_owned(),
        }
    }
}

/// What an undo or redo did.
#[derive(Debug, Clone)]
pub struct UndoRedoResult {
    /// The operation undone or redone.
    pub operation_id: String,
    /// Blocks whose state was restored.
    pub affected_block_ids: Vec<String>,
    /// Documents touched, each once.
    pub affected_document_ids: Vec<String>,
    /// Storage name of the operation's action.
    pub action: String,
}

/// One operation as the history lists it.
#[derive(Debug, Clone)]
pub struct HistoryEntry {
    pub operation_id: String,
    pub action: String,
    pub description: Option<String>,
    pub timestamp: String,
    pub undone: bool,
    pub changes: Vec<ChangeSummary>,
}

/// One change as the history lists it.
#[derive(Debug, Clone)]
pub struct ChangeSummary {
    pub block_id: String,
    pub change_type: String,
}

} // verus!
