//! Query strings.

use vstd::prelude::*;

verus! {

/// `?include_deleted=`: whether a deleted block is returned too.
#[derive(Debug)]
pub struct GetBlockQuery {
    pub include_deleted: bool,
}

/// `?format=` of an export.
#[derive(Debug)]
pub struct ExportQuery {
    pub format: String,
}

/// The export format when a request names none.
pub fn default_export_format() -> (r: String)
    ensures
        r@ == "markdown"@,
{
    "markdown".to_owned()
}

/// `?limit=` of a history listing.
#[derive(Debug)]
pub struct HistoryQuery {
    pub limit: u32,
}

/// The history length when a request names none.
pub fn default_history_limit() -> (r: u32)
    ensures
        r == 50,
{
    50
}

/// Roll a block back to `target_version`.
#[derive(Debug)]
pub struct RollbackReq {
    pub target_version: u64,
}

/// `?version=`: the version a write expects.
#[derive(Debug)]
pub struct VersionQuery {
    pub version: u64,
}

/// `?limit=&cursor=` of a children listing.
#[derive(Debug)]
pub struct ChildrenQuery {
    pub limit: u32,
    pub cursor: Option<String>,
}

/// The page size when a request names none.
pub fn default_limit() -> (r: u32)
    ensures
        r == 50,
{
    50
}

} // verus!
