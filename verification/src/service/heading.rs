//! Headings: level checks and the flat-list model of a document, in which
//! the blocks are listed in pre-order and each block's parent follows from
//! the heading levels before it.

use vstd::prelude::*;
use crate::error::AppError;
use crate::model::{Block, BlockType};
use crate::service::traits::BlockTypeOps;
use crate::text::{decimal, decimal_chars, from_chars, push_str, str_eq};
use crate::position::{after_spec, generate_after, generate_first, lex_lt, law_after_is_greater, law_after_keeps_valid, valid_pos};
use crate::model::{copy_block, now_iso, same_block, BlockStatus};
use crate::service::block::{copy_rows, versions_fit};
use crate::service::outline::{copies_of, flat_row_list, flat_rows, lemma_copies_flat, lemma_rearranged_flat, rebuild_tree, tree_rebuilt};
use crate::service::store::{index_of, lemma_index_unique, live_row, store_wf, BlockStore};

verus! {

/// Behaviour of `Heading` blocks.
pub struct HeadingOps;

/// The level a block type carries (0 for a type that is not a heading).
pub open spec fn type_level(bt: BlockType) -> nat {
    match bt {
        BlockType::Heading { level } => level as nat,
        _ => 0,
    }
}

/// A heading level outside `1..=6`.
pub open spec fn bad_heading_level(bt: BlockType) -> bool {
    bt is Heading && !(1 <= type_level(bt) <= 6)
}

/// The message for a heading level outside `1..=6`.
pub open spec fn heading_level_message(bt: BlockType) -> Seq<char> {
    "Heading level 必须在 1-6 之间，实际为 "@ + decimal(type_level(bt))
}

impl BlockTypeOps for HeadingOps {
    fn use_tree_move() -> (r: bool)
        ensures
            !r,
    {
        false
    }

    /// Headings move through the document's flat list.
    fn use_flat_list_move() -> (r: bool)
        ensures
            r,
    {
        true
    }

    /// A heading's level must lie in `1..=6`.
    fn validate_on_create(block_type: &BlockType) -> (r: Result<(), AppError>)
        ensures
            r is Ok <==> !bad_heading_level(*block_type),
            r matches Err(e) ==> e matches AppError::BadRequest(msg) && msg@ == heading_level_message(*block_type),
    {
        if let BlockType::Heading { level } = block_type {
            if !(*level >= 1 && *level <= 6) {
                let mut msg = "Heading level 必须在 1-6 之间，实际为 ".to_owned();
                let d = decimal_chars(*level as usize);
                let ds = from_chars(d.as_slice());
                push_str(&mut msg, ds.as_str());
                return Err(AppError::BadRequest(msg));
            }
        }
        Ok(())
    }
}

/// Whether a block is a heading.
pub open spec fn is_heading(b: Block) -> bool {
    b.block_type is Heading
}

/// A block's heading level (0 for other blocks).
pub open spec fn level_of(b: Block) -> nat {
    type_level(b.block_type)
}

/// The heading level of a block, 0 when it is not a heading.
pub fn heading_level(block: &Block) -> (r: u8)
    ensures
        r == level_of(*block),
{
    match &block.block_type {
        BlockType::Heading { level } => *level,
        _ => 0,
    }
}

fn is_heading_block(block: &Block) -> (r: bool)
    ensures
        r == is_heading(*block),
{
    match &block.block_type {
        BlockType::Heading { .. } => true,
        _ => false,
    }
}

// ─── Subtrees in the flat list ───────────────────────────────────

/// First index from `i` on holding a heading of level at most `lvl` (the
/// length when there is none).
pub open spec fn section_end(flat: Seq<Block>, i: int, lvl: nat) -> int
    decreases flat.len() - i,
{
    if !(0 <= i < flat.len()) {
        flat.len() as int
    } else if is_heading(flat[i]) && level_of(flat[i]) <= lvl {
        i
    } else {
        section_end(flat, i + 1, lvl)
    }
}

/// Some block among `flat[start..end]` has identifier `id`.
pub open spec fn id_among(flat: Seq<Block>, start: int, end: int, id: Seq<char>) -> bool {
    exists|k: int| start <= k < end && (#[trigger] flat[k]).id@ == id
}

/// End of the run from `i` on of blocks whose parent is in
/// `flat[start..]` before them.
pub open spec fn chain_end(flat: Seq<Block>, start: int, i: int) -> int
    decreases flat.len() - i,
{
    if 0 <= i < flat.len() && id_among(flat, start, i, flat[i].parent_id@) {
        chain_end(flat, start, i + 1)
    } else {
        i
    }
}

/// End (exclusive) of the subtree of `flat[start]`: for a heading, up to
/// the next heading of the same or a higher rank; for another block, the
/// run of its descendants that follows it.
pub open spec fn subtree_end(flat: Seq<Block>, start: int) -> int {
    if is_heading(flat[start]) {
        section_end(flat, start + 1, level_of(flat[start]))
    } else {
        chain_end(flat, start, start + 1)
    }
}

pub proof fn lemma_section_end(flat: Seq<Block>, i: int, lvl: nat)
    requires
        0 <= i <= flat.len(),
    ensures
        i <= section_end(flat, i, lvl) <= flat.len(),
    decreases flat.len() - i,
{
    if i < flat.len() {
        lemma_section_end(flat, i + 1, lvl);
    }
}

pub proof fn lemma_chain_end(flat: Seq<Block>, start: int, i: int)
    requires
        0 <= i <= flat.len(),
    ensures
        i <= chain_end(flat, start, i) <= flat.len(),
    decreases flat.len() - i,
{
    if i < flat.len() {
        lemma_chain_end(flat, start, i + 1);
    }
}

/// Whether some string in `v` equals `s`.
fn contains_str(v: &Vec<String>, s: &str) -> (r: bool)
    ensures
        r == exists|k: int| 0 <= k < v@.len() && (#[trigger] v@[k])@ == s@,
{
    let mut i: usize = 0;
    while i < v.len()
        invariant
            i <= v@.len(),
            forall|k: int| 0 <= k < i ==> (#[trigger] v@[k])@ != s@,
        decreases v.len() - i,
    {
        if str_eq(v[i].as_str(), s) {
            return true;
        }
        i += 1;
    }
    false
}

/// First index from `i` on holding a heading of level at most `level`.
fn section_end_index(flat: &Vec<Block>, i: usize, level: u8) -> (r: usize)
    requires
        i <= flat@.len(),
    ensures
        r == section_end(flat@, i as int, level as nat),
        i <= r <= flat@.len(),
{
    let mut k = i;
    proof {
        lemma_section_end(flat@, k as int, level as nat);
    }
    while k < flat.len()
        invariant
            i <= k <= flat@.len(),
            section_end(flat@, k as int, level as nat) == section_end(flat@, i as int, level as nat),
        decreases flat.len() - k,
    {
        if is_heading_block(&flat[k]) && heading_level(&flat[k]) <= level {
            assert(section_end(flat@, k as int, level as nat) == k as int);
            return k;
        }
        k += 1;
    }
    k
}

/// Index just past the subtree of `flat[start]` (see `subtree_end`).
pub fn find_subtree_end(flat: &Vec<Block>, start: usize) -> (r: usize)
    requires
        start < flat@.len(),
    ensures
        r == subtree_end(flat@, start as int),
        start < r <= flat@.len(),
{
    let n = flat.len();
    if is_heading_block(&flat[start]) {
        let level = heading_level(&flat[start]);
        let mut i = start + 1;
        proof {
            lemma_section_end(flat@, i as int, level as nat);
        }
        while i < flat.len()
            invariant
                start < i <= flat@.len(),
                is_heading(flat@[start as int]),
                level == level_of(flat@[start as int]),
                section_end(flat@, i as int, level as nat) == section_end(flat@, start + 1, level as nat),
            decreases flat.len() - i,
        {
            if is_heading_block(&flat[i]) && heading_level(&flat[i]) <= level {
                assert(section_end(flat@, i as int, level as nat) == i as int);
                return i;
            }
            i += 1;
        }
        flat.len()
    } else {
        let mut ids: Vec<String> = Vec::new();
        ids.push(flat[start].id.clone());
        let mut end = start + 1;
        proof {
            lemma_chain_end(flat@, start as int, end as int);
        }
        while end < flat.len()
            invariant
                start < end <= flat@.len(),
                !is_heading(flat@[start as int]),
                ids@.len() == end - start,
                forall|k: int| 0 <= k < ids@.len() ==> (#[trigger] ids@[k])@ == flat@[start + k].id@,
                chain_end(flat@, start as int, end as int) == chain_end(flat@, start as int, start + 1),
            decreases flat.len() - end,
        {
            let found = contains_str(&ids, flat[end].parent_id.as_str());
            proof {
                let p = flat@[end as int].parent_id@;
                if found {
                    let k = choose|k: int| 0 <= k < ids@.len() && (#[trigger] ids@[k])@ == p;
                    assert(flat@[start + k].id@ == p);
                    assert(id_among(flat@, start as int, end as int, p));
                } else {
                    assert forall|k: int| start <= k < end implies (#[trigger] flat@[k]).id@ != p by {
                        assert(ids@[k - start]@ == flat@[k].id@);
                    }
                }
            }
            if found {
                ids.push(flat[end].id.clone());
                end += 1;
            } else {
                assert(chain_end(flat@, start as int, end as int) == end as int);
                return end;
            }
        }
        end
    }
}

// ─── Parents from heading levels ─────────────────────────────────

/// The levels a block's parent must lie below: its own level for a
/// heading; any level (all are below 256) for another block.
pub open spec fn parent_limit(b: Block) -> nat {
    if is_heading(b) {
        level_of(b)
    } else {
        256
    }
}

/// The last heading before index `i` whose level is below `lim`.
pub open spec fn nearest_below(flat: Seq<Block>, i: int, lim: nat) -> Option<int>
    decreases i,
{
    if i <= 0 {
        None
    } else if is_heading(flat[i - 1]) && level_of(flat[i - 1]) < lim {
        Some(i - 1)
    } else {
        nearest_below(flat, i - 1, lim)
    }
}

/// The parent the heading levels give `flat[i]`: the nearest heading
/// before it of a lower level (any heading, for a block that is not one),
/// or the document itself.
pub open spec fn tree_parent(doc_id: Seq<char>, flat: Seq<Block>, i: int) -> Seq<char> {
    match nearest_below(flat, i, parent_limit(flat[i])) {
        Some(j) => flat[j].id@,
        None => doc_id,
    }
}

pub proof fn lemma_nearest_below(flat: Seq<Block>, i: int, lim: nat)
    requires
        0 <= i <= flat.len(),
    ensures
        match nearest_below(flat, i, lim) {
            Some(n) => 0 <= n < i && is_heading(flat[n]) && level_of(flat[n]) < lim && forall|k: int|
                n < k < i ==> !(is_heading(#[trigger] flat[k]) && level_of(flat[k]) < lim),
            None => forall|k: int| 0 <= k < i ==> !(is_heading(#[trigger] flat[k]) && level_of(flat[k]) < lim),
        },
    decreases i,
{
    if i > 0 {
        lemma_nearest_below(flat, i - 1, lim);
    }
}

/// The stack of headings still open after `flat[..i]`: increasing in index
/// and level; every heading before `i` is on it or closed by a later
/// heading of the same or a higher rank; nothing after an open heading
/// has a level at or above its rank.
#[verifier::opaque]
pub open spec fn open_headings(flat: Seq<Block>, s: Seq<usize>, i: int) -> bool {
    &&& forall|m: int| 0 <= m < s.len() ==> (#[trigger] s[m]) < i && is_heading(flat[s[m] as int])
    &&& forall|m: int, n: int|
        0 <= m < n < s.len() ==> (#[trigger] s[m]) < (#[trigger] s[n]) && level_of(flat[s[m] as int])
            < level_of(flat[s[n] as int])
    &&& forall|j: int|
        0 <= j < i && is_heading(#[trigger] flat[j]) ==> (exists|m: int| 0 <= m < s.len() && s[m] == j)
            || (exists|k: int| j < k < i && is_heading(flat[k]) && level_of(flat[k]) <= level_of(flat[j]))
    &&& forall|m: int, k: int|
        0 <= m < s.len() && s[m] < k < i && is_heading(#[trigger] flat[k]) ==> level_of(flat[k]) > level_of(
            #[trigger] flat[s[m] as int],
        )
}

/// With the open headings `s`, the nearest heading before `i` below `lim`
/// is the last of the first `t` entries of `s`, where those are exactly
/// the entries below `lim`.
proof fn lemma_open_nearest(flat: Seq<Block>, s: Seq<usize>, i: int, lim: nat, t: int)
    requires
        0 <= i <= flat.len(),
        open_headings(flat, s, i),
        0 <= t <= s.len(),
        forall|m: int| 0 <= m < t ==> level_of(#[trigger] flat[s[m] as int]) < lim,
        forall|m: int| t <= m < s.len() ==> level_of(#[trigger] flat[s[m] as int]) >= lim,
    ensures
        nearest_below(flat, i, lim) == (if t == 0 {
            None
        } else {
            Some(s[t - 1] as int)
        }),
{
    reveal(open_headings);
    lemma_nearest_below(flat, i, lim);
    match nearest_below(flat, i, lim) {
        Some(n) => {
            assert(is_heading(flat[n]));
            if !(exists|m: int| 0 <= m < s.len() && s[m] == n) {
                let k = choose|k: int| n < k < i && is_heading(flat[k]) && level_of(flat[k]) <= level_of(flat[n]);
                assert(!(is_heading(flat[k]) && level_of(flat[k]) < lim));
            }
            let m = choose|m: int| 0 <= m < s.len() && s[m] == n;
            assert(level_of(flat[s[m] as int]) < lim);
            assert(m < t);
            if m < t - 1 {
                let m2 = t - 1;
                assert(s[m] < s[m2]);
                assert(level_of(flat[s[m2] as int]) < lim);
                assert(is_heading(flat[s[m2] as int]));
                assert(!(is_heading(flat[s[m2] as int]) && level_of(flat[s[m2] as int]) < lim));
            }
        },
        None => {
            if t > 0 {
                assert(is_heading(flat[s[0] as int]));
                assert(level_of(flat[s[0] as int]) < lim);
                assert(!(is_heading(flat[s[0] as int]) && level_of(flat[s[0] as int]) < lim));
            }
        },
    }
}

/// The stack holds headings before `i`, in increasing order of level.
proof fn lemma_open_facts(flat: Seq<Block>, s: Seq<usize>, i: int)
    requires
        open_headings(flat, s, i),
    ensures
        forall|m: int| 0 <= m < s.len() ==> (#[trigger] s[m]) < i && is_heading(flat[s[m] as int]),
        forall|m: int, n: int|
            0 <= m < n < s.len() ==> level_of(flat[(#[trigger] s[m]) as int]) < level_of(flat[(#[trigger] s[n]) as int]),
{
    reveal(open_headings);
}

/// No heading is open before the first block.
proof fn lemma_open_empty(flat: Seq<Block>)
    ensures
        open_headings(flat, Seq::empty(), 0),
{
    reveal(open_headings);
}

/// Closing the open headings at or above `flat[i]`'s rank and opening
/// `flat[i]` keeps the stack right.
proof fn lemma_open_push(flat: Seq<Block>, s: Seq<usize>, i: usize, t: int)
    requires
        i < flat.len(),
        open_headings(flat, s, i as int),
        is_heading(flat[i as int]),
        0 <= t <= s.len(),
        forall|m: int| 0 <= m < t ==> level_of(#[trigger] flat[s[m] as int]) < level_of(flat[i as int]),
        forall|m: int| t <= m < s.len() ==> level_of(#[trigger] flat[s[m] as int]) >= level_of(flat[i as int]),
    ensures
        open_headings(flat, s.take(t).push(i), i + 1),
{
    reveal(open_headings);
    let s2 = s.take(t).push(i);
    assert forall|m: int| 0 <= m < s2.len() implies (#[trigger] s2[m]) < i + 1 && is_heading(flat[s2[m] as int]) by {
        if m < t {
            assert(s2[m] == s[m]);
        }
    }
    assert forall|m: int, n: int| 0 <= m < n < s2.len() implies (#[trigger] s2[m]) < (#[trigger] s2[n])
        && level_of(flat[s2[m] as int]) < level_of(flat[s2[n] as int]) by {
        assert(s2[m] == s[m]);
        if n < t {
            assert(s2[n] == s[n]);
        }
    }
    assert forall|j: int| 0 <= j < i + 1 && is_heading(#[trigger] flat[j]) implies (exists|m: int|
        0 <= m < s2.len() && s2[m] == j) || (exists|k: int|
        j < k < i + 1 && is_heading(flat[k]) && level_of(flat[k]) <= level_of(flat[j])) by {
        if j == i {
            assert(s2[t] == j);
        } else if exists|m: int| 0 <= m < s.len() && s[m] == j {
            let m = choose|m: int| 0 <= m < s.len() && s[m] == j;
            if m < t {
                assert(s2[m] == j);
            } else {
                assert(level_of(flat[s[m] as int]) >= level_of(flat[i as int]));
                assert(j < i && is_heading(flat[i as int]) && level_of(flat[i as int]) <= level_of(flat[j]));
            }
        } else {
            let k = choose|k: int| j < k < i && is_heading(flat[k]) && level_of(flat[k]) <= level_of(flat[j]);
            assert(j < k < i + 1);
        }
    }
    assert forall|m: int, k: int| 0 <= m < s2.len() && s2[m] < k < i + 1 && is_heading(#[trigger] flat[k]) implies level_of(
        flat[k],
    ) > level_of(#[trigger] flat[s2[m] as int]) by {
        if m < t {
            assert(s2[m] == s[m]);
            if k < i {
                assert(level_of(flat[k]) > level_of(flat[s[m] as int]));
            } else {
                assert(level_of(flat[s[m] as int]) < level_of(flat[i as int]));
            }
        }
    }
}

/// A block that is not a heading leaves the stack as it is.
proof fn lemma_open_skip(flat: Seq<Block>, s: Seq<usize>, i: int)
    requires
        0 <= i < flat.len(),
        open_headings(flat, s, i),
        !is_heading(flat[i]),
    ensures
        open_headings(flat, s, i + 1),
{
    reveal(open_headings);
    assert forall|j: int| 0 <= j < i + 1 && is_heading(#[trigger] flat[j]) implies (exists|m: int|
        0 <= m < s.len() && s[m] == j) || (exists|k: int|
        j < k < i + 1 && is_heading(flat[k]) && level_of(flat[k]) <= level_of(flat[j])) by {
        assert(j < i);
        if !(exists|m: int| 0 <= m < s.len() && s[m] == j) {
            let k = choose|k: int| j < k < i && is_heading(flat[k]) && level_of(flat[k]) <= level_of(flat[j]);
            assert(j < k < i + 1);
        }
    }
}

/// The parent of every block of `flat` as the heading levels give it (see
/// `tree_parent`); `doc_id` for the blocks before any suitable heading.
pub fn correct_parents(doc_id: &str, flat: &Vec<Block>) -> (r: Vec<String>)
    ensures
        r@.len() == flat@.len(),
        forall|i: int| 0 <= i < flat@.len() ==> (#[trigger] r@[i])@ == tree_parent(doc_id@, flat@, i),
{
    let mut stack: Vec<usize> = Vec::new();
    let mut parents: Vec<String> = Vec::new();
    let mut i: usize = 0;
    proof {
        lemma_open_empty(flat@);
    }
    while i < flat.len()
        invariant
            i <= flat@.len(),
            parents@.len() == i,
            forall|k: int| 0 <= k < i ==> (#[trigger] parents@[k])@ == tree_parent(doc_id@, flat@, k),
            open_headings(flat@, stack@, i as int),
        decreases flat.len() - i,
    {
        let ghost lim = parent_limit(flat@[i as int]);
        let heading = is_heading_block(&flat[i]);
        let level = heading_level(&flat[i]);
        let mut t = stack.len();
        proof {
            lemma_open_facts(flat@, stack@, i as int);
        }
        if heading {
            while t > 0 && heading_level(&flat[stack[t - 1]]) >= level
                invariant
                    i < flat@.len(),
                    t <= stack@.len(),
                    level == level_of(flat@[i as int]),
                    forall|m: int| 0 <= m < stack@.len() ==> (#[trigger] stack@[m]) < i,
                    forall|m: int| t <= m < stack@.len() ==> level_of(#[trigger] flat@[stack@[m] as int]) >= level,
                decreases t,
            {
                t -= 1;
            }
        }
        proof {
            assert forall|m: int| 0 <= m < t implies level_of(#[trigger] flat@[stack@[m] as int]) < lim by {
                if heading {
                    if m < t - 1 {
                        assert(level_of(flat@[stack@[m] as int]) < level_of(flat@[stack@[t - 1] as int]));
                    }
                } else {
                    assert(is_heading(flat@[stack@[m] as int]));
                }
            }
            if !heading {
                assert(t == stack@.len());
            }
            lemma_open_nearest(flat@, stack@, i as int, lim, t as int);
        }
        let parent: String = if t > 0 {
            flat[stack[t - 1]].id.clone()
        } else {
            doc_id.to_owned()
        };
        let ghost p0 = parents@;
        parents.push(parent);
        proof {
            assert forall|k: int| 0 <= k < i + 1 implies (#[trigger] parents@[k])@ == tree_parent(doc_id@, flat@, k) by {
                if k < i {
                    assert(parents@[k] == p0[k]);
                }
            }
        }
        if heading {
            proof {
                lemma_open_push(flat@, stack@, i, t as int);
            }
            stack.truncate(t);
            stack.push(i);
        } else {
            proof {
                lemma_open_skip(flat@, stack@, i as int);
            }
        }
        i += 1;
    }
    parents
}

// ─── Moving headings in the flat list ────────────────────────────

/// What a collapsed-heading drag asks: move heading `id` with its whole
/// section before `before_id` or after `after_id`.
#[derive(Debug, Clone)]
pub struct MoveHeadingTreeReq {
    pub id: String,
    pub editor_id: Option<String>,
    pub before_id: Option<String>,
    pub after_id: Option<String>,
}

/// Index of the first block of `flat` with identifier `id`.
pub open spec fn index_of_id(flat: Seq<Block>, id: Seq<char>) -> Option<int>
    decreases flat.len(),
{
    if flat.len() == 0 {
        None
    } else {
        match index_of_id(flat.drop_last(), id) {
            Some(k) => Some(k),
            None => if flat.last().id@ == id {
                Some(flat.len() - 1)
            } else {
                None
            },
        }
    }
}

pub proof fn lemma_index_of_id(flat: Seq<Block>, id: Seq<char>)
    ensures
        match index_of_id(flat, id) {
            Some(k) => 0 <= k < flat.len() && flat[k].id@ == id && forall|j: int| 0 <= j < k ==> (#[trigger] flat[j]).id@ != id,
            None => forall|j: int| 0 <= j < flat.len() ==> (#[trigger] flat[j]).id@ != id,
        },
    decreases flat.len(),
{
    if flat.len() > 0 {
        lemma_index_of_id(flat.drop_last(), id);
        assert forall|j: int| 0 <= j < flat.len() - 1 implies flat[j] == flat.drop_last()[j] by {}
    }
}

fn find_index(flat: &Vec<Block>, id: &str) -> (r: Option<usize>)
    ensures
        match r {
            Some(k) => index_of_id(flat@, id@) == Some(k as int),
            None => index_of_id(flat@, id@) is None,
        },
{
    proof {
        lemma_index_of_id(flat@, id@);
    }
    let mut i: usize = 0;
    while i < flat.len()
        invariant
            i <= flat@.len(),
            forall|j: int| 0 <= j < i ==> (#[trigger] flat@[j]).id@ != id@,
        decreases flat.len() - i,
    {
        if str_eq(flat[i].id.as_str(), id) {
            proof {
                lemma_index_of_id(flat@, id@);
                match index_of_id(flat@, id@) {
                    Some(k) => {
                        if k < i {
                            assert(flat@[k].id@ != id@);
                        }
                        if k > i {
                            assert(flat@[i as int].id@ != id@);
                        }
                    },
                    None => {
                        assert(flat@[i as int].id@ != id@);
                    },
                }
            }
            return Some(i);
        }
        i += 1;
    }
    proof {
        if let Some(k) = index_of_id(flat@, id@) {
            assert(flat@[k].id@ != id@);
        }
    }
    None
}

/// Where a moved piece goes in `rest`: before block `before_id`, else after
/// block `after_id` and its subtree, else at the end (also when the named
/// block is not found).
pub open spec fn insert_index(rest: Seq<Block>, before_id: Option<Seq<char>>, after_id: Option<Seq<char>>) -> int {
    match before_id {
        Some(b) => match index_of_id(rest, b) {
            Some(k) => k,
            None => rest.len() as int,
        },
        None => match after_id {
            Some(a) => match index_of_id(rest, a) {
                Some(k) => subtree_end(rest, k),
                None => rest.len() as int,
            },
            None => rest.len() as int,
        },
    }
}

/// The view of an optional string.
pub open spec fn opt_view(o: Option<&str>) -> Option<Seq<char>> {
    match o {
        Some(s) => Some(s@),
        None => None,
    }
}

fn find_insert_index(rest: &Vec<Block>, before_id: Option<&str>, after_id: Option<&str>) -> (r: usize)
    ensures
        r == insert_index(rest@, opt_view(before_id), opt_view(after_id)),
        r <= rest@.len(),
{
    proof {
        lemma_index_of_id(rest@, opt_view(before_id)->Some_0);
        lemma_index_of_id(rest@, opt_view(after_id)->Some_0);
    }
    match before_id {
        Some(bid) => match find_index(rest, bid) {
            Some(k) => k,
            None => rest.len(),
        },
        None => match after_id {
            Some(aid) => match find_index(rest, aid) {
                Some(k) => find_subtree_end(rest, k),
                None => rest.len(),
            },
            None => rest.len(),
        },
    }
}

/// The error raised when the block to move is missing from the flat list.
pub open spec fn not_in_flat_message() -> Seq<char> {
    "Heading 不在 flat list 中"@
}

/// Moves a single heading (its section stays in place) within the
/// document's flat list: it is taken out and put back before `before_id`,
/// after `after_id` and that block's subtree, or at the end.
pub fn move_heading_flat(flat: Vec<Block>, heading: Block, before_id: Option<&str>, after_id: Option<&str>) -> (r:
    Result<Vec<Block>, AppError>)
    ensures
        r is Ok <==> index_of_id(flat@, heading.id@) is Some,
        r matches Ok(v) ==> ({
            let rest = flat@.remove(index_of_id(flat@, heading.id@)->Some_0);
            v@ == rest.insert(insert_index(rest, opt_view(before_id), opt_view(after_id)), heading)
        }),
        r matches Err(e) ==> e matches AppError::Internal(msg) && msg@ == not_in_flat_message(),
{
    let mut flat = flat;
    let idx = match find_index(&flat, heading.id.as_str()) {
        Some(k) => k,
        None => {
            return Err(AppError::Internal("Heading 不在 flat list 中".to_owned()));
        },
    };
    proof {
        lemma_index_of_id(flat@, heading.id@);
    }
    flat.remove(idx);
    let ins = find_insert_index(&flat, before_id, after_id);
    flat.insert(ins, heading);
    Ok(flat)
}

/// The message for a block that is missing or deleted.
pub open spec fn missing_block_message(id: Seq<char>) -> Seq<char> {
    "Block "@ + id + " 不存在或已删除"@
}

/// The view of an optional owned string, as a slice.
pub open spec fn opt_string_view(o: Option<String>) -> Option<Seq<char>> {
    match o {
        Some(s) => Some(s@),
        None => None,
    }
}

fn as_opt_str(o: &Option<String>) -> (r: Option<&str>)
    ensures
        opt_view(r) == opt_string_view(*o),
{
    match o {
        Some(s) => Some(s.as_str()),
        None => None,
    }
}

/// `flat` with the section starting at heading `h` (of level `lvl`) taken
/// out and put back at `insert_index` of what remains.
pub open spec fn section_moved(flat: Seq<Block>, h: int, lvl: nat, before_id: Option<String>, after_id: Option<String>) -> Seq<Block> {
    let end = section_end(flat, h + 1, lvl);
    let sub = flat.subrange(h, end);
    let rest = flat.take(h) + flat.skip(end);
    let ins = insert_index(rest, opt_string_view(before_id), opt_string_view(after_id));
    rest.take(ins) + sub + rest.skip(ins)
}

/// The flat list after moving the heading `current` (the block the request
/// names, `None` when missing) with its section: the section runs from the
/// heading to the next heading of the same or a higher rank; it is taken
/// out and put back before `before_id`, after `after_id` and that block's
/// subtree, or at the end.
pub fn move_section(current: Option<Block>, flat: Vec<Block>, req: &MoveHeadingTreeReq) -> (r: Result<
    Vec<Block>,
    AppError,
>)
    ensures
        match current {
            None => r matches Err(e) && e matches AppError::NotFound(msg) && msg@ == missing_block_message(req.id@),
            Some(c) => if !is_heading(c) {
                r matches Err(e) && e matches AppError::BadRequest(msg) && msg@
                    == "move_heading_tree 只能移动 Heading 类型"@
            } else {
                match index_of_id(flat@, req.id@) {
                    None => r matches Err(e) && e matches AppError::Internal(msg) && msg@ == not_in_flat_message(),
                    Some(h) => r matches Ok(v) && v@ == section_moved(flat@, h, level_of(c), req.before_id, req.after_id),
                }
            },
        },
{
    let cur = match current {
        Some(c) => c,
        None => {
            let mut msg = "Block ".to_owned();
            push_str(&mut msg, req.id.as_str());
            push_str(&mut msg, " 不存在或已删除");
            return Err(AppError::NotFound(msg));
        },
    };
    if !is_heading_block(&cur) {
        return Err(AppError::BadRequest("move_heading_tree 只能移动 Heading 类型".to_owned()));
    }
    let mut flat = flat;
    let n = flat.len();
    let h = match find_index(&flat, req.id.as_str()) {
        Some(k) => k,
        None => {
            return Err(AppError::Internal("Heading 不在 flat list 中".to_owned()));
        },
    };
    proof {
        lemma_index_of_id(flat@, req.id@);
    }
    let level = heading_level(&cur);
    let end = section_end_index(&flat, h + 1, level);
    let ghost f0 = flat@;
    let mut tail = flat.split_off(end);
    let mut sub = flat.split_off(h);
    flat.append(&mut tail);
    proof {
        assert(flat@ =~= f0.take(h as int) + f0.skip(end as int));
        assert(sub@ =~= f0.subrange(h as int, end as int));
    }
    let ghost rest = flat@;
    let ins = find_insert_index(&flat, as_opt_str(&req.before_id), as_opt_str(&req.after_id));
    let mut after_part = flat.split_off(ins);
    flat.append(&mut sub);
    flat.append(&mut after_part);
    proof {
        assert(flat@ =~= rest.take(ins as int) + f0.subrange(h as int, end as int) + rest.skip(ins as int));
    }
    Ok(flat)
}

// ─── Rebuilding the tree from the flat list ──────────────────────

/// The blocks of `flat` grouped by the parent `parents` gives them: each
/// parent once, in order of first appearance, with the indices of its
/// blocks in flat-list order.
pub open spec fn groups_ok(parents: Seq<Seq<char>>, groups: Seq<(Seq<char>, Seq<usize>)>) -> bool {
    &&& forall|a: int, b: int| 0 <= a < b < groups.len() ==> (#[trigger] groups[a]).0 != (#[trigger] groups[b]).0
    &&& forall|g: int| 0 <= g < groups.len() ==> (#[trigger] groups[g]).1.len() > 0
    &&& forall|g: int, k: int|
        0 <= g < groups.len() && 0 <= k < groups[g].1.len() ==> (#[trigger] groups[g].1[k]) < parents.len()
            && parents[groups[g].1[k] as int] == groups[g].0
    &&& forall|g: int, k: int, l: int|
        0 <= g < groups.len() && 0 <= k < l < groups[g].1.len() ==> (#[trigger] groups[g].1[k]) < (
        #[trigger] groups[g].1[l])
    &&& forall|i: int| 0 <= i < parents.len() ==> #[trigger] grouped(groups, i)
}

/// Index `i` is listed in some group.
pub open spec fn grouped(groups: Seq<(Seq<char>, Seq<usize>)>, i: int) -> bool {
    exists|g: int, k: int| 0 <= g < groups.len() && 0 <= k < groups[g].1.len() && #[trigger] groups[g].1[k] == i
}

/// The view of a grouping.
pub open spec fn groups_view(v: Seq<(String, Vec<usize>)>) -> Seq<(Seq<char>, Seq<usize>)> {
    v.map_values(|e: (String, Vec<usize>)| (e.0@, e.1@))
}

/// Groups the blocks of the flat list by their parent (`parents[i]` is
/// the parent of block `i`).
#[verifier::spinoff_prover]
pub fn group_by_parent(parents: &Vec<String>) -> (r: Vec<(String, Vec<usize>)>)
    ensures
        groups_ok(parents@.map_values(|p: String| p@), groups_view(r@)),
{
    let ghost ps = parents@.map_values(|p: String| p@);
    let mut groups: Vec<(String, Vec<usize>)> = Vec::new();
    let mut i: usize = 0;
    while i < parents.len()
        invariant
            i <= parents@.len(),
            ps == parents@.map_values(|p: String| p@),
            groups_ok(ps.take(i as int), groups_view(groups@)),
        decreases parents.len() - i,
    {
        let ghost g0 = groups_view(groups@);
        let mut found: Option<usize> = None;
        let mut g: usize = 0;
        while g < groups.len()
            invariant
                g <= groups@.len(),
                i < parents@.len(),
                g0 == groups_view(groups@),
                found matches Some(f) ==> f < groups@.len() && g0[f as int].0 == parents@[i as int]@,
                found is None ==> forall|x: int| 0 <= x < g ==> (#[trigger] g0[x]).0 != parents@[i as int]@,
            decreases groups.len() - g,
        {
            if found.is_none() && str_eq(groups[g].0.as_str(), parents[i].as_str()) {
                found = Some(g);
            }
            g += 1;
        }
        proof {
            assert(ps.take(i + 1) =~= ps.take(i as int).push(parents@[i as int]@));
        }
        match found {
            Some(f) => {
                let mut entry: (String, Vec<usize>) = (String::new(), Vec::new());
                std::mem::swap(&mut entry, &mut groups[f]);
                entry.1.push(i);
                groups.set(f, entry);
                proof {
                    let g1 = groups_view(groups@);
                    let pt = ps.take(i + 1);
                    assert(g1 =~= g0.update(f as int, (g0[f as int].0, g0[f as int].1.push(i))));
                    assert forall|x: int| 0 <= x < g1.len() implies (#[trigger] g1[x]).1.len() > 0 by {
                        assert(g0[x].1.len() > 0);
                    }
                    assert forall|a: int, b: int| 0 <= a < b < g1.len() implies (#[trigger] g1[a]).0 != (#[trigger] g1[b]).0 by {
                        assert(g1[a].0 == g0[a].0);
                        assert(g1[b].0 == g0[b].0);
                    }
                    assert forall|x: int, k: int| 0 <= x < g1.len() && 0 <= k < g1[x].1.len() implies (
                    #[trigger] g1[x].1[k]) < pt.len() && pt[g1[x].1[k] as int] == g1[x].0 by {
                        if x != f || k < g0[x].1.len() {
                            assert(g1[x].1[k] == g0[x].1[k]);
                        }
                    }
                    assert forall|x: int, k: int, l: int| 0 <= x < g1.len() && 0 <= k < l < g1[x].1.len() implies (
                    #[trigger] g1[x].1[k]) < (#[trigger] g1[x].1[l]) by {
                        if x == f && l == g0[x].1.len() {
                            assert(g1[x].1[k] == g0[x].1[k]);
                            assert(g0[x].1[k] < i);
                        } else {
                            assert(g1[x].1[k] == g0[x].1[k]);
                            assert(g1[x].1[l] == g0[x].1[l]);
                        }
                    }
                    assert forall|y: int| 0 <= y < pt.len() implies #[trigger] grouped(g1, y) by {
                        if y < i {
                            assert(grouped(g0, y));
                            let (x, k) = choose|x: int, k: int| 0 <= x < g0.len() && 0 <= k < g0[x].1.len() && #[trigger] g0[x].1[k] == y;
                            assert(g1[x].1[k] == y);
                        } else {
                            assert(g1[f as int].1[g0[f as int].1.len() as int] == y);
                        }
                    }
                }
            },
            None => {
                let mut members: Vec<usize> = Vec::new();
                members.push(i);
                groups.push((parents[i].clone(), members));
                proof {
                    let g1 = groups_view(groups@);
                    let pt = ps.take(i + 1);
                    assert(g1 =~= g0.push((parents@[i as int]@, seq![i])));
                    assert forall|x: int| 0 <= x < g1.len() implies (#[trigger] g1[x]).1.len() > 0 by {
                        if x < g0.len() {
                            assert(g1[x] == g0[x]);
                        }
                    }
                    assert forall|x: int, k: int| 0 <= x < g1.len() && 0 <= k < g1[x].1.len() implies (
                    #[trigger] g1[x].1[k]) < pt.len() && pt[g1[x].1[k] as int] == g1[x].0 by {
                        if x < g0.len() {
                            assert(g1[x] == g0[x]);
                        }
                    }
                    assert forall|y: int| 0 <= y < pt.len() implies #[trigger] grouped(g1, y) by {
                        if y < i {
                            assert(grouped(g0, y));
                            let (x, k) = choose|x: int, k: int| 0 <= x < g0.len() && 0 <= k < g0[x].1.len() && #[trigger] g0[x].1[k] == y;
                            assert(g1[x] == g0[x]);
                        } else {
                            assert(g1[g0.len() as int].1[0] == y);
                        }
                    }
                }
            },
        }
        i += 1;
    }
    proof {
        assert(ps.take(parents@.len() as int) =~= ps);
    }
    groups
}

/// Where a group's positions start: right after the parent's current last
/// position, or `a0` when it has no children yet.
pub open spec fn start_position(max_pos: Option<Seq<char>>) -> Seq<char> {
    match max_pos {
        Some(m) => after_spec(m),
        None => seq!['a', '0'],
    }
}

/// The `k`-th position of a group starting at `first`: each one right after
/// the previous.
pub open spec fn group_position(first: Seq<char>, k: nat) -> Seq<char>
    decreases k,
{
    if k == 0 {
        first
    } else {
        after_spec(group_position(first, (k - 1) as nat))
    }
}

/// Fresh positions for `count` blocks hung under a parent whose last child
/// sits at `max_pos`: they follow it (or start at `a0`), each after the
/// previous.
pub fn group_positions(max_pos: Option<&str>, count: usize) -> (r: Vec<String>)
    ensures
        r@.len() == count,
        forall|k: int| 0 <= k < count ==> (#[trigger] r@[k])@ == group_position(start_position(opt_view(max_pos)), k as nat),
{
    let mut pos = match max_pos {
        Some(m) => generate_after(m),
        None => generate_first(),
    };
    let ghost first = start_position(opt_view(max_pos));
    let mut r: Vec<String> = Vec::new();
    let mut k: usize = 0;
    while k < count
        invariant
            k <= count,
            r@.len() == k,
            pos@ == group_position(first, k as nat),
            forall|j: int| 0 <= j < k ==> (#[trigger] r@[j])@ == group_position(first, j as nat),
        decreases count - k,
    {
        let next = generate_after(pos.as_str());
        r.push(pos);
        pos = next;
        k += 1;
    }
    r
}

/// A group's positions are valid when its first one is.
pub proof fn lemma_group_position_valid(first: Seq<char>, k: nat)
    requires
        valid_pos(first),
    ensures
        valid_pos(group_position(first, k)),
    decreases k,
{
    if k > 0 {
        lemma_group_position_valid(first, (k - 1) as nat);
        law_after_keeps_valid(group_position(first, (k - 1) as nat));
    }
}

/// A group's positions strictly increase.
pub proof fn law_group_positions_increase(first: Seq<char>, j: nat, k: nat)
    requires
        j < k,
    ensures
        lex_lt(group_position(first, j), group_position(first, k)),
    decreases k - j,
{
    law_after_is_greater(group_position(first, (k - 1) as nat));
    if j < k - 1 {
        law_group_positions_increase(first, j, (k - 1) as nat);
        crate::position::lemma_lex_lt_transitive(
            group_position(first, j),
            group_position(first, (k - 1) as nat),
            group_position(first, k),
        );
    }
}

// ─── Rearrangements of the flat list ─────────────────────────────

/// Where an insertion goes lies within the list.
pub proof fn lemma_insert_index(rest: Seq<Block>, before_id: Option<Seq<char>>, after_id: Option<Seq<char>>)
    ensures
        0 <= insert_index(rest, before_id, after_id) <= rest.len(),
{
    lemma_index_of_id(rest, before_id->Some_0);
    lemma_index_of_id(rest, after_id->Some_0);
    if let Some(a) = after_id {
        if let Some(k) = index_of_id(rest, a) {
            lemma_section_end(rest, k + 1, level_of(rest[k]));
            lemma_chain_end(rest, k, k + 1);
        }
    }
}

/// The block of the flat list that ends up at index `t` after moving the
/// section `flat[h..end]` to index `ins` of what remains.
pub open spec fn section_source(h: int, end: int, ins: int, t: int) -> int {
    let len = end - h;
    if t < ins {
        if t < h {
            t
        } else {
            t + len
        }
    } else if t < ins + len {
        h + t - ins
    } else {
        if t - len < h {
            t - len
        } else {
            t
        }
    }
}

/// Moving a section rearranges the flat list: each block comes from its own
/// index of the original list.
pub proof fn lemma_section_moved(flat: Seq<Block>, h: int, lvl: nat, before_id: Option<String>, after_id: Option<String>)
    requires
        0 <= h < flat.len(),
    ensures
        ({
            let end = section_end(flat, h + 1, lvl);
            let rest = flat.take(h) + flat.skip(end);
            let ins = insert_index(rest, opt_string_view(before_id), opt_string_view(after_id));
            let res = section_moved(flat, h, lvl, before_id, after_id);
            &&& res.len() == flat.len()
            &&& forall|t: int|
                0 <= t < res.len() ==> 0 <= #[trigger] section_source(h, end, ins, t) < flat.len() && res[t] == flat[section_source(
                    h,
                    end,
                    ins,
                    t,
                )]
            &&& forall|a: int, b: int|
                0 <= a < b < res.len() ==> #[trigger] section_source(h, end, ins, a) != #[trigger] section_source(h, end, ins, b)
        }),
{
    let end = section_end(flat, h + 1, lvl);
    lemma_section_end(flat, h + 1, lvl);
    let rest = flat.take(h) + flat.skip(end);
    let sub = flat.subrange(h, end);
    let ins = insert_index(rest, opt_string_view(before_id), opt_string_view(after_id));
    lemma_insert_index(rest, opt_string_view(before_id), opt_string_view(after_id));
    let res = section_moved(flat, h, lvl, before_id, after_id);
    assert(res == rest.take(ins) + sub + rest.skip(ins));
    let len = end - h;
    assert forall|u: int| 0 <= u < rest.len() implies rest[u] == flat[if u < h { u } else { u + len }] by {
        if u < h {
            assert(rest[u] == flat.take(h)[u]);
        } else {
            assert(rest[u] == flat.skip(end)[u - h]);
        }
    }
    assert forall|t: int|
        0 <= t < res.len() implies 0 <= #[trigger] section_source(h, end, ins, t) < flat.len() && res[t] == flat[section_source(
        h,
        end,
        ins,
        t,
    )] by {
        if t < ins {
            assert(res[t] == rest.take(ins)[t]);
            assert(rest.take(ins)[t] == rest[t]);
        } else if t < ins + len {
            assert(res[t] == sub[t - ins]);
        } else {
            assert(res[t] == rest.skip(ins)[t - ins - len]);
            assert(rest.skip(ins)[t - ins - len] == rest[t - len]);
        }
    }
}

// ─── Moving a section in the store ───────────────────────────────

/// A section move that fails: the block is missing, deleted or not a
/// heading, it is not in its document's flat list, or the document is
/// missing or deleted.
pub open spec fn section_move_refused(s: Seq<Block>, req: MoveHeadingTreeReq) -> bool {
    match live_row(s, req.id@) {
        None => true,
        Some(c) => !is_heading(c) || !flat_rows(s, c.document_id@).contains(index_of(s, req.id@)->0) || live_row(
            s,
            c.document_id@,
        ) is None,
    }
}

/// The error of a refused section move.
pub open spec fn section_move_error(s: Seq<Block>, req: MoveHeadingTreeReq, e: AppError) -> bool {
    match live_row(s, req.id@) {
        None => e matches AppError::NotFound(m) && m@ == missing_block_message(req.id@),
        Some(c) => if !is_heading(c) {
            e matches AppError::BadRequest(m) && m@ == "move_heading_tree 只能移动 Heading 类型"@
        } else if !flat_rows(s, c.document_id@).contains(index_of(s, req.id@)->0) {
            e matches AppError::Internal(m) && m@ == not_in_flat_message()
        } else {
            e matches AppError::Internal(m) && m@ == crate::service::block::unreadable_parent_message(c.document_id@)
        },
    }
}

/// What an accepted section move does at time `now`: in the flat list of
/// the heading's document, the heading's section is moved (see
/// `section_moved`), and the tree is rebuilt from the result.
pub open spec fn section_tree_moved(s0: Seq<Block>, s1: Seq<Block>, req: MoveHeadingTreeReq, now: Seq<char>) -> bool {
    let c = live_row(s0, req.id@)->0;
    let doc = c.document_id@;
    exists|flat: Seq<Block>|
        copies_of(s0, flat_rows(s0, doc), flat) && tree_rebuilt(
            s0,
            s1,
            doc,
            section_moved(flat, index_of_id(flat, req.id@)->0, level_of(c), req.before_id, req.after_id),
            now,
        )
}

/// Moves heading `req.id` with its section as `move_heading_tree` does, at
/// time `now`.
pub fn move_heading_tree_at(store: &mut BlockStore, req: MoveHeadingTreeReq, now: String) -> (r: Result<Block, AppError>)
    requires
        store_wf(old(store)@),
        versions_fit(old(store)@, 1),
    ensures
        store_wf(final(store)@),
        r is Ok <==> !section_move_refused(old(store)@, req),
        r matches Ok(b) ==> section_tree_moved(old(store)@, final(store)@, req, now@) && same_block(
            b,
            final(store)@[index_of(old(store)@, req.id@)->0],
        ),
        r matches Err(e) ==> final(store)@ == old(store)@ && section_move_error(old(store)@, req, e),
{
    let ghost s0 = store@;
    proof {
        reveal_strlit("move_heading_tree 只能移动 Heading 类型");
        reveal_strlit("Heading 不在 flat list 中");
    }
    let i = match store.find(req.id.as_str()) {
        Some(i) => {
            if store.row_at(i).status == BlockStatus::Deleted {
                None
            } else {
                Some(i)
            }
        },
        None => None,
    };
    let i = match i {
        Some(i) => i,
        None => {
            let mut msg = "Block ".to_owned();
            push_str(&mut msg, req.id.as_str());
            push_str(&mut msg, " 不存在或已删除");
            return Err(AppError::NotFound(msg));
        },
    };
    let cur = copy_block(store.row_at(i));
    if !is_heading_block(&cur) {
        return Err(AppError::BadRequest("move_heading_tree 只能移动 Heading 类型".to_owned()));
    }
    proof {
        lemma_index_unique(s0, i as int);
    }
    let rows = flat_row_list(store, cur.document_id.as_str());
    let ghost rv = rows@.map_values(|x: usize| x as int);
    let flat = copy_rows(store, &rows, rows.len());
    let ghost fv = flat@;
    proof {
        assert(copies_of(s0, rv, fv)) by {
            assert forall|f: int| 0 <= f < fv.len() implies 0 <= rv[f] < s0.len() && same_block(#[trigger] fv[f], s0[rv[f]]) by {
                assert(rv[f] == rows@[f] as int);
            }
        }
        assert forall|a: int, b: int| 0 <= a < b < rv.len() implies (#[trigger] rv[a]) != (#[trigger] rv[b]) by {
            assert(rv[a] == rows@[a] as int && rv[b] == rows@[b] as int);
        }
        assert forall|t: int| 0 <= t < rv.len() implies s0[#[trigger] rv[t]].status != BlockStatus::Deleted && s0[rv[t]].id@
            != cur.document_id@ by {
            assert(rv[t] == rows@[t] as int);
        }
        lemma_copies_flat(s0, cur.document_id@, rv, fv);
        lemma_index_of_id(fv, req.id@);
        if rv.contains(i as int) {
            let u = choose|u: int| 0 <= u < rv.len() && rv[u] == i as int;
            assert(same_block(fv[u], s0[i as int]));
        }
        if index_of_id(fv, req.id@) is Some {
            let h = index_of_id(fv, req.id@)->0;
            assert(same_block(fv[h], s0[rv[h]]));
            lemma_index_unique(s0, rv[h]);
            assert(rv[h] == i as int);
        }
    }
    let moved = match move_section(Some(copy_block(&cur)), flat, &req) {
        Ok(v) => v,
        Err(e) => {
            return Err(e);
        },
    };
    proof {
        let h = index_of_id(fv, req.id@)->0;
        let lvl = level_of(cur);
        lemma_section_moved(fv, h, lvl, req.before_id, req.after_id);
        let end = section_end(fv, h + 1, lvl);
        let rest = fv.take(h) + fv.skip(end);
        let ins = insert_index(rest, opt_string_view(req.before_id), opt_string_view(req.after_id));
        lemma_rearranged_flat(s0, cur.document_id@, fv, moved@, |t: int| section_source(h, end, ins, t));
    }
    match rebuild_tree(store, cur.document_id.as_str(), &moved, &now) {
        Ok(()) => {},
        Err(e) => {
            return Err(e);
        },
    }
    let b = copy_block(store.row_at(i));
    Ok(b)
}

/// Moves a heading with its whole section (the collapsed-heading drag):
/// in the document's flat list the section is taken out and put back
/// before `before_id`, after `after_id` and its subtree, or at the end,
/// and the tree is rebuilt from the heading levels.
pub fn move_heading_tree(store: &mut BlockStore, req: MoveHeadingTreeReq) -> (r: Result<Block, AppError>)
    requires
        store_wf(old(store)@),
        versions_fit(old(store)@, 1),
    ensures
        store_wf(final(store)@),
        r is Ok <==> !section_move_refused(old(store)@, req),
        r matches Ok(b) ==> (exists|now: Seq<char>| section_tree_moved(old(store)@, final(store)@, req, now)) && same_block(
            b,
            final(store)@[index_of(old(store)@, req.id@)->0],
        ),
        r matches Err(e) ==> final(store)@ == old(store)@ && section_move_error(old(store)@, req, e),
{
    move_heading_tree_at(store, req, now_iso())
}

} // verus!
