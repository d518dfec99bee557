//! What the block operations promise across calls: a created block can be
//! read back, a deleted subtree cannot, and restoring it brings it back.

use vstd::prelude::*;
use crate::model::{Block, BlockStatus};
use crate::service::block::{lemma_under_same_links, tree_deleted, tree_restored};
use crate::service::store::{in_subtree, index_of, lemma_index_of, live_row, store_wf};

verus! {

/// A block added to the store under a fresh identifier, not deleted, is
/// what a read of that identifier gives back.
pub proof fn law_created_block_reads_back(s: Seq<Block>, b: Block)
    requires
        index_of(s, b.id@) is None,
        b.status != BlockStatus::Deleted,
    ensures
        live_row(s.push(b), b.id@) == Some(b),
{
    assert(s.push(b).drop_last() =~= s);
}

/// After a subtree is deleted, none of its rows reads back: the block and
/// everything below it are deleted.
pub proof fn law_deleted_tree_unreadable(s0: Seq<Block>, s1: Seq<Block>, id: Seq<char>, now: Seq<char>)
    requires
        store_wf(s0),
        live_row(s0, id) is Some,
        tree_deleted(s0, s1, id, now),
    ensures
        live_row(s1, id) is None,
        forall|k: int| 0 <= k < s0.len() && in_subtree(s0, k, id) ==> (#[trigger] s1[k]).status == BlockStatus::Deleted,
        forall|k: int| 0 <= k < s0.len() && !in_subtree(s0, k, id) ==> #[trigger] s1[k] == s0[k],
{
    lemma_index_of(s0, id);
    let i = index_of(s0, id)->0;
    assert(in_subtree(s0, i, id));
    assert forall|k: int| 0 <= k < s0.len() && in_subtree(s0, k, id) implies (#[trigger] s1[k]).status
        == BlockStatus::Deleted by {
        if s0[k].status == BlockStatus::Deleted {
            assert(s1[k] == s0[k]);
        }
    }
    assert forall|j: int| 0 <= j < s0.len() implies (#[trigger] s1[j]).id@ == s0[j].id@ by {}
    crate::service::store::lemma_index_same_ids(s1, s0, id);
}

/// Deleting a subtree and then restoring its block brings every row of
/// the subtree back, and leaves every other row as it was.
pub proof fn law_restore_undoes_delete(
    s0: Seq<Block>,
    s1: Seq<Block>,
    s2: Seq<Block>,
    id: Seq<char>,
    t1: Seq<char>,
    t2: Seq<char>,
)
    requires
        store_wf(s0),
        live_row(s0, id) is Some,
        tree_deleted(s0, s1, id, t1),
        tree_restored(s1, s2, id, t2),
    ensures
        live_row(s2, id) is Some,
        forall|k: int| 0 <= k < s0.len() && in_subtree(s0, k, id) ==> (#[trigger] s2[k]).status == BlockStatus::Normal,
        forall|k: int| 0 <= k < s0.len() && !in_subtree(s0, k, id) ==> #[trigger] s2[k] == s0[k],
{
    law_deleted_tree_unreadable(s0, s1, id, t1);
    assert forall|j: int| 0 <= j < s0.len() implies (#[trigger] s1[j]).id@ == s0[j].id@ && s1[j].parent_id@
        == s0[j].parent_id@ by {
        if in_subtree(s0, j, id) && s0[j].status != BlockStatus::Deleted {
        } else {
            assert(s1[j] == s0[j]);
        }
    }
    assert forall|k: int| 0 <= k < s0.len() implies #[trigger] in_subtree(s1, k, id) == in_subtree(s0, k, id) by {
        lemma_under_same_links(s1, s0, k, id, s0.len());
    }
    assert forall|k: int| 0 <= k < s0.len() && in_subtree(s0, k, id) implies (#[trigger] s2[k]).status
        == BlockStatus::Normal by {
        assert(in_subtree(s1, k, id));
        assert(s1[k].status == BlockStatus::Deleted);
    }
    assert forall|k: int| 0 <= k < s0.len() && !in_subtree(s0, k, id) implies #[trigger] s2[k] == s0[k] by {
        assert(!in_subtree(s1, k, id));
    }
    lemma_index_of(s0, id);
    assert forall|j: int| 0 <= j < s0.len() implies (#[trigger] s2[j]).id@ == s0[j].id@ by {
        if in_subtree(s1, j, id) && s1[j].status == BlockStatus::Deleted {
        } else {
            assert(s2[j] == s1[j]);
        }
    }
    crate::service::store::lemma_index_same_ids(s2, s0, id);
    assert(in_subtree(s0, index_of(s0, id)->0, id));
}

} // verus!
