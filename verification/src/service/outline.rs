//! A document's outline in the block store: its blocks as a flat list in
//! reading order, and the tree rebuilt from such a list by heading levels.

use vstd::prelude::*;
use crate::error::AppError;
use crate::model::{copy_block, same_block, Block, BlockStatus, BlockType};
use crate::position::valid_pos;
use crate::service::block::{copy_rows, document_of_child, relocate_row, relocated, unreadable_parent_message, versions_fit};
use crate::service::heading::{index_of_id, insert_index, lemma_index_of_id, lemma_insert_index, move_heading_flat, opt_view, not_in_flat_message, correct_parents, group_by_parent, group_position, group_positions, groups_ok, groups_view, grouped, lemma_group_position_valid, lemma_nearest_below, nearest_below, parent_limit, start_position, tree_parent};
use crate::service::store::{children_sorted, index_of, lemma_index_of, lemma_index_same_ids, lemma_index_unique, lemma_max_child_pos, live_child, live_row, max_child_pos, store_wf, BlockStore};
use crate::text::{push_str, str_eq};

verus! {

// ─── The flat list ───────────────────────────────────────────────

/// The rows below block `p` in reading order: each live child in position
/// order, followed by the rows below it, down to `fuel` levels.
pub open spec fn preorder(s: Seq<Block>, p: Seq<char>, fuel: nat) -> Seq<int>
    decreases fuel, 0nat,
{
    if fuel == 0 {
        Seq::empty()
    } else {
        preorder_list(s, children_sorted(s, p), (fuel - 1) as nat)
    }
}

/// The rows `cs` in order, each followed by the rows below it.
pub open spec fn preorder_list(s: Seq<Block>, cs: Seq<int>, fuel: nat) -> Seq<int>
    decreases fuel, cs.len(),
{
    if cs.len() == 0 {
        Seq::empty()
    } else {
        preorder_list(s, cs.drop_last(), fuel) + seq![cs.last()] + preorder(s, s[cs.last()].id@, fuel)
    }
}

/// `xs` with every repeat and the row `skip` left out, first occurrences in
/// order.
pub open spec fn first_occurrences(xs: Seq<int>, skip: int) -> Seq<int>
    decreases xs.len(),
{
    if xs.len() == 0 {
        Seq::empty()
    } else {
        let d = first_occurrences(xs.drop_last(), skip);
        if d.contains(xs.last()) || xs.last() == skip {
            d
        } else {
            d.push(xs.last())
        }
    }
}

/// The rows of document `doc` in reading order (on a tree each row once;
/// the document's own row and rows reached twice through looping parent
/// links are left out).
pub open spec fn flat_rows(s: Seq<Block>, doc: Seq<char>) -> Seq<int> {
    let skip = match index_of(s, doc) {
        Some(i) => i,
        None => -1,
    };
    first_occurrences(preorder(s, doc, s.len()), skip)
}

/// First occurrences hold no repeat, leave `skip` out, and come from `xs`.
pub proof fn lemma_first_occurrences(xs: Seq<int>, skip: int)
    ensures
        first_occurrences(xs, skip).no_duplicates(),
        !first_occurrences(xs, skip).contains(skip),
        forall|t: int| 0 <= t < first_occurrences(xs, skip).len() ==> xs.contains(#[trigger] first_occurrences(xs, skip)[t]),
    decreases xs.len(),
{
    if xs.len() > 0 {
        let d = first_occurrences(xs.drop_last(), skip);
        lemma_first_occurrences(xs.drop_last(), skip);
        assert forall|t: int| 0 <= t < d.len() implies xs.contains(#[trigger] d[t]) by {
            let u = choose|u: int| 0 <= u < xs.drop_last().len() && xs.drop_last()[u] == d[t];
            assert(xs[u] == d[t]);
        }
        if !(d.contains(xs.last()) || xs.last() == skip) {
            let e = d.push(xs.last());
            assert forall|t: int| 0 <= t < e.len() implies xs.contains(#[trigger] e[t]) by {
                if t < d.len() {
                    assert(e[t] == d[t]);
                } else {
                    assert(xs[xs.len() - 1] == e[t]);
                }
            }
            assert forall|a: int, b: int| 0 <= a < e.len() && 0 <= b < e.len() && a != b implies e[a] != e[b] by {
                if a < d.len() && b < d.len() {
                    assert(e[a] == d[a] && e[b] == d[b]);
                } else if a < d.len() {
                    assert(e[a] == d[a]);
                } else {
                    assert(e[b] == d[b]);
                }
            }
        }
    }
}

/// Appends the rows below block `p` in reading order, down to `fuel`
/// levels.
fn walk(store: &BlockStore, p: &str, fuel: usize, out: &mut Vec<usize>)
    requires
        forall|t: int| 0 <= t < old(out)@.len() ==> (#[trigger] old(out)@[t]) < store@.len() && store@[old(out)@[t] as int].status
            != BlockStatus::Deleted,
    ensures
        final(out)@.map_values(|x: usize| x as int) == old(out)@.map_values(|x: usize| x as int) + preorder(
            store@,
            p@,
            fuel as nat,
        ),
        forall|t: int| 0 <= t < final(out)@.len() ==> (#[trigger] final(out)@[t]) < store@.len() && store@[final(out)@[t] as int].status
            != BlockStatus::Deleted,
    decreases fuel,
{
    if fuel == 0 {
        assert(old(out)@.map_values(|x: usize| x as int) + preorder(store@, p@, 0) =~= old(out)@.map_values(
            |x: usize| x as int,
        ));
        return;
    }
    let ghost o0 = out@.map_values(|x: usize| x as int);
    let cs = store.sorted_children(p);
    let ghost csv = cs@.map_values(|x: usize| x as int);
    let mut k: usize = 0;
    assert(preorder_list(store@, csv.take(0), (fuel - 1) as nat) =~= Seq::<int>::empty());
    assert(o0 + Seq::<int>::empty() =~= o0);
    while k < cs.len()
        invariant
            0 < fuel,
            k <= cs@.len(),
            csv == cs@.map_values(|x: usize| x as int),
            csv == children_sorted(store@, p@),
            forall|t: int| 0 <= t < cs@.len() ==> (#[trigger] cs@[t]) < store@.len() && live_child(store@[cs@[t] as int], p@),
            forall|t: int| 0 <= t < out@.len() ==> (#[trigger] out@[t]) < store@.len() && store@[out@[t] as int].status
                != BlockStatus::Deleted,
            out@.map_values(|x: usize| x as int) == o0 + preorder_list(store@, csv.take(k as int), (fuel - 1) as nat),
        decreases cs@.len() - k,
    {
        let c = cs[k];
        let ghost before = out@.map_values(|x: usize| x as int);
        assert(live_child(store@[cs@[k as int] as int], p@));
        out.push(c);
        assert(out@.map_values(|x: usize| x as int) =~= before.push(c as int));
        walk(store, store.row_at(c).id.as_str(), fuel - 1, out);
        proof {
            let f = (fuel - 1) as nat;
            let tk1 = csv.take(k + 1);
            assert(tk1.drop_last() =~= csv.take(k as int));
            assert(tk1.last() == c as int);
            assert(preorder_list(store@, tk1, f) == preorder_list(store@, csv.take(k as int), f) + seq![c as int]
                + preorder(store@, store@[c as int].id@, f));
            assert(out@.map_values(|x: usize| x as int) =~= o0 + preorder_list(store@, tk1, f));
        }
        k += 1;
    }
    assert(csv.take(cs@.len() as int) =~= csv);
}

/// Keeps the first occurrence of every row, leaving `skip` out.
fn keep_first(xs: &Vec<usize>, skip: Option<usize>) -> (r: Vec<usize>)
    ensures
        r@.map_values(|x: usize| x as int) == first_occurrences(
            xs@.map_values(|x: usize| x as int),
            match skip {
                Some(i) => i as int,
                None => -1,
            },
        ),
        forall|a: int, b: int| 0 <= a < b < r@.len() ==> (#[trigger] r@[a]) != (#[trigger] r@[b]),
        forall|t: int| 0 <= t < r@.len() ==> xs@.contains(#[trigger] r@[t]),
        skip matches Some(k) ==> forall|t: int| 0 <= t < r@.len() ==> (#[trigger] r@[t]) != k,
{
    let ghost xv = xs@.map_values(|x: usize| x as int);
    let ghost sk: int = match skip {
        Some(i) => i as int,
        None => -1,
    };
    let mut r: Vec<usize> = Vec::new();
    let mut i: usize = 0;
    while i < xs.len()
        invariant
            i <= xs@.len(),
            xv == xs@.map_values(|x: usize| x as int),
            sk == (match skip {
                Some(i) => i as int,
                None => -1,
            }),
            r@.map_values(|x: usize| x as int) == first_occurrences(xv.take(i as int), sk),
            forall|a: int, b: int| 0 <= a < b < r@.len() ==> (#[trigger] r@[a]) != (#[trigger] r@[b]),
            forall|t: int| 0 <= t < r@.len() ==> xs@.contains(#[trigger] r@[t]),
            forall|t: int| 0 <= t < r@.len() ==> (#[trigger] r@[t]) as int != sk,
        decreases xs@.len() - i,
    {
        let x = xs[i];
        let ghost d = r@.map_values(|x: usize| x as int);
        let mut seen = match skip {
            Some(s) => s == x,
            None => false,
        };
        let mut j: usize = 0;
        while j < r.len() && !seen
            invariant
                j <= r@.len(),
                d == r@.map_values(|x: usize| x as int),
                seen ==> d.contains(x as int) || x as int == sk,
                !seen ==> x as int != sk && forall|u: int| 0 <= u < j ==> d[u] != x as int,
            decreases r@.len() - j,
        {
            if r[j] == x {
                assert(d[j as int] == x as int);
                seen = true;
            }
            j += 1;
        }
        proof {
            let tk1 = xv.take(i + 1);
            assert(tk1.drop_last() =~= xv.take(i as int));
            assert(tk1.last() == x as int);
        }
        if !seen {
            let ghost r0 = r@;
            r.push(x);
            assert(r@.map_values(|x: usize| x as int) =~= d.push(x as int));
            proof {
                assert(xs@[i as int] == x);
                assert forall|a: int, b: int| 0 <= a < b < r@.len() implies (#[trigger] r@[a]) != (#[trigger] r@[b]) by {
                    if b < r0.len() {
                        assert(r@[a] == r0[a] && r@[b] == r0[b]);
                    } else {
                        assert(r@[a] == r0[a]);
                        assert(d[a] == r0[a] as int);
                    }
                }
                assert forall|t: int| 0 <= t < r@.len() implies xs@.contains(#[trigger] r@[t]) by {
                    if t < r0.len() {
                        assert(r@[t] == r0[t]);
                    }
                }
                assert forall|t: int| 0 <= t < r@.len() implies (#[trigger] r@[t]) as int != sk by {
                    if t < r0.len() {
                        assert(r@[t] == r0[t]);
                    }
                }
            }
        } else {
            proof {
                if !(d.contains(x as int) || x as int == sk) {
                    assert(false);
                }
            }
        }
        i += 1;
    }
    assert(xv.take(xs@.len() as int) =~= xv);
    r
}

/// The rows of document `doc` in reading order (see `flat_rows`).
pub fn flat_row_list(store: &BlockStore, doc: &str) -> (r: Vec<usize>)
    requires
        store_wf(store@),
    ensures
        r@.map_values(|x: usize| x as int) == flat_rows(store@, doc@),
        forall|a: int, b: int| 0 <= a < b < r@.len() ==> (#[trigger] r@[a]) != (#[trigger] r@[b]),
        forall|t: int| 0 <= t < r@.len() ==> (#[trigger] r@[t]) < store@.len() && store@[r@[t] as int].status
            != BlockStatus::Deleted && store@[r@[t] as int].id@ != doc@,
{
    let mut all: Vec<usize> = Vec::new();
    walk(store, doc, store.len(), &mut all);
    assert(all@.map_values(|x: usize| x as int) =~= Seq::<int>::empty() + preorder(store@, doc@, store@.len()));
    let skip = store.find(doc);
    let r = keep_first(&all, skip);
    proof {
        lemma_index_of(store@, doc@);
        assert forall|t: int| 0 <= t < r@.len() implies (#[trigger] r@[t]) < store@.len() && store@[r@[t] as int].status
            != BlockStatus::Deleted && store@[r@[t] as int].id@ != doc@ by {
            let u = choose|u: int| 0 <= u < all@.len() && all@[u] == r@[t];
            assert(all@[u] < store@.len());
            if store@[r@[t] as int].id@ == doc@ {
                lemma_index_unique(store@, r@[t] as int);
            }
        }
    }
    r
}

// ─── Rebuilding the tree ─────────────────────────────────────────

/// The parents the heading levels give the blocks of `flat`.
pub open spec fn flat_parents(doc_id: Seq<char>, flat: Seq<Block>) -> Seq<Seq<char>> {
    Seq::new(flat.len(), |i: int| tree_parent(doc_id, flat, i))
}

/// `flat` holds copies of live rows of `s`, no block twice and not the
/// document itself.
pub open spec fn flat_of(s: Seq<Block>, doc_id: Seq<char>, flat: Seq<Block>) -> bool {
    &&& forall|a: int, b: int| 0 <= a < b < flat.len() ==> (#[trigger] flat[a]).id@ != (#[trigger] flat[b]).id@
    &&& forall|f: int|
        0 <= f < flat.len() ==> (#[trigger] index_of(s, flat[f].id@)) is Some && same_block(
            flat[f],
            s[index_of(s, flat[f].id@)->0],
        ) && flat[f].status != BlockStatus::Deleted && flat[f].id@ != doc_id
}

/// Row `j` is the row of one of the `members` of `flat`.
pub open spec fn member_row(s: Seq<Block>, flat: Seq<Block>, members: Seq<usize>, j: int) -> bool {
    exists|k: int| 0 <= k < members.len() && index_of(s, flat[#[trigger] members[k] as int].id@) == Some(j)
}

/// What rebuilding one group does at time `now`: the blocks of `flat`
/// listed in `members` hang under `p` in that order, at positions
/// following the last live child `p` had; a block whose parent or position
/// changes is rewritten (in the document a child of `p` belongs to), the
/// others stay as they are.
pub open spec fn group_rebuilt(
    s: Seq<Block>,
    s2: Seq<Block>,
    flat: Seq<Block>,
    p: Seq<char>,
    members: Seq<usize>,
    now: Seq<char>,
) -> bool {
    let first = start_position(max_child_pos(s, p));
    let doc = document_of_child(live_row(s, p)->0);
    &&& s2.len() == s.len()
    &&& forall|k: int|
        0 <= k < members.len() ==> {
            let f = #[trigger] members[k] as int;
            let r = index_of(s, flat[f].id@)->0;
            let pos = group_position(first, k as nat);
            if flat[f].parent_id@ != p || flat[f].position@ != pos {
                relocated(s2[r], s[r], p, pos, doc, now)
            } else {
                s2[r] == s[r]
            }
        }
    &&& forall|j: int| 0 <= j < s.len() && !member_row(s, flat, members, j) ==> #[trigger] s2[j] == s[j]
}

/// The groups rebuilt in order through the stores `states`, from `s0` to
/// `s1`.
pub open spec fn rebuild_chain(
    s0: Seq<Block>,
    s1: Seq<Block>,
    flat: Seq<Block>,
    groups: Seq<(Seq<char>, Seq<usize>)>,
    now: Seq<char>,
    states: Seq<Seq<Block>>,
) -> bool {
    &&& states.len() == groups.len() + 1
    &&& states[0] == s0
    &&& states[groups.len() as int] == s1
    &&& forall|g: int|
        0 <= g < groups.len() ==> group_rebuilt(states[g], states[g + 1], flat, (#[trigger] groups[g]).0, groups[g].1, now)
}

/// What rebuilding the tree of document `doc_id` from `flat` does: the
/// blocks are grouped by the parent the heading levels give them, and the
/// groups are rebuilt one after another (in some order).
pub open spec fn tree_rebuilt(s0: Seq<Block>, s1: Seq<Block>, doc_id: Seq<char>, flat: Seq<Block>, now: Seq<char>) -> bool {
    exists|groups: Seq<(Seq<char>, Seq<usize>)>, states: Seq<Seq<Block>>|
        groups_ok(flat_parents(doc_id, flat), groups) && rebuild_chain(s0, s1, flat, groups, now, states)
}

/// The parent the heading levels give a block of the flat list is the
/// document or a heading before it.
pub proof fn lemma_tree_parent(doc_id: Seq<char>, flat: Seq<Block>, i: int)
    requires
        0 <= i < flat.len(),
    ensures
        tree_parent(doc_id, flat, i) == doc_id || exists|j: int| 0 <= j < i && flat[j].id@ == tree_parent(doc_id, flat, i),
{
    lemma_nearest_below(flat, i, parent_limit(flat[i]));
    if let Some(j) = nearest_below(flat, i, parent_limit(flat[i])) {
        assert(flat[j].id@ == tree_parent(doc_id, flat, i));
    }
}

/// The parent of a group is a live row, the same in every store with the
/// same identifiers and statuses, and none of the group's blocks.
pub proof fn lemma_group_parent(
    s0: Seq<Block>,
    sg: Seq<Block>,
    doc_id: Seq<char>,
    flat: Seq<Block>,
    ps: Seq<Seq<char>>,
    gv: Seq<(Seq<char>, Seq<usize>)>,
    g: int,
)
    requires
        store_wf(s0),
        flat_of(s0, doc_id, flat),
        live_row(s0, doc_id) is Some,
        ps == flat_parents(doc_id, flat),
        groups_ok(ps, gv),
        0 <= g < gv.len(),
        sg.len() == s0.len(),
        forall|j: int| 0 <= j < s0.len() ==> (#[trigger] sg[j]).id@ == s0[j].id@ && sg[j].status == s0[j].status,
    ensures
        live_row(sg, gv[g].0) is Some,
        index_of(sg, gv[g].0) == index_of(s0, gv[g].0),
        forall|x: int| 0 <= x < gv[g].1.len() ==> gv[g].0 != flat[#[trigger] gv[g].1[x] as int].id@,
{
    let p = gv[g].0;
    let f0 = gv[g].1[0] as int;
    assert(f0 < ps.len() && ps[f0] == p);
    lemma_tree_parent(doc_id, flat, f0);
    lemma_index_same_ids(sg, s0, p);
    lemma_index_of(s0, p);
    if p != doc_id {
        let j = choose|j: int| 0 <= j < f0 && flat[j].id@ == tree_parent(doc_id, flat, f0);
        assert(index_of(s0, flat[j].id@) is Some);
    }
    assert forall|x: int| 0 <= x < gv[g].1.len() implies gv[g].0 != flat[#[trigger] gv[g].1[x] as int].id@ by {
        let f = gv[g].1[x] as int;
        assert(f < ps.len() && ps[f] == p);
        lemma_tree_parent(doc_id, flat, f);
        if p != doc_id {
            let j = choose|j: int| 0 <= j < f && flat[j].id@ == tree_parent(doc_id, flat, f);
            assert(flat[j].id@ != flat[f].id@);
        }
    }
}

/// After group `g`, the blocks of the later groups still sit in their rows
/// as they were at the start.
pub proof fn lemma_group_done(
    s0: Seq<Block>,
    sg: Seq<Block>,
    s2: Seq<Block>,
    doc_id: Seq<char>,
    flat: Seq<Block>,
    ps: Seq<Seq<char>>,
    gv: Seq<(Seq<char>, Seq<usize>)>,
    g: int,
)
    requires
        store_wf(s0),
        flat_of(s0, doc_id, flat),
        groups_ok(ps, gv),
        ps.len() == flat.len(),
        0 <= g < gv.len(),
        sg.len() == s0.len(),
        forall|j: int| 0 <= j < s0.len() ==> (#[trigger] sg[j]).id@ == s0[j].id@,
        forall|j: int| 0 <= j < sg.len() && !member_row(sg, flat, gv[g].1, j) ==> #[trigger] s2[j] == sg[j],
        forall|f: int|
            0 <= f < flat.len() && !(exists|x: int, k: int| 0 <= x < g && 0 <= k < gv[x].1.len() && #[trigger] gv[x].1[k] == f)
                ==> sg[index_of(s0, flat[f].id@)->0] == s0[index_of(s0, flat[f].id@)->0],
    ensures
        forall|f: int|
            0 <= f < flat.len() && !(exists|x: int, k: int|
                0 <= x < g + 1 && 0 <= k < gv[x].1.len() && #[trigger] gv[x].1[k] == f) ==> s2[index_of(s0, flat[f].id@)->0]
                == s0[index_of(s0, flat[f].id@)->0],
{
    assert forall|f: int|
        0 <= f < flat.len() && !(exists|x: int, k: int| 0 <= x < g + 1 && 0 <= k < gv[x].1.len() && #[trigger] gv[x].1[k] == f)
        implies s2[index_of(s0, flat[f].id@)->0] == s0[index_of(s0, flat[f].id@)->0] by {
        let r = index_of(s0, flat[f].id@)->0;
        lemma_index_of(s0, flat[f].id@);
        lemma_index_same_ids(sg, s0, flat[f].id@);
        assert(!member_row(sg, flat, gv[g].1, r)) by {
            if member_row(sg, flat, gv[g].1, r) {
                let k = choose|k: int| 0 <= k < gv[g].1.len() && index_of(sg, flat[#[trigger] gv[g].1[k] as int].id@) == Some(r);
                let f2 = gv[g].1[k] as int;
                assert(f2 < ps.len());
                lemma_index_same_ids(sg, s0, flat[f2].id@);
                lemma_index_of(s0, flat[f2].id@);
                assert(flat[f2].id@ == flat[f].id@);
                assert(f2 == f);
            }
        }
        assert(!(exists|x: int, k: int| 0 <= x < g && 0 <= k < gv[x].1.len() && #[trigger] gv[x].1[k] == f)) by {
            if exists|x: int, k: int| 0 <= x < g && 0 <= k < gv[x].1.len() && #[trigger] gv[x].1[k] == f {
                let (x, k) = choose|x: int, k: int| 0 <= x < g && 0 <= k < gv[x].1.len() && #[trigger] gv[x].1[k] == f;
                assert(0 <= x < g + 1);
            }
        }
    }
}

/// Rebuilds the tree of document `doc_id` from its flat list `flat`, at
/// time `now` (see `tree_rebuilt`).
pub fn rebuild_tree(store: &mut BlockStore, doc_id: &str, flat: &Vec<Block>, now: &String) -> (r: Result<(), AppError>)
    requires
        store_wf(old(store)@),
        versions_fit(old(store)@, 1),
        flat_of(old(store)@, doc_id@, flat@),
    ensures
        store_wf(final(store)@),
        final(store)@.len() == old(store)@.len(),
        forall|j: int| 0 <= j < old(store)@.len() ==> (#[trigger] final(store)@[j]).id@ == old(store)@[j].id@,
        r is Ok <==> live_row(old(store)@, doc_id@) is Some,
        r is Ok ==> tree_rebuilt(old(store)@, final(store)@, doc_id@, flat@, now@),
        r matches Err(e) ==> final(store)@ == old(store)@ && (e matches AppError::Internal(m) && m@ == unreadable_parent_message(
            doc_id@,
        )),
{
    let ghost s0 = store@;
    let doc_live = match store.find(doc_id) {
        Some(i) => store.row_at(i).status != BlockStatus::Deleted,
        None => false,
    };
    if !doc_live {
        let mut msg = "查询 parent ".to_owned();
        push_str(&mut msg, doc_id);
        push_str(&mut msg, " 失败: Query returned no rows");
        return Err(AppError::Internal(msg));
    }
    let parents = correct_parents(doc_id, flat);
    let groups = group_by_parent(&parents);
    let ghost ps = parents@.map_values(|p: String| p@);
    let ghost gv = groups_view(groups@);
    proof {
        assert(ps =~= flat_parents(doc_id@, flat@));
    }
    let ghost mut states: Seq<Seq<Block>> = seq![s0];
    let mut g: usize = 0;
    while g < groups.len()
        invariant
            store_wf(store@),
            store@.len() == s0.len(),
            store_wf(s0),
            versions_fit(s0, 1),
            flat_of(s0, doc_id@, flat@),
            live_row(s0, doc_id@) is Some,
            gv == groups_view(groups@),
            ps == flat_parents(doc_id@, flat@),
            groups_ok(ps, gv),
            g <= gv.len(),
            forall|j: int| 0 <= j < s0.len() ==> (#[trigger] store@[j]).id@ == s0[j].id@ && store@[j].status == s0[j].status,
            forall|f: int|
                0 <= f < flat@.len() && !(exists|x: int, k: int|
                    0 <= x < g && 0 <= k < gv[x].1.len() && #[trigger] gv[x].1[k] == f) ==> store@[index_of(
                    s0,
                    flat@[f].id@,
                )->0] == s0[index_of(s0, flat@[f].id@)->0],
            states.len() == g + 1,
            states[0] == s0,
            states[g as int] == store@,
            forall|x: int|
                0 <= x < g ==> group_rebuilt(states[x], states[x + 1], flat@, (#[trigger] gv[x]).0, gv[x].1, now@),
        decreases gv.len() - g,
    {
        let ghost sg = store@;
        let ghost pg = gv[g as int].0;
        let ghost members = gv[g as int].1;
        proof {
            lemma_group_parent(s0, sg, doc_id@, flat@, ps, gv, g as int);
        }
        let p = groups[g].0.clone();
        assert(p@ == pg);
        let pi = store.find(p.as_str()).unwrap();
        let doc = if matches!(store.row_at(pi).block_type, BlockType::Document) {
            store.row_at(pi).id.clone()
        } else {
            store.row_at(pi).document_id.clone()
        };
        assert(doc@ == document_of_child(live_row(sg, pg)->0));
        let max = store.max_child_position(p.as_str());
        let maxs: Option<&str> = match &max {
            Some(m) => Some(m.as_str()),
            None => None,
        };
        let n = groups[g].1.len();
        assert(n == members.len());
        let pos = group_positions(maxs, n);
        let ghost first = start_position(max_child_pos(sg, pg));
        proof {
            lemma_max_child_pos(sg, pg);
            if max_child_pos(sg, pg) is Some {
                crate::position::law_after_keeps_valid(max_child_pos(sg, pg)->0);
            } else {
                crate::position::lemma_alpha_char(10);
                crate::position::lemma_alpha_char(0);
            }
            assert(valid_pos(first));
            assert forall|k: int| 0 <= k < n implies valid_pos((#[trigger] pos@[k])@) by {
                lemma_group_position_valid(first, k as nat);
            }
        }
        let mut k: usize = 0;
        while k < n
            invariant
                store_wf(store@),
                store@.len() == s0.len(),
                sg.len() == s0.len(),
                store_wf(s0),
                versions_fit(s0, 1),
                flat_of(s0, doc_id@, flat@),
                gv == groups_view(groups@),
                ps == flat_parents(doc_id@, flat@),
                groups_ok(ps, gv),
                g < gv.len(),
                pg == gv[g as int].0,
                members == gv[g as int].1,
                p@ == pg,
                n == members.len(),
                k <= n,
                pos@.len() == n,
                forall|x: int| 0 <= x < n ==> (#[trigger] pos@[x])@ == group_position(first, x as nat) && valid_pos(pos@[x]@),
                doc@ == document_of_child(live_row(sg, pg)->0),
                first == start_position(max_child_pos(sg, pg)),
                forall|j: int| 0 <= j < s0.len() ==> (#[trigger] sg[j]).id@ == s0[j].id@ && sg[j].status == s0[j].status,
                forall|j: int| 0 <= j < s0.len() ==> (#[trigger] store@[j]).id@ == s0[j].id@ && store@[j].status == s0[j].status,
                forall|x: int| 0 <= x < n ==> pg != flat@[#[trigger] members[x] as int].id@,
                forall|x: int| 0 <= x < n ==> sg[index_of(s0, flat@[#[trigger] members[x] as int].id@)->0] == s0[index_of(
                    s0,
                    flat@[members[x] as int].id@,
                )->0],
                forall|x: int|
                    0 <= x < k ==> {
                        let f = #[trigger] members[x] as int;
                        let r = index_of(sg, flat@[f].id@)->0;
                        let ps_x = group_position(first, x as nat);
                        if flat@[f].parent_id@ != pg || flat@[f].position@ != ps_x {
                            relocated(store@[r], sg[r], pg, ps_x, doc@, now@)
                        } else {
                            store@[r] == sg[r]
                        }
                    },
                forall|j: int|
                    0 <= j < s0.len() && !(exists|x: int|
                        0 <= x < k && index_of(sg, flat@[#[trigger] members[x] as int].id@) == Some(j)) ==> #[trigger] store@[j]
                        == sg[j],
            decreases n - k,
        {
            let f = groups[g].1[k];
            assert(f == members[k as int]);
            proof {
                assert(f < flat@.len()) by {
                    assert(gv[g as int].1[k as int] < ps.len());
                }
                lemma_index_same_ids(store@, s0, flat@[f as int].id@);
                lemma_index_same_ids(sg, s0, flat@[f as int].id@);
                lemma_index_of(s0, flat@[f as int].id@);
            }
            let ghost r0 = index_of(s0, flat@[f as int].id@)->0;
            let r = store.find(flat[f].id.as_str()).unwrap();
            assert(r as int == r0);
            proof {
                assert(store@[r0] == sg[r0]) by {
                    if exists|x: int| 0 <= x < k && index_of(sg, flat@[#[trigger] members[x] as int].id@) == Some(r0) {
                        let x = choose|x: int| 0 <= x < k && index_of(sg, flat@[#[trigger] members[x] as int].id@) == Some(r0);
                        lemma_index_same_ids(sg, s0, flat@[members[x] as int].id@);
                        lemma_index_of(s0, flat@[members[x] as int].id@);
                        assert(members[x] < members[k as int]);
                        assert(flat@[members[x] as int].id@ != flat@[f as int].id@);
                    }
                }
                assert(s0[r0].version < u64::MAX);
                assert(flat@[f as int].id@ == s0[r0].id@);
            }
            if !str_eq(flat[f].parent_id.as_str(), p.as_str()) || !str_eq(flat[f].position.as_str(), pos[k].as_str()) {
                relocate_row(store, r, p.clone(), pos[k].clone(), doc.clone(), now);
            }
            proof {
                assert forall|x: int|
                    0 <= x < k + 1 implies {
                        let f2 = #[trigger] members[x] as int;
                        let r2 = index_of(sg, flat@[f2].id@)->0;
                        let ps_x = group_position(first, x as nat);
                        if flat@[f2].parent_id@ != pg || flat@[f2].position@ != ps_x {
                            relocated(store@[r2], sg[r2], pg, ps_x, doc@, now@)
                        } else {
                            store@[r2] == sg[r2]
                        }
                    } by {
                    if x < k {
                        lemma_index_same_ids(sg, s0, flat@[members[x] as int].id@);
                        lemma_index_of(s0, flat@[members[x] as int].id@);
                        assert(members[x] < members[k as int]);
                        assert(flat@[members[x] as int].id@ != flat@[f as int].id@);
                    }
                }
                assert forall|j: int|
                    0 <= j < s0.len() && !(exists|x: int|
                        0 <= x < k + 1 && index_of(sg, flat@[#[trigger] members[x] as int].id@) == Some(j)) implies #[trigger] store@[j]
                    == sg[j] by {
                    assert(j != r0) by {
                        if j == r0 {
                            assert(index_of(sg, flat@[members[k as int] as int].id@) == Some(j));
                        }
                    }
                    assert(!(exists|x: int| 0 <= x < k && index_of(sg, flat@[#[trigger] members[x] as int].id@) == Some(j))) by {
                        if exists|x: int| 0 <= x < k && index_of(sg, flat@[#[trigger] members[x] as int].id@) == Some(j) {
                            let x = choose|x: int| 0 <= x < k && index_of(sg, flat@[#[trigger] members[x] as int].id@) == Some(j);
                            assert(0 <= x < k + 1);
                        }
                    }
                }
            }
            k += 1;
        }
        proof {
            assert(group_rebuilt(sg, store@, flat@, pg, members, now@)) by {
                assert forall|j: int| 0 <= j < sg.len() && !member_row(sg, flat@, members, j) implies #[trigger] store@[j]
                    == sg[j] by {
                    if exists|x: int| 0 <= x < n && index_of(sg, flat@[#[trigger] members[x] as int].id@) == Some(j) {
                        let x = choose|x: int| 0 <= x < n && index_of(sg, flat@[#[trigger] members[x] as int].id@) == Some(j);
                        assert(member_row(sg, flat@, members, j));
                    }
                }
            }
            lemma_group_done(s0, sg, store@, doc_id@, flat@, ps, gv, g as int);
            states = states.push(store@);
        }
        g += 1;
    }
    proof {
        assert(rebuild_chain(s0, store@, flat@, gv, now@, states));
    }
    Ok(())
}

// ─── The rebuilt tree ────────────────────────────────────────────

/// Rebuilding keeps every row's identifier.
pub proof fn lemma_chain_ids(
    s0: Seq<Block>,
    flat: Seq<Block>,
    groups: Seq<(Seq<char>, Seq<usize>)>,
    now: Seq<char>,
    states: Seq<Seq<Block>>,
    g: int,
)
    requires
        states.len() == groups.len() + 1,
        states[0] == s0,
        forall|x: int|
            0 <= x < groups.len() ==> group_rebuilt(states[x], states[x + 1], flat, (#[trigger] groups[x]).0, groups[x].1, now),
        0 <= g <= groups.len(),
    ensures
        states[g].len() == s0.len(),
        forall|j: int| 0 <= j < s0.len() ==> (#[trigger] states[g][j]).id@ == s0[j].id@,
    decreases g,
{
    if g > 0 {
        lemma_chain_ids(s0, flat, groups, now, states, g - 1);
        let s = states[g - 1];
        let s2 = states[g];
        assert(group_rebuilt(s, s2, flat, groups[g - 1].0, groups[g - 1].1, now));
        assert forall|j: int| 0 <= j < s0.len() implies (#[trigger] s2[j]).id@ == s0[j].id@ by {
            if member_row(s, flat, groups[g - 1].1, j) {
                let k = choose|k: int|
                    0 <= k < groups[g - 1].1.len() && index_of(s, flat[#[trigger] groups[g - 1].1[k] as int].id@) == Some(j);
                assert(index_of(s, flat[groups[g - 1].1[k] as int].id@)->0 == j);
            }
        }
    }
}

/// A group that does not hold block `f` of the flat list leaves its row as
/// it is.
pub proof fn lemma_row_outside(
    s0: Seq<Block>,
    doc_id: Seq<char>,
    flat: Seq<Block>,
    groups: Seq<(Seq<char>, Seq<usize>)>,
    now: Seq<char>,
    states: Seq<Seq<Block>>,
    f: int,
    x: int,
    g: int,
)
    requires
        store_wf(s0),
        flat_of(s0, doc_id, flat),
        groups_ok(flat_parents(doc_id, flat), groups),
        states.len() == groups.len() + 1,
        states[0] == s0,
        forall|y: int|
            0 <= y < groups.len() ==> group_rebuilt(states[y], states[y + 1], flat, (#[trigger] groups[y]).0, groups[y].1, now),
        0 <= f < flat.len(),
        0 <= x < groups.len(),
        flat_parents(doc_id, flat)[f] == groups[x].0,
        0 <= g < groups.len(),
        g != x,
    ensures
        states[g + 1][index_of(s0, flat[f].id@)->0] == states[g][index_of(s0, flat[f].id@)->0],
{
    let r = index_of(s0, flat[f].id@)->0;
    let s = states[g];
    lemma_chain_ids(s0, flat, groups, now, states, g);
    lemma_index_of(s0, flat[f].id@);
    assert(group_rebuilt(s, states[g + 1], flat, groups[g].0, groups[g].1, now));
    assert(!member_row(s, flat, groups[g].1, r)) by {
        if member_row(s, flat, groups[g].1, r) {
            let k = choose|k: int| 0 <= k < groups[g].1.len() && index_of(s, flat[#[trigger] groups[g].1[k] as int].id@) == Some(r);
            let f2 = groups[g].1[k] as int;
            assert(f2 < flat_parents(doc_id, flat).len() && flat_parents(doc_id, flat)[f2] == groups[g].0);
            lemma_index_same_ids(s, s0, flat[f2].id@);
            lemma_index_of(s0, flat[f2].id@);
            assert(flat[f2].id@ == flat[f].id@);
            assert(f2 == f);
        }
    }
}

/// The row of block `f` of the flat list is untouched before its group and
/// after it.
pub proof fn lemma_row_span(
    s0: Seq<Block>,
    doc_id: Seq<char>,
    flat: Seq<Block>,
    groups: Seq<(Seq<char>, Seq<usize>)>,
    now: Seq<char>,
    states: Seq<Seq<Block>>,
    f: int,
    x: int,
    g: int,
)
    requires
        store_wf(s0),
        flat_of(s0, doc_id, flat),
        groups_ok(flat_parents(doc_id, flat), groups),
        states.len() == groups.len() + 1,
        states[0] == s0,
        forall|y: int|
            0 <= y < groups.len() ==> group_rebuilt(states[y], states[y + 1], flat, (#[trigger] groups[y]).0, groups[y].1, now),
        0 <= f < flat.len(),
        0 <= x < groups.len(),
        flat_parents(doc_id, flat)[f] == groups[x].0,
        0 <= g <= groups.len(),
    ensures
        g <= x ==> states[g][index_of(s0, flat[f].id@)->0] == s0[index_of(s0, flat[f].id@)->0],
        g > x ==> states[g][index_of(s0, flat[f].id@)->0] == states[x + 1][index_of(s0, flat[f].id@)->0],
    decreases g,
{
    if g > 0 && g != x + 1 {
        lemma_row_span(s0, doc_id, flat, groups, now, states, f, x, g - 1);
        lemma_row_outside(s0, doc_id, flat, groups, now, states, f, x, g - 1);
    }
}

/// Rebuilding the tree from a flat list hangs every block of the list under
/// the parent its heading levels give it: the nearest heading before it of
/// a lower level (any heading, for a block that is not one), else the
/// document.
pub proof fn law_rebuilt_parents(s0: Seq<Block>, s1: Seq<Block>, doc_id: Seq<char>, flat: Seq<Block>, now: Seq<char>)
    requires
        store_wf(s0),
        flat_of(s0, doc_id, flat),
        tree_rebuilt(s0, s1, doc_id, flat, now),
    ensures
        forall|f: int|
            0 <= f < flat.len() ==> (#[trigger] s1[index_of(s0, flat[f].id@)->0]).parent_id@ == tree_parent(doc_id, flat, f),
{
    let (groups, states) = choose|groups: Seq<(Seq<char>, Seq<usize>)>, states: Seq<Seq<Block>>|
        groups_ok(flat_parents(doc_id, flat), groups) && rebuild_chain(s0, s1, flat, groups, now, states);
    let ps = flat_parents(doc_id, flat);
    assert forall|f: int| 0 <= f < flat.len() implies (#[trigger] s1[index_of(s0, flat[f].id@)->0]).parent_id@ == tree_parent(
        doc_id,
        flat,
        f,
    ) by {
        assert(f < ps.len());
        assert(grouped(groups, f));
        let (x, k) = choose|x: int, k: int| 0 <= x < groups.len() && 0 <= k < groups[x].1.len() && #[trigger] groups[x].1[k] == f;
        assert(ps[f] == groups[x].0);
        let r = index_of(s0, flat[f].id@)->0;
        lemma_row_span(s0, doc_id, flat, groups, now, states, f, x, x);
        lemma_row_span(s0, doc_id, flat, groups, now, states, f, x, groups.len() as int);
        lemma_chain_ids(s0, flat, groups, now, states, x);
        lemma_index_same_ids(states[x], s0, flat[f].id@);
        lemma_index_of(s0, flat[f].id@);
        assert(group_rebuilt(states[x], states[x + 1], flat, groups[x].0, groups[x].1, now));
        assert(groups[x].1[k] as int == f);
    }
}

// ─── Flat lists of copies ────────────────────────────────────────

/// `flat` holds copies of the rows `rows` of `s`, in order.
pub open spec fn copies_of(s: Seq<Block>, rows: Seq<int>, flat: Seq<Block>) -> bool {
    &&& flat.len() == rows.len()
    &&& forall|f: int| 0 <= f < flat.len() ==> 0 <= rows[f] < s.len() && same_block(#[trigger] flat[f], s[rows[f]])
}

/// Copies of distinct live rows other than the document's make a flat list
/// of it.
pub proof fn lemma_copies_flat(s: Seq<Block>, doc_id: Seq<char>, rows: Seq<int>, flat: Seq<Block>)
    requires
        store_wf(s),
        copies_of(s, rows, flat),
        forall|a: int, b: int| 0 <= a < b < rows.len() ==> (#[trigger] rows[a]) != (#[trigger] rows[b]),
        forall|t: int| 0 <= t < rows.len() ==> s[#[trigger] rows[t]].status != BlockStatus::Deleted && s[rows[t]].id@ != doc_id,
    ensures
        flat_of(s, doc_id, flat),
{
    assert forall|f: int| 0 <= f < flat.len() implies (#[trigger] index_of(s, flat[f].id@)) is Some && same_block(
        flat[f],
        s[index_of(s, flat[f].id@)->0],
    ) && flat[f].status != BlockStatus::Deleted && flat[f].id@ != doc_id by {
        assert(same_block(flat[f], s[rows[f]]));
        lemma_index_unique(s, rows[f]);
        assert(s[rows[f]].status != BlockStatus::Deleted);
    }
    assert forall|a: int, b: int| 0 <= a < b < flat.len() implies (#[trigger] flat[a]).id@ != (#[trigger] flat[b]).id@ by {
        assert(same_block(flat[a], s[rows[a]]));
        assert(same_block(flat[b], s[rows[b]]));
        assert(rows[a] != rows[b]);
    }
}

/// A flat list with its blocks rearranged (`flat2[t]` a copy of
/// `flat[m(t)]`, for distinct `m(t)`) is still a flat list of the
/// document.
pub proof fn lemma_rearranged_flat(s: Seq<Block>, doc_id: Seq<char>, flat: Seq<Block>, flat2: Seq<Block>, m: spec_fn(int) -> int)
    requires
        flat_of(s, doc_id, flat),
        forall|t: int| 0 <= t < flat2.len() ==> 0 <= #[trigger] m(t) < flat.len() && same_block(flat2[t], flat[m(t)]),
        forall|a: int, b: int| 0 <= a < b < flat2.len() ==> #[trigger] m(a) != #[trigger] m(b),
    ensures
        flat_of(s, doc_id, flat2),
{
    assert forall|f: int| 0 <= f < flat2.len() implies (#[trigger] index_of(s, flat2[f].id@)) is Some && same_block(
        flat2[f],
        s[index_of(s, flat2[f].id@)->0],
    ) && flat2[f].status != BlockStatus::Deleted && flat2[f].id@ != doc_id by {
        assert(same_block(flat2[f], flat[m(f)]));
        assert(index_of(s, flat[m(f)].id@) is Some);
    }
    assert forall|a: int, b: int| 0 <= a < b < flat2.len() implies (#[trigger] flat2[a]).id@ != (#[trigger] flat2[b]).id@ by {
        assert(same_block(flat2[a], flat[m(a)]) && same_block(flat2[b], flat[m(b)]));
        if m(a) < m(b) {
            assert(flat[m(a)].id@ != flat[m(b)].id@);
        } else {
            assert(flat[m(b)].id@ != flat[m(a)].id@);
        }
    }
}

// ─── Rebuilding in the store ─────────────────────────────────────

/// Rebuilding document `doc` from its own flat list, at time `now`: the
/// flat list holds copies of the document's rows in reading order.
pub open spec fn document_rebuilt(s0: Seq<Block>, s1: Seq<Block>, doc: Seq<char>, now: Seq<char>) -> bool {
    exists|flat: Seq<Block>|
        copies_of(s0, flat_rows(s0, doc), flat) && flat_of(s0, doc, flat) && tree_rebuilt(s0, s1, doc, flat, now)
}

/// Copies the rows of document `doc` in reading order, with what makes
/// them a flat list of it.
fn flat_copies(store: &BlockStore, doc: &str) -> (r: Vec<Block>)
    requires
        store_wf(store@),
    ensures
        copies_of(store@, flat_rows(store@, doc@), r@),
        flat_of(store@, doc@, r@),
{
    let rows = flat_row_list(store, doc);
    let ghost rv = rows@.map_values(|x: usize| x as int);
    let flat = copy_rows(store, &rows, rows.len());
    proof {
        assert forall|f: int| 0 <= f < flat@.len() implies 0 <= rv[f] < store@.len() && same_block(
            #[trigger] flat@[f],
            store@[rv[f]],
        ) by {
            assert(rv[f] == rows@[f] as int);
        }
        assert forall|a: int, b: int| 0 <= a < b < rv.len() implies (#[trigger] rv[a]) != (#[trigger] rv[b]) by {
            assert(rv[a] == rows@[a] as int && rv[b] == rows@[b] as int);
        }
        assert forall|t: int| 0 <= t < rv.len() implies store@[#[trigger] rv[t]].status != BlockStatus::Deleted
            && store@[rv[t]].id@ != doc@ by {
            assert(rv[t] == rows@[t] as int);
        }
        lemma_copies_flat(store@, doc@, rv, flat@);
    }
    flat
}

/// Rebuilds the tree of document `doc` from its own flat list.
pub fn rebuild_document(store: &mut BlockStore, doc: &str, now: &String) -> (r: Result<(), AppError>)
    requires
        store_wf(old(store)@),
        versions_fit(old(store)@, 1),
    ensures
        store_wf(final(store)@),
        final(store)@.len() == old(store)@.len(),
        forall|j: int| 0 <= j < old(store)@.len() ==> (#[trigger] final(store)@[j]).id@ == old(store)@[j].id@,
        r is Ok <==> live_row(old(store)@, doc@) is Some,
        r is Ok ==> document_rebuilt(old(store)@, final(store)@, doc@, now@),
        r matches Err(e) ==> final(store)@ == old(store)@ && (e matches AppError::Internal(m) && m@ == unreadable_parent_message(
            doc@,
        )),
{
    let flat = flat_copies(store, doc);
    rebuild_tree(store, doc, &flat, now)
}

/// `moved` is `flat` with the heading `id` taken out and a copy of it put
/// back where `insert_index` says.
pub open spec fn heading_moved(
    flat: Seq<Block>,
    moved: Seq<Block>,
    id: Seq<char>,
    before: Option<Seq<char>>,
    after: Option<Seq<char>>,
) -> bool {
    let idx = index_of_id(flat, id)->0;
    let rest = flat.remove(idx);
    let ins = insert_index(rest, before, after);
    &&& moved.len() == flat.len()
    &&& moved == rest.insert(ins, moved[ins])
    &&& same_block(moved[ins], flat[idx])
}

/// What moving the heading at row `i` within its document's flat list does
/// at time `now`: the flat list with the heading moved, and the tree
/// rebuilt from it.
pub open spec fn heading_flat_moved(
    s0: Seq<Block>,
    s1: Seq<Block>,
    i: int,
    before: Option<Seq<char>>,
    after: Option<Seq<char>>,
    now: Seq<char>,
) -> bool {
    let doc = s0[i].document_id@;
    exists|flat: Seq<Block>, moved: Seq<Block>|
        copies_of(s0, flat_rows(s0, doc), flat) && heading_moved(flat, moved, s0[i].id@, before, after) && tree_rebuilt(
            s0,
            s1,
            doc,
            moved,
            now,
        )
}

/// Moves the live heading at row `i` (`cur`, a copy of it) within its
/// document's flat list, before `before` or after `after` and its subtree,
/// and rebuilds the tree; gives the heading's row afterwards.
pub fn move_heading_in_flat(
    store: &mut BlockStore,
    i: usize,
    cur: Block,
    before: Option<&str>,
    after: Option<&str>,
    now: &String,
) -> (r: Result<Block, AppError>)
    requires
        store_wf(old(store)@),
        versions_fit(old(store)@, 1),
        i < old(store)@.len(),
        same_block(cur, old(store)@[i as int]),
    ensures
        store_wf(final(store)@),
        r is Ok <==> flat_rows(old(store)@, cur.document_id@).contains(i as int) && live_row(
            old(store)@,
            cur.document_id@,
        ) is Some,
        r matches Ok(b) ==> heading_flat_moved(old(store)@, final(store)@, i as int, opt_view(before), opt_view(after), now@)
            && same_block(b, final(store)@[i as int]),
        final(store)@.len() == old(store)@.len(),
        forall|j: int| 0 <= j < old(store)@.len() ==> (#[trigger] final(store)@[j]).id@ == old(store)@[j].id@,
        r matches Err(e) ==> final(store)@ == old(store)@ && if !flat_rows(old(store)@, cur.document_id@).contains(i as int) {
            e matches AppError::Internal(m) && m@ == not_in_flat_message()
        } else {
            e matches AppError::Internal(m) && m@ == unreadable_parent_message(cur.document_id@)
        },
{
    let ghost s0 = store@;
    let flat = flat_copies(store, cur.document_id.as_str());
    let ghost fv = flat@;
    let ghost rv = flat_rows(s0, cur.document_id@);
    proof {
        lemma_index_unique(s0, i as int);
        lemma_index_of_id(fv, cur.id@);
        if rv.contains(i as int) {
            let u = choose|u: int| 0 <= u < rv.len() && rv[u] == i as int;
            assert(same_block(fv[u], s0[i as int]));
        }
        if index_of_id(fv, cur.id@) is Some {
            let h = index_of_id(fv, cur.id@)->0;
            assert(same_block(fv[h], s0[rv[h]]));
            lemma_index_unique(s0, rv[h]);
            assert(rv[h] == i as int);
        }
    }
    let h = copy_block(&cur);
    let moved = match move_heading_flat(flat, h, before, after) {
        Ok(v) => v,
        Err(e) => {
            return Err(e);
        },
    };
    proof {
        let idx = index_of_id(fv, cur.id@)->0;
        let rest = fv.remove(idx);
        let ins = insert_index(rest, opt_view(before), opt_view(after));
        lemma_insert_index(rest, opt_view(before), opt_view(after));
        let mv = moved@;
        assert(same_block(fv[idx], s0[i as int]));
        assert(heading_moved(fv, mv, cur.id@, opt_view(before), opt_view(after)));
        let m = |t: int| if t < ins {
            if t < idx {
                t
            } else {
                t + 1
            }
        } else if t == ins {
            idx
        } else {
            if t - 1 < idx {
                t - 1
            } else {
                t
            }
        };
        assert forall|t: int| 0 <= t < mv.len() implies 0 <= #[trigger] m(t) < fv.len() && same_block(mv[t], fv[m(t)]) by {
            if t < ins {
                assert(mv[t] == rest[t]);
            } else if t > ins {
                assert(mv[t] == rest[t - 1]);
            }
        }
        lemma_rearranged_flat(s0, cur.document_id@, fv, mv, m);
    }
    match rebuild_tree(store, cur.document_id.as_str(), &moved, now) {
        Ok(()) => {},
        Err(e) => {
            return Err(e);
        },
    }
    Ok(copy_block(store.row_at(i)))
}

/// A row that holds no block of the flat list is left as it is by every
/// group.
pub proof fn lemma_row_untouched(
    s0: Seq<Block>,
    doc_id: Seq<char>,
    flat: Seq<Block>,
    groups: Seq<(Seq<char>, Seq<usize>)>,
    now: Seq<char>,
    states: Seq<Seq<Block>>,
    j: int,
    g: int,
)
    requires
        groups_ok(flat_parents(doc_id, flat), groups),
        states.len() == groups.len() + 1,
        states[0] == s0,
        forall|y: int|
            0 <= y < groups.len() ==> group_rebuilt(states[y], states[y + 1], flat, (#[trigger] groups[y]).0, groups[y].1, now),
        0 <= j < s0.len(),
        forall|f: int| 0 <= f < flat.len() ==> index_of(s0, (#[trigger] flat[f]).id@) != Some(j),
        0 <= g <= groups.len(),
    ensures
        states[g][j] == s0[j],
    decreases g,
{
    if g > 0 {
        lemma_row_untouched(s0, doc_id, flat, groups, now, states, j, g - 1);
        let s = states[g - 1];
        lemma_chain_ids(s0, flat, groups, now, states, g - 1);
        assert(group_rebuilt(s, states[g], flat, groups[g - 1].0, groups[g - 1].1, now));
        assert(!member_row(s, flat, groups[g - 1].1, j)) by {
            if member_row(s, flat, groups[g - 1].1, j) {
                let k = choose|k: int|
                    0 <= k < groups[g - 1].1.len() && index_of(s, flat[#[trigger] groups[g - 1].1[k] as int].id@) == Some(j);
                let f = groups[g - 1].1[k] as int;
                assert(f < flat_parents(doc_id, flat).len());
                lemma_index_same_ids(s, s0, flat[f].id@);
                assert(index_of(s0, flat[f].id@) != Some(j));
            }
        }
    }
}

/// Rebuilding raises each row's version by at most one.
pub proof fn lemma_rebuilt_versions(s0: Seq<Block>, s1: Seq<Block>, doc_id: Seq<char>, flat: Seq<Block>, now: Seq<char>)
    requires
        store_wf(s0),
        flat_of(s0, doc_id, flat),
        tree_rebuilt(s0, s1, doc_id, flat, now),
    ensures
        s1.len() == s0.len(),
        forall|j: int| 0 <= j < s0.len() ==> (#[trigger] s1[j]).version <= s0[j].version + 1,
{
    let (groups, states) = choose|groups: Seq<(Seq<char>, Seq<usize>)>, states: Seq<Seq<Block>>|
        groups_ok(flat_parents(doc_id, flat), groups) && rebuild_chain(s0, s1, flat, groups, now, states);
    let ps = flat_parents(doc_id, flat);
    lemma_chain_ids(s0, flat, groups, now, states, groups.len() as int);
    assert forall|j: int| 0 <= j < s0.len() implies (#[trigger] s1[j]).version <= s0[j].version + 1 by {
        if exists|f: int| 0 <= f < flat.len() && index_of(s0, (#[trigger] flat[f]).id@) == Some(j) {
            let f = choose|f: int| 0 <= f < flat.len() && index_of(s0, (#[trigger] flat[f]).id@) == Some(j);
            assert(f < ps.len());
            assert(grouped(groups, f));
            let (x, k) = choose|x: int, k: int| 0 <= x < groups.len() && 0 <= k < groups[x].1.len() && #[trigger] groups[x].1[k] == f;
            assert(ps[f] == groups[x].0);
            lemma_row_span(s0, doc_id, flat, groups, now, states, f, x, x);
            lemma_row_span(s0, doc_id, flat, groups, now, states, f, x, groups.len() as int);
            lemma_chain_ids(s0, flat, groups, now, states, x);
            lemma_index_same_ids(states[x], s0, flat[f].id@);
            assert(group_rebuilt(states[x], states[x + 1], flat, groups[x].0, groups[x].1, now));
            assert(groups[x].1[k] as int == f);
        } else {
            lemma_row_untouched(s0, doc_id, flat, groups, now, states, j, groups.len() as int);
        }
    }
}

/// Rebuilding a document from its own flat list raises each row's version
/// by at most one.
pub proof fn lemma_document_rebuilt_versions(s0: Seq<Block>, s1: Seq<Block>, doc: Seq<char>, now: Seq<char>)
    requires
        store_wf(s0),
        document_rebuilt(s0, s1, doc, now),
    ensures
        s1.len() == s0.len(),
        forall|j: int| 0 <= j < s0.len() ==> (#[trigger] s1[j]).version <= s0[j].version + 1,
{
    let flat = choose|flat: Seq<Block>|
        copies_of(s0, flat_rows(s0, doc), flat) && flat_of(s0, doc, flat) && tree_rebuilt(s0, s1, doc, flat, now);
    lemma_rebuilt_versions(s0, s1, doc, flat, now);
}

} // verus!
