//! The block store: one row per block, as the block services read and write
//! them. Identifiers are unique and every position is a valid position.

use vstd::prelude::*;
use crate::model::{now_iso, Block, BlockStatus, BlockType, ROOT_ID};
use crate::position::{generate_first, lex_less, lex_lt, valid_pos};
use crate::text::{str_eq, to_chars};
use std::collections::HashMap;

verus! {

/// Identifiers are unique, positions are made of the position alphabet,
/// and only the global root is its own parent.
pub open spec fn store_wf(s: Seq<Block>) -> bool {
    &&& forall|i: int, j: int| 0 <= i < j < s.len() ==> (#[trigger] s[i]).id@ != (#[trigger] s[j]).id@
    &&& forall|i: int| 0 <= i < s.len() ==> row_ok(#[trigger] s[i])
}

/// A row's own rules: a valid position, and no parent link to itself but
/// for the global root.
pub open spec fn row_ok(b: Block) -> bool {
    valid_pos(b.position@) && (b.parent_id@ == b.id@ ==> b.id@ == ROOT_ID@)
}

/// Index of the row with identifier `id`, if any (the last one, which is the
/// only one in a well-formed store).
pub open spec fn index_of(s: Seq<Block>, id: Seq<char>) -> Option<int>
    decreases s.len(),
{
    if s.len() == 0 {
        None
    } else if s.last().id@ == id {
        Some(s.len() - 1)
    } else {
        index_of(s.drop_last(), id)
    }
}

/// The row with identifier `id`, if any.
pub open spec fn row_of(s: Seq<Block>, id: Seq<char>) -> Option<Block> {
    match index_of(s, id) {
        Some(i) => Some(s[i]),
        None => None,
    }
}

/// The row with identifier `id`, unless it is missing or deleted.
pub open spec fn live_row(s: Seq<Block>, id: Seq<char>) -> Option<Block> {
    match row_of(s, id) {
        Some(b) => if b.status != BlockStatus::Deleted {
            Some(b)
        } else {
            None
        },
        None => None,
    }
}

pub proof fn lemma_index_of(s: Seq<Block>, id: Seq<char>)
    ensures
        index_of(s, id) matches Some(i) ==> 0 <= i < s.len() && s[i].id@ == id,
        index_of(s, id) is None ==> forall|k: int| 0 <= k < s.len() ==> (#[trigger] s[k]).id@ != id,
    decreases s.len(),
{
    if s.len() > 0 && s.last().id@ != id {
        lemma_index_of(s.drop_last(), id);
        if index_of(s, id) is None {
            assert forall|k: int| 0 <= k < s.len() implies (#[trigger] s[k]).id@ != id by {
                if k < s.len() - 1 {
                    assert(s[k] == s.drop_last()[k]);
                }
            }
        }
    }
}

/// In a well-formed store, the row holding `id` is the one `index_of` finds.
pub proof fn lemma_index_unique(s: Seq<Block>, k: int)
    requires
        store_wf(s),
        0 <= k < s.len(),
    ensures
        index_of(s, s[k].id@) == Some(k),
{
    lemma_index_of(s, s[k].id@);
}

/// Stores whose rows carry the same identifiers find the same index.
pub proof fn lemma_index_same_ids(s: Seq<Block>, t: Seq<Block>, id: Seq<char>)
    requires
        s.len() == t.len(),
        forall|k: int| 0 <= k < s.len() ==> (#[trigger] s[k]).id@ == t[k].id@,
    ensures
        index_of(s, id) == index_of(t, id),
    decreases s.len(),
{
    if s.len() > 0 {
        assert(s[s.len() - 1].id@ == t[t.len() - 1].id@);
        assert forall|k: int| 0 <= k < s.drop_last().len() implies (#[trigger] s.drop_last()[k]).id@ == t.drop_last()[k].id@ by {
            assert(s.drop_last()[k] == s[k]);
            assert(t.drop_last()[k] == t[k]);
        }
        lemma_index_same_ids(s.drop_last(), t.drop_last(), id);
    }
}

/// The global root: a document that is its own parent and document.
pub open spec fn root_row(b: Block) -> bool {
    &&& b.id@ == ROOT_ID@
    &&& b.parent_id@ == ROOT_ID@
    &&& b.document_id@ == ROOT_ID@
    &&& b.position@ == seq!['a', '0']
    &&& b.block_type == BlockType::Document
    &&& b.content@.len() == 0
    &&& b.properties@ == Map::<String, String>::empty()
    &&& b.version == 1
    &&& b.status == BlockStatus::Normal
    &&& b.schema_version == 1
    &&& !b.encrypted
    &&& b.created@ == b.modified@
    &&& b.author@ == "system"@
    &&& b.owner_id is None
}

/// `b` is a live child of `p`.
pub open spec fn live_child(b: Block, p: Seq<char>) -> bool {
    b.status != BlockStatus::Deleted && b.parent_id@ == p
}

/// The greatest position among the live children of `p`.
pub open spec fn max_child_pos(s: Seq<Block>, p: Seq<char>) -> Option<Seq<char>>
    decreases s.len(),
{
    if s.len() == 0 {
        None
    } else {
        let r = max_child_pos(s.drop_last(), p);
        let b = s.last();
        if live_child(b, p) && (r is None || lex_lt(r->0, b.position@)) {
            Some(b.position@)
        } else {
            r
        }
    }
}

/// The least position above `a` among the live children of `p`.
pub open spec fn next_child_pos(s: Seq<Block>, p: Seq<char>, a: Seq<char>) -> Option<Seq<char>>
    decreases s.len(),
{
    if s.len() == 0 {
        None
    } else {
        let r = next_child_pos(s.drop_last(), p, a);
        let b = s.last();
        if live_child(b, p) && lex_lt(a, b.position@) && (r is None || lex_lt(b.position@, r->0)) {
            Some(b.position@)
        } else {
            r
        }
    }
}

/// The greatest position below `b` among the live children of `p`.
pub open spec fn prev_child_pos(s: Seq<Block>, p: Seq<char>, b: Seq<char>) -> Option<Seq<char>>
    decreases s.len(),
{
    if s.len() == 0 {
        None
    } else {
        let r = prev_child_pos(s.drop_last(), p, b);
        let x = s.last();
        if live_child(x, p) && lex_lt(x.position@, b) && (r is None || lex_lt(r->0, x.position@)) {
            Some(x.position@)
        } else {
            r
        }
    }
}

/// Index of the live child of `p` with the greatest position below `b` (the
/// earliest such row among equal positions).
pub open spec fn prev_child_row(s: Seq<Block>, p: Seq<char>, b: Seq<char>) -> Option<int>
    decreases s.len(),
{
    if s.len() == 0 {
        None
    } else {
        let r = prev_child_row(s.drop_last(), p, b);
        let x = s.last();
        if live_child(x, p) && lex_lt(x.position@, b) && (r is None || lex_lt(s[r->0].position@, x.position@)) {
            Some(s.len() - 1)
        } else {
            r
        }
    }
}

/// The previous child row is a live child of `p` placed below `b`, and no
/// live child of `p` lies strictly between it and `b`.
pub proof fn lemma_prev_child_row(s: Seq<Block>, p: Seq<char>, b: Seq<char>)
    ensures
        prev_child_row(s, p, b) matches Some(k) ==> 0 <= k < s.len() && live_child(s[k], p) && lex_lt(s[k].position@, b),
        prev_child_row(s, p, b) is None ==> forall|k: int| 0 <= k < s.len() && live_child(#[trigger] s[k], p) ==> !lex_lt(s[k].position@, b),
    decreases s.len(),
{
    if s.len() > 0 {
        lemma_prev_child_row(s.drop_last(), p, b);
        if let Some(k) = prev_child_row(s.drop_last(), p, b) {
            assert(s.drop_last()[k] == s[k]);
        }
        if prev_child_row(s, p, b) is None {
            assert forall|k: int| 0 <= k < s.len() && live_child(#[trigger] s[k], p) implies !lex_lt(s[k].position@, b) by {
                if k < s.len() - 1 {
                    assert(s.drop_last()[k] == s[k]);
                }
            }
        }
    }
}

/// The live child of `p` placed highest below `b` is the previous child row,
/// when no other live child below `b` sits as high.
pub proof fn lemma_prev_child_row_is(s: Seq<Block>, p: Seq<char>, b: Seq<char>, i: int)
    requires
        0 <= i < s.len(),
        live_child(s[i], p),
        lex_lt(s[i].position@, b),
        forall|k: int|
            0 <= k < s.len() && k != i && live_child(#[trigger] s[k], p) && lex_lt(s[k].position@, b) ==> lex_lt(
                s[k].position@,
                s[i].position@,
            ),
    ensures
        prev_child_row(s, p, b) == Some(i),
    decreases s.len(),
{
    let n = s.len() - 1;
    let d = s.drop_last();
    assert(s.last() == s[n]);
    if i < n {
        assert forall|k: int|
            0 <= k < d.len() && k != i && live_child(#[trigger] d[k], p) && lex_lt(d[k].position@, b) implies lex_lt(
            d[k].position@,
            d[i].position@,
        ) by {
            assert(d[k] == s[k]);
        }
        assert(d[i] == s[i]);
        lemma_prev_child_row_is(d, p, b, i);
        crate::position::lemma_lex_lt_total(s[n].position@, s[i].position@);
    } else {
        lemma_prev_child_row(d, p, b);
        if let Some(r) = prev_child_row(d, p, b) {
            assert(d[r] == s[r]);
        }
    }
}

/// The next child position is the least one above `a`.
pub proof fn lemma_next_child_least(s: Seq<Block>, p: Seq<char>, a: Seq<char>)
    ensures
        next_child_pos(s, p, a) matches Some(n) ==> forall|k: int|
            0 <= k < s.len() && live_child(#[trigger] s[k], p) && lex_lt(a, s[k].position@) ==> !lex_lt(s[k].position@, n),
        next_child_pos(s, p, a) is None ==> forall|k: int|
            0 <= k < s.len() && live_child(#[trigger] s[k], p) ==> !lex_lt(a, s[k].position@),
    decreases s.len(),
{
    if s.len() > 0 {
        let d = s.drop_last();
        lemma_next_child_least(d, p, a);
        let x = s.last();
        assert(x == s[s.len() - 1]);
        assert forall|k: int| 0 <= k < d.len() implies #[trigger] s[k] == d[k] by {}
        if let Some(n) = next_child_pos(s, p, a) {
            assert forall|k: int|
                0 <= k < s.len() && live_child(#[trigger] s[k], p) && lex_lt(a, s[k].position@) implies !lex_lt(
                s[k].position@,
                n,
            ) by {
                crate::position::lemma_lex_lt_total(s[k].position@, n);
                if k < d.len() {
                    assert(s[k] == d[k]);
                    if let Some(r) = next_child_pos(d, p, a) {
                        if n != r {
                            crate::position::lemma_lex_lt_total(n, r);
                            if lex_lt(s[k].position@, n) {
                                crate::position::lemma_lex_lt_transitive(s[k].position@, n, r);
                            }
                        }
                    }
                } else {
                    if let Some(r) = next_child_pos(d, p, a) {
                        crate::position::lemma_lex_lt_total(x.position@, r);
                    }
                }
            }
        }
    }
}

/// The previous child position lies below `b` and is a position of the store.
pub proof fn lemma_prev_child_pos(s: Seq<Block>, p: Seq<char>, b: Seq<char>)
    requires
        forall|i: int| 0 <= i < s.len() ==> row_ok(#[trigger] s[i]),
    ensures
        prev_child_pos(s, p, b) matches Some(n) ==> valid_pos(n) && lex_lt(n, b),
    decreases s.len(),
{
    if s.len() > 0 {
        assert forall|i: int| 0 <= i < s.drop_last().len() implies row_ok(#[trigger] s.drop_last()[i]) by {
            assert(s.drop_last()[i] == s[i]);
        }
        lemma_prev_child_pos(s.drop_last(), p, b);
        assert(row_ok(s[s.len() - 1]));
    }
}

/// The greatest child position is a position of the store, so valid.
pub proof fn lemma_max_child_pos(s: Seq<Block>, p: Seq<char>)
    requires
        forall|i: int| 0 <= i < s.len() ==> row_ok(#[trigger] s[i]),
    ensures
        max_child_pos(s, p) matches Some(m) ==> valid_pos(m),
    decreases s.len(),
{
    if s.len() > 0 {
        assert forall|i: int| 0 <= i < s.drop_last().len() implies row_ok(#[trigger] s.drop_last()[i]) by {
            assert(s.drop_last()[i] == s[i]);
        }
        lemma_max_child_pos(s.drop_last(), p);
        assert(row_ok(s[s.len() - 1]));
    }
}

/// The next child position lies above `a` and is a position of the store.
pub proof fn lemma_next_child_pos(s: Seq<Block>, p: Seq<char>, a: Seq<char>)
    requires
        forall|i: int| 0 <= i < s.len() ==> row_ok(#[trigger] s[i]),
    ensures
        next_child_pos(s, p, a) matches Some(n) ==> valid_pos(n) && lex_lt(a, n),
    decreases s.len(),
{
    if s.len() > 0 {
        assert forall|i: int| 0 <= i < s.drop_last().len() implies row_ok(#[trigger] s.drop_last()[i]) by {
            assert(s.drop_last()[i] == s[i]);
        }
        lemma_next_child_pos(s.drop_last(), p, a);
        assert(row_ok(s[s.len() - 1]));
    }
}

/// `xs` (row indices in position order) with row `k` inserted after every
/// row whose position is not above that of `k`.
pub open spec fn insert_by_pos(s: Seq<Block>, xs: Seq<int>, k: int) -> Seq<int>
    decreases xs.len(),
{
    if xs.len() == 0 || !lex_lt(s[k].position@, s[xs.last()].position@) {
        xs.push(k)
    } else {
        insert_by_pos(s, xs.drop_last(), k).push(xs.last())
    }
}

/// Indices of the live children of `p` among the first `n` rows, in
/// position order (the earlier row first among equal positions).
pub open spec fn children_upto(s: Seq<Block>, p: Seq<char>, n: int) -> Seq<int>
    decreases n,
{
    if n <= 0 {
        Seq::empty()
    } else {
        let r = children_upto(s, p, n - 1);
        if live_child(s[n - 1], p) {
            insert_by_pos(s, r, n - 1)
        } else {
            r
        }
    }
}

/// Indices of the live children of `p`, in position order.
pub open spec fn children_sorted(s: Seq<Block>, p: Seq<char>) -> Seq<int> {
    children_upto(s, p, s.len() as int)
}

/// Indices of the rows among the first `n` that `f` picks, in position
/// order (the earlier row first among equal positions).
pub open spec fn picked_upto(s: Seq<Block>, f: spec_fn(int) -> bool, n: int) -> Seq<int>
    decreases n,
{
    if n <= 0 {
        Seq::empty()
    } else {
        let r = picked_upto(s, f, n - 1);
        if f(n - 1) {
            insert_by_pos(s, r, n - 1)
        } else {
            r
        }
    }
}

/// Inserting `k` at `j`, past the rows whose position is not above that of
/// `k`, is what `insert_by_pos` does.
pub proof fn lemma_insert_by_pos(s: Seq<Block>, xs: Seq<int>, k: int, j: int)
    requires
        0 <= j <= xs.len(),
        forall|t: int| j <= t < xs.len() ==> lex_lt(s[k].position@, s[#[trigger] xs[t]].position@),
        j > 0 ==> !lex_lt(s[k].position@, s[xs[j - 1]].position@),
    ensures
        insert_by_pos(s, xs, k) == xs.take(j).push(k) + xs.skip(j),
    decreases xs.len(),
{
    if j == xs.len() {
        assert(xs.take(j) =~= xs);
        assert(xs.skip(j) =~= Seq::<int>::empty());
        assert(xs.push(k) =~= xs.take(j).push(k) + xs.skip(j));
    } else {
        let d = xs.drop_last();
        assert forall|t: int| j <= t < d.len() implies lex_lt(s[k].position@, s[#[trigger] d[t]].position@) by {
            assert(d[t] == xs[t]);
        }
        if j > 0 {
            assert(d[j - 1] == xs[j - 1]);
        }
        assert(lex_lt(s[k].position@, s[xs[xs.len() - 1]].position@));
        lemma_insert_by_pos(s, d, k, j);
        assert(d.take(j) =~= xs.take(j));
        assert(xs.skip(j) =~= d.skip(j).push(xs.last()));
        assert(d.take(j).push(k) + d.skip(j).push(xs.last()) =~= (d.take(j).push(k) + d.skip(j)).push(xs.last()));
    }
}

/// Row `k` lies in the subtree of block `id` (itself included): its chain
/// of parents reaches `id` within `fuel` steps.
pub open spec fn under(s: Seq<Block>, k: int, id: Seq<char>, fuel: nat) -> bool
    decreases fuel,
{
    if !(0 <= k < s.len()) {
        false
    } else if s[k].id@ == id {
        true
    } else if fuel == 0 {
        false
    } else {
        match index_of(s, s[k].parent_id@) {
            Some(pk) => pk != k && under(s, pk, id, (fuel - 1) as nat),
            None => false,
        }
    }
}

/// Row `k` lies in the subtree of block `id`, itself included.
pub open spec fn in_subtree(s: Seq<Block>, k: int, id: Seq<char>) -> bool {
    under(s, k, id, s.len())
}

/// Number of rows among the first `n` that satisfy `f`.
pub open spec fn count_rows(s: Seq<Block>, n: int, f: spec_fn(int) -> bool) -> nat
    decreases n,
{
    if n <= 0 {
        0
    } else {
        count_rows(s, n - 1, f) + if f(n - 1) {
            1nat
        } else {
            0nat
        }
    }
}

/// The rows of all blocks.
pub struct BlockStore {
    rows: Vec<Block>,
}

impl View for BlockStore {
    type V = Seq<Block>;

    closed spec fn view(&self) -> Seq<Block> {
        self.rows@
    }
}

impl BlockStore {
    /// A store holding only the global root.
    pub fn new() -> (s: Self)
        ensures
            store_wf(s@),
            s@.len() == 1,
            root_row(s@[0]),
    {
        proof {
            reveal_strlit("/");
            reveal_strlit("system");
        }
        let now = now_iso();
        let root = Block {
            id: ROOT_ID.to_owned(),
            parent_id: ROOT_ID.to_owned(),
            document_id: ROOT_ID.to_owned(),
            position: generate_first(),
            block_type: BlockType::Document,
            content: Vec::new(),
            properties: HashMap::new(),
            version: 1,
            status: BlockStatus::Normal,
            schema_version: 1,
            encrypted: false,
            created: now.clone(),
            modified: now,
            author: "system".to_owned(),
            owner_id: None,
        };
        let mut rows: Vec<Block> = Vec::new();
        rows.push(root);
        let s = BlockStore { rows };
        assert(row_ok(s@[0])) by {
            crate::position::lemma_alpha_char(10);
            crate::position::lemma_alpha_char(0);
        }
        s
    }

    /// Number of rows.
    pub fn len(&self) -> (n: usize)
        ensures
            n == self@.len(),
    {
        self.rows.len()
    }

    /// The row at index `i`.
    pub fn row_at(&self, i: usize) -> (b: &Block)
        requires
            i < self@.len(),
        ensures
            *b == self@[i as int],
    {
        &self.rows[i]
    }

    /// Index of the row with identifier `id`.
    pub fn find(&self, id: &str) -> (r: Option<usize>)
        ensures
            r matches Some(i) ==> index_of(self@, id@) == Some(i as int) && i < self@.len() && self@[i as int].id@ == id@,
            r is None ==> index_of(self@, id@) is None,
    {
        proof {
            lemma_index_of(self@, id@);
        }
        let mut i: usize = self.rows.len();
        assert(self@.take(i as int) =~= self@);
        while i > 0
            invariant
                i <= self.rows.len(),
                index_of(self@, id@) == index_of(self@.take(i as int), id@),
            decreases i,
        {
            assert(self@.take(i as int).drop_last() =~= self@.take(i - 1));
            if str_eq(self.rows[i - 1].id.as_str(), id) {
                return Some(i - 1);
            }
            i -= 1;
        }
        None
    }

    /// Adds a row whose identifier is new.
    pub(crate) fn push_row(&mut self, b: Block)
        requires
            store_wf(old(self)@),
            index_of(old(self)@, b.id@) is None,
            row_ok(b),
        ensures
            store_wf(final(self)@),
            final(self)@ == old(self)@.push(b),
    {
        proof {
            lemma_index_of(self@, b.id@);
        }
        self.rows.push(b);
    }

    /// Replaces the row at `i` by one with the same identifier.
    pub(crate) fn set_row(&mut self, i: usize, b: Block)
        requires
            store_wf(old(self)@),
            i < old(self)@.len(),
            b.id@ == old(self)@[i as int].id@,
            row_ok(b),
        ensures
            store_wf(final(self)@),
            final(self)@ == old(self)@.update(i as int, b),
    {
        self.rows.set(i, b);
    }

    /// Indices of the live children of `p`, in position order.
    pub fn sorted_children(&self, p: &str) -> (r: Vec<usize>)
        ensures
            r@.map_values(|x: usize| x as int) == children_sorted(self@, p@),
            forall|t: int| 0 <= t < r@.len() ==> (#[trigger] r@[t]) < self@.len() && live_child(self@[r@[t] as int], p@),
            forall|t: int, u: int| 0 <= t < u < r@.len() ==> (#[trigger] r@[t]) != (#[trigger] r@[u]),
            forall|k: int| 0 <= k < self@.len() && live_child(#[trigger] self@[k], p@) ==> exists|t: int| 0 <= t < r@.len() && r@[t] == k,
    {
        let mut v: Vec<usize> = Vec::new();
        let mut n: usize = 0;
        while n < self.rows.len()
            invariant
                n <= self.rows.len(),
                v@.map_values(|x: usize| x as int) == children_upto(self@, p@, n as int),
                forall|t: int| 0 <= t < v@.len() ==> (#[trigger] v@[t]) < n && live_child(self@[v@[t] as int], p@),
                forall|t: int, u: int| 0 <= t < u < v@.len() ==> (#[trigger] v@[t]) != (#[trigger] v@[u]),
                forall|k: int| 0 <= k < n && live_child(#[trigger] self@[k], p@) ==> exists|t: int| 0 <= t < v@.len() && v@[t] == k,
            decreases self.rows.len() - n,
        {
            let b = &self.rows[n];
            if b.status != BlockStatus::Deleted && str_eq(b.parent_id.as_str(), p) {
                let bc = to_chars(b.position.as_str());
                let ghost xs = v@.map_values(|x: usize| x as int);
                let mut j: usize = v.len();
                let mut go = true;
                while go && j > 0
                    invariant
                        j <= v@.len(),
                        !go ==> j > 0 && !lex_lt(self@[n as int].position@, self@[xs[j - 1]].position@),
                        xs == v@.map_values(|x: usize| x as int),
                        n < self@.len(),
                        bc@ == self@[n as int].position@,
                        forall|t: int| 0 <= t < v@.len() ==> (#[trigger] v@[t]) < n,
                        forall|t: int| j <= t < xs.len() ==> lex_lt(self@[n as int].position@, self@[#[trigger] xs[t]].position@),
                    decreases j, if go { 1int } else { 0int },
                {
                    let pc = to_chars(self.rows[v[j - 1]].position.as_str());
                    if lex_less(bc.as_slice(), pc.as_slice()) {
                        j -= 1;
                    } else {
                        go = false;
                    }
                }
                proof {
                    lemma_insert_by_pos(self@, xs, n as int, j as int);
                }
                let ghost v0 = v@;
                v.insert(j, n);
                assert(v@.map_values(|x: usize| x as int) =~= xs.take(j as int).push(n as int) + xs.skip(j as int));
                proof {
                    assert forall|t: int| 0 <= t < v@.len() implies (#[trigger] v@[t]) < n + 1 && live_child(self@[v@[t] as int], p@) by {
                        if t < j {
                            assert(v@[t] == v0[t]);
                        } else if t > j {
                            assert(v@[t] == v0[t - 1]);
                        }
                    }
                    assert forall|t: int, u: int| 0 <= t < u < v@.len() implies (#[trigger] v@[t]) != (#[trigger] v@[u]) by {
                        if t < j && u < j {
                            assert(v@[t] == v0[t] && v@[u] == v0[u]);
                        } else if t < j && u > j {
                            assert(v@[t] == v0[t] && v@[u] == v0[u - 1]);
                        } else if t > j && u > j {
                            assert(v@[t] == v0[t - 1] && v@[u] == v0[u - 1]);
                        } else if t == j {
                            assert(v@[u] == v0[u - 1]);
                        } else {
                            assert(v@[t] == v0[t]);
                        }
                    }
                    assert forall|k: int| 0 <= k < n + 1 && live_child(#[trigger] self@[k], p@) implies exists|t: int| 0 <= t < v@.len() && v@[t] == k by {
                        if k == n {
                            assert(v@[j as int] == n);
                        } else {
                            let t0 = choose|t: int| 0 <= t < v0.len() && v0[t] == k;
                            if t0 < j {
                                assert(v@[t0] == v0[t0]);
                            } else {
                                assert(v@[t0 + 1] == v0[t0]);
                            }
                        }
                    }
                }
            }
            n += 1;
        }
        v
    }

    /// Whether row `k` lies in the subtree of block `id`.
    pub fn is_under(&self, k: usize, id: &str) -> (r: bool)
        requires
            k < self@.len(),
        ensures
            r == in_subtree(self@, k as int, id@),
    {
        let n = self.rows.len();
        let mut cur: usize = k;
        let mut steps: usize = 0;
        while steps <= n
            invariant
                n == self@.len(),
                steps <= n,
                cur < n,
                in_subtree(self@, k as int, id@) == under(self@, cur as int, id@, (n - steps) as nat),
            decreases n + 1 - steps,
        {
            if str_eq(self.rows[cur].id.as_str(), id) {
                return true;
            }
            if steps == n {
                return false;
            }
            match self.find(self.rows[cur].parent_id.as_str()) {
                Some(pk) => {
                    if pk == cur {
                        return false;
                    }
                    cur = pk;
                },
                None => {
                    return false;
                },
            }
            steps += 1;
        }
        false
    }

    /// The greatest position below `b` among the live children of `p`.
    pub fn prev_child_position(&self, p: &str, b: &str) -> (r: Option<String>)
        ensures
            r matches Some(x) ==> prev_child_pos(self@, p@, b@) == Some(x@),
            r is None ==> prev_child_pos(self@, p@, b@) is None,
    {
        let bc = to_chars(b);
        let mut best: Option<String> = None;
        let mut i: usize = 0;
        while i < self.rows.len()
            invariant
                i <= self.rows.len(),
                bc@ == b@,
                best matches Some(x) ==> prev_child_pos(self@.take(i as int), p@, b@) == Some(x@),
                best is None ==> prev_child_pos(self@.take(i as int), p@, b@) is None,
            decreases self.rows.len() - i,
        {
            assert(self@.take(i + 1).drop_last() =~= self@.take(i as int));
            let x = &self.rows[i];
            if x.status != BlockStatus::Deleted && str_eq(x.parent_id.as_str(), p) {
                let xc = to_chars(x.position.as_str());
                if lex_less(xc.as_slice(), bc.as_slice()) {
                    let take = match &best {
                        None => true,
                        Some(y) => {
                            let yc = to_chars(y.as_str());
                            lex_less(yc.as_slice(), xc.as_slice())
                        },
                    };
                    if take {
                        best = Some(x.position.clone());
                    }
                }
            }
            i += 1;
        }
        assert(self@.take(self.rows.len() as int) =~= self@);
        best
    }

    /// Index of the live child of `p` with the greatest position below `b`
    /// (see `prev_child_row`).
    pub fn prev_child_index(&self, p: &str, b: &str) -> (r: Option<usize>)
        ensures
            r matches Some(k) ==> prev_child_row(self@, p@, b@) == Some(k as int),
            r is None ==> prev_child_row(self@, p@, b@) is None,
    {
        let bc = to_chars(b);
        let mut best: Option<usize> = None;
        let mut i: usize = 0;
        while i < self.rows.len()
            invariant
                i <= self.rows.len(),
                bc@ == b@,
                best matches Some(k) ==> prev_child_row(self@.take(i as int), p@, b@) == Some(k as int) && k < i,
                best is None ==> prev_child_row(self@.take(i as int), p@, b@) is None,
            decreases self.rows.len() - i,
        {
            assert(self@.take(i + 1).drop_last() =~= self@.take(i as int));
            let x = &self.rows[i];
            if x.status != BlockStatus::Deleted && str_eq(x.parent_id.as_str(), p) {
                let xc = to_chars(x.position.as_str());
                if lex_less(xc.as_slice(), bc.as_slice()) {
                    let take = match best {
                        None => true,
                        Some(k) => {
                            let yc = to_chars(self.rows[k].position.as_str());
                            assert(self@.take(i + 1)[k as int] == self@[k as int]);
                            lex_less(yc.as_slice(), xc.as_slice())
                        },
                    };
                    if take {
                        best = Some(i);
                    }
                }
            }
            i += 1;
        }
        assert(self@.take(self.rows.len() as int) =~= self@);
        best
    }

    /// Indices of the rows `flags` picks, in position order.
    pub fn sorted_rows(&self, flags: &Vec<bool>, Ghost(f): Ghost<spec_fn(int) -> bool>) -> (r: Vec<usize>)
        requires
            flags@.len() == self@.len(),
            forall|k: int| 0 <= k < flags@.len() ==> flags@[k] == f(k),
        ensures
            r@.map_values(|x: usize| x as int) == picked_upto(self@, f, self@.len() as int),
            forall|t: int| 0 <= t < r@.len() ==> (#[trigger] r@[t]) < self@.len() && f(r@[t] as int),
    {
        let mut v: Vec<usize> = Vec::new();
        let mut n: usize = 0;
        while n < self.rows.len()
            invariant
                n <= self.rows.len(),
                flags@.len() == self@.len(),
                forall|k: int| 0 <= k < flags@.len() ==> flags@[k] == f(k),
                v@.map_values(|x: usize| x as int) == picked_upto(self@, f, n as int),
                forall|t: int| 0 <= t < v@.len() ==> (#[trigger] v@[t]) < n && f(v@[t] as int),
            decreases self.rows.len() - n,
        {
            if flags[n] {
                let bc = to_chars(self.rows[n].position.as_str());
                let ghost xs = v@.map_values(|x: usize| x as int);
                let mut j: usize = v.len();
                let mut go = true;
                while go && j > 0
                    invariant
                        j <= v@.len(),
                        !go ==> j > 0 && !lex_lt(self@[n as int].position@, self@[xs[j - 1]].position@),
                        xs == v@.map_values(|x: usize| x as int),
                        n < self@.len(),
                        bc@ == self@[n as int].position@,
                        forall|t: int| 0 <= t < v@.len() ==> (#[trigger] v@[t]) < n,
                        forall|t: int| j <= t < xs.len() ==> lex_lt(self@[n as int].position@, self@[#[trigger] xs[t]].position@),
                    decreases j, if go { 1int } else { 0int },
                {
                    let pc = to_chars(self.rows[v[j - 1]].position.as_str());
                    if lex_less(bc.as_slice(), pc.as_slice()) {
                        j -= 1;
                    } else {
                        go = false;
                    }
                }
                proof {
                    lemma_insert_by_pos(self@, xs, n as int, j as int);
                }
                let ghost v0 = v@;
                v.insert(j, n);
                assert(v@.map_values(|x: usize| x as int) =~= xs.take(j as int).push(n as int) + xs.skip(j as int));
                proof {
                    assert forall|t: int| 0 <= t < v@.len() implies (#[trigger] v@[t]) < n + 1 && f(v@[t] as int) by {
                        if t < j {
                            assert(v@[t] == v0[t]);
                        } else if t > j {
                            assert(v@[t] == v0[t - 1]);
                        }
                    }
                }
            }
            n += 1;
        }
        v
    }

    /// Whether `p` has a live child.
    pub fn has_live_child(&self, p: &str) -> (r: bool)
        ensures
            r == exists|k: int| 0 <= k < self@.len() && live_child(#[trigger] self@[k], p@),
    {
        let mut i: usize = 0;
        while i < self.rows.len()
            invariant
                i <= self.rows.len(),
                forall|k: int| 0 <= k < i ==> !live_child(#[trigger] self@[k], p@),
            decreases self.rows.len() - i,
        {
            let b = &self.rows[i];
            if b.status != BlockStatus::Deleted && str_eq(b.parent_id.as_str(), p) {
                assert(live_child(self@[i as int], p@));
                return true;
            }
            i += 1;
        }
        false
    }

    /// The greatest position among the live children of `p`.
    pub fn max_child_position(&self, p: &str) -> (r: Option<String>)
        ensures
            r matches Some(x) ==> max_child_pos(self@, p@) == Some(x@),
            r is None ==> max_child_pos(self@, p@) is None,
    {
        let mut best: Option<String> = None;
        let mut i: usize = 0;
        while i < self.rows.len()
            invariant
                i <= self.rows.len(),
                best matches Some(x) ==> max_child_pos(self@.take(i as int), p@) == Some(x@),
                best is None ==> max_child_pos(self@.take(i as int), p@) is None,
            decreases self.rows.len() - i,
        {
            assert(self@.take(i + 1).drop_last() =~= self@.take(i as int));
            let b = &self.rows[i];
            if b.status != BlockStatus::Deleted && str_eq(b.parent_id.as_str(), p) {
                let take = match &best {
                    None => true,
                    Some(x) => {
                        let xc = to_chars(x.as_str());
                        let bc = to_chars(b.position.as_str());
                        lex_less(xc.as_slice(), bc.as_slice())
                    },
                };
                if take {
                    best = Some(b.position.clone());
                }
            }
            i += 1;
        }
        assert(self@.take(self.rows.len() as int) =~= self@);
        best
    }

    /// The least position above `a` among the live children of `p`.
    pub fn next_child_position(&self, p: &str, a: &str) -> (r: Option<String>)
        ensures
            r matches Some(x) ==> next_child_pos(self@, p@, a@) == Some(x@),
            r is None ==> next_child_pos(self@, p@, a@) is None,
    {
        let ac = to_chars(a);
        let mut best: Option<String> = None;
        let mut i: usize = 0;
        while i < self.rows.len()
            invariant
                i <= self.rows.len(),
                ac@ == a@,
                best matches Some(x) ==> next_child_pos(self@.take(i as int), p@, a@) == Some(x@),
                best is None ==> next_child_pos(self@.take(i as int), p@, a@) is None,
            decreases self.rows.len() - i,
        {
            assert(self@.take(i + 1).drop_last() =~= self@.take(i as int));
            let b = &self.rows[i];
            if b.status != BlockStatus::Deleted && str_eq(b.parent_id.as_str(), p) {
                let bc = to_chars(b.position.as_str());
                if lex_less(ac.as_slice(), bc.as_slice()) {
                    let take = match &best {
                        None => true,
                        Some(x) => {
                            let xc = to_chars(x.as_str());
                            lex_less(bc.as_slice(), xc.as_slice())
                        },
                    };
                    if take {
                        best = Some(b.position.clone());
                    }
                }
            }
            i += 1;
        }
        assert(self@.take(self.rows.len() as int) =~= self@);
        best
    }
}

} // verus!
