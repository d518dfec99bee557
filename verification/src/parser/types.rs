//! Types shared by the parsers and serializers.

use vstd::prelude::*;
use crate::model::Block;

pub use crate::model::ParseWarning;

verus! {

/// Options of a parse (none yet; kept for formats that will need some).
#[derive(Debug, Clone, Default)]
pub struct ParseOptions {}

/// What a parse produces.
#[derive(Debug, Clone)]
pub struct ParseResult {
    /// The document block.
    pub root: Block,
    /// Every other block, in the order they were parsed.
    pub children: Vec<Block>,
    pub warnings: Vec<ParseWarning>,
    /// Number of blocks created: the root and its descendants.
    pub blocks_created: usize,
}

/// A block type the target format has no native form for, and how it was
/// rendered instead.
#[derive(Debug, Clone)]
pub struct LossyInfo {
    pub block_type: String,
    pub reason: String,
}

/// What a serialization produces.
#[derive(Debug, Clone)]
pub struct SerializeResult {
    /// The rendered text.
    pub content: String,
    /// Suggested file name.
    pub filename: Option<String>,
    /// Number of blocks rendered.
    pub blocks_exported: usize,
    /// Block types rendered in a degraded form, one entry per occurrence.
    pub lossy_types: Vec<String>,
}


/// Children of each parent block, keyed by the parent's identifier, in the
/// order they were added.
pub struct ChildrenMap {
    entries: Vec<(String, Vec<Block>)>,
}

impl ChildrenMap {
    /// No two entries share a key.
    #[verifier::type_invariant]
    spec fn keys_unique(self) -> bool {
        forall|i: int, j: int|
            0 <= i < j < self.entries@.len() ==> (#[trigger] self.entries@[i]).0@ != (#[trigger] self.entries@[j]).0@
    }

    /// Whether some entry is keyed by `id`.
    pub closed spec fn has_key(self, id: Seq<char>) -> bool {
        exists|i: int| 0 <= i < self.entries@.len() && (#[trigger] self.entries@[i]).0@ == id
    }

    /// The children recorded under `id` (none when there is no entry).
    pub closed spec fn children_of(self, id: Seq<char>) -> Seq<Block> {
        if self.has_key(id) {
            self.entries@[choose|i: int| 0 <= i < self.entries@.len() && (#[trigger] self.entries@[i]).0@ == id].1@
        } else {
            Seq::empty()
        }
    }

    /// The children of each block, as a function of its identifier.
    pub open spec fn kids(self) -> spec_fn(Seq<char>) -> Seq<Block> {
        |id: Seq<char>| self.children_of(id)
    }

    /// An empty map.
    pub fn new() -> (r: Self)
        ensures
            forall|id: Seq<char>| !(#[trigger] r.has_key(id)),
            forall|id: Seq<char>| #[trigger] r.children_of(id) == Seq::<Block>::empty(),
    {
        ChildrenMap { entries: Vec::new() }
    }

    fn find(&self, id: &str) -> (r: Option<usize>)
        ensures
            r matches Some(i) ==> i < self.entries@.len() && self.entries@[i as int].0@ == id@,
            r is None ==> !self.has_key(id@),
    {
        let mut i: usize = 0;
        while i < self.entries.len()
            invariant
                i <= self.entries@.len(),
                forall|k: int| 0 <= k < i ==> (#[trigger] self.entries@[k]).0@ != id@,
            decreases self.entries.len() - i,
        {
            if crate::text::str_eq(self.entries[i].0.as_str(), id) {
                return Some(i);
            }
            i += 1;
        }
        None
    }

    /// The children recorded under `id`, if there is an entry for it.
    pub fn get(&self, id: &str) -> (r: Option<&Vec<Block>>)
        ensures
            r is Some <==> self.has_key(id@),
            r matches Some(v) ==> v@ == self.children_of(id@),
            r is None ==> self.children_of(id@) == Seq::<Block>::empty(),
    {
        proof {
            use_type_invariant(self);
        }
        match self.find(id) {
            Some(i) => {
                proof {
                    let j = choose|j: int| 0 <= j < self.entries@.len() && (#[trigger] self.entries@[j]).0@ == id@;
                    if j != i {
                        if j < i {
                            assert(self.entries@[j].0@ != self.entries@[i as int].0@);
                        } else {
                            assert(self.entries@[i as int].0@ != self.entries@[j].0@);
                        }
                    }
                }
                Some(&self.entries[i].1)
            },
            None => None,
        }
    }

    /// Records `children` under `parent`, replacing what was there.
    pub fn insert(&mut self, parent: String, children: Vec<Block>)
        ensures
            final(self).has_key(parent@),
            final(self).children_of(parent@) == children@,
            forall|id: Seq<char>| id != parent@ ==> #[trigger] final(self).has_key(id) == old(self).has_key(id),
            forall|id: Seq<char>| id != parent@ ==> #[trigger] final(self).children_of(id) == old(self).children_of(id),
    {
        proof {
            use_type_invariant(&*self);
        }
        let ghost e0 = self.entries@;
        match self.find(parent.as_str()) {
            Some(i) => {
                let mut entries: Vec<(String, Vec<Block>)> = Vec::new();
                std::mem::swap(&mut entries, &mut self.entries);
                entries.set(i, (parent, children));
                self.entries = entries;
            },
            None => {
                let mut entries: Vec<(String, Vec<Block>)> = Vec::new();
                std::mem::swap(&mut entries, &mut self.entries);
                entries.push((parent, children));
                self.entries = entries;
            },
        }
        proof {
            let e1 = self.entries@;
            assert forall|id: Seq<char>| id != parent@ implies #[trigger] self.has_key(id) == old(self).has_key(id) by {
                if self.has_key(id) {
                    let j = choose|j: int| 0 <= j < e1.len() && (#[trigger] e1[j]).0@ == id;
                    assert(e0[j].0@ == id);
                }
                if old(self).has_key(id) {
                    let j = choose|j: int| 0 <= j < e0.len() && (#[trigger] e0[j]).0@ == id;
                    assert(e1[j].0@ == id);
                }
            }
            let k = if e1.len() > e0.len() { e0.len() as int } else { choose|j: int| 0 <= j < e0.len() && (#[trigger] e0[j]).0@ == parent@ };
            assert(e1[k].0@ == parent@);
            assert forall|j: int| 0 <= j < e1.len() && (#[trigger] e1[j]).0@ == parent@ implies j == k by {
                if j != k {
                    assert(e0[j].0@ == parent@);
                }
            }
            assert forall|id: Seq<char>| id != parent@ implies #[trigger] self.children_of(id) == old(self).children_of(id) by {
                if self.has_key(id) {
                    let j1 = choose|j: int| 0 <= j < e1.len() && (#[trigger] e1[j]).0@ == id;
                    let j0 = choose|j: int| 0 <= j < e0.len() && (#[trigger] e0[j]).0@ == id;
                    assert(e0[j1].0@ == id);
                    if j0 != j1 {
                        if j0 < j1 {
                            assert(e0[j0].0@ != e0[j1].0@);
                        } else {
                            assert(e0[j1].0@ != e0[j0].0@);
                        }
                    }
                }
            }
        }
    }
}


impl ChildrenMap {
    /// Appends `block` to the children recorded under `parent`.
    pub fn push_child(&mut self, parent: String, block: Block)
        ensures
            final(self).has_key(parent@),
            final(self).children_of(parent@) == old(self).children_of(parent@).push(block),
            forall|id: Seq<char>| id != parent@ ==> #[trigger] final(self).has_key(id) == old(self).has_key(id),
            forall|id: Seq<char>| id != parent@ ==> #[trigger] final(self).children_of(id) == old(self).children_of(id),
    {
        proof {
            use_type_invariant(&*self);
        }
        let ghost e0 = self.entries@;
        let mut current: Vec<Block> = match self.find(parent.as_str()) {
            Some(i) => {
                let mut entries: Vec<(String, Vec<Block>)> = Vec::new();
                std::mem::swap(&mut entries, &mut self.entries);
                let (_key, v) = entries.remove(i);
                proof {
                    let e1 = entries@;
                    assert(e1 == e0.remove(i as int));
                    assert forall|x: int, y: int| 0 <= x < y < e1.len() implies (#[trigger] e1[x]).0@ != (#[trigger] e1[y]).0@ by {
                        let x0 = if x < i { x } else { x + 1 };
                        let y0 = if y < i { y } else { y + 1 };
                        assert(e1[x] == e0[x0]);
                        assert(e1[y] == e0[y0]);
                    }
                    let j = choose|j: int| 0 <= j < e0.len() && (#[trigger] e0[j]).0@ == parent@;
                    if j != i {
                        if j < i {
                            assert(e0[j].0@ != e0[i as int].0@);
                        } else {
                            assert(e0[i as int].0@ != e0[j].0@);
                        }
                    }
                }
                self.entries = entries;
                proof {
                    let e1 = self.entries@;
                    assert forall|id: Seq<char>| id != parent@ implies #[trigger] self.has_key(id) == old(self).has_key(id) && self.children_of(id) == old(self).children_of(id) by {
                        if old(self).has_key(id) {
                            let j0 = choose|j: int| 0 <= j < e0.len() && (#[trigger] e0[j]).0@ == id;
                            assert(j0 != i);
                            let j1 = if j0 < i { j0 } else { j0 - 1 };
                            assert(e1[j1] == e0[j0]);
                            assert(self.has_key(id));
                            let k = choose|j: int| 0 <= j < e1.len() && (#[trigger] e1[j]).0@ == id;
                            if k != j1 {
                                if k < j1 {
                                    assert(e1[k].0@ != e1[j1].0@);
                                } else {
                                    assert(e1[j1].0@ != e1[k].0@);
                                }
                            }
                        }
                        if self.has_key(id) {
                            let k = choose|j: int| 0 <= j < e1.len() && (#[trigger] e1[j]).0@ == id;
                            let k0 = if k < i { k } else { k + 1 };
                            assert(e0[k0] == e1[k]);
                        }
                    }
                }
                v
            },
            None => Vec::new(),
        };
        current.push(block);
        self.insert(parent, current);
    }
}

} // verus!
