//! Markdown serialization of block trees.

use std::collections::HashMap;
use vstd::prelude::*;
use crate::error::AppError;
use crate::model::{Block, BlockStatus, BlockType};
use crate::parser::markdown::MarkdownFormat;
use crate::parser::BlockSerializer;
use crate::parser::types::{ChildrenMap, LossyInfo, SerializeResult};
use crate::position::{lex_lt, lex_less};
use crate::text::{
    push_str,
    append_chars, decimal, decimal_chars, from_chars, lossy_chars, prefix_of, split_lines, split_nl, to_chars,
    trim_chars, trim_spec, utf8_lossy,
};

verus! {

// ─── Sorting children by position ────────────────────────────────

/// Where index `i` goes when inserted into `sorted`: after every entry whose
/// position is not greater than its own.
pub open spec fn insert_point(sorted: Seq<int>, i: int, kids: Seq<Block>) -> int
    decreases sorted.len(),
{
    if sorted.len() == 0 {
        0
    } else if lex_lt(kids[i].position@, kids[sorted.last()].position@) {
        insert_point(sorted.drop_last(), i, kids)
    } else {
        sorted.len() as int
    }
}

/// Indices `0..n` of `kids`, stably sorted by position (insertion sort).
pub open spec fn sort_idx(kids: Seq<Block>, n: int) -> Seq<int>
    decreases n,
{
    if n <= 0 {
        Seq::empty()
    } else {
        let s = sort_idx(kids, n - 1);
        s.insert(insert_point(s, n - 1, kids), n - 1)
    }
}

/// The children in position order; ties keep their original order.
pub open spec fn sorted_kids(kids: Seq<Block>) -> Seq<Block> {
    sort_idx(kids, kids.len() as int).map_values(|i: int| kids[i])
}

proof fn lemma_insert_point(sorted: Seq<int>, i: int, kids: Seq<Block>)
    ensures
        0 <= insert_point(sorted, i, kids) <= sorted.len(),
    decreases sorted.len(),
{
    if sorted.len() > 0 {
        lemma_insert_point(sorted.drop_last(), i, kids);
    }
}

proof fn lemma_sort_idx(kids: Seq<Block>, n: int)
    requires
        0 <= n,
    ensures
        sort_idx(kids, n).len() == n,
        forall|k: int| 0 <= k < n ==> 0 <= #[trigger] sort_idx(kids, n)[k] < n,
    decreases n,
{
    if n > 0 {
        lemma_sort_idx(kids, n - 1);
        let s = sort_idx(kids, n - 1);
        lemma_insert_point(s, n - 1, kids);
        let p = insert_point(s, n - 1, kids);
        assert forall|k: int| 0 <= k < n implies 0 <= #[trigger] sort_idx(kids, n)[k] < n by {
            if k < p {
                assert(sort_idx(kids, n)[k] == s[k]);
            } else if k > p {
                assert(sort_idx(kids, n)[k] == s[k - 1]);
            }
        }
    }
}

/// Indices of `kids` in position order.
fn sorted_indices(kids: &Vec<Block>) -> (r: Vec<usize>)
    ensures
        r@.len() == kids@.len(),
        forall|k: int| 0 <= k < r@.len() ==> #[trigger] r@[k] as int == sort_idx(kids@, kids@.len() as int)[k],
        forall|k: int| 0 <= k < r@.len() ==> #[trigger] r@[k] < kids@.len(),
{
    let mut sorted: Vec<usize> = Vec::new();
    let mut n: usize = 0;
    while n < kids.len()
        invariant
            n <= kids@.len(),
            sorted@.len() == n,
            forall|k: int| 0 <= k < n ==> #[trigger] sorted@[k] as int == sort_idx(kids@, n as int)[k],
        decreases kids.len() - n,
    {
        let ghost s = sort_idx(kids@, n as int);
        let pos_n = to_chars(kids[n].position.as_str());
        let mut j: usize = sorted.len();
        proof {
            lemma_sort_idx(kids@, n as int);
            assert(s.take(n as int) =~= s);
        }
        while j > 0 && lex_less(pos_n.as_slice(), to_chars(kids[sorted[j - 1]].position.as_str()).as_slice())
            invariant
                j <= sorted@.len(),
                sorted@.len() == n,
                n < kids@.len(),
                pos_n@ == kids@[n as int].position@,
                s == sort_idx(kids@, n as int),
                s.len() == n,
                forall|k: int| 0 <= k < n ==> 0 <= #[trigger] s[k] < n,
                forall|k: int| 0 <= k < n ==> #[trigger] sorted@[k] as int == s[k],
                insert_point(s, n as int, kids@) == insert_point(s.take(j as int), n as int, kids@),
            decreases j,
        {
            proof {
                assert(s.take(j as int).drop_last() =~= s.take(j - 1));
                assert(s.take(j as int).last() == s[j - 1]);
            }
            j -= 1;
        }
        proof {
            if j > 0 {
                assert(s.take(j as int).last() == s[j - 1]);
            }
            assert(insert_point(s, n as int, kids@) == j);
        }
        let ghost before = sorted@;
        sorted.insert(j, n);
        proof {
            let s2 = sort_idx(kids@, n + 1);
            assert(s2 == s.insert(j as int, n as int));
            assert forall|k: int| 0 <= k < n + 1 implies #[trigger] sorted@[k] as int == s2[k] by {
                if k < j {
                    assert(sorted@[k] == before[k]);
                } else if k > j {
                    assert(sorted@[k] == before[k - 1]);
                }
            }
        }
        n += 1;
    }
    proof {
        lemma_sort_idx(kids@, kids@.len() as int);
    }
    sorted
}


/// The children of each block, by identifier, in any order.
pub type Kids = spec_fn(Seq<char>) -> Seq<Block>;

// ─── What the serializer writes ──────────────────────────────────

/// Text written, and the names of the block types rendered in a degraded
/// form (one entry per occurrence).
pub type Rendered = (Seq<char>, Seq<Seq<char>>);

pub open spec fn nothing() -> Rendered {
    (Seq::empty(), Seq::empty())
}

pub open spec fn cat(a: Rendered, b: Rendered) -> Rendered {
    (a.0 + b.0, a.1 + b.1)
}

/// Text alone, nothing degraded.
pub open spec fn plain(t: Seq<char>) -> Rendered {
    (t, Seq::empty())
}

/// `c` repeated `n` times.
pub open spec fn repeat(c: Seq<char>, n: nat) -> Seq<char>
    decreases n,
{
    if n == 0 {
        Seq::empty()
    } else {
        repeat(c, (n - 1) as nat) + c
    }
}

/// Drops one trailing carriage return.
pub open spec fn strip_cr(p: Seq<char>) -> Seq<char> {
    if p.len() > 0 && p.last() == '\r' {
        p.drop_last()
    } else {
        p
    }
}

/// `str::lines`: the pieces between `\n` (a `\r` before the `\n` dropped),
/// with no empty piece after a final `\n`.
pub open spec fn lines_spec(s: Seq<char>) -> Seq<Seq<char>> {
    let ps = split_nl(s);
    let n = ps.len() as int;
    let body = ps.take(n - 1).map_values(|p: Seq<char>| strip_cr(p));
    if ps[n - 1].len() == 0 {
        body
    } else {
        body.push(ps[n - 1])
    }
}

/// Every line prefixed with `> ` and ended with `\n`.
pub open spec fn quoted(ls: Seq<Seq<char>>) -> Seq<char>
    decreases ls.len(),
{
    if ls.len() == 0 {
        Seq::empty()
    } else {
        quoted(ls.drop_last()) + "> "@ + ls.last() + "\n"@
    }
}

/// A link standing for media Markdown has no form for.
pub open spec fn lossy_link(name: Seq<char>, url: Seq<char>) -> Seq<char> {
    "["@ + name + "]("@ + url + ")\n\n"@
}

/// An HTML comment standing for a block Markdown has no form for.
pub open spec fn lossy_comment(content: Seq<char>) -> Seq<char> {
    "<!-- "@ + content + " -->\n\n"@
}

/// Value of the property `key`, if the map has it.
pub open spec fn prop_lookup(m: Map<String, String>, key: Seq<char>) -> Option<Seq<char>> {
    if exists|k: String| m.contains_key(k) && k@ == key {
        Some(m[choose|k: String| m.contains_key(k) && k@ == key]@)
    } else {
        None
    }
}

/// A block's content decoded as text.
pub open spec fn text_of(b: Block) -> Seq<char> {
    utf8_lossy(b.content@)
}

/// The children recorded under `id`, in position order.
pub open spec fn sorted_children(m: Kids, id: Seq<char>) -> Seq<Block> {
    sorted_kids(m(id))
}

/// Markdown written for a block and its descendants; blocks that are not
/// `Normal` are skipped with their subtrees. `fuel` bounds the recursion.
pub open spec fn md_block(m: Kids, b: Block, depth: nat, is_root: bool, fuel: nat) -> Rendered
    decreases fuel, 0nat, 0nat,
{
    if fuel == 0 || b.status != BlockStatus::Normal {
        nothing()
    } else {
        let kids = sorted_children(m, b.id@);
        let f = (fuel - 1) as nat;
        match b.block_type {
            BlockType::Document => {
                let title = trim_spec(text_of(b));
                let head = if is_root && title.len() > 0 {
                    "# "@ + title + "\n\n"@
                } else {
                    Seq::empty()
                };
                cat(plain(head), md_seq(m, kids, depth, f))
            },
            BlockType::Heading { level } => cat(
                plain(repeat("#"@, level as nat) + " "@ + text_of(b) + "\n\n"@),
                md_seq(m, kids, depth, f),
            ),
            BlockType::Paragraph => plain(
                if text_of(b).len() > 0 {
                    text_of(b) + "\n\n"@
                } else {
                    Seq::empty()
                },
            ),
            BlockType::CodeBlock { language } => plain(
                "```"@ + language@ + "\n"@ + text_of(b) + "\n```\n\n"@,
            ),
            BlockType::MathBlock => plain("$$\n"@ + text_of(b) + "\n$$\n\n"@),
            BlockType::ThematicBreak => plain("---\n\n"@),
            BlockType::Image { url } => {
                let alt = match prop_lookup(b.properties@, "alt"@) {
                    Some(a) => a,
                    None => Seq::empty(),
                };
                plain("!["@ + alt + "]("@ + url@ + ")\n\n"@)
            },
            BlockType::List { ordered } => md_items(m, kids, ordered, depth, f),
            BlockType::Blockquote => {
                let inner = md_seq(m, kids, depth, f);
                (quoted(lines_spec(inner.0)) + "\n"@, inner.1)
            },
            BlockType::ListItem => md_seq(m, kids, depth, f),
            BlockType::Callout => {
                let icon = match prop_lookup(b.properties@, "icon"@) {
                    Some(a) => a,
                    None => "💡"@,
                };
                let inner = md_seq(m, kids, depth, f);
                ("> "@ + icon + "\n"@ + quoted(lines_spec(inner.0)) + "\n"@, seq!["callout"@] + inner.1)
            },
            BlockType::Audio { url } => (lossy_link("audio"@, url@), seq!["audio"@]),
            BlockType::Video { url } => (lossy_link("video"@, url@), seq!["video"@]),
            BlockType::Iframe { url } => (lossy_link("iframe"@, url@), seq!["iframe"@]),
            BlockType::Embed => (lossy_comment("embed: "@ + text_of(b)), seq!["embed"@]),
            BlockType::AttributeView { av_id } => (
                lossy_comment("attributeView: "@ + av_id@),
                seq!["attributeView"@],
            ),
            BlockType::Widget => (lossy_comment("widget"@), seq!["widget"@]),
        }
    }
}

/// Markdown written for a run of sibling blocks, one after another.
pub open spec fn md_seq(m: Kids, kids: Seq<Block>, depth: nat, fuel: nat) -> Rendered
    decreases fuel, 1nat, kids.len(),
{
    if kids.len() == 0 {
        nothing()
    } else {
        cat(md_seq(m, kids.drop_last(), depth, fuel), md_block(m, kids.last(), depth, false, fuel))
    }
}

/// Marker of the `i`-th entry (from zero): `i+1. ` in an ordered list, `- `
/// otherwise.
pub open spec fn item_prefix(ordered: bool, i: nat) -> Seq<char> {
    if ordered {
        decimal(i + 1) + ". "@
    } else {
        "- "@
    }
}

/// One entry of a list. A block that is not an item is written as a block.
/// An item writes its marker line (holding the text of its first child when
/// that child is a live paragraph) and its other children one level deeper;
/// an item without children, and an item that is not live (with all under
/// it), writes nothing.
pub open spec fn md_item(m: Kids, item: Block, ordered: bool, i: nat, depth: nat, fuel: nat) -> Rendered
    decreases fuel, 2nat, 0nat,
{
    if !(item.block_type matches BlockType::ListItem) {
        md_block(m, item, depth, false, fuel)
    } else if fuel == 0 || item.status != BlockStatus::Normal {
        nothing()
    } else {
        let kids = sorted_children(m, item.id@);
        let lead = repeat("  "@, depth) + item_prefix(ordered, i);
        let f = (fuel - 1) as nat;
        if kids.len() == 0 {
            nothing()
        } else if (kids[0].block_type matches BlockType::Paragraph) && kids[0].status == BlockStatus::Normal {
            cat(plain(lead + text_of(kids[0]) + "\n"@), md_seq(m, kids.drop_first(), depth + 1, f))
        } else {
            cat(
                cat(plain(lead + "\n"@), md_block(m, kids[0], depth + 1, false, f)),
                md_seq(m, kids.drop_first(), depth + 1, f),
            )
        }
    }
}

/// The entries `0..n` of a list.
pub open spec fn md_items_prefix(m: Kids, items: Seq<Block>, ordered: bool, depth: nat, fuel: nat, n: nat) -> Rendered
    decreases fuel, 3nat, n,
{
    if n == 0 || n > items.len() {
        nothing()
    } else {
        cat(
            md_items_prefix(m, items, ordered, depth, fuel, (n - 1) as nat),
            md_item(m, items[n - 1], ordered, (n - 1) as nat, depth, fuel),
        )
    }
}

/// Markdown written for the entries of a list, followed by a blank line.
pub open spec fn md_items(m: Kids, items: Seq<Block>, ordered: bool, depth: nat, fuel: nat) -> Rendered
    decreases fuel, 3nat, items.len() + 1,
{
    let r = md_items_prefix(m, items, ordered, depth, fuel, items.len());
    (r.0 + "\n"@, r.1)
}

// ─── How many blocks the serializer counts ───────────────────────

/// Blocks counted for a block and its descendants: each rendered block, each
/// list item, and the paragraph written on an item's marker line.
pub open spec fn count_block(m: Kids, b: Block, fuel: nat) -> nat
    decreases fuel, 0nat, 0nat,
{
    if fuel == 0 || b.status != BlockStatus::Normal {
        0
    } else {
        let kids = sorted_children(m, b.id@);
        let f = (fuel - 1) as nat;
        1 + match b.block_type {
            BlockType::Document | BlockType::Heading { .. } | BlockType::Blockquote
            | BlockType::ListItem | BlockType::Callout => count_seq(m, kids, f),
            BlockType::List { .. } => count_items_prefix(m, kids, f, kids.len()),
            _ => 0,
        }
    }
}

/// Blocks counted for a run of siblings.
pub open spec fn count_seq(m: Kids, kids: Seq<Block>, fuel: nat) -> nat
    decreases fuel, 1nat, kids.len(),
{
    if kids.len() == 0 {
        0
    } else {
        count_seq(m, kids.drop_last(), fuel) + count_block(m, kids.last(), fuel)
    }
}

/// Blocks counted for one entry of a list.
pub open spec fn count_item(m: Kids, item: Block, fuel: nat) -> nat
    decreases fuel, 2nat, 0nat,
{
    if !(item.block_type matches BlockType::ListItem) {
        count_block(m, item, fuel)
    } else if fuel == 0 || item.status != BlockStatus::Normal {
        0
    } else {
        let kids = sorted_children(m, item.id@);
        let f = (fuel - 1) as nat;
        1 + if kids.len() == 0 {
            0
        } else if (kids[0].block_type matches BlockType::Paragraph) && kids[0].status == BlockStatus::Normal {
            1 + count_seq(m, kids.drop_first(), f)
        } else {
            count_block(m, kids[0], f) + count_seq(m, kids.drop_first(), f)
        }
    }
}

/// Blocks counted for the entries `0..n` of a list.
pub open spec fn count_items_prefix(m: Kids, items: Seq<Block>, fuel: nat, n: nat) -> nat
    decreases fuel, 3nat, n,
{
    if n == 0 || n > items.len() {
        0
    } else {
        count_items_prefix(m, items, fuel, (n - 1) as nat) + count_item(m, items[n - 1], fuel)
    }
}

// ─── Termination ─────────────────────────────────────────────────

/// `rank` strictly decreases from a parent to each child recorded under it.
pub open spec fn rank_ok(m: Kids, rank: spec_fn(Seq<char>) -> nat) -> bool {
    forall|id: Seq<char>, k: int|
        0 <= k < m(id).len() ==> rank(#[trigger] m(id)[k].id@) < rank(id)
}

/// No block is recorded, directly or through descendants, under itself.
pub open spec fn acyclic(m: Kids) -> bool {
    exists|rank: spec_fn(Seq<char>) -> nat| rank_ok(m, rank)
}

/// A ranking of the map, when it is acyclic.
pub open spec fn some_rank(m: Kids) -> spec_fn(Seq<char>) -> nat {
    choose|rank: spec_fn(Seq<char>) -> nat| rank_ok(m, rank)
}

/// Enough fuel to render the tree under `root` completely.
pub open spec fn tree_fuel(m: Kids, root: Block) -> nat {
    (some_rank(m))(root.id@) + 1
}

/// What serializing `root` writes.
pub open spec fn render(m: Kids, root: Block) -> Rendered {
    md_block(m, root, 0, true, tree_fuel(m, root))
}

/// How many blocks serializing `root` counts.
pub open spec fn render_count(m: Kids, root: Block) -> nat {
    count_block(m, root, tree_fuel(m, root))
}

// ─── Building blocks of the output ───────────────────────────────

/// `HashMap::get` followed by `cloned`: the value stored under `key`, if the
/// map has one.
#[verifier::external_body]
fn property_of(props: &HashMap<String, String>, key: &str) -> (r: Option<String>)
    ensures
        match r {
            Some(v) => prop_lookup(props@, key@) == Some(v@),
            None => prop_lookup(props@, key@) is None,
        },
{
    props.get(key).cloned()
}

/// Appends the characters of `s`.
fn put(out: &mut Vec<char>, s: &str)
    ensures
        final(out)@ == old(out)@ + s@,
{
    let v = to_chars(s);
    append_chars(out, &v);
}

/// `s` repeated `n` times (`str::repeat`).
fn repeat_chars(s: &str, n: usize) -> (r: Vec<char>)
    ensures
        r@ == repeat(s@, n as nat),
{
    let mut r: Vec<char> = Vec::new();
    let mut j: usize = 0;
    while j < n
        invariant
            j <= n,
            r@ == repeat(s@, j as nat),
        decreases n - j,
    {
        put(&mut r, s);
        j += 1;
    }
    r
}

/// Drops one trailing carriage return.
fn strip_cr_chars(p: &Vec<char>) -> (r: Vec<char>)
    ensures
        r@ == strip_cr(p@),
{
    let n = p.len();
    if n > 0 && p[n - 1] == '\r' {
        prefix_of(p, n - 1)
    } else {
        proof {
            assert(p@.take(n as int) =~= p@);
        }
        prefix_of(p, n)
    }
}

/// `str::lines` on characters.
fn str_lines(s: &Vec<char>) -> (r: Vec<Vec<char>>)
    ensures
        r@.map_values(|l: Vec<char>| l@) == lines_spec(s@),
{
    let pieces = split_lines(s);
    let ghost ps = split_nl(s@);
    proof {
        assert(ps.len() >= 1);
        assert(pieces@.len() == ps.len());
    }
    let n = pieces.len();
    let mut r: Vec<Vec<char>> = Vec::new();
    let mut k: usize = 0;
    while k + 1 < n
        invariant
            n == pieces@.len(),
            n == ps.len(),
            n >= 1,
            k <= n - 1,
            pieces@.map_values(|l: Vec<char>| l@) == ps,
            r@.map_values(|l: Vec<char>| l@) == ps.take(k as int).map_values(|p: Seq<char>| strip_cr(p)),
        decreases n - k,
    {
        let line = strip_cr_chars(&pieces[k]);
        let ghost r0 = r@.map_values(|l: Vec<char>| l@);
        proof {
            assert(pieces@[k as int]@ == ps[k as int]);
        }
        r.push(line);
        proof {
            assert(r@.map_values(|l: Vec<char>| l@) =~= r0.push(strip_cr(ps[k as int])));
            assert(ps.take(k + 1).map_values(|p: Seq<char>| strip_cr(p)) =~= ps.take(k as int).map_values(
                |p: Seq<char>| strip_cr(p),
            ).push(strip_cr(ps[k as int])));
        }
        k += 1;
    }
    proof {
        assert(pieces@[n - 1]@ == ps[n - 1]);
    }
    if pieces[n - 1].len() > 0 {
        let last = prefix_of(&pieces[n - 1], pieces[n - 1].len());
        let ghost r0 = r@.map_values(|l: Vec<char>| l@);
        proof {
            assert(pieces@[n - 1]@.take(pieces@[n - 1]@.len() as int) =~= ps[n - 1]);
        }
        r.push(last);
        proof {
            assert(r@.map_values(|l: Vec<char>| l@) =~= r0.push(ps[n - 1]));
        }
    }
    r
}

/// Every line prefixed with `> ` and ended with `\n`.
fn quoted_chars(lines: &Vec<Vec<char>>) -> (r: Vec<char>)
    ensures
        r@ == quoted(lines@.map_values(|l: Vec<char>| l@)),
{
    let ghost ls = lines@.map_values(|l: Vec<char>| l@);
    let mut r: Vec<char> = Vec::new();
    let mut i: usize = 0;
    while i < lines.len()
        invariant
            i <= lines@.len(),
            ls == lines@.map_values(|l: Vec<char>| l@),
            r@ == quoted(ls.take(i as int)),
        decreases lines.len() - i,
    {
        put(&mut r, "> ");
        append_chars(&mut r, &lines[i]);
        put(&mut r, "\n");
        proof {
            let t = ls.take(i + 1);
            assert(t.drop_last() =~= ls.take(i as int));
            assert(t.last() == lines@[i as int]@);
        }
        i += 1;
    }
    assert(ls.take(lines.len() as int) =~= ls);
    r
}

/// `indent` followed by the marker of the `i`-th entry.
fn item_lead(indent: &Vec<char>, ordered: bool, i: usize) -> (r: Vec<char>)
    requires
        i < usize::MAX,
    ensures
        r@ == indent@ + item_prefix(ordered, i as nat),
{
    let mut r = prefix_of(indent, indent.len());
    assert(indent@.take(indent@.len() as int) =~= indent@);
    if ordered {
        let d = decimal_chars(i + 1);
        append_chars(&mut r, &d);
        put(&mut r, ". ");
    } else {
        put(&mut r, "- ");
    }
    r
}

/// The blocks behind a sequence of references.
pub open spec fn derefs(s: Seq<&Block>) -> Seq<Block> {
    s.map_values(|b: &Block| *b)
}

/// Sorting keeps every child, so each ranks below the parent.
proof fn lemma_sorted_children_rank(m: Kids, id: Seq<char>, rank: spec_fn(Seq<char>) -> nat)
    requires
        rank_ok(m, rank),
    ensures
        forall|k: int|
            0 <= k < sorted_children(m, id).len() ==> rank(#[trigger] sorted_children(m, id)[k].id@) < rank(id),
{
    let kids = m(id);
    lemma_sort_idx(kids, kids.len() as int);
    assert forall|k: int| 0 <= k < sorted_children(m, id).len() implies rank(
        #[trigger] sorted_children(m, id)[k].id@,
    ) < rank(id) by {
        let j = sort_idx(kids, kids.len() as int)[k];
        assert(sorted_children(m, id)[k] == kids[j]);
        assert(rank(m(id)[j].id@) < rank(id));
    }
}

/// The children recorded under `parent_id`, in position order.
fn get_sorted_children<'a>(m: &'a ChildrenMap, parent_id: &str) -> (r: Vec<&'a Block>)
    ensures
        derefs(r@) == sorted_children(m.kids(), parent_id@),
{
    match m.get(parent_id) {
        Some(children) => {
            let idx = sorted_indices(children);
            let ghost want = sorted_kids(children@);
            let mut refs: Vec<&'a Block> = Vec::new();
            let mut k: usize = 0;
            while k < idx.len()
                invariant
                    k <= idx@.len(),
                    idx@.len() == children@.len(),
                    forall|j: int| 0 <= j < idx@.len() ==> #[trigger] idx@[j] as int == sort_idx(children@, children@.len() as int)[j],
                    forall|j: int| 0 <= j < idx@.len() ==> #[trigger] idx@[j] < children@.len(),
                    want == sorted_kids(children@),
                    derefs(refs@) == want.take(k as int),
                decreases idx.len() - k,
            {
                proof {
                    lemma_sort_idx(children@, children@.len() as int);
                }
                let ghost r0 = derefs(refs@);
                refs.push(&children[idx[k]]);
                proof {
                    assert(derefs(refs@) =~= r0.push(children@[idx@[k as int] as int]));
                    assert(want[k as int] == children@[idx@[k as int] as int]);
                    assert(want.take(k + 1) =~= want.take(k as int).push(want[k as int]));
                }
                k += 1;
            }
            proof {
                lemma_sort_idx(children@, children@.len() as int);
                assert(want.take(k as int) =~= want);
            }
            refs
        },
        None => {
            let refs: Vec<&'a Block> = Vec::new();
            proof {
                assert(sort_idx(Seq::<Block>::empty(), 0) =~= Seq::<int>::empty());
                assert(derefs(refs@) =~= sorted_children(m.kids(), parent_id@));
            }
            refs
        },
    }
}

// ─── The recursive serializer ────────────────────────────────────

/// State shared by one serialization: the output so far, the degraded
/// conversions recorded, and the number of blocks counted.
struct SerializeContext {
    out: Vec<char>,
    lossy: Vec<LossyInfo>,
    counter: usize,
}

/// The block-type names of recorded degradations.
pub open spec fn lossy_names(l: Seq<LossyInfo>) -> Seq<Seq<char>> {
    l.map_values(|x: LossyInfo| x.block_type@)
}

/// Blocks counted for the entries `a..b` of a run of siblings never exceed
/// those counted for a longer run.
proof fn lemma_count_seq_mono(m: Kids, kids: Seq<Block>, s: int, a: int, b: int, fuel: nat)
    requires
        0 <= s <= a <= b <= kids.len(),
    ensures
        count_seq(m, kids.subrange(s, a), fuel) <= count_seq(m, kids.subrange(s, b), fuel),
    decreases b - a,
{
    if a < b {
        lemma_count_seq_mono(m, kids, s, a, b - 1, fuel);
        assert(kids.subrange(s, b).drop_last() =~= kids.subrange(s, b - 1));
    }
}

/// Blocks counted for the first `a` entries of a list never exceed those
/// counted for the first `b >= a`.
proof fn lemma_count_items_mono(m: Kids, items: Seq<Block>, fuel: nat, a: nat, b: nat)
    requires
        a <= b <= items.len(),
    ensures
        count_items_prefix(m, items, fuel, a) <= count_items_prefix(m, items, fuel, b),
    decreases b - a,
{
    if a < b {
        lemma_count_items_mono(m, items, fuel, a, (b - 1) as nat);
    }
}

impl SerializeContext {
    /// Records that `block_type` was rendered in a degraded form.
    fn push_lossy(&mut self, block_type: &str, reason: String)
        ensures
            final(self).out == old(self).out,
            final(self).counter == old(self).counter,
            lossy_names(final(self).lossy@) == lossy_names(old(self).lossy@).push(block_type@),
    {
        let ghost l0 = lossy_names(self.lossy@);
        self.lossy.push(LossyInfo { block_type: block_type.to_owned(), reason });
        assert(lossy_names(self.lossy@) =~= l0.push(block_type@));
    }

    /// Writes media Markdown has no form for as a link.
    fn emit_lossy_link(&mut self, kind: &str, url: &str)
        ensures
            final(self).out@ == old(self).out@ + lossy_link(kind@, url@),
            final(self).counter == old(self).counter,
            lossy_names(final(self).lossy@) == lossy_names(old(self).lossy@).push(kind@),
    {
        let mut reason = "Markdown 无原生".to_owned();
        push_str(&mut reason, kind);
        push_str(&mut reason, "，降级为链接");
        self.push_lossy(kind, reason);
        let mut line = to_chars("[");
        put(&mut line, kind);
        put(&mut line, "](");
        put(&mut line, url);
        put(&mut line, ")\n\n");
        append_chars(&mut self.out, &line);
        assert(line@ =~= lossy_link(kind@, url@));
    }

    /// Writes a block Markdown has no form for as an HTML comment.
    fn emit_lossy_comment(&mut self, kind: &str, content: &Vec<char>)
        ensures
            final(self).out@ == old(self).out@ + lossy_comment(content@),
            final(self).counter == old(self).counter,
            lossy_names(final(self).lossy@) == lossy_names(old(self).lossy@).push(kind@),
    {
        let mut reason = kind.to_owned();
        push_str(&mut reason, " 块降级为 HTML 注释");
        self.push_lossy(kind, reason);
        let mut line = to_chars("<!-- ");
        append_chars(&mut line, content);
        put(&mut line, " -->\n\n");
        append_chars(&mut self.out, &line);
        assert(line@ =~= lossy_comment(content@));
    }
}

/// Serializes the siblings `kids[start..]` one after another.
fn serialize_children(
    m: &ChildrenMap,
    kids: &Vec<&Block>,
    start: usize,
    ctx: &mut SerializeContext,
    depth: usize,
    Ghost(rank): Ghost<spec_fn(Seq<char>) -> nat>,
    Ghost(fuel): Ghost<nat>,
)
    requires
        start <= kids@.len(),
        rank_ok(m.kids(), rank),
        forall|k: int| 0 <= k < kids@.len() ==> rank((#[trigger] derefs(kids@)[k]).id@) < fuel,
        old(ctx).counter + count_seq(m.kids(), derefs(kids@).subrange(start as int, kids@.len() as int), fuel)
            <= usize::MAX,
        depth <= old(ctx).counter,
    ensures
        final(ctx).out@ == old(ctx).out@ + md_seq(
            m.kids(),
            derefs(kids@).subrange(start as int, kids@.len() as int),
            depth as nat,
            fuel,
        ).0,
        lossy_names(final(ctx).lossy@) == lossy_names(old(ctx).lossy@) + md_seq(
            m.kids(),
            derefs(kids@).subrange(start as int, kids@.len() as int),
            depth as nat,
            fuel,
        ).1,
        final(ctx).counter == old(ctx).counter + count_seq(
            m.kids(),
            derefs(kids@).subrange(start as int, kids@.len() as int),
            fuel,
        ),
    decreases fuel, 1nat,
{
    let ghost ks = derefs(kids@);
    let ghost n = kids@.len() as int;
    let ghost o0 = ctx.out@;
    let ghost l0 = lossy_names(ctx.lossy@);
    let ghost c0 = ctx.counter;
    let mut i: usize = start;
    while i < kids.len()
        invariant
            start <= i <= kids@.len(),
            n == kids@.len(),
            ks == derefs(kids@),
            rank_ok(m.kids(), rank),
            forall|k: int| 0 <= k < kids@.len() ==> rank((#[trigger] derefs(kids@)[k]).id@) < fuel,
            c0 + count_seq(m.kids(), ks.subrange(start as int, n), fuel) <= usize::MAX,
            depth <= c0,
            ctx.out@ == o0 + md_seq(m.kids(), ks.subrange(start as int, i as int), depth as nat, fuel).0,
            lossy_names(ctx.lossy@) == l0 + md_seq(m.kids(), ks.subrange(start as int, i as int), depth as nat, fuel).1,
            ctx.counter == c0 + count_seq(m.kids(), ks.subrange(start as int, i as int), fuel),
        decreases kids@.len() - i,
    {
        proof {
            lemma_count_seq_mono(m.kids(), ks, start as int, i + 1, n, fuel);
            let t = ks.subrange(start as int, i + 1);
            assert(t.drop_last() =~= ks.subrange(start as int, i as int));
            assert(t.last() == ks[i as int]);
            assert(ks[i as int] == *kids@[i as int]);
            assert(rank(ks[i as int].id@) < fuel);
        }
        serialize_block_recursive(m, kids[i], ctx, depth, false, Ghost(rank), Ghost(fuel));
        proof {
            let t = ks.subrange(start as int, i + 1);
            assert(ctx.out@ =~= o0 + md_seq(m.kids(), t, depth as nat, fuel).0);
            assert(lossy_names(ctx.lossy@) =~= l0 + md_seq(m.kids(), t, depth as nat, fuel).1);
        }
        i += 1;
    }
}

impl SerializeContext {
    /// Serializes `children` into a fresh buffer and returns it, leaving the
    /// output as it was (the degradations and the count still accrue).
    fn serialize_into_buffer(
        &mut self,
        m: &ChildrenMap,
        children: &Vec<&Block>,
        depth: usize,
        Ghost(rank): Ghost<spec_fn(Seq<char>) -> nat>,
        Ghost(fuel): Ghost<nat>,
    ) -> (buf: Vec<char>)
        requires
            rank_ok(m.kids(), rank),
            forall|k: int| 0 <= k < children@.len() ==> rank((#[trigger] derefs(children@)[k]).id@) < fuel,
            old(self).counter + count_seq(m.kids(), derefs(children@), fuel) <= usize::MAX,
            depth <= old(self).counter,
        ensures
            buf@ == md_seq(m.kids(), derefs(children@), depth as nat, fuel).0,
            final(self).out == old(self).out,
            lossy_names(final(self).lossy@) == lossy_names(old(self).lossy@) + md_seq(
                m.kids(),
                derefs(children@),
                depth as nat,
                fuel,
            ).1,
            final(self).counter == old(self).counter + count_seq(m.kids(), derefs(children@), fuel),
        decreases fuel, 2nat,
    {
        proof {
            assert(derefs(children@).subrange(0, children@.len() as int) =~= derefs(children@));
        }
        let mut buf: Vec<char> = Vec::new();
        std::mem::swap(&mut self.out, &mut buf);
        serialize_children(m, children, 0, self, depth, Ghost(rank), Ghost(fuel));
        std::mem::swap(&mut self.out, &mut buf);
        buf
    }
}

/// Serializes the entries of a list, then a blank line.
#[verifier::rlimit(40)]
fn serialize_list(
    m: &ChildrenMap,
    items: &Vec<&Block>,
    ctx: &mut SerializeContext,
    ordered: bool,
    depth: usize,
    Ghost(rank): Ghost<spec_fn(Seq<char>) -> nat>,
    Ghost(fuel): Ghost<nat>,
)
    requires
        rank_ok(m.kids(), rank),
        forall|k: int| 0 <= k < items@.len() ==> rank((#[trigger] derefs(items@)[k]).id@) < fuel,
        old(ctx).counter + count_items_prefix(m.kids(), derefs(items@), fuel, items@.len() as nat) <= usize::MAX,
        depth <= old(ctx).counter,
    ensures
        final(ctx).out@ == old(ctx).out@ + md_items(m.kids(), derefs(items@), ordered, depth as nat, fuel).0,
        lossy_names(final(ctx).lossy@) == lossy_names(old(ctx).lossy@) + md_items(
            m.kids(),
            derefs(items@),
            ordered,
            depth as nat,
            fuel,
        ).1,
        final(ctx).counter == old(ctx).counter + count_items_prefix(
            m.kids(),
            derefs(items@),
            fuel,
            items@.len() as nat,
        ),
    decreases fuel, 1nat,
{
    let ghost its = derefs(items@);
    let ghost n = items@.len() as nat;
    let ghost o0 = ctx.out@;
    let ghost l0 = lossy_names(ctx.lossy@);
    let ghost c0 = ctx.counter;
    let indent = repeat_chars("  ", depth);
    let mut i: usize = 0;
    while i < items.len()
        invariant
            i <= items@.len(),
            n == items@.len(),
            its == derefs(items@),
            indent@ == repeat("  "@, depth as nat),
            rank_ok(m.kids(), rank),
            forall|k: int| 0 <= k < items@.len() ==> rank((#[trigger] derefs(items@)[k]).id@) < fuel,
            c0 + count_items_prefix(m.kids(), its, fuel, n) <= usize::MAX,
            depth <= c0,
            ctx.out@ == o0 + md_items_prefix(m.kids(), its, ordered, depth as nat, fuel, i as nat).0,
            lossy_names(ctx.lossy@) == l0 + md_items_prefix(m.kids(), its, ordered, depth as nat, fuel, i as nat).1,
            ctx.counter == c0 + count_items_prefix(m.kids(), its, fuel, i as nat),
        decreases items@.len() - i,
    {
        let item: &Block = items[i];
        proof {
            lemma_count_items_mono(m.kids(), its, fuel, (i + 1) as nat, n);
            assert(its[i as int] == *item);
            assert(rank(its[i as int].id@) < fuel);
            assert(count_items_prefix(m.kids(), its, fuel, (i + 1) as nat) == count_items_prefix(m.kids(), its, fuel, i as nat)
                + count_item(m.kids(), *item, fuel));
        }
        let ghost ob = ctx.out@;
        let ghost lb = lossy_names(ctx.lossy@);
        let ghost entry = md_item(m.kids(), *item, ordered, i as nat, depth as nat, fuel);
        let is_item = match &item.block_type {
            BlockType::ListItem => true,
            _ => false,
        };
        if !is_item {
            serialize_block_recursive(m, item, ctx, depth, false, Ghost(rank), Ghost(fuel));
        } else if item.status != BlockStatus::Normal {
            assert(ctx.out@ =~= ob + entry.0);
            assert(lossy_names(ctx.lossy@) =~= lb + entry.1);
        } else {
            let ghost f = (fuel - 1) as nat;
            let ghost kids_s = sorted_children(m.kids(), item.id@);
            ctx.counter += 1;
            let lead = item_lead(&indent, ordered, i);
            let kids = get_sorted_children(m, item.id.as_str());
            proof {
                lemma_sorted_children_rank(m.kids(), item.id@, rank);
                assert forall|k: int| 0 <= k < kids@.len() implies rank((#[trigger] derefs(kids@)[k]).id@) < f by {
                    assert(derefs(kids@)[k] == kids_s[k]);
                }
            }
            if kids.len() > 0 {
                let first: &Block = kids[0];
                proof {
                    assert(*first == kids_s[0]);
                    assert(derefs(kids@).subrange(1, kids@.len() as int) =~= kids_s.drop_first());
                }
                let first_is_para = match &first.block_type {
                    BlockType::Paragraph => first.status == BlockStatus::Normal,
                    _ => false,
                };
                let mut line = lead;
                if first_is_para {
                    let text = lossy_chars(first.content.as_slice());
                    append_chars(&mut line, &text);
                    put(&mut line, "\n");
                    append_chars(&mut ctx.out, &line);
                    ctx.counter += 1;
                } else {
                    put(&mut line, "\n");
                    append_chars(&mut ctx.out, &line);
                    serialize_block_recursive(m, first, ctx, depth + 1, false, Ghost(rank), Ghost(f));
                }
                serialize_children(m, &kids, 1, ctx, depth + 1, Ghost(rank), Ghost(f));
                assert(ctx.out@ =~= ob + entry.0);
                assert(lossy_names(ctx.lossy@) =~= lb + entry.1);
            } else {
                assert(ctx.out@ =~= ob + entry.0);
                assert(lossy_names(ctx.lossy@) =~= lb + entry.1);
            }
        }
        proof {
            let k = (i + 1) as nat;
            assert(md_items_prefix(m.kids(), its, ordered, depth as nat, fuel, k) == cat(
                md_items_prefix(m.kids(), its, ordered, depth as nat, fuel, i as nat),
                entry,
            ));
            assert(ctx.out@ =~= o0 + md_items_prefix(m.kids(), its, ordered, depth as nat, fuel, k).0);
            assert(lossy_names(ctx.lossy@) =~= l0 + md_items_prefix(m.kids(), its, ordered, depth as nat, fuel, k).1);
        }
        i += 1;
    }
    put(&mut ctx.out, "\n");
}

/// Serializes a block and all its descendants.
fn serialize_block_recursive(
    m: &ChildrenMap,
    block: &Block,
    ctx: &mut SerializeContext,
    depth: usize,
    is_root: bool,
    Ghost(rank): Ghost<spec_fn(Seq<char>) -> nat>,
    Ghost(fuel): Ghost<nat>,
)
    requires
        rank_ok(m.kids(), rank),
        rank(block.id@) < fuel,
        old(ctx).counter + count_block(m.kids(), *block, fuel) <= usize::MAX,
        depth <= old(ctx).counter,
    ensures
        final(ctx).out@ == old(ctx).out@ + md_block(m.kids(), *block, depth as nat, is_root, fuel).0,
        lossy_names(final(ctx).lossy@) == lossy_names(old(ctx).lossy@) + md_block(
            m.kids(),
            *block,
            depth as nat,
            is_root,
            fuel,
        ).1,
        final(ctx).counter == old(ctx).counter + count_block(m.kids(), *block, fuel),
    decreases fuel, 0nat,
{
    let ghost o0 = ctx.out@;
    let ghost l0 = lossy_names(ctx.lossy@);
    if block.status != BlockStatus::Normal {
        assert(o0 =~= o0 + nothing().0);
        assert(l0 =~= l0 + nothing().1);
        return;
    }
    let ghost f = (fuel - 1) as nat;
    let ghost kids_s = sorted_children(m.kids(), block.id@);
    ctx.counter += 1;
    let sorted = get_sorted_children(m, block.id.as_str());
    proof {
        lemma_sorted_children_rank(m.kids(), block.id@, rank);
        assert forall|k: int| 0 <= k < sorted@.len() implies rank((#[trigger] derefs(sorted@)[k]).id@) < f by {
            assert(derefs(sorted@)[k] == kids_s[k]);
        }
        assert(derefs(sorted@).subrange(0, sorted@.len() as int) =~= kids_s);
    }
    match &block.block_type {
        BlockType::Document => {
            let mut head: Vec<char> = Vec::new();
            if is_root {
                let text = lossy_chars(block.content.as_slice());
                let title = trim_chars(&text);
                if title.len() > 0 {
                    put(&mut head, "# ");
                    append_chars(&mut head, &title);
                    put(&mut head, "\n\n");
                }
            }
            append_chars(&mut ctx.out, &head);
            serialize_children(m, &sorted, 0, ctx, depth, Ghost(rank), Ghost(f));
            assert(ctx.out@ =~= o0 + md_block(m.kids(), *block, depth as nat, is_root, fuel).0);
            assert(lossy_names(ctx.lossy@) =~= l0 + md_block(m.kids(), *block, depth as nat, is_root, fuel).1);
        },
        BlockType::Heading { level } => {
            let mut line = repeat_chars("#", *level as usize);
            put(&mut line, " ");
            let text = lossy_chars(block.content.as_slice());
            append_chars(&mut line, &text);
            put(&mut line, "\n\n");
            append_chars(&mut ctx.out, &line);
            serialize_children(m, &sorted, 0, ctx, depth, Ghost(rank), Ghost(f));
            assert(ctx.out@ =~= o0 + md_block(m.kids(), *block, depth as nat, is_root, fuel).0);
            assert(lossy_names(ctx.lossy@) =~= l0 + md_block(m.kids(), *block, depth as nat, is_root, fuel).1);
        },
        BlockType::Paragraph => {
            let text = lossy_chars(block.content.as_slice());
            if text.len() > 0 {
                let mut line = text;
                put(&mut line, "\n\n");
                append_chars(&mut ctx.out, &line);
            }
            assert(ctx.out@ =~= o0 + md_block(m.kids(), *block, depth as nat, is_root, fuel).0);
            assert(lossy_names(ctx.lossy@) =~= l0 + md_block(m.kids(), *block, depth as nat, is_root, fuel).1);
        },
        BlockType::CodeBlock { language } => {
            let mut line = to_chars("```");
            put(&mut line, language.as_str());
            put(&mut line, "\n");
            let code = lossy_chars(block.content.as_slice());
            append_chars(&mut line, &code);
            put(&mut line, "\n```\n\n");
            append_chars(&mut ctx.out, &line);
            assert(ctx.out@ =~= o0 + md_block(m.kids(), *block, depth as nat, is_root, fuel).0);
            assert(lossy_names(ctx.lossy@) =~= l0 + md_block(m.kids(), *block, depth as nat, is_root, fuel).1);
        },
        BlockType::MathBlock => {
            let mut line = to_chars("$$\n");
            let latex = lossy_chars(block.content.as_slice());
            append_chars(&mut line, &latex);
            put(&mut line, "\n$$\n\n");
            append_chars(&mut ctx.out, &line);
            assert(ctx.out@ =~= o0 + md_block(m.kids(), *block, depth as nat, is_root, fuel).0);
            assert(lossy_names(ctx.lossy@) =~= l0 + md_block(m.kids(), *block, depth as nat, is_root, fuel).1);
        },
        BlockType::ThematicBreak => {
            put(&mut ctx.out, "---\n\n");
            assert(lossy_names(ctx.lossy@) =~= l0 + md_block(m.kids(), *block, depth as nat, is_root, fuel).1);
        },
        BlockType::Image { url } => {
            let alt: Vec<char> = match property_of(&block.properties, "alt") {
                Some(a) => to_chars(a.as_str()),
                None => Vec::new(),
            };
            let mut line = to_chars("![");
            append_chars(&mut line, &alt);
            put(&mut line, "](");
            put(&mut line, url.as_str());
            put(&mut line, ")\n\n");
            append_chars(&mut ctx.out, &line);
            assert(ctx.out@ =~= o0 + md_block(m.kids(), *block, depth as nat, is_root, fuel).0);
            assert(lossy_names(ctx.lossy@) =~= l0 + md_block(m.kids(), *block, depth as nat, is_root, fuel).1);
        },
        BlockType::List { ordered } => {
            serialize_list(m, &sorted, ctx, *ordered, depth, Ghost(rank), Ghost(f));
        },
        BlockType::Blockquote => {
            let inner = ctx.serialize_into_buffer(m, &sorted, depth, Ghost(rank), Ghost(f));
            let lines = str_lines(&inner);
            let mut text = quoted_chars(&lines);
            put(&mut text, "\n");
            append_chars(&mut ctx.out, &text);
            assert(ctx.out@ =~= o0 + md_block(m.kids(), *block, depth as nat, is_root, fuel).0);
        },
        BlockType::ListItem => {
            serialize_children(m, &sorted, 0, ctx, depth, Ghost(rank), Ghost(f));
        },
        BlockType::Callout => {
            ctx.push_lossy("callout", "Markdown 无原生 callout，降级为 blockquote".to_owned());
            let icon: Vec<char> = match property_of(&block.properties, "icon") {
                Some(a) => to_chars(a.as_str()),
                None => to_chars("💡"),
            };
            let inner = ctx.serialize_into_buffer(m, &sorted, depth, Ghost(rank), Ghost(f));
            let lines = str_lines(&inner);
            let mut text = to_chars("> ");
            append_chars(&mut text, &icon);
            put(&mut text, "\n");
            let q = quoted_chars(&lines);
            append_chars(&mut text, &q);
            put(&mut text, "\n");
            append_chars(&mut ctx.out, &text);
            assert(ctx.out@ =~= o0 + md_block(m.kids(), *block, depth as nat, is_root, fuel).0);
            assert(lossy_names(ctx.lossy@) =~= l0 + md_block(m.kids(), *block, depth as nat, is_root, fuel).1);
        },
        BlockType::Audio { url } => {
            ctx.emit_lossy_link("audio", url.as_str());
            assert(lossy_names(ctx.lossy@) =~= l0 + md_block(m.kids(), *block, depth as nat, is_root, fuel).1);
        },
        BlockType::Video { url } => {
            ctx.emit_lossy_link("video", url.as_str());
            assert(lossy_names(ctx.lossy@) =~= l0 + md_block(m.kids(), *block, depth as nat, is_root, fuel).1);
        },
        BlockType::Iframe { url } => {
            ctx.emit_lossy_link("iframe", url.as_str());
            assert(lossy_names(ctx.lossy@) =~= l0 + md_block(m.kids(), *block, depth as nat, is_root, fuel).1);
        },
        BlockType::Embed => {
            let mut content = to_chars("embed: ");
            let text = lossy_chars(block.content.as_slice());
            append_chars(&mut content, &text);
            ctx.emit_lossy_comment("embed", &content);
            assert(lossy_names(ctx.lossy@) =~= l0 + md_block(m.kids(), *block, depth as nat, is_root, fuel).1);
        },
        BlockType::AttributeView { av_id } => {
            let mut content = to_chars("attributeView: ");
            put(&mut content, av_id.as_str());
            ctx.emit_lossy_comment("attributeView", &content);
            assert(lossy_names(ctx.lossy@) =~= l0 + md_block(m.kids(), *block, depth as nat, is_root, fuel).1);
        },
        BlockType::Widget => {
            let content = to_chars("widget");
            ctx.emit_lossy_comment("widget", &content);
            assert(lossy_names(ctx.lossy@) =~= l0 + md_block(m.kids(), *block, depth as nat, is_root, fuel).1);
        },
    }
}

// ─── Entry point ─────────────────────────────────────────────────

/// Suggested file name: the trimmed title of the root followed by `.md`,
/// none when the title is blank.
pub open spec fn export_filename(root: Block) -> Option<Seq<char>> {
    let title = trim_spec(text_of(root));
    if title.len() == 0 {
        None
    } else {
        Some(title + ".md"@)
    }
}

/// `res` is what serializing `root` with `m` gives.
pub open spec fn serialized_as(res: SerializeResult, m: Kids, root: Block) -> bool {
    &&& res.content@ == render(m, root).0
    &&& res.blocks_exported == render_count(m, root)
    &&& res.lossy_types@.map_values(|t: String| t@) == render(m, root).1
    &&& match res.filename {
        Some(f) => export_filename(root) == Some(f@),
        None => export_filename(root) is None,
    }
}

impl BlockSerializer for MarkdownFormat {
    /// Trees without cycles whose block count fits in `usize`.
    open spec fn serialize_accepts(&self, root: Block, children_map: ChildrenMap) -> bool {
        acyclic(children_map.kids()) && render_count(children_map.kids(), root) <= usize::MAX
    }

    /// Renders the tree under `root` as Markdown. `children_map` gives the
    /// children of each block, in any order: they are written in position
    /// order.
    fn serialize(&self, root: &Block, children_map: &ChildrenMap) -> (r: Result<SerializeResult, AppError>)
        ensures
            r matches Ok(res) && serialized_as(res, children_map.kids(), *root),
    {
        let ghost rank = some_rank(children_map.kids());
        let ghost fuel = tree_fuel(children_map.kids(), *root);
        let mut ctx = SerializeContext { out: Vec::new(), lossy: Vec::new(), counter: 0 };
        serialize_block_recursive(children_map, root, &mut ctx, 0, true, Ghost(rank), Ghost(fuel));
        let content = from_chars(ctx.out.as_slice());
        let text = lossy_chars(root.content.as_slice());
        let title = trim_chars(&text);
        let filename = if title.len() == 0 {
            None
        } else {
            let mut name = title;
            put(&mut name, ".md");
            Some(from_chars(name.as_slice()))
        };
        let mut lossy_types: Vec<String> = Vec::new();
        let mut k: usize = 0;
        while k < ctx.lossy.len()
            invariant
                k <= ctx.lossy@.len(),
                lossy_types@.map_values(|t: String| t@) == lossy_names(ctx.lossy@).take(k as int),
            decreases ctx.lossy.len() - k,
        {
            let ghost before = lossy_types@.map_values(|t: String| t@);
            lossy_types.push(ctx.lossy[k].block_type.clone());
            assert(lossy_types@.map_values(|t: String| t@) =~= before.push(ctx.lossy@[k as int].block_type@));
            assert(lossy_names(ctx.lossy@).take(k + 1) =~= lossy_names(ctx.lossy@).take(k as int).push(
                ctx.lossy@[k as int].block_type@,
            ));
            k += 1;
        }
        assert(lossy_names(ctx.lossy@).take(k as int) =~= lossy_names(ctx.lossy@));
        assert(ctx.out@ =~= render(children_map.kids(), *root).0);
        assert(lossy_names(ctx.lossy@) =~= render(children_map.kids(), *root).1);
        Ok(SerializeResult { content, filename, blocks_exported: ctx.counter, lossy_types })
    }
}


// ─── What a blockquote keeps of its body ─────────────────────────

/// Where line `t` of `ls` begins once every line before it is written as
/// `> `, the line and a line break.
pub open spec fn quoted_offset(ls: Seq<Seq<char>>, t: int) -> int
    decreases t,
{
    if t <= 0 {
        0
    } else {
        quoted_offset(ls, t - 1) + ls[t - 1].len() + 3
    }
}

proof fn lemma_quoted_offset_prefix(ls: Seq<Seq<char>>, d: Seq<Seq<char>>, t: int)
    requires
        0 <= t <= d.len(),
        d.len() <= ls.len(),
        forall|k: int| 0 <= k < d.len() ==> d[k] == ls[k],
    ensures
        quoted_offset(ls, t) == quoted_offset(d, t),
    decreases t,
{
    if t > 0 {
        lemma_quoted_offset_prefix(ls, d, t - 1);
    }
}

proof fn lemma_quoted_offset_mono(ls: Seq<Seq<char>>, t: int, u: int)
    requires
        0 <= t <= u,
    ensures
        quoted_offset(ls, t) <= quoted_offset(ls, u),
    decreases u,
{
    if t < u {
        lemma_quoted_offset_mono(ls, t, u - 1);
    }
}

proof fn lemma_quoted_len(ls: Seq<Seq<char>>)
    ensures
        quoted(ls).len() == quoted_offset(ls, ls.len() as int),
    decreases ls.len(),
{
    reveal_strlit("> ");
    reveal_strlit("\n");
    if ls.len() > 0 {
        let d = ls.drop_last();
        lemma_quoted_len(d);
        lemma_quoted_offset_prefix(ls, d, d.len() as int);
    }
}

/// Line `t` of `ls` stands in `quoted(ls)` as `> `, the line and a line
/// break, at `quoted_offset(ls, t)`.
#[verifier::rlimit(30)]
proof fn lemma_quoted_line(ls: Seq<Seq<char>>, t: int)
    requires
        0 <= t < ls.len(),
    ensures
        quoted(ls).subrange(quoted_offset(ls, t), quoted_offset(ls, t + 1)) == "> "@ + ls[t] + "\n"@,
    decreases ls.len(),
{
    reveal_strlit("> ");
    reveal_strlit("\n");
    let d = ls.drop_last();
    let n = d.len() as int;
    let q = quoted(ls);
    lemma_quoted_len(d);
    lemma_quoted_offset_prefix(ls, d, n);
    if t < n {
        lemma_quoted_line(d, t);
        lemma_quoted_offset_prefix(ls, d, t);
        lemma_quoted_offset_prefix(ls, d, t + 1);
        lemma_quoted_offset_mono(d, t + 1, n);
        lemma_quoted_offset_mono(d, t, t + 1);
        lemma_quoted_offset_mono(d, 0, t);
        let qd = quoted(d);
        assert(q == qd + "> "@ + ls.last() + "\n"@);
        let (x, y) = (quoted_offset(d, t), quoted_offset(d, t + 1));
        assert(y <= qd.len());
        assert forall|k: int| 0 <= k < qd.len() implies q[k] == qd[k] by {
            assert((qd + "> "@ + ls.last() + "\n"@)[k] == qd[k]);
        }
        assert(q.subrange(quoted_offset(ls, t), quoted_offset(ls, t + 1)) =~= quoted(d).subrange(
            quoted_offset(d, t),
            quoted_offset(d, t + 1),
        ));
    } else {
        assert(q.subrange(quoted_offset(ls, t), quoted_offset(ls, t + 1)) =~= "> "@ + ls[t] + "\n"@);
    }
}

/// The Markdown a live blockquote gets: its body's lines quoted, then a
/// line break.
#[verifier::rlimit(40)]
proof fn lemma_blockquote_text(m: Kids, b: Block, depth: nat, is_root: bool, fuel: nat)
    requires
        fuel > 0,
        b.status == BlockStatus::Normal,
        b.block_type == BlockType::Blockquote,
    ensures
        md_block(m, b, depth, is_root, fuel).0 == quoted(
            lines_spec(md_seq(m, sorted_children(m, b.id@), depth, (fuel - 1) as nat).0),
        ) + "\n"@,
{
}

/// The Markdown of a live blockquote keeps every line of its children's
/// Markdown, in order: line `t` of the body is written as `> ` and that line
/// on a line of its own, at the place the lines before it leave, and a
/// blank line ends the quote. No line of the body is dropped or changed.
pub proof fn law_blockquote_quotes_every_line(m: Kids, b: Block, depth: nat, is_root: bool, fuel: nat)
    requires
        fuel > 0,
        b.status == BlockStatus::Normal,
        b.block_type == BlockType::Blockquote,
    ensures
        ({
            let body = lines_spec(md_seq(m, sorted_children(m, b.id@), depth, (fuel - 1) as nat).0);
            let out = md_block(m, b, depth, is_root, fuel).0;
            &&& out.len() == quoted_offset(body, body.len() as int) + 1
            &&& out.last() == '\n'
            &&& forall|t: int|
                0 <= t < body.len() ==> out.subrange(quoted_offset(body, t), quoted_offset(body, t + 1)) == "> "@
                    + #[trigger] body[t] + "\n"@
        }),
{
    let body = lines_spec(md_seq(m, sorted_children(m, b.id@), depth, (fuel - 1) as nat).0);
    let out = md_block(m, b, depth, is_root, fuel).0;
    reveal_strlit("> ");
    reveal_strlit("\n");
    lemma_blockquote_text(m, b, depth, is_root, fuel);
    lemma_quoted_len(body);
    let q = quoted(body);
    assert forall|t: int|
        0 <= t < body.len() implies out.subrange(quoted_offset(body, t), quoted_offset(body, t + 1)) == "> "@
        + #[trigger] body[t] + "\n"@ by {
        lemma_quoted_line(body, t);
        lemma_quoted_offset_mono(body, t + 1, body.len() as int);
        lemma_quoted_offset_mono(body, t, t + 1);
        lemma_quoted_offset_mono(body, 0, t);
        assert forall|k: int| 0 <= k < q.len() implies out[k] == q[k] by {
            assert((q + "\n"@)[k] == q[k]);
        }
        assert(out.subrange(quoted_offset(body, t), quoted_offset(body, t + 1)) =~= q.subrange(
            quoted_offset(body, t),
            quoted_offset(body, t + 1),
        ));
    }
}

} // verus!
