//! The blocks Markdown text parses into, described line by line.
//!
//! A parse yields a sequence of block descriptions in document order. Each
//! names its kind, its content (UTF-8 bytes) and its parent: the index of an
//! earlier description, or -1 for the document itself.

use vstd::prelude::*;
use vstd::utf8::encode_utf8;
use crate::model::BlockType;
use crate::parser::markdown::{
    blockquote_spec, closing_fence_spec, code_fence_spec, dedent_spec, fence_lang_spec, heading_spec,
    indent_spec, list_item_spec, marker_width_spec, math_fence_spec, ordered_item_spec, starts_other_block,
    strip_blockquote_spec, strip_marker_spec, thematic_break_spec,
};
use crate::text::{join_nl, split_nl, starts_with_spec, trim_spec, trim_start_spec};

verus! {

/// Kind of a parsed block, with its data.
pub enum Kind {
    Heading(u8),
    Paragraph,
    Code(Seq<char>),
    Math,
    Break,
    Quote,
    List(bool),
    Item,
}

/// A parsed block: kind, content, and the index of its parent (-1 for the
/// document).
pub type Desc = (Kind, Seq<u8>, int);

/// The kind a block type stands for, if the parser makes blocks of it.
pub open spec fn kind_of(bt: BlockType) -> Option<Kind> {
    match bt {
        BlockType::Heading { level } => Some(Kind::Heading(level)),
        BlockType::Paragraph => Some(Kind::Paragraph),
        BlockType::CodeBlock { language } => Some(Kind::Code(language@)),
        BlockType::MathBlock => Some(Kind::Math),
        BlockType::ThematicBreak => Some(Kind::Break),
        BlockType::Blockquote => Some(Kind::Quote),
        BlockType::List { ordered } => Some(Kind::List(ordered)),
        BlockType::ListItem => Some(Kind::Item),
        _ => None,
    }
}

/// Open headings: (level, index of the heading block), innermost last.
pub type Stack = Seq<(u8, int)>;

/// First index from `i` on whose line is not blank.
pub open spec fn skip_blank(lines: Seq<Seq<char>>, i: int) -> int
    decreases lines.len() - i,
{
    if 0 <= i < lines.len() && trim_spec(lines[i]).len() == 0 {
        skip_blank(lines, i + 1)
    } else {
        i
    }
}

/// Where a new block of the scope hangs: the innermost open heading, or the
/// scope's root.
pub open spec fn top_or(s: Stack, scope: int) -> int {
    if s.len() == 0 {
        scope
    } else {
        s.last().1
    }
}

/// The open headings left when one of `level` opens: those of a lower
/// level.
pub open spec fn close_from(s: Stack, level: u8) -> Stack
    decreases s.len(),
{
    if s.len() > 0 && s.last().0 >= level {
        close_from(s.drop_last(), level)
    } else {
        s
    }
}

/// First index from `i` on holding a closing fence made of `c`.
pub open spec fn fence_close(lines: Seq<Seq<char>>, i: int, c: char) -> int
    decreases lines.len() - i,
{
    if 0 <= i < lines.len() && !closing_fence_spec(lines[i], c) {
        fence_close(lines, i + 1, c)
    } else {
        i
    }
}

/// First index from `i` on holding a `$$` line.
pub open spec fn math_close(lines: Seq<Seq<char>>, i: int) -> int
    decreases lines.len() - i,
{
    if 0 <= i < lines.len() && !math_fence_spec(lines[i]) {
        math_close(lines, i + 1)
    } else {
        i
    }
}

/// Where the block after a fenced one starts: after the closing line, or at
/// the end when none closes it.
pub open spec fn after_close(lines: Seq<Seq<char>>, e: int) -> int {
    if e < lines.len() {
        e + 1
    } else {
        lines.len() as int
    }
}

/// First index from `i` on whose line ends a paragraph: blank, or starting
/// another block.
pub open spec fn para_end(lines: Seq<Seq<char>>, i: int) -> int
    decreases lines.len() - i,
{
    if 0 <= i < lines.len() && !(trim_spec(lines[i]).len() == 0 || starts_other_block(lines[i])) {
        para_end(lines, i + 1)
    } else {
        i
    }
}

/// First index from `i` on whose line is not quoted.
pub open spec fn quote_end(lines: Seq<Seq<char>>, i: int) -> int
    decreases lines.len() - i,
{
    if 0 <= i < lines.len() && blockquote_spec(lines[i]) {
        quote_end(lines, i + 1)
    } else {
        i
    }
}

/// The text inside a quote, as lines: the quoted lines with their markers
/// removed, joined and split again.
pub open spec fn quote_inner(lines: Seq<Seq<char>>, p: int, e: int) -> Seq<Seq<char>> {
    split_nl(join_nl(lines.subrange(p, e).map_values(|l: Seq<char>| strip_blockquote_spec(l))))
}

/// End of the lines nested under a list item from `i` on: lines indented
/// deeper than the list, and blank lines followed by such a line.
pub open spec fn nested_end(lines: Seq<Seq<char>>, i: int, base: int) -> int
    decreases lines.len() - i,
{
    if !(0 <= i < lines.len()) {
        i
    } else if trim_spec(lines[i]).len() == 0 {
        if i + 1 < lines.len() && indent_spec(lines[i + 1]) > base {
            nested_end(lines, i + 1, base)
        } else {
            i
        }
    } else if indent_spec(lines[i]) <= base {
        i
    } else {
        nested_end(lines, i + 1, base)
    }
}

/// The lines nested under a list item from `i` on (blank ones kept empty).
pub open spec fn nested_lines(lines: Seq<Seq<char>>, i: int, base: int) -> Seq<Seq<char>>
    decreases lines.len() - i,
{
    if !(0 <= i < lines.len()) {
        Seq::empty()
    } else if trim_spec(lines[i]).len() == 0 {
        if i + 1 < lines.len() && indent_spec(lines[i + 1]) > base {
            seq![Seq::<char>::empty()] + nested_lines(lines, i + 1, base)
        } else {
            Seq::empty()
        }
    } else if indent_spec(lines[i]) <= base {
        Seq::empty()
    } else {
        seq![lines[i]] + nested_lines(lines, i + 1, base)
    }
}

/// The nested lines of an item, with the item's indentation and marker
/// removed, joined and split again.
pub open spec fn item_inner(item_line: Seq<char>, nested: Seq<Seq<char>>) -> Seq<Seq<char>> {
    let ordered = ordered_item_spec(item_line);
    let dedent = indent_spec(item_line) + marker_width_spec(trim_start_spec(item_line), ordered);
    split_nl(join_nl(nested.map_values(|l: Seq<char>| dedent_spec(l, dedent))))
}

/// Whether the line at `r` continues a list whose items are indented by
/// `base`.
pub open spec fn continues_list(lines: Seq<Seq<char>>, r: int, base: int) -> bool {
    0 <= r < lines.len() && indent_spec(lines[r]) == base && list_item_spec(lines[r])
}

pub proof fn lemma_skip_blank(lines: Seq<Seq<char>>, i: int)
    requires
        0 <= i,
    ensures
        i <= skip_blank(lines, i),
        i <= lines.len() ==> skip_blank(lines, i) <= lines.len(),
        skip_blank(lines, i) < lines.len() ==> trim_spec(lines[skip_blank(lines, i)]).len() != 0,
    decreases lines.len() - i,
{
    if 0 <= i < lines.len() && trim_spec(lines[i]).len() == 0 {
        lemma_skip_blank(lines, i + 1);
    }
}

pub proof fn lemma_nested_end(lines: Seq<Seq<char>>, i: int, base: int)
    ensures
        i <= nested_end(lines, i, base),
        i <= lines.len() ==> nested_end(lines, i, base) <= lines.len(),
    decreases lines.len() - i,
{
    if 0 <= i < lines.len() {
        if trim_spec(lines[i]).len() == 0 {
            if i + 1 < lines.len() && indent_spec(lines[i + 1]) > base {
                lemma_nested_end(lines, i + 1, base);
            }
        } else if indent_spec(lines[i]) > base {
            lemma_nested_end(lines, i + 1, base);
        }
    }
}

/// Where a list whose items are indented by `base` stops, looking from `q`.
pub open spec fn list_stop(lines: Seq<Seq<char>>, q: int, base: int) -> int
    decreases lines.len() - q,
{
    let r = skip_blank(lines, q);
    if 0 <= q && continues_list(lines, r, base) {
        proof {
            lemma_skip_blank(lines, q);
            lemma_nested_end(lines, r + 1, base);
        }
        list_stop(lines, nested_end(lines, r + 1, base), base)
    } else {
        r
    }
}

pub proof fn lemma_para_end(lines: Seq<Seq<char>>, i: int)
    ensures
        i <= para_end(lines, i),
        i <= lines.len() ==> para_end(lines, i) <= lines.len(),
    decreases lines.len() - i,
{
    if 0 <= i < lines.len() && !(trim_spec(lines[i]).len() == 0 || starts_other_block(lines[i])) {
        lemma_para_end(lines, i + 1);
    }
}

pub proof fn lemma_quote_end(lines: Seq<Seq<char>>, i: int)
    ensures
        i <= quote_end(lines, i),
        i <= lines.len() ==> quote_end(lines, i) <= lines.len(),
    decreases lines.len() - i,
{
    if 0 <= i < lines.len() && blockquote_spec(lines[i]) {
        lemma_quote_end(lines, i + 1);
    }
}

pub proof fn lemma_list_stop(lines: Seq<Seq<char>>, q: int, base: int)
    requires
        0 <= q,
    ensures
        q <= list_stop(lines, q, base),
        q <= lines.len() ==> list_stop(lines, q, base) <= lines.len(),
    decreases lines.len() - q,
{
    let r = skip_blank(lines, q);
    lemma_skip_blank(lines, q);
    if continues_list(lines, r, base) {
        lemma_nested_end(lines, r + 1, base);
        lemma_list_stop(lines, nested_end(lines, r + 1, base), base);
    }
}

/// The blocks of `lines` from `pos` on, in a scope rooted at `scope` with
/// the open headings `s`; the first gets index `base`. `fuel` bounds how
/// deep quotes and lists nest (the parser supplies the text's length plus
/// one, which always suffices).
pub open spec fn content_spec(lines: Seq<Seq<char>>, pos: int, s: Stack, scope: int, base: int, fuel: nat) -> Seq<Desc>
    decreases fuel, 1nat, lines.len() - pos,
{
    let p = skip_blank(lines, pos);
    if !(0 <= pos && 0 <= p < lines.len()) {
        Seq::empty()
    } else {
        proof {
            lemma_skip_blank(lines, pos);
        }
        let l = lines[p];
        if heading_spec(l) is Some {
            let (level, text) = heading_spec(l)->Some_0;
            let open = close_from(s, level);
            seq![(Kind::Heading(level), encode_utf8(text), top_or(open, scope))] + content_spec(
                lines,
                p + 1,
                open.push((level, base)),
                scope,
                base + 1,
                fuel,
            )
        } else if code_fence_spec(l) {
            let c = trim_start_spec(l)[0];
            let e = fence_close(lines, p + 1, c);
            proof {
                lemma_fence_close(lines, p + 1, c);
            }
            seq![(Kind::Code(fence_lang_spec(l)), encode_utf8(join_nl(lines.subrange(p + 1, e))), top_or(s, scope))]
                + content_spec(lines, after_close(lines, e), s, scope, base + 1, fuel)
        } else if math_fence_spec(l) {
            let e = math_close(lines, p + 1);
            proof {
                lemma_math_close(lines, p + 1);
            }
            seq![(Kind::Math, encode_utf8(trim_spec(join_nl(lines.subrange(p + 1, e)))), top_or(s, scope))]
                + content_spec(lines, after_close(lines, e), s, scope, base + 1, fuel)
        } else if thematic_break_spec(l) {
            seq![(Kind::Break, Seq::<u8>::empty(), top_or(s, scope))] + content_spec(
                lines,
                p + 1,
                s,
                scope,
                base + 1,
                fuel,
            )
        } else if blockquote_spec(l) {
            let e = quote_end(lines, p);
            proof {
                lemma_quote_end(lines, p + 1);
            }
            let inner = if fuel == 0 {
                Seq::empty()
            } else {
                content_spec(quote_inner(lines, p, e), 0, Seq::empty(), base, base + 1, (fuel - 1) as nat)
            };
            seq![(Kind::Quote, Seq::<u8>::empty(), top_or(s, scope))] + inner + content_spec(
                lines,
                e,
                s,
                scope,
                base + 1 + inner.len(),
                fuel,
            )
        } else if list_item_spec(l) {
            let bi = indent_spec(l);
            let items = items_spec(lines, p, bi, base, base + 1, fuel);
            proof {
                lemma_nested_end(lines, p + 1, bi);
                lemma_list_stop(lines, nested_end(lines, p + 1, bi), bi);
                assert(skip_blank(lines, p) == p);
                assert(list_stop(lines, p, bi) == list_stop(lines, nested_end(lines, p + 1, bi), bi));
            }
            seq![(Kind::List(ordered_item_spec(l)), Seq::<u8>::empty(), top_or(s, scope))] + items + content_spec(
                lines,
                list_stop(lines, p, bi),
                s,
                scope,
                base + 1 + items.len(),
                fuel,
            )
        } else {
            let e = para_end(lines, p);
            proof {
                lemma_para_end(lines, p + 1);
                assert(e == para_end(lines, p + 1));
            }
            seq![(Kind::Paragraph, encode_utf8(join_nl(lines.subrange(p, e))), top_or(s, scope))] + content_spec(
                lines,
                e,
                s,
                scope,
                base + 1,
                fuel,
            )
        }
    }
}

/// The blocks of the items of a list (items indented by `bi`, the list block
/// at index `list`), from `q` on; the first gets index `base`.
pub open spec fn items_spec(lines: Seq<Seq<char>>, q: int, bi: int, list: int, base: int, fuel: nat) -> Seq<Desc>
    decreases fuel, 0nat, lines.len() - q,
{
    let r = skip_blank(lines, q);
    if !(0 <= q && continues_list(lines, r, bi)) {
        Seq::empty()
    } else {
        proof {
            lemma_skip_blank(lines, q);
            lemma_nested_end(lines, r + 1, bi);
        }
        let line = lines[r];
        let text = strip_marker_spec(line, ordered_item_spec(line));
        let para: Seq<Desc> = if text.len() > 0 {
            seq![(Kind::Paragraph, encode_utf8(text), base)]
        } else {
            Seq::empty()
        };
        let nested = nested_lines(lines, r + 1, bi);
        let inner = if nested.len() > 0 && fuel > 0 {
            content_spec(item_inner(line, nested), 0, Seq::empty(), base, base + 1 + para.len(), (fuel - 1) as nat)
        } else {
            Seq::empty()
        };
        seq![(Kind::Item, Seq::<u8>::empty(), list)] + para + inner + items_spec(
            lines,
            nested_end(lines, r + 1, bi),
            bi,
            list,
            base + 1 + para.len() + inner.len(),
            fuel,
        )
    }
}

pub proof fn lemma_fence_close(lines: Seq<Seq<char>>, i: int, c: char)
    ensures
        i <= fence_close(lines, i, c),
        i <= lines.len() ==> fence_close(lines, i, c) <= lines.len(),
    decreases lines.len() - i,
{
    if 0 <= i < lines.len() && !closing_fence_spec(lines[i], c) {
        lemma_fence_close(lines, i + 1, c);
    }
}

pub proof fn lemma_math_close(lines: Seq<Seq<char>>, i: int)
    ensures
        i <= math_close(lines, i),
        i <= lines.len() ==> math_close(lines, i) <= lines.len(),
    decreases lines.len() - i,
{
    if 0 <= i < lines.len() && !math_fence_spec(lines[i]) {
        lemma_math_close(lines, i + 1);
    }
}

} // verus!

verus! {

/// A line that, after its indentation, starts with a bullet (`-`, `*` or
/// `+`) and a space.
pub open spec fn bullet_line(l: Seq<char>) -> bool {
    let t = trim_start_spec(l);
    t.len() >= 2 && (t[0] == '-' || t[0] == '*' || t[0] == '+') && t[1] == ' '
}

/// Where the next non-blank line is a bullet line (and not a thematic break
/// such as `* * *`), the blocks read from there begin with an unordered
/// list and, as its first child, an item: each of the bullets `-`, `*` and
/// `+` opens a list.
pub proof fn law_bullet_opens_list(lines: Seq<Seq<char>>, pos: int, s: Stack, scope: int, base: int, fuel: nat)
    requires
        0 <= pos,
        skip_blank(lines, pos) < lines.len(),
        bullet_line(lines[skip_blank(lines, pos)]),
        !thematic_break_spec(lines[skip_blank(lines, pos)]),
    ensures
        content_spec(lines, pos, s, scope, base, fuel).len() >= 2,
        content_spec(lines, pos, s, scope, base, fuel)[0].0 == Kind::List(false),
        content_spec(lines, pos, s, scope, base, fuel)[1].0 == Kind::Item,
        content_spec(lines, pos, s, scope, base, fuel)[1].2 == base,
{
    lemma_skip_blank(lines, pos);
    let p = skip_blank(lines, pos);
    let l = lines[p];
    let t = trim_start_spec(l);
    assert(t[0] != '#' && t[0] != '`' && t[0] != '~' && t[0] != '$' && t[0] != '>');
    assert(crate::parser::markdown::run_of(t, '#', 0) == 0);
    assert(heading_spec(l) is None);
    assert(!code_fence_spec(l)) by {
        if starts_with_spec(t, seq!['`', '`', '`']) {
            assert(t.take(3)[0] == t[0]);
        }
        if starts_with_spec(t, seq!['~', '~', '~']) {
            assert(t.take(3)[0] == t[0]);
        }
    }
    assert(!math_fence_spec(l)) by {
        let e = crate::text::trim_ws_end(t, t.len() as int);
        crate::text::lemma_trim_ws_end(t, t.len() as int);
        assert(!crate::text::is_ws(t[0]));
        if e == 0 {
            assert(crate::text::is_ws(t[0]));
        }
        assert(trim_spec(l) == t.take(e));
        assert(trim_spec(l)[0] == t[0]);
    }
    assert(!blockquote_spec(l));
    assert(crate::parser::markdown::unordered_item_spec(l));
    assert(list_item_spec(l));
    assert(!crate::parser::markdown::is_digit(t[0]));
    assert(crate::parser::markdown::digit_run(t, 0) == 0);
    assert(!ordered_item_spec(l));
    assert(skip_blank(lines, p) == p);
    let bi = indent_spec(l);
    assert(continues_list(lines, p, bi));
    let items = items_spec(lines, p, bi, base, base + 1, fuel);
    assert(items[0] == (Kind::Item, Seq::<u8>::empty(), base));
    let head = seq![(Kind::List(ordered_item_spec(l)), Seq::<u8>::empty(), top_or(s, scope))];
    let rest = content_spec(lines, list_stop(lines, p, bi), s, scope, base + 1 + items.len(), fuel);
    assert(content_spec(lines, pos, s, scope, base, fuel) == head + items + rest);
    assert((head + items + rest)[0] == head[0]);
    assert((head + items + rest)[1] == items[0]);
}

/// Text whose first non-blank line is a bullet line (not a thematic break)
/// parses into an unordered list holding an item, first of all its blocks.
pub proof fn law_bullet_text_parses_to_list(text: Seq<char>)
    requires
        skip_blank(split_nl(text), 0) < split_nl(text).len(),
        bullet_line(split_nl(text)[skip_blank(split_nl(text), 0)]),
        !thematic_break_spec(split_nl(text)[skip_blank(split_nl(text), 0)]),
    ensures
        crate::parser::markdown::parsed_blocks(text).len() >= 2,
        crate::parser::markdown::parsed_blocks(text)[0].0 == Kind::List(false),
        crate::parser::markdown::parsed_blocks(text)[1].0 == Kind::Item,
        crate::parser::markdown::parsed_blocks(text)[1].2 == 0,
{
    law_bullet_opens_list(split_nl(text), 0, Seq::empty(), -1, 0, (text.len() + 1) as nat);
}

} // verus!
