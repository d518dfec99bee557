//! Markdown ↔ block-tree conversion.
//!
//! The parser is a hand-written recursive-descent scanner over lines; the
//! serializer walks a block tree and writes Markdown back.

use std::collections::HashMap;
use vstd::prelude::*;
use crate::error::AppError;
use crate::model::{generate_block_id, now_iso, Block, BlockStatus, BlockType, ParseWarning};
use crate::parser::types::{ParseOptions, ParseResult};
use crate::parser::BlockParser;
use crate::position::{
    after_spec, generate_after, generate_first, idx_of, law_after_is_greater, law_after_keeps_valid,
    lemma_lex_lt_transitive, lex_lt, valid_pos,
};
use crate::parser::grammar::{
    content_spec, kind_of, skip_blank, top_or, close_from, fence_close, math_close, after_close, para_end,
    quote_end, quote_inner, nested_end, nested_lines, item_inner, continues_list, list_stop, items_spec,
    lemma_skip_blank, lemma_nested_end, Desc, Kind, Stack,
};
use vstd::utf8::encode_utf8;
use crate::text::{
    from_chars, chars_to_bytes, join_lines, to_chars,
    lossy_chars, utf8_lossy,
    is_ws, lemma_skip_ws_from, prefix_of, split_lines, split_nl, split_nl_from, next_nl, lemma_next_nl, join_nl, is_blank, trim_start_spec, trim_spec, starts_with_spec, trim_start_chars, trim_chars, suffix_of,
    starts_with,
};

verus! {

// ─── Line classification ─────────────────────────────────────────

/// Indentation width of the leading spaces and tabs (a tab counts four).
pub open spec fn indent_spec(s: Seq<char>) -> int
    decreases s.len(),
{
    if s.len() == 0 {
        0
    } else if s[0] == ' ' {
        1 + indent_spec(s.drop_first())
    } else if s[0] == '\t' {
        4 + indent_spec(s.drop_first())
    } else {
        0
    }
}

pub proof fn lemma_indent_bound(s: Seq<char>)
    ensures
        0 <= indent_spec(s) <= 4 * s.len(),
    decreases s.len(),
{
    if s.len() > 0 {
        lemma_indent_bound(s.drop_first());
    }
}

/// Indentation width of a line (spaces count one, tabs four).
fn indent_of(line: &[char]) -> (r: usize)
    requires
        line@.len() <= usize::MAX / 4,
    ensures
        r == indent_spec(line@),
{
    let mut indent: usize = 0;
    let mut i: usize = 0;
    assert(line@.skip(0) =~= line@);
    while i < line.len() && (line[i] == ' ' || line[i] == '\t')
        invariant
            i <= line.len() <= usize::MAX / 4,
            indent + indent_spec(line@.skip(i as int)) == indent_spec(line@),
            indent <= 4 * i,
        decreases line.len() - i,
    {
        assert(line@.skip(i as int).drop_first() =~= line@.skip(i + 1));
        if line[i] == ' ' {
            indent += 1;
        } else {
            indent += 4;
        }
        i += 1;
    }
    proof {
        if i < line.len() {
            assert(line@.skip(i as int)[0] == line@[i as int]);
        }
    }
    indent
}

/// Number of leading characters of `s` equal to `c`, starting at `i`.
pub open spec fn run_of(s: Seq<char>, c: char, i: int) -> int
    decreases s.len() - i,
{
    if 0 <= i < s.len() && s[i] == c {
        1 + run_of(s, c, i + 1)
    } else {
        0
    }
}

pub proof fn lemma_run_of(s: Seq<char>, c: char, i: int)
    requires
        0 <= i <= s.len(),
    ensures
        0 <= run_of(s, c, i) <= s.len() - i,
        forall|j: int| i <= j < i + run_of(s, c, i) ==> #[trigger] s[j] == c,
        i + run_of(s, c, i) < s.len() ==> s[i + run_of(s, c, i)] != c,
    decreases s.len() - i,
{
    if i < s.len() && s[i] == c {
        lemma_run_of(s, c, i + 1);
    }
}

fn count_run(s: &[char], c: char) -> (r: usize)
    ensures
        r == run_of(s@, c, 0),
{
    let mut i: usize = 0;
    while i < s.len() && s[i] == c
        invariant
            i <= s.len(),
            run_of(s@, c, 0) == i + run_of(s@, c, i as int),
        decreases s.len() - i,
    {
        i += 1;
    }
    i
}

/// A heading line: after leading whitespace, one to six `#`, then the end of
/// the line or a space. Gives the level and the trimmed text.
pub open spec fn heading_spec(line: Seq<char>) -> Option<(u8, Seq<char>)> {
    let t = trim_start_spec(line);
    let n = run_of(t, '#', 0);
    if 1 <= n <= 6 && (t.len() == n || t[n] == ' ') {
        Some((n as u8, trim_spec(t.skip(n))))
    } else {
        None
    }
}

/// Parses a heading line into its level and text.
fn parse_heading_line(line: &Vec<char>) -> (r: Option<(u8, Vec<char>)>)
    ensures
        r matches Some(p) ==> heading_spec(line@) == Some((p.0, p.1@)),
        r is None ==> heading_spec(line@) is None,
{
    let trimmed = trim_start_chars(line);
    let n = count_run(trimmed.as_slice(), '#');
    proof {
        lemma_run_of(trimmed@, '#', 0);
    }
    if n < 1 || n > 6 {
        return None;
    }
    if n < trimmed.len() && trimmed[n] != ' ' {
        return None;
    }
    let rest = suffix_of(&trimmed, n);
    let text = trim_chars(&rest);
    Some((n as u8, text))
}

/// Whether the line is a heading.
fn is_heading(line: &Vec<char>) -> (r: bool)
    ensures
        r == heading_spec(line@) is Some,
{
    parse_heading_line(line).is_some()
}

/// A fence line: after leading whitespace, three backticks or three tildes.
pub open spec fn code_fence_spec(line: Seq<char>) -> bool {
    let t = trim_start_spec(line);
    starts_with_spec(t, seq!['`', '`', '`']) || starts_with_spec(t, seq!['~', '~', '~'])
}

fn is_code_fence(line: &Vec<char>) -> (r: bool)
    ensures
        r == code_fence_spec(line@),
{
    let t = trim_start_chars(line);
    let bt: [char; 3] = ['`', '`', '`'];
    let tl: [char; 3] = ['~', '~', '~'];
    assert(bt@ == seq!['`', '`', '`']);
    assert(tl@ == seq!['~', '~', '~']);
    starts_with(t.as_slice(), bt.as_slice()) || starts_with(t.as_slice(), tl.as_slice())
}

/// The language tag after an opening fence: what follows the run of fence
/// characters, trimmed.
pub open spec fn fence_lang_spec(line: Seq<char>) -> Seq<char> {
    let t = trim_start_spec(line);
    let n = run_of(t, t[0], 0);
    if n < t.len() {
        trim_spec(t.skip(n))
    } else {
        seq![]
    }
}

fn code_fence_lang(line: &Vec<char>) -> (r: Vec<char>)
    requires
        code_fence_spec(line@),
    ensures
        r@ == fence_lang_spec(line@),
{
    let trimmed = trim_start_chars(line);
    let fence_char = trimmed[0];
    let n = count_run(trimmed.as_slice(), fence_char);
    proof {
        lemma_run_of(trimmed@, fence_char, 0);
    }
    if n < trimmed.len() {
        let rest = suffix_of(&trimmed, n);
        trim_chars(&rest)
    } else {
        Vec::new()
    }
}

/// Number of occurrences of `c` in `s`.
pub open spec fn count_char(s: Seq<char>, c: char) -> int
    decreases s.len(),
{
    if s.len() == 0 {
        0
    } else {
        count_char(s.drop_last(), c) + if s.last() == c {
            1int
        } else {
            0
        }
    }
}

/// Every character of `s` is `c` or a space.
pub open spec fn only_char_or_space(s: Seq<char>, c: char) -> bool {
    forall|i: int| 0 <= i < s.len() ==> #[trigger] s[i] == c || s[i] == ' '
}

fn char_stats(s: &[char], c: char) -> (r: (bool, usize))
    ensures
        r.0 == only_char_or_space(s@, c),
        r.1 == count_char(s@, c),
{
    let mut all = true;
    let mut count: usize = 0;
    let mut i: usize = 0;
    while i < s.len()
        invariant
            i <= s.len(),
            all == only_char_or_space(s@.take(i as int), c),
            count == count_char(s@.take(i as int), c),
            count <= i,
        decreases s.len() - i,
    {
        assert(s@.take(i + 1).drop_last() =~= s@.take(i as int));
        if s[i] == c {
            count += 1;
        } else if s[i] != ' ' {
            all = false;
        }
        i += 1;
        proof {
            if all {
                assert forall|j: int| 0 <= j < i implies #[trigger] s@.take(i as int)[j] == c
                    || s@.take(i as int)[j] == ' ' by {
                    assert(s@.take(i as int)[j] == s@.take(i - 1)[j] || j == i - 1);
                }
            } else {
                if only_char_or_space(s@.take(i as int), c) {
                    assert(s@.take(i - 1) =~= s@.take(i as int).take(i - 1));
                    assert(only_char_or_space(s@.take(i - 1), c) ==> s@.take(i as int)[i - 1]
                        != c && s@.take(i as int)[i - 1] != ' ');
                    assert(forall|j: int|
                        0 <= j < i - 1 ==> #[trigger] s@.take(i - 1)[j] == s@.take(i as int)[j]);
                }
            }
        }
    }
    assert(s@.take(s.len() as int) =~= s@);
    (all, count)
}

/// A closing fence: after leading whitespace it starts with the fence
/// character and holds only that character and spaces, at least three of it.
pub open spec fn closing_fence_spec(line: Seq<char>, c: char) -> bool {
    let t = trim_start_spec(line);
    t.len() > 0 && t[0] == c && only_char_or_space(t, c) && count_char(t, c) >= 3
}

fn is_closing_fence(line: &Vec<char>, fence_char: char) -> (r: bool)
    ensures
        r == closing_fence_spec(line@, fence_char),
{
    let t = trim_start_chars(line);
    if t.len() == 0 || t[0] != fence_char {
        return false;
    }
    let (all, count) = char_stats(t.as_slice(), fence_char);
    all && count >= 3
}

/// A math fence: the trimmed line is exactly `$$`.
pub open spec fn math_fence_spec(line: Seq<char>) -> bool {
    trim_spec(line) == seq!['$', '$']
}

fn is_math_fence(line: &Vec<char>) -> (r: bool)
    ensures
        r == math_fence_spec(line@),
{
    let t = trim_chars(line);
    let r = t.len() == 2 && t[0] == '$' && t[1] == '$';
    proof {
        if r {
            assert(t@ =~= seq!['$', '$']);
        }
    }
    r
}

/// A thematic break: the trimmed line has at least three characters, starts
/// with `-`, `*` or `_`, and holds only that character and spaces, at least
/// three of it.
pub open spec fn thematic_break_spec(line: Seq<char>) -> bool {
    let t = trim_spec(line);
    t.len() >= 3 && (t[0] == '-' || t[0] == '*' || t[0] == '_') && only_char_or_space(t, t[0])
        && count_char(t, t[0]) >= 3
}

fn is_thematic_break(line: &Vec<char>) -> (r: bool)
    ensures
        r == thematic_break_spec(line@),
{
    let t = trim_chars(line);
    if t.len() < 3 {
        return false;
    }
    let first = t[0];
    if !(first == '-' || first == '*' || first == '_') {
        return false;
    }
    let (all, count) = char_stats(t.as_slice(), first);
    all && count >= 3
}

/// A blockquote line: after leading whitespace it starts with `>`.
pub open spec fn blockquote_spec(line: Seq<char>) -> bool {
    let t = trim_start_spec(line);
    t.len() > 0 && t[0] == '>'
}

fn is_blockquote(line: &Vec<char>) -> (r: bool)
    ensures
        r == blockquote_spec(line@),
{
    let t = trim_start_chars(line);
    t.len() > 0 && t[0] == '>'
}

/// A blockquote line without its marker: `> ` or `>` is dropped after the
/// leading whitespace; a line without a marker stays as it is.
pub open spec fn strip_blockquote_spec(line: Seq<char>) -> Seq<char> {
    let t = trim_start_spec(line);
    if starts_with_spec(t, seq!['>', ' ']) {
        t.skip(2)
    } else if t.len() > 0 && t[0] == '>' {
        t.skip(1)
    } else {
        line
    }
}

fn strip_blockquote(line: &Vec<char>) -> (r: Vec<char>)
    ensures
        r@ == strip_blockquote_spec(line@),
{
    let t = trim_start_chars(line);
    let p: [char; 2] = ['>', ' '];
    assert(p@ == seq!['>', ' ']);
    if starts_with(t.as_slice(), p.as_slice()) {
        suffix_of(&t, 2)
    } else if t.len() > 0 && t[0] == '>' {
        suffix_of(&t, 1)
    } else {
        line.clone()
    }
}

/// An unordered item: after leading whitespace, `- `, `* ` or `+ `.
pub open spec fn unordered_item_spec(line: Seq<char>) -> bool {
    let t = trim_start_spec(line);
    t.len() >= 2 && (t[0] == '-' || t[0] == '*' || t[0] == '+') && t[1] == ' '
}

fn is_unordered_list_item(line: &Vec<char>) -> (r: bool)
    ensures
        r == unordered_item_spec(line@),
{
    let t = trim_start_chars(line);
    t.len() >= 2 && (t[0] == '-' || t[0] == '*' || t[0] == '+') && t[1] == ' '
}

pub open spec fn is_digit(c: char) -> bool {
    '0' <= c <= '9'
}

/// Number of ASCII digits at the start of `s` from `i` on.
pub open spec fn digit_run(s: Seq<char>, i: int) -> int
    decreases s.len() - i,
{
    if 0 <= i < s.len() && is_digit(s[i]) {
        1 + digit_run(s, i + 1)
    } else {
        0
    }
}

pub proof fn lemma_digit_run(s: Seq<char>, i: int)
    requires
        0 <= i <= s.len(),
    ensures
        0 <= digit_run(s, i) <= s.len() - i,
        forall|j: int| i <= j < i + digit_run(s, i) ==> is_digit(#[trigger] s[j]),
        i + digit_run(s, i) < s.len() ==> !is_digit(s[i + digit_run(s, i)]),
    decreases s.len() - i,
{
    if i < s.len() && is_digit(s[i]) {
        lemma_digit_run(s, i + 1);
    }
}

fn count_digits(s: &[char]) -> (r: usize)
    ensures
        r == digit_run(s@, 0),
{
    let mut i: usize = 0;
    while i < s.len() && '0' <= s[i] && s[i] <= '9'
        invariant
            i <= s.len(),
            digit_run(s@, 0) == i + digit_run(s@, i as int),
        decreases s.len() - i,
    {
        i += 1;
    }
    i
}

/// An ordered item: after leading whitespace, one or more digits then `. `.
pub open spec fn ordered_item_spec(line: Seq<char>) -> bool {
    let t = trim_start_spec(line);
    let d = digit_run(t, 0);
    d >= 1 && starts_with_spec(t.skip(d), seq!['.', ' '])
}

fn is_ordered_list_item(line: &Vec<char>) -> (r: bool)
    ensures
        r == ordered_item_spec(line@),
{
    let t = trim_start_chars(line);
    let d = count_digits(t.as_slice());
    proof {
        lemma_digit_run(t@, 0);
    }
    if d == 0 {
        return false;
    }
    let rest = suffix_of(&t, d);
    let p: [char; 2] = ['.', ' '];
    assert(p@ == seq!['.', ' ']);
    starts_with(rest.as_slice(), p.as_slice())
}

pub open spec fn list_item_spec(line: Seq<char>) -> bool {
    unordered_item_spec(line) || ordered_item_spec(line)
}

fn is_list_item(line: &Vec<char>) -> (r: bool)
    ensures
        r == list_item_spec(line@),
{
    is_unordered_list_item(line) || is_ordered_list_item(line)
}

/// Width of the list marker at the start of `t`: two for an unordered item;
/// for an ordered one the digits plus `. ` (only the digits without it).
pub open spec fn marker_width_spec(t: Seq<char>, ordered: bool) -> int {
    if !ordered {
        2
    } else {
        let d = digit_run(t, 0);
        if d <= t.len() && starts_with_spec(t.skip(d), seq!['.', ' ']) {
            d + 2
        } else {
            d
        }
    }
}

fn list_marker_width(trimmed: &Vec<char>, ordered: bool) -> (r: usize)
    ensures
        r == marker_width_spec(trimmed@, ordered),
{
    if !ordered {
        2
    } else {
        let d = count_digits(trimmed.as_slice());
        proof {
            lemma_digit_run(trimmed@, 0);
        }
        let rest = suffix_of(trimmed, d);
        let p: [char; 2] = ['.', ' '];
        assert(p@ == seq!['.', ' ']);
        if starts_with(rest.as_slice(), p.as_slice()) {
            assert(rest@.len() >= 2);
            assert(rest@.len() == trimmed@.len() - d);
            assert(d + 2 <= trimmed.len());
            d + 2
        } else {
            d
        }
    }
}

/// A list item's text: the line after its leading whitespace and marker.
pub open spec fn strip_marker_spec(line: Seq<char>, ordered: bool) -> Seq<char> {
    let t = trim_start_spec(line);
    t.skip(marker_width_spec(t, ordered))
}

fn strip_list_marker(line: &Vec<char>, ordered: bool) -> (r: Vec<char>)
    requires
        list_item_spec(line@),
        ordered == ordered_item_spec(line@),
    ensures
        r@ == strip_marker_spec(line@, ordered),
{
    let t = trim_start_chars(line);
    let w = list_marker_width(&t, ordered);
    proof {
        lemma_digit_run(t@, 0);
    }
    suffix_of(&t, w)
}


// ─── Line scanner ────────────────────────────────────────────────

/// Longest line (in characters) the parser accepts; it keeps indentation
/// arithmetic inside `usize`.
pub open spec fn max_line() -> int {
    (usize::MAX / 8) as int
}

/// Size of a run of lines: every line counts its characters plus one.
pub open spec fn lines_measure(ls: Seq<Seq<char>>) -> int
    decreases ls.len(),
{
    if ls.len() == 0 {
        0
    } else {
        ls[0].len() + 1 + lines_measure(ls.drop_first())
    }
}

pub proof fn lemma_measure_nonneg(ls: Seq<Seq<char>>)
    ensures
        lines_measure(ls) >= ls.len(),
    decreases ls.len(),
{
    if ls.len() > 0 {
        lemma_measure_nonneg(ls.drop_first());
    }
}

pub proof fn lemma_measure_concat(a: Seq<Seq<char>>, b: Seq<Seq<char>>)
    ensures
        lines_measure(a + b) == lines_measure(a) + lines_measure(b),
    decreases a.len(),
{
    if a.len() > 0 {
        assert((a + b).drop_first() =~= a.drop_first() + b);
        lemma_measure_concat(a.drop_first(), b);
    } else {
        assert(a + b =~= b);
    }
}

pub proof fn lemma_measure_push(a: Seq<Seq<char>>, l: Seq<char>)
    ensures
        lines_measure(a.push(l)) == lines_measure(a) + l.len() + 1,
{
    lemma_measure_concat(a, seq![l]);
    assert(a.push(l) =~= a + seq![l]);
    assert(seq![l].drop_first() =~= Seq::<Seq<char>>::empty());
    assert(lines_measure(Seq::<Seq<char>>::empty()) == 0);
    assert(lines_measure(seq![l]) == l.len() + 1);
}

pub proof fn lemma_measure_skip(ls: Seq<Seq<char>>, p: int)
    requires
        0 <= p < ls.len(),
    ensures
        lines_measure(ls.skip(p)) == ls[p].len() + 1 + lines_measure(ls.skip(p + 1)),
{
    assert(ls.skip(p).drop_first() =~= ls.skip(p + 1));
}

/// Splitting a text at `\n` gives lines whose measure is its length plus one,
/// each no longer than the text.
pub proof fn lemma_split_measure(s: Seq<char>, i: int)
    requires
        0 <= i <= s.len(),
    ensures
        lines_measure(split_nl_from(s, i)) == s.len() - i + 1,
        forall|k: int| 0 <= k < split_nl_from(s, i).len() ==> #[trigger] split_nl_from(s, i)[k].len()
            <= s.len(),
        split_nl_from(s, i).len() >= 1,
    decreases s.len() - i,
{
    lemma_next_nl(s, i);
    let k = next_nl(s, i);
    if k >= s.len() {
        let r = split_nl_from(s, i);
        assert(r =~= seq![s.subrange(i, s.len() as int)]);
        assert(r.drop_first() =~= Seq::<Seq<char>>::empty());
        assert(lines_measure(Seq::<Seq<char>>::empty()) == 0);
        assert(lines_measure(r) == s.len() - i + 1);
    } else {
        lemma_split_measure(s, k + 1);
        let r = split_nl_from(s, i);
        let rest = split_nl_from(s, k + 1);
        assert(r == seq![s.subrange(i, k)] + rest);
        assert(r.drop_first() =~= rest);
        assert(r[0] == s.subrange(i, k));
        assert(lines_measure(r) == (k - i) + 1 + lines_measure(rest));
        assert forall|t: int| 0 <= t < r.len() implies #[trigger] r[t].len() <= s.len() by {
            if t > 0 {
                assert(r[t] == rest[t - 1]);
            }
        }
    }
}

pub proof fn lemma_join_len(ls: Seq<Seq<char>>)
    requires
        ls.len() >= 1,
    ensures
        join_nl(ls).len() == lines_measure(ls) - 1,
    decreases ls.len(),
{
    if ls.len() == 1 {
        assert(ls.drop_first() =~= Seq::<Seq<char>>::empty());
        assert(lines_measure(Seq::<Seq<char>>::empty()) == 0);
        assert(lines_measure(ls) == ls[0].len() + 1);
    } else {
        lemma_join_len(ls.drop_last());
        lemma_measure_push(ls.drop_last(), ls.last());
        assert(ls.drop_last().push(ls.last()) =~= ls);
    }
}

/// A text split into lines, with a cursor on the next line to read.
struct LineScanner {
    lines: Vec<Vec<char>>,
    pos: usize,
}

impl LineScanner {
    spec fn view_lines(&self) -> Seq<Seq<char>> {
        self.lines@.map_values(|l: Vec<char>| l@)
    }

    /// Size of what is left to read.
    spec fn measure(&self) -> int {
        lines_measure(self.view_lines().skip(self.pos as int))
    }

    spec fn wf(&self) -> bool {
        &&& self.pos <= self.lines.len()
        &&& lines_measure(self.view_lines()) <= max_line() + 1
        &&& forall|k: int| 0 <= k < self.lines.len() ==> #[trigger] self.lines@[k]@.len() <= max_line()
    }

    fn new(text: &Vec<char>) -> (r: Self)
        requires
            text@.len() <= max_line(),
        ensures
            r.wf(),
            r.pos == 0,
            r.view_lines() == split_nl(text@),
            r.measure() == text@.len() + 1,
    {
        let lines = split_lines(text);
        proof {
            lemma_split_measure(text@, 0);
            assert forall|k: int| 0 <= k < lines.len() implies #[trigger] lines@[k]@.len() <= max_line() by {
                assert(lines@.map_values(|l: Vec<char>| l@)[k] == lines@[k]@);
            }
        }
        let r = LineScanner { lines, pos: 0 };
        assert(r.view_lines().skip(0) =~= r.view_lines());
        r
    }

    fn has_more(&self) -> (r: bool)
        ensures
            r == (self.pos < self.lines.len()),
    {
        self.pos < self.lines.len()
    }

    /// The current line, without consuming it.
    fn peek(&self) -> (r: Option<&Vec<char>>)
        requires
            self.wf(),
        ensures
            self.pos < self.lines.len() ==> r == Some(&self.lines@[self.pos as int]),
            self.pos >= self.lines.len() ==> r is None,
    {
        if self.pos < self.lines.len() {
            Some(&self.lines[self.pos])
        } else {
            None
        }
    }

    /// Consumes and returns the current line.
    fn advance(&mut self) -> (r: Option<Vec<char>>)
        requires
            old(self).wf(),
        ensures
            final(self).wf(),
            final(self).lines == old(self).lines,
            old(self).pos < old(self).lines.len() ==> r is Some && r->0@ == old(self).lines@[old(self).pos as int]@
                && final(self).pos == old(self).pos + 1 && final(self).measure() == old(self).measure()
                - old(self).lines@[old(self).pos as int]@.len() - 1,
            old(self).pos >= old(self).lines.len() ==> r is None && final(self).pos == old(self).pos,
    {
        if self.pos < self.lines.len() {
            let line = self.lines[self.pos].clone();
            proof {
                lemma_measure_skip(self.view_lines(), self.pos as int);
            }
            self.pos += 1;
            Some(line)
        } else {
            None
        }
    }

    /// Skips blank lines; tells whether any was skipped.
    fn skip_blank_lines(&mut self) -> (skipped: bool)
        requires
            old(self).wf(),
        ensures
            final(self).wf(),
            final(self).lines == old(self).lines,
            old(self).pos <= final(self).pos,
            final(self).measure() <= old(self).measure(),
            final(self).pos < final(self).lines.len() ==> trim_spec(
                final(self).lines@[final(self).pos as int]@,
            ).len() != 0,
            forall|k: int|
                old(self).pos <= k < final(self).pos ==> trim_spec(#[trigger] final(self).lines@[k]@).len()
                    == 0,
            skipped == (final(self).pos > old(self).pos),
            final(self).pos == skip_blank(old(self).view_lines(), old(self).pos as int),
    {
        let mut skipped = false;
        let ghost p0 = self.pos;
        while self.pos < self.lines.len() && is_blank(&self.lines[self.pos])
            invariant
                self.wf(),
                self.lines == old(self).lines,
                p0 == old(self).pos,
                p0 <= self.pos,
                self.measure() <= old(self).measure(),
                forall|k: int| p0 <= k < self.pos ==> trim_spec(#[trigger] self.lines@[k]@).len() == 0,
                skipped == (self.pos > p0),
            decreases self.lines.len() - self.pos,
        {
            proof {
                lemma_measure_skip(self.view_lines(), self.pos as int);
            }
            self.pos += 1;
            skipped = true;
        }
        proof {
            let ls = self.view_lines();
            assert forall|k: int| p0 <= k < self.pos implies trim_spec(#[trigger] ls[k]).len() == 0 by {
                assert(ls[k] == self.lines@[k]@);
            }
            if self.pos < self.lines.len() {
                assert(ls[self.pos as int] == self.lines@[self.pos as int]@);
            }
            lemma_skip_blank_to(ls, p0 as int, self.pos as int);
        }
        skipped
    }
}


// ─── Heading stack ───────────────────────────────────────────────

/// Open headings of the current scope, innermost last, above the scope's
/// root block.
struct HeadingStack {
    /// (level, block id)
    stack: Vec<(u8, String)>,
    doc_id: String,
}

impl HeadingStack {
    /// Levels strictly increase from the bottom of the stack to its top.
    spec fn increasing(&self) -> bool {
        forall|i: int, j: int| 0 <= i < j < self.stack.len() ==> #[trigger] self.stack@[i].0 < #[trigger] self.stack@[j].0
    }

    /// The block that new content of the scope hangs under.
    spec fn parent_spec(&self) -> Seq<char> {
        if self.stack.len() == 0 {
            self.doc_id@
        } else {
            self.stack@.last().1@
        }
    }

    fn new(doc_id: String) -> (r: Self)
        ensures
            r.doc_id == doc_id,
            r.stack@.len() == 0,
            r.increasing(),
    {
        HeadingStack { stack: Vec::new(), doc_id }
    }

    /// Opens a heading of `level`: closes every open heading of the same or a
    /// deeper level, and returns the block the new heading hangs under.
    #[verifier::spinoff_prover]
    #[verifier::rlimit(60)]
    fn push(&mut self, level: u8, heading_id: String) -> (parent: String)
        requires
            old(self).increasing(),
        ensures
            final(self).increasing(),
            final(self).doc_id == old(self).doc_id,
            final(self).stack@.len() >= 1,
            final(self).stack@.len() - 1 <= old(self).stack@.len(),
            final(self).stack@.last() == (level, heading_id),
            final(self).stack@.drop_last() == old(self).stack@.take(final(self).stack@.len() - 1),
            forall|i: int| 0 <= i < final(self).stack@.len() - 1 ==> (#[trigger] final(self).stack@[i]).0 < level,
            forall|i: int|
                final(self).stack@.len() - 1 <= i < old(self).stack@.len() ==> (#[trigger] old(self).stack@[i]).0 >= level,
            parent@ == (if final(self).stack@.len() == 1 {
                old(self).doc_id@
            } else {
                final(self).stack@[final(self).stack@.len() - 2].1@
            }),
    {
        while self.stack.len() > 0 && self.stack[self.stack.len() - 1].0 >= level
            invariant
                self.increasing(),
                self.doc_id == old(self).doc_id,
                self.stack@.len() <= old(self).stack@.len(),
                self.stack@ == old(self).stack@.take(self.stack@.len() as int),
                forall|i: int| self.stack@.len() <= i < old(self).stack@.len() ==> (#[trigger] old(self).stack@[i]).0 >= level,
            decreases self.stack.len(),
        {
            self.stack.pop();
        }
        let parent_id = if self.stack.len() > 0 {
            self.stack[self.stack.len() - 1].1.clone()
        } else {
            self.doc_id.clone()
        };
        let ghost before = self.stack@;
        self.stack.push((level, heading_id));
        proof {
            assert(self.stack@.drop_last() =~= before);
            assert forall|i: int, j: int| 0 <= i < j < self.stack@.len() implies #[trigger] self.stack@[i].0
                < #[trigger] self.stack@[j].0 by {
                if j == self.stack@.len() - 1 && i < j {
                    assert(self.stack@[i] == before[i]);
                    if before.len() > 0 {
                        assert(before[before.len() - 1].0 < level);
                        if i < before.len() - 1 {
                            assert(before[i].0 < before[before.len() - 1].0);
                        }
                    }
                }
            }
        }
        parent_id
    }

    fn current_parent(&self) -> (r: String)
        ensures
            r@ == self.parent_spec(),
    {
        if self.stack.len() > 0 {
            self.stack[self.stack.len() - 1].1.clone()
        } else {
            self.doc_id.clone()
        }
    }
}


// ─── Parser state ────────────────────────────────────────────────

/// `x` is the scope root or the identifier of one of `bs`.
pub open spec fn known(bs: Seq<Block>, root: Seq<char>, x: Seq<char>) -> bool {
    x == root || exists|j: int| 0 <= j < bs.len() && (#[trigger] bs[j]).id@ == x
}

/// Number of blocks of `bs` hanging under `p`.
pub open spec fn count_parent(bs: Seq<Block>, p: Seq<char>) -> nat
    decreases bs.len(),
{
    if bs.len() == 0 {
        0
    } else {
        count_parent(bs.drop_last(), p) + if bs.last().parent_id@ == p {
            1nat
        } else {
            0
        }
    }
}

pub open spec fn is_heading_block(b: Block) -> bool {
    b.block_type matches BlockType::Heading { .. }
}

pub open spec fn is_paragraph_block(b: Block) -> bool {
    b.block_type matches BlockType::Paragraph
}

/// Index of the first heading block of `bs`, or -1.
pub open spec fn first_heading(bs: Seq<Block>) -> int
    decreases bs.len(),
{
    if bs.len() == 0 {
        -1
    } else if first_heading(bs.drop_last()) >= 0 {
        first_heading(bs.drop_last())
    } else if is_heading_block(bs.last()) {
        bs.len() - 1
    } else {
        -1
    }
}

/// Index of the first paragraph block of `bs`, or -1.
pub open spec fn first_paragraph(bs: Seq<Block>) -> int
    decreases bs.len(),
{
    if bs.len() == 0 {
        -1
    } else if first_paragraph(bs.drop_last()) >= 0 {
        first_paragraph(bs.drop_last())
    } else if is_paragraph_block(bs.last()) {
        bs.len() - 1
    } else {
        -1
    }
}

pub proof fn lemma_first_heading(bs: Seq<Block>)
    ensures
        -1 <= first_heading(bs) < bs.len(),
        first_heading(bs) >= 0 ==> is_heading_block(bs[first_heading(bs)]),
        forall|k: int| 0 <= k < bs.len() && (first_heading(bs) < 0 || k < first_heading(bs)) ==> !is_heading_block(#[trigger] bs[k]),
    decreases bs.len(),
{
    if bs.len() > 0 {
        let d = bs.drop_last();
        lemma_first_heading(d);
        assert forall|k: int| 0 <= k < bs.len() && (first_heading(bs) < 0 || k < first_heading(bs)) implies !is_heading_block(#[trigger] bs[k]) by {
            if k < bs.len() - 1 {
                assert(bs[k] == d[k]);
            }
        }
    }
}

pub proof fn lemma_first_paragraph(bs: Seq<Block>)
    ensures
        -1 <= first_paragraph(bs) < bs.len(),
        first_paragraph(bs) >= 0 ==> is_paragraph_block(bs[first_paragraph(bs)]),
        forall|k: int| 0 <= k < bs.len() && (first_paragraph(bs) < 0 || k < first_paragraph(bs)) ==> !is_paragraph_block(#[trigger] bs[k]),
    decreases bs.len(),
{
    if bs.len() > 0 {
        let d = bs.drop_last();
        lemma_first_paragraph(d);
        assert forall|k: int| 0 <= k < bs.len() && (first_paragraph(bs) < 0 || k < first_paragraph(bs)) implies !is_paragraph_block(#[trigger] bs[k]) by {
            if k < bs.len() - 1 {
                assert(bs[k] == d[k]);
            }
        }
    }
}

/// The position a block gets as the `n`-th child (from zero) of its parent:
/// `a0` for the first, then each one right after the one before it
/// (`a0`, `a1`, ..., `a9`, `aA`, ...).
pub open spec fn nth_position(n: nat) -> Seq<char>
    decreases n,
{
    if n == 0 {
        seq!['a', '0']
    } else {
        after_spec(nth_position((n - 1) as nat))
    }
}

/// Positions of parsed siblings increase in document order: the `i`-th child
/// of a parent sorts before its `j`-th child whenever `i < j`.
pub proof fn law_parsed_positions_increase(i: nat, j: nat)
    requires
        i < j,
    ensures
        lex_lt(nth_position(i), nth_position(j)),
    decreases j,
{
    law_after_is_greater(nth_position((j - 1) as nat));
    if i + 1 < j {
        law_parsed_positions_increase(i, (j - 1) as nat);
        lemma_lex_lt_transitive(nth_position(i), nth_position((j - 1) as nat), nth_position(j));
    }
}

/// Parsed positions use only the position alphabet.
pub proof fn law_parsed_positions_valid(n: nat)
    ensures
        valid_pos(nth_position(n)),
    decreases n,
{
    if n == 0 {
        assert(idx_of('a') is Some);
        assert(idx_of('0') is Some);
    } else {
        law_parsed_positions_valid((n - 1) as nat);
        law_after_keeps_valid(nth_position((n - 1) as nat));
    }
}

/// What every parsed block satisfies: fixed bookkeeping fields, a parent and a
/// document that are the root or earlier blocks, and a position numbering it
/// among its earlier siblings.
pub open spec fn block_ok(bs: Seq<Block>, k: int, root: Seq<char>, now: Seq<char>) -> bool {
    let b = bs[k];
    &&& b.id@.len() == 20
    &&& b.status == BlockStatus::Normal
    &&& b.version == 1
    &&& b.schema_version == 1
    &&& !b.encrypted
    &&& b.created@ == now
    &&& b.modified@ == now
    &&& b.author@ == "system"@
    &&& b.owner_id is None
    &&& b.properties@ == Map::<String, String>::empty()
    &&& known(bs.take(k), root, b.parent_id@)
    &&& known(bs.take(k), root, b.document_id@)
    &&& b.position@ == nth_position(count_parent(bs.take(k), b.parent_id@))
}

pub open spec fn blocks_wf(bs: Seq<Block>, root: Seq<char>, now: Seq<char>) -> bool {
    forall|k: int| 0 <= k < bs.len() ==> #[trigger] block_ok(bs, k, root, now)
}

/// `bs2` extends `bs`.
pub open spec fn extends(bs: Seq<Block>, bs2: Seq<Block>) -> bool {
    bs.len() <= bs2.len() && bs2.take(bs.len() as int) == bs
}

pub proof fn lemma_known_extends(bs: Seq<Block>, bs2: Seq<Block>, root: Seq<char>, x: Seq<char>)
    requires
        extends(bs, bs2),
        known(bs, root, x),
    ensures
        known(bs2, root, x),
{
    if x != root {
        let j = choose|j: int| 0 <= j < bs.len() && (#[trigger] bs[j]).id@ == x;
        assert(bs2.take(bs.len() as int)[j] == bs2[j]);
    }
}

struct ParserState {
    heading_stack: HeadingStack,
    blocks: Vec<Block>,
    warnings: Vec<ParseWarning>,
    first_heading_seen: bool,
    doc_title: String,
    /// Timestamp shared by every block of the parse.
    now: String,
}

impl ParserState {
    /// The state's invariant for a parse whose document is `root`.
    spec fn wf(&self, root: Seq<char>) -> bool {
        &&& self.wf_core(root)
        &&& self.title_ok()
    }

    /// The title fields mirror the first heading block.
    spec fn title_ok(&self) -> bool {
        &&& self.first_heading_seen == (first_heading(self.blocks@) >= 0)
        &&& self.first_heading_seen ==> vstd::utf8::encode_utf8(self.doc_title@) == self.blocks@[first_heading(self.blocks@)].content@
        &&& !self.first_heading_seen ==> self.doc_title@.len() == 0
    }

    /// `wf_core`, except that stack entries may name `pending`, the block
    /// about to be added.
    spec fn wf_pending(&self, root: Seq<char>, pending: Seq<char>) -> bool {
        &&& blocks_wf(self.blocks@, root, self.now@)
        &&& known(self.blocks@, root, self.heading_stack.doc_id@)
        &&& forall|i: int| 0 <= i < self.heading_stack.stack@.len() ==> known(self.blocks@, root, (#[trigger] self.heading_stack.stack@[i]).1@)
            || self.heading_stack.stack@[i].1@ == pending
        &&& self.heading_stack.increasing()
        &&& self.warnings@.len() == 0
    }

    /// Everything of the invariant but the title fields.
    spec fn wf_core(&self, root: Seq<char>) -> bool {
        &&& blocks_wf(self.blocks@, root, self.now@)
        &&& known(self.blocks@, root, self.heading_stack.doc_id@)
        &&& forall|i: int| 0 <= i < self.heading_stack.stack@.len() ==> known(self.blocks@, root, (#[trigger] self.heading_stack.stack@[i]).1@)
        &&& self.heading_stack.increasing()
        &&& self.warnings@.len() == 0
    }

    fn new(doc_id: String, now: String) -> (r: Self)
        ensures
            r.wf(doc_id@),
            r.blocks@.len() == 0,
            r.heading_stack.doc_id == doc_id,
            r.heading_stack.stack@.len() == 0,
            r.now == now,
    {
        ParserState {
            heading_stack: HeadingStack::new(doc_id),
            blocks: Vec::new(),
            warnings: Vec::new(),
            first_heading_seen: false,
            doc_title: String::new(),
            now,
        }
    }

    fn current_parent(&self) -> (r: String)
        ensures
            r@ == self.heading_stack.parent_spec(),
    {
        self.heading_stack.current_parent()
    }

    /// Index of the last block already placed under `parent_id`, if any.
    fn last_child(&self, parent_id: &String) -> (r: Option<usize>)
        ensures
            r is None ==> count_parent(self.blocks@, parent_id@) == 0,
            r matches Some(k) ==> k < self.blocks@.len() && self.blocks@[k as int].parent_id@ == parent_id@
                && count_parent(self.blocks@.take(k as int), parent_id@) + 1 == count_parent(self.blocks@, parent_id@),
    {
        let mut last: Option<usize> = None;
        let mut i: usize = 0;
        while i < self.blocks.len()
            invariant
                i <= self.blocks.len(),
                last is None ==> count_parent(self.blocks@.take(i as int), parent_id@) == 0,
                last matches Some(k) ==> k < i && self.blocks@[k as int].parent_id@ == parent_id@
                    && count_parent(self.blocks@.take(k as int), parent_id@) + 1 == count_parent(self.blocks@.take(i as int), parent_id@),
            decreases self.blocks.len() - i,
        {
            assert(self.blocks@.take(i + 1).drop_last() =~= self.blocks@.take(i as int));
            if self.blocks[i].parent_id == *parent_id {
                last = Some(i);
            }
            i += 1;
        }
        assert(self.blocks@.take(self.blocks.len() as int) =~= self.blocks@);
        last
    }

    /// Position of the next child of `parent_id`: `a0` for the first, else
    /// the position right after that of the last child placed so far.
    fn next_position(&self, parent_id: &String, root: Ghost<Seq<char>>) -> (r: String)
        requires
            blocks_wf(self.blocks@, root@, self.now@),
        ensures
            r@ == nth_position(count_parent(self.blocks@, parent_id@)),
    {
        match self.last_child(parent_id) {
            None => generate_first(),
            Some(k) => {
                proof {
                    assert(block_ok(self.blocks@, k as int, root@, self.now@));
                }
                generate_after(self.blocks[k].position.as_str())
            },
        }
    }

    /// Adds a block with a fresh identifier; returns that identifier.
    fn add_block(&mut self, block_type: BlockType, parent_id: String, content: Vec<u8>, root: Ghost<Seq<char>>) -> (r: String)
        requires
            old(self).wf(root@),
            known(old(self).blocks@, root@, parent_id@),
            !is_heading_block_type(block_type),
        ensures
            final(self).wf(root@),
            final(self).heading_stack == old(self).heading_stack,
            final(self).now == old(self).now,
            final(self).first_heading_seen == old(self).first_heading_seen,
            final(self).doc_title == old(self).doc_title,
            final(self).blocks@ == old(self).blocks@.push(final(self).blocks@.last()),
            final(self).blocks@.last().id@ == r@,
            final(self).blocks@.last().parent_id@ == parent_id@,
            final(self).blocks@.last().block_type == block_type,
            final(self).blocks@.last().content@ == content@,
    {
        let id = generate_block_id();
        self.add_block_with_id(id, block_type, parent_id, content, root)
    }

    /// Adds a block with the given identifier; returns that identifier.
    fn add_block_with_id(&mut self, id: String, block_type: BlockType, parent_id: String, content: Vec<u8>, root: Ghost<Seq<char>>) -> (r: String)
        requires
            old(self).wf_pending(root@, id@),
            old(self).title_ok(),
            known(old(self).blocks@, root@, parent_id@),
            id@.len() == 20,
        ensures
            final(self).wf_core(root@),
            !(is_heading_block_type(block_type) && !old(self).first_heading_seen) ==> final(self).title_ok(),
            is_heading_block_type(block_type) && !old(self).first_heading_seen ==> first_heading(final(self).blocks@) == old(self).blocks@.len(),
            final(self).first_heading_seen == old(self).first_heading_seen,
            final(self).doc_title == old(self).doc_title,
            final(self).heading_stack == old(self).heading_stack,
            final(self).now == old(self).now,
            final(self).blocks@ == old(self).blocks@.push(final(self).blocks@.last()),
            final(self).blocks@.last().id == id,
            r == id,
            final(self).blocks@.last().parent_id@ == parent_id@,
            final(self).blocks@.last().block_type == block_type,
            final(self).blocks@.last().content@ == content@,
    {
        let position = self.next_position(&parent_id, root);
        let block = build_block(
            id.clone(),
            parent_id,
            self.heading_stack.doc_id.clone(),
            position,
            block_type,
            content,
            &self.now,
        );
        let ghost old_bs = self.blocks@;
        self.blocks.push(block);
        proof {
            let bs = self.blocks@;
            assert(bs.take(old_bs.len() as int) =~= old_bs);
            assert(bs.drop_last() =~= old_bs);
            assert forall|k: int| 0 <= k < bs.len() implies #[trigger] block_ok(bs, k, root@, self.now@) by {
                if k < old_bs.len() {
                    assert(block_ok(old_bs, k, root@, self.now@));
                    assert(bs.take(k) =~= old_bs.take(k));
                    assert(bs[k] == old_bs[k]);
                }
            }
            assert forall|i: int| 0 <= i < self.heading_stack.stack@.len() implies known(bs, root@, (#[trigger] self.heading_stack.stack@[i]).1@) by {
                if self.heading_stack.stack@[i].1@ == id@ {
                    assert(bs[old_bs.len() as int].id@ == id@);
                } else {
                    lemma_known_extends(old_bs, bs, root@, self.heading_stack.stack@[i].1@);
                }
            }
            lemma_known_extends(old_bs, bs, root@, self.heading_stack.doc_id@);
            lemma_first_heading(old_bs);
        }
        id
    }
}

// ─── The parse against the grammar ───────────────────────────────

/// The identifier of `bs[k]`, or `root` for -1.
pub open spec fn id_at(bs: Seq<Block>, k: int, root: Seq<char>) -> Seq<char> {
    if k == -1 {
        root
    } else {
        bs[k].id@
    }
}

/// `bs[k]` is the block `d` describes: its kind, its content, and its parent,
/// an earlier block or `root`.
pub open spec fn block_is(bs: Seq<Block>, k: int, d: Desc, root: Seq<char>) -> bool {
    &&& kind_of(bs[k].block_type) == Some(d.0)
    &&& bs[k].content@ == d.1
    &&& -1 <= d.2 < k
    &&& bs[k].parent_id@ == id_at(bs, d.2, root)
}

/// The blocks of `bs` from `start` on are those `ds` describes, in order.
pub open spec fn described(bs: Seq<Block>, start: int, ds: Seq<Desc>, root: Seq<char>) -> bool {
    &&& 0 <= start
    &&& bs.len() == start + ds.len()
    &&& forall|k: int| 0 <= k < ds.len() ==> block_is(bs, start + k, #[trigger] ds[k], root)
}

pub proof fn lemma_described_concat(
    bs: Seq<Block>,
    bs2: Seq<Block>,
    start: int,
    a: Seq<Desc>,
    b: Seq<Desc>,
    root: Seq<char>,
)
    requires
        described(bs, start, a, root),
        extends(bs, bs2),
        described(bs2, bs.len() as int, b, root),
    ensures
        described(bs2, start, a + b, root),
{
    assert forall|k: int| 0 <= k < (a + b).len() implies block_is(bs2, start + k, #[trigger] (a + b)[k], root) by {
        if k < a.len() {
            assert(block_is(bs, start + k, a[k], root));
            assert(bs2[start + k] == bs2.take(bs.len() as int)[start + k]);
            let d = a[k];
            if d.2 != -1 {
                assert(bs2[d.2] == bs2.take(bs.len() as int)[d.2]);
            }
        } else {
            assert(b[k - a.len()] == (a + b)[k]);
            assert(block_is(bs2, bs.len() + (k - a.len()), b[k - a.len()], root));
        }
    }
}

/// The exec heading stack stands for the spec stack `st` of a scope rooted
/// at index `scope` (-1 for the document).
spec fn stack_is(hs: HeadingStack, st: Stack, scope: int, bs: Seq<Block>, root: Seq<char>) -> bool {
    &&& -1 <= scope < bs.len()
    &&& hs.doc_id@ == id_at(bs, scope, root)
    &&& hs.stack@.len() == st.len()
    &&& forall|i: int| 0 <= i < st.len() ==> entry_is(#[trigger] hs.stack@[i], st[i], bs)
}

/// An open heading of the exec stack stands for one of the spec stack.
spec fn entry_is(e: (u8, String), s: (u8, int), bs: Seq<Block>) -> bool {
    e.0 == s.0 && 0 <= s.1 < bs.len() && e.1@ == bs[s.1].id@
}

proof fn lemma_stack_is_extends(hs: HeadingStack, st: Stack, scope: int, bs: Seq<Block>, bs2: Seq<Block>, root: Seq<char>)
    requires
        stack_is(hs, st, scope, bs, root),
        extends(bs, bs2),
    ensures
        stack_is(hs, st, scope, bs2, root),
{
    if scope != -1 {
        assert(bs2[scope] == bs2.take(bs.len() as int)[scope]);
    }
    assert forall|i: int| 0 <= i < st.len() implies entry_is(#[trigger] hs.stack@[i], st[i], bs2) by {
        assert(entry_is(hs.stack@[i], st[i], bs));
        assert(bs2[st[i].1] == bs2.take(bs.len() as int)[st[i].1]);
    }
}

proof fn lemma_stack_parent(hs: HeadingStack, st: Stack, scope: int, bs: Seq<Block>, root: Seq<char>)
    requires
        stack_is(hs, st, scope, bs, root),
    ensures
        -1 <= top_or(st, scope) < bs.len(),
        hs.parent_spec() == id_at(bs, top_or(st, scope), root),
{
    if st.len() > 0 {
        assert(entry_is(hs.stack@[st.len() - 1], st[st.len() - 1], bs));
    }
}

/// One parser step read the blocks `out.0` and left the spec stack `out.1`:
/// the grammar's blocks from the old cursor are those, then the grammar's
/// blocks from the new cursor.
spec fn stepped(
    s0: LineScanner,
    s1: LineScanner,
    st0: ParserState,
    st1: ParserState,
    root: Seq<char>,
    stk: Stack,
    scope: int,
    fuel: nat,
    out: (Seq<Desc>, Stack),
) -> bool {
    &&& described(st1.blocks@, st0.blocks@.len() as int, out.0, root)
    &&& stack_is(st1.heading_stack, out.1, scope, st1.blocks@, root)
    &&& content_spec(s0.view_lines(), s0.pos as int, stk, scope, st0.blocks@.len() as int, fuel) == out.0
        + content_spec(s1.view_lines(), s1.pos as int, out.1, scope, st1.blocks@.len() as int, fuel)
}

/// Skipping blank lines from `a` stops at `b` when the lines between are
/// blank and the one at `b`, if any, is not.
proof fn lemma_skip_blank_to(lines: Seq<Seq<char>>, a: int, b: int)
    requires
        0 <= a <= b <= lines.len(),
        forall|k: int| a <= k < b ==> trim_spec(#[trigger] lines[k]).len() == 0,
        b < lines.len() ==> trim_spec(lines[b]).len() != 0,
    ensures
        skip_blank(lines, a) == b,
    decreases b - a,
{
    if a < b {
        lemma_skip_blank_to(lines, a + 1, b);
    }
}

/// A non-blank line is where the grammar's blocks start.
proof fn lemma_skip_here(lines: Seq<Seq<char>>, p: int)
    requires
        0 <= p < lines.len(),
        trim_spec(lines[p]).len() != 0,
    ensures
        skip_blank(lines, p) == p,
{
}

pub open spec fn is_heading_block_type(t: BlockType) -> bool {
    t matches BlockType::Heading { .. }
}

/// Builds a block with the bookkeeping fields of a freshly parsed one.
fn build_block(
    id: String,
    parent_id: String,
    document_id: String,
    position: String,
    block_type: BlockType,
    content: Vec<u8>,
    now: &String,
) -> (b: Block)
    ensures
        b.id == id,
        b.parent_id == parent_id,
        b.document_id == document_id,
        b.position == position,
        b.block_type == block_type,
        b.content == content,
        b.properties@ == Map::<String, String>::empty(),
        b.version == 1,
        b.status == BlockStatus::Normal,
        b.schema_version == 1,
        !b.encrypted,
        b.created@ == now@,
        b.modified@ == now@,
        b.author@ == "system"@,
        b.owner_id is None,
{
    Block {
        id,
        parent_id,
        document_id,
        position,
        block_type,
        content,
        properties: HashMap::new(),
        version: 1,
        status: BlockStatus::Normal,
        schema_version: 1,
        encrypted: false,
        created: now.clone(),
        modified: now.clone(),
        author: "system".to_owned(),
        owner_id: None,
    }
}


// ─── Block parsers ───────────────────────────────────────────────

/// What every block parser guarantees about the scanner and the state.
spec fn scanned(
    s0: LineScanner,
    s1: LineScanner,
    st0: ParserState,
    st1: ParserState,
    root: Seq<char>,
) -> bool {
    &&& s1.wf()
    &&& s1.lines == s0.lines
    &&& s0.pos <= s1.pos
    &&& s1.measure() <= s0.measure()
    &&& st1.wf(root)
    &&& extends(st0.blocks@, st1.blocks@)
    &&& st1.now == st0.now
    &&& st1.heading_stack.doc_id == st0.heading_stack.doc_id
    &&& st1.blocks@.len() - st0.blocks@.len() <= 3 * (s0.measure() - s1.measure())
}

/// The line at the scanner's cursor.
spec fn cur_line(s: LineScanner) -> Seq<char> {
    s.lines@[s.pos as int]@
}

/// Closing the open headings of `level` or deeper keeps the first `k`, when
/// those are the ones of a lower level.
proof fn lemma_close_from(st: Stack, level: u8, k: int)
    requires
        0 <= k <= st.len(),
        k > 0 ==> st[k - 1].0 < level,
        forall|i: int| k <= i < st.len() ==> (#[trigger] st[i]).0 >= level,
    ensures
        close_from(st, level) == st.take(k),
    decreases st.len(),
{
    if st.len() > k {
        assert(st.drop_last().take(k) =~= st.take(k));
        assert forall|i: int| k <= i < st.drop_last().len() implies (#[trigger] st.drop_last()[i]).0 >= level by {
            assert(st.drop_last()[i] == st[i]);
        }
        if k > 0 {
            assert(st.drop_last()[k - 1] == st[k - 1]);
        }
        lemma_close_from(st.drop_last(), level, k);
    } else {
        assert(st.take(k) =~= st);
    }
}

fn parse_heading(
    scanner: &mut LineScanner,
    state: &mut ParserState,
    root: Ghost<Seq<char>>,
    stk: Ghost<Stack>,
    scope: Ghost<int>,
    fuel: Ghost<nat>,
) -> (out: Ghost<(Seq<Desc>, Stack)>)
    requires
        old(scanner).wf(),
        old(state).wf(root@),
        old(scanner).pos < old(scanner).lines.len(),
        heading_spec(cur_line(*old(scanner))) is Some,
        stack_is(old(state).heading_stack, stk@, scope@, old(state).blocks@, root@),
        trim_spec(cur_line(*old(scanner))).len() != 0,
    ensures
        scanned(*old(scanner), *final(scanner), *old(state), *final(state), root@),
        final(scanner).measure() < old(scanner).measure(),
        stepped(*old(scanner), *final(scanner), *old(state), *final(state), root@, stk@, scope@, fuel@, out@),
{
    let ghost lines = scanner.view_lines();
    let ghost p = scanner.pos as int;
    let line = scanner.advance().unwrap();
    let (level, text) = match parse_heading_line(&line) {
        Some(p) => p,
        None => {
            proof {
                assert(false);
            }
            return Ghost((Seq::empty(), stk@));
        },
    };
    let heading_id = generate_block_id();
    let ghost st0 = *state;
    let parent_id = state.heading_stack.push(level, heading_id.clone());
    let ghost n0 = st0.blocks@.len() as int;
    let ghost k = state.heading_stack.stack@.len() - 1;
    proof {
        let hs = state.heading_stack;
        assert forall|i: int| 0 <= i < hs.stack@.len() implies known(state.blocks@, root@, (#[trigger] hs.stack@[i]).1@)
            || hs.stack@[i].1@ == heading_id@ by {
            if i < hs.stack@.len() - 1 {
                assert(hs.stack@[i] == hs.stack@.drop_last()[i]);
                assert(st0.heading_stack.stack@[i] == st0.heading_stack.stack@.take(hs.stack@.len() - 1)[i]);
            }
        }
        if hs.stack@.len() >= 2 {
            let k = hs.stack@.len() - 2;
            assert(hs.stack@[k] == hs.stack@.drop_last()[k]);
            assert(st0.heading_stack.stack@[k] == st0.heading_stack.stack@.take(hs.stack@.len() - 1)[k]);
        }
        assert forall|i: int| k <= i < stk@.len() implies (#[trigger] stk@[i]).0 >= level by {
            assert(entry_is(st0.heading_stack.stack@[i], stk@[i], st0.blocks@));
        }
        if k > 0 {
            assert(hs.stack@[k - 1] == hs.stack@.drop_last()[k - 1]);
            assert(st0.heading_stack.stack@[k - 1] == st0.heading_stack.stack@.take(k)[k - 1]);
            assert(entry_is(st0.heading_stack.stack@[k - 1], stk@[k - 1], st0.blocks@));
        }
        lemma_close_from(stk@, level, k);
        assert(-1 <= top_or(stk@.take(k), scope@) < n0);
        assert(parent_id@ == id_at(st0.blocks@, top_or(stk@.take(k), scope@), root@));
    }
    let content = chars_to_bytes(text.as_slice());
    state.add_block_with_id(heading_id, BlockType::Heading { level }, parent_id, content, root);
    if !state.first_heading_seen {
        state.doc_title = from_chars(text.as_slice());
        state.first_heading_seen = true;
    }
    let ghost open = close_from(stk@, level);
    let ghost d = (Kind::Heading(level), encode_utf8(text@), top_or(open, scope@));
    let ghost s1 = open.push((level, n0));
    proof {
        let bs = state.blocks@;
        let hs = state.heading_stack;
        assert(bs.take(n0) =~= st0.blocks@);
        assert(lines[p] == cur_line(*old(scanner)));
        lemma_skip_here(lines, p);
        if top_or(open, scope@) != -1 {
            assert(bs[top_or(open, scope@)] == st0.blocks@[top_or(open, scope@)]);
        }
        assert(block_is(bs, n0, d, root@));
        assert(seq![d][0] == d);
        if scope@ != -1 {
            assert(bs[scope@] == st0.blocks@[scope@]);
        }
        assert forall|i: int| 0 <= i < s1.len() implies entry_is(#[trigger] hs.stack@[i], s1[i], bs) by {
            if i < k {
                assert(hs.stack@[i] == hs.stack@.drop_last()[i]);
                assert(st0.heading_stack.stack@[i] == st0.heading_stack.stack@.take(k)[i]);
                assert(entry_is(st0.heading_stack.stack@[i], stk@[i], st0.blocks@));
                assert(bs[stk@[i].1] == st0.blocks@[stk@[i].1]);
            }
        }
        assert(stack_is(hs, s1, scope@, bs, root@));
        assert(content_spec(lines, p, stk@, scope@, n0, fuel@) == seq![d] + content_spec(lines, p + 1, s1, scope@, n0 + 1, fuel@));
    }
    Ghost((seq![d], s1))
}

fn parse_code_block(
    scanner: &mut LineScanner,
    state: &mut ParserState,
    root: Ghost<Seq<char>>,
    stk: Ghost<Stack>,
    scope: Ghost<int>,
    fuel: Ghost<nat>,
) -> (out: Ghost<(Seq<Desc>, Stack)>)
    requires
        old(scanner).wf(),
        old(state).wf(root@),
        old(scanner).pos < old(scanner).lines.len(),
        stack_is(old(state).heading_stack, stk@, scope@, old(state).blocks@, root@),
        trim_spec(cur_line(*old(scanner))).len() != 0,
        heading_spec(cur_line(*old(scanner))) is None,
        code_fence_spec(cur_line(*old(scanner))),
    ensures
        scanned(*old(scanner), *final(scanner), *old(state), *final(state), root@),
        final(scanner).measure() < old(scanner).measure(),
        final(state).heading_stack == old(state).heading_stack,
        stepped(*old(scanner), *final(scanner), *old(state), *final(state), root@, stk@, scope@, fuel@, out@),
{
    let ghost m0 = scanner.measure();
    let ghost lines = scanner.view_lines();
    let ghost p = scanner.pos as int;
    let fence_line = scanner.advance().unwrap();
    let lang = code_fence_lang(&fence_line);
    let trimmed = trim_start_chars(&fence_line);
    let fence_char = trimmed[0];
    let mut code_lines: Vec<Vec<char>> = Vec::new();
    let mut done = false;
    while !done && scanner.has_more()
        invariant
            scanner.wf(),
            scanner.lines == old(scanner).lines,
            old(scanner).pos < scanner.pos,
            scanner.measure() < m0,
            m0 == old(scanner).measure(),
            lines == scanner.view_lines(),
            lines.len() == scanner.lines.len(),
            p == old(scanner).pos,
            p + 1 <= scanner.pos,
            !done ==> fence_close(lines, p + 1, fence_char) == fence_close(lines, scanner.pos as int, fence_char)
                && code_lines@.map_values(|l: Vec<char>| l@) == lines.subrange(p + 1, scanner.pos as int),
            done ==> fence_close(lines, p + 1, fence_char) == scanner.pos - 1 && scanner.pos - 1 < lines.len()
                && code_lines@.map_values(|l: Vec<char>| l@) == lines.subrange(p + 1, scanner.pos - 1),
        decreases scanner.lines.len() - scanner.pos, if done { 0int } else { 1int },
    {
        let line = scanner.peek().unwrap();
        assert(line@ == lines[scanner.pos as int]);
        if is_closing_fence(line, fence_char) {
            scanner.advance();
            done = true;
        } else {
            let ghost c0 = code_lines@;
            let ghost q = scanner.pos as int;
            let l = scanner.advance().unwrap();
            code_lines.push(l);
            assert(code_lines@.map_values(|l: Vec<char>| l@) =~= c0.map_values(|l: Vec<char>| l@).push(lines[q]));
            assert(lines.subrange(p + 1, q + 1) =~= lines.subrange(p + 1, q).push(lines[q]));
        }
    }
    let code = join_lines(&code_lines);
    let parent_id = state.current_parent();
    let ghost st0 = *state;
    let content = chars_to_bytes(code.as_slice());
    state.add_block(BlockType::CodeBlock { language: from_chars(lang.as_slice()) }, parent_id, content, root);
    let ghost e = fence_close(lines, p + 1, fence_char);
    let ghost d = (Kind::Code(fence_lang_spec(lines[p])), encode_utf8(join_nl(lines.subrange(p + 1, e))), top_or(stk@, scope@));
    proof {
        let bs = state.blocks@;
        let n0 = st0.blocks@.len() as int;
        assert(bs.take(n0) =~= st0.blocks@);
        assert(lines[p] == cur_line(*old(scanner)));
        lemma_skip_here(lines, p);
        lemma_stack_parent(st0.heading_stack, stk@, scope@, st0.blocks@, root@);
        lemma_stack_is_extends(st0.heading_stack, stk@, scope@, st0.blocks@, bs, root@);
        if top_or(stk@, scope@) != -1 {
            assert(bs[top_or(stk@, scope@)] == st0.blocks@[top_or(stk@, scope@)]);
        }
        if !done {
            assert(scanner.pos == lines.len());
            assert(e == lines.len());
        }
        assert(scanner.pos == after_close(lines, e));
        assert(block_is(bs, n0, d, root@));
        assert(seq![d][0] == d);
        assert(content_spec(lines, p, stk@, scope@, n0, fuel@) == seq![d] + content_spec(lines, after_close(lines, e), stk@, scope@, n0 + 1, fuel@));
        assert(state.blocks@.take(st0.blocks@.len() as int) =~= st0.blocks@);
    }
    Ghost((seq![d], stk@))
}

fn parse_math_block(
    scanner: &mut LineScanner,
    state: &mut ParserState,
    root: Ghost<Seq<char>>,
    stk: Ghost<Stack>,
    scope: Ghost<int>,
    fuel: Ghost<nat>,
) -> (out: Ghost<(Seq<Desc>, Stack)>)
    requires
        old(scanner).wf(),
        old(state).wf(root@),
        old(scanner).pos < old(scanner).lines.len(),
        stack_is(old(state).heading_stack, stk@, scope@, old(state).blocks@, root@),
        trim_spec(cur_line(*old(scanner))).len() != 0,
        heading_spec(cur_line(*old(scanner))) is None,
        !code_fence_spec(cur_line(*old(scanner))),
        math_fence_spec(cur_line(*old(scanner))),
    ensures
        scanned(*old(scanner), *final(scanner), *old(state), *final(state), root@),
        final(scanner).measure() < old(scanner).measure(),
        final(state).heading_stack == old(state).heading_stack,
        stepped(*old(scanner), *final(scanner), *old(state), *final(state), root@, stk@, scope@, fuel@, out@),
{
    let ghost m0 = scanner.measure();
    let ghost lines = scanner.view_lines();
    let ghost p = scanner.pos as int;
    scanner.advance();
    let mut math_lines: Vec<Vec<char>> = Vec::new();
    let mut done = false;
    while !done && scanner.has_more()
        invariant
            scanner.wf(),
            scanner.lines == old(scanner).lines,
            old(scanner).pos < scanner.pos,
            scanner.measure() < m0,
            m0 == old(scanner).measure(),
            lines == scanner.view_lines(),
            lines.len() == scanner.lines.len(),
            p == old(scanner).pos,
            p + 1 <= scanner.pos,
            !done ==> math_close(lines, p + 1) == math_close(lines, scanner.pos as int)
                && math_lines@.map_values(|l: Vec<char>| l@) == lines.subrange(p + 1, scanner.pos as int),
            done ==> math_close(lines, p + 1) == scanner.pos - 1 && scanner.pos - 1 < lines.len()
                && math_lines@.map_values(|l: Vec<char>| l@) == lines.subrange(p + 1, scanner.pos - 1),
        decreases scanner.lines.len() - scanner.pos, if done { 0int } else { 1int },
    {
        let line = scanner.peek().unwrap();
        assert(line@ == lines[scanner.pos as int]);
        if is_math_fence(line) {
            scanner.advance();
            done = true;
        } else {
            let ghost c0 = math_lines@;
            let ghost q = scanner.pos as int;
            let l = scanner.advance().unwrap();
            math_lines.push(l);
            assert(math_lines@.map_values(|l: Vec<char>| l@) =~= c0.map_values(|l: Vec<char>| l@).push(lines[q]));
            assert(lines.subrange(p + 1, q + 1) =~= lines.subrange(p + 1, q).push(lines[q]));
        }
    }
    let joined = join_lines(&math_lines);
    let latex = trim_chars(&joined);
    let parent_id = state.current_parent();
    let ghost st0 = *state;
    let content = chars_to_bytes(latex.as_slice());
    state.add_block(BlockType::MathBlock, parent_id, content, root);
    let ghost e = math_close(lines, p + 1);
    let ghost d = (Kind::Math, encode_utf8(trim_spec(join_nl(lines.subrange(p + 1, e)))), top_or(stk@, scope@));
    proof {
        let bs = state.blocks@;
        let n0 = st0.blocks@.len() as int;
        assert(bs.take(n0) =~= st0.blocks@);
        assert(lines[p] == cur_line(*old(scanner)));
        lemma_skip_here(lines, p);
        lemma_stack_parent(st0.heading_stack, stk@, scope@, st0.blocks@, root@);
        lemma_stack_is_extends(st0.heading_stack, stk@, scope@, st0.blocks@, bs, root@);
        if top_or(stk@, scope@) != -1 {
            assert(bs[top_or(stk@, scope@)] == st0.blocks@[top_or(stk@, scope@)]);
        }
        if !done {
            assert(scanner.pos == lines.len());
            assert(e == lines.len());
        }
        assert(scanner.pos == after_close(lines, e));
        assert(block_is(bs, n0, d, root@));
        assert(seq![d][0] == d);
        assert(content_spec(lines, p, stk@, scope@, n0, fuel@) == seq![d] + content_spec(lines, after_close(lines, e), stk@, scope@, n0 + 1, fuel@));
        assert(state.blocks@.take(st0.blocks@.len() as int) =~= st0.blocks@);
    }
    Ghost((seq![d], stk@))
}

fn parse_thematic_break(
    scanner: &mut LineScanner,
    state: &mut ParserState,
    root: Ghost<Seq<char>>,
    stk: Ghost<Stack>,
    scope: Ghost<int>,
    fuel: Ghost<nat>,
) -> (out: Ghost<(Seq<Desc>, Stack)>)
    requires
        old(scanner).wf(),
        old(state).wf(root@),
        old(scanner).pos < old(scanner).lines.len(),
        stack_is(old(state).heading_stack, stk@, scope@, old(state).blocks@, root@),
        trim_spec(cur_line(*old(scanner))).len() != 0,
        heading_spec(cur_line(*old(scanner))) is None,
        !code_fence_spec(cur_line(*old(scanner))),
        !math_fence_spec(cur_line(*old(scanner))),
        thematic_break_spec(cur_line(*old(scanner))),
    ensures
        scanned(*old(scanner), *final(scanner), *old(state), *final(state), root@),
        final(scanner).measure() < old(scanner).measure(),
        final(state).heading_stack == old(state).heading_stack,
        stepped(*old(scanner), *final(scanner), *old(state), *final(state), root@, stk@, scope@, fuel@, out@),
{
    let ghost lines = scanner.view_lines();
    let ghost p = scanner.pos as int;
    scanner.advance();
    let parent_id = state.current_parent();
    let ghost st0 = *state;
    state.add_block(BlockType::ThematicBreak, parent_id, Vec::new(), root);
    let ghost d = (Kind::Break, Seq::<u8>::empty(), top_or(stk@, scope@));
    proof {
        let bs = state.blocks@;
        assert(bs.take(st0.blocks@.len() as int) =~= st0.blocks@);
        assert(lines[p] == cur_line(*old(scanner)));
        lemma_skip_here(lines, p);
        lemma_stack_parent(st0.heading_stack, stk@, scope@, st0.blocks@, root@);
        lemma_stack_is_extends(st0.heading_stack, stk@, scope@, st0.blocks@, bs, root@);
        if top_or(stk@, scope@) != -1 {
            assert(bs[top_or(stk@, scope@)] == st0.blocks@[top_or(stk@, scope@)]);
        }
        assert(block_is(bs, st0.blocks@.len() as int, d, root@));
        assert(seq![d][0] == d);
    }
    Ghost((seq![d], stk@))
}

/// A line that starts some block other than a paragraph.
pub open spec fn starts_other_block(l: Seq<char>) -> bool {
    heading_spec(l) is Some || code_fence_spec(l) || math_fence_spec(l) || thematic_break_spec(l)
        || blockquote_spec(l) || list_item_spec(l)
}

fn parse_paragraph(
    scanner: &mut LineScanner,
    state: &mut ParserState,
    root: Ghost<Seq<char>>,
    stk: Ghost<Stack>,
    scope: Ghost<int>,
    fuel: Ghost<nat>,
) -> (out: Ghost<(Seq<Desc>, Stack)>)
    requires
        old(scanner).wf(),
        old(state).wf(root@),
        old(scanner).pos < old(scanner).lines.len(),
        trim_spec(cur_line(*old(scanner))).len() != 0,
        !starts_other_block(cur_line(*old(scanner))),
        stack_is(old(state).heading_stack, stk@, scope@, old(state).blocks@, root@),
    ensures
        scanned(*old(scanner), *final(scanner), *old(state), *final(state), root@),
        final(scanner).measure() < old(scanner).measure(),
        final(state).heading_stack == old(state).heading_stack,
        stepped(*old(scanner), *final(scanner), *old(state), *final(state), root@, stk@, scope@, fuel@, out@),
{
    let ghost m0 = scanner.measure();
    let ghost lines = scanner.view_lines();
    let ghost p = scanner.pos as int;
    let mut lines_v: Vec<Vec<char>> = Vec::new();
    let mut done = false;
    while !done && scanner.has_more()
        invariant
            scanner.wf(),
            scanner.lines == old(scanner).lines,
            old(scanner).pos <= scanner.pos,
            scanner.measure() <= m0,
            m0 == old(scanner).measure(),
            lines_v@.len() > 0 ==> scanner.measure() < m0,
            lines_v@.len() == 0 ==> scanner.pos == old(scanner).pos,
            lines_v@.len() == 0 ==> !done,
            old(scanner).pos < old(scanner).lines.len(),
            trim_spec(cur_line(*old(scanner))).len() != 0,
            !starts_other_block(cur_line(*old(scanner))),
            lines == scanner.view_lines(),
            lines.len() == scanner.lines.len(),
            p == old(scanner).pos,
            lines_v@.map_values(|l: Vec<char>| l@) == lines.subrange(p, scanner.pos as int),
            !done ==> para_end(lines, p) == para_end(lines, scanner.pos as int),
            done ==> para_end(lines, p) == scanner.pos,
        decreases scanner.lines.len() - scanner.pos, if done { 0int } else { 1int },
    {
        let line = scanner.peek().unwrap();
        assert(line@ == lines[scanner.pos as int]);
        proof {
            if lines_v@.len() == 0 {
                assert(line@ == cur_line(*old(scanner)));
            }
        }
        if is_blank(line) || is_heading(line) || is_code_fence(line) || is_math_fence(line)
            || is_thematic_break(line) || is_blockquote(line) || is_list_item(line) {
            done = true;
        } else {
            let ghost c0 = lines_v@;
            let ghost q = scanner.pos as int;
            let l = scanner.advance().unwrap();
            lines_v.push(l);
            assert(lines_v@.map_values(|l: Vec<char>| l@) =~= c0.map_values(|l: Vec<char>| l@).push(lines[q]));
            assert(lines.subrange(p, q + 1) =~= lines.subrange(p, q).push(lines[q]));
        }
    }
    if lines_v.len() == 0 {
        proof {
            assert(false);
        }
        return Ghost((Seq::empty(), stk@));
    }
    let text = join_lines(&lines_v);
    let parent_id = state.current_parent();
    let ghost st0 = *state;
    let content = chars_to_bytes(text.as_slice());
    state.add_block(BlockType::Paragraph, parent_id, content, root);
    let ghost e = para_end(lines, p);
    let ghost d = (Kind::Paragraph, encode_utf8(join_nl(lines.subrange(p, e))), top_or(stk@, scope@));
    proof {
        let bs = state.blocks@;
        let n0 = st0.blocks@.len() as int;
        assert(bs.take(n0) =~= st0.blocks@);
        assert(lines[p] == cur_line(*old(scanner)));
        lemma_skip_here(lines, p);
        lemma_stack_parent(st0.heading_stack, stk@, scope@, st0.blocks@, root@);
        lemma_stack_is_extends(st0.heading_stack, stk@, scope@, st0.blocks@, bs, root@);
        if top_or(stk@, scope@) != -1 {
            assert(bs[top_or(stk@, scope@)] == st0.blocks@[top_or(stk@, scope@)]);
        }
        assert(scanner.pos == e);
        assert(block_is(bs, n0, d, root@));
        assert(seq![d][0] == d);
        assert(content_spec(lines, p, stk@, scope@, n0, fuel@) == seq![d] + content_spec(lines, e, stk@, scope@, n0 + 1, fuel@));
        assert(state.blocks@.take(st0.blocks@.len() as int) =~= st0.blocks@);
    }
    Ghost((seq![d], stk@))
}


proof fn lemma_scanned_trans(
    s0: LineScanner,
    s1: LineScanner,
    s2: LineScanner,
    st0: ParserState,
    st1: ParserState,
    st2: ParserState,
    root: Seq<char>,
)
    requires
        scanned(s0, s1, st0, st1, root),
        scanned(s1, s2, st1, st2, root),
    ensures
        scanned(s0, s2, st0, st2, root),
{
    assert(st2.blocks@.take(st0.blocks@.len() as int) =~= st2.blocks@.take(st1.blocks@.len() as int).take(
        st0.blocks@.len() as int,
    ));
}

proof fn lemma_stack_known_extends(hs: HeadingStack, bs: Seq<Block>, bs2: Seq<Block>, root: Seq<char>)
    requires
        extends(bs, bs2),
        known(bs, root, hs.doc_id@),
        forall|i: int| 0 <= i < hs.stack@.len() ==> known(bs, root, (#[trigger] hs.stack@[i]).1@),
    ensures
        known(bs2, root, hs.doc_id@),
        forall|i: int| 0 <= i < hs.stack@.len() ==> known(bs2, root, (#[trigger] hs.stack@[i]).1@),
{
    lemma_known_extends(bs, bs2, root, hs.doc_id@);
    assert forall|i: int| 0 <= i < hs.stack@.len() implies known(bs2, root, (#[trigger] hs.stack@[i]).1@) by {
        lemma_known_extends(bs, bs2, root, hs.stack@[i].1@);
    }
}

/// Measures compare line by line.
proof fn lemma_measure_pointwise(a: Seq<Seq<char>>, b: Seq<Seq<char>>)
    requires
        a.len() == b.len(),
        forall|i: int| 0 <= i < a.len() ==> (#[trigger] a[i]).len() <= b[i].len(),
    ensures
        lines_measure(a) <= lines_measure(b),
    decreases a.len(),
{
    if a.len() > 0 {
        assert forall|i: int| 0 <= i < a.drop_first().len() implies (#[trigger] a.drop_first()[i]).len() <= b.drop_first()[i].len() by {
            assert(a.drop_first()[i] == a[i + 1]);
            assert(b.drop_first()[i] == b[i + 1]);
        }
        lemma_measure_pointwise(a.drop_first(), b.drop_first());
    }
}

fn copy_chars(v: &Vec<char>) -> (r: Vec<char>)
    ensures
        r@ == v@,
{
    let r = prefix_of(v, v.len());
    assert(v@.take(v.len() as int) =~= v@);
    r
}

/// A blockquote line without its marker is at least one character shorter.
proof fn lemma_strip_blockquote_shorter(l: Seq<char>)
    requires
        blockquote_spec(l),
    ensures
        strip_blockquote_spec(l).len() < l.len(),
{
    lemma_skip_ws_from(l, 0);
}

/// Index of the first character that is neither a space nor a tab, or 0 when
/// there is none.
pub open spec fn leading_spaces_spec(l: Seq<char>) -> int {
    let k = leading_sp_from(l, 0);
    if k < l.len() {
        k
    } else {
        0
    }
}

pub open spec fn leading_sp_from(l: Seq<char>, i: int) -> int
    decreases l.len() - i,
{
    if 0 <= i < l.len() && (l[i] == ' ' || l[i] == '\t') {
        leading_sp_from(l, i + 1)
    } else {
        i
    }
}

proof fn lemma_leading_sp_from(l: Seq<char>, i: int)
    requires
        0 <= i <= l.len(),
    ensures
        i <= leading_sp_from(l, i) <= l.len(),
    decreases l.len() - i,
{
    if i < l.len() && (l[i] == ' ' || l[i] == '\t') {
        lemma_leading_sp_from(l, i + 1);
    }
}

fn leading_spaces(l: &Vec<char>) -> (r: usize)
    ensures
        r == leading_spaces_spec(l@),
{
    let mut i: usize = 0;
    while i < l.len() && (l[i] == ' ' || l[i] == '\t')
        invariant
            i <= l.len(),
            leading_sp_from(l@, 0) == leading_sp_from(l@, i as int),
        decreases l.len() - i,
    {
        i += 1;
    }
    if i < l.len() {
        i
    } else {
        0
    }
}

/// A nested list line with its indentation removed: the first `dedent`
/// characters when its leading spaces and tabs reach that far, else all of
/// its leading whitespace.
pub open spec fn dedent_spec(l: Seq<char>, dedent: int) -> Seq<char> {
    if leading_spaces_spec(l) >= dedent {
        l.skip(dedent)
    } else {
        trim_start_spec(l)
    }
}

fn dedent_line(l: &Vec<char>, dedent: usize) -> (r: Vec<char>)
    ensures
        r@ == dedent_spec(l@, dedent as int),
{
    let leading = leading_spaces(l);
    proof {
        lemma_leading_sp_from(l@, 0);
    }
    if leading >= dedent {
        suffix_of(l, dedent)
    } else {
        trim_start_chars(l)
    }
}

proof fn lemma_dedent_shorter(l: Seq<char>, dedent: int, base: int)
    requires
        dedent >= 1,
        base >= 0,
        l.len() == 0 || indent_spec(l) > base,
    ensures
        dedent_spec(l, dedent).len() <= l.len(),
        l.len() > 0 ==> dedent_spec(l, dedent).len() < l.len(),
{
    lemma_leading_sp_from(l, 0);
    lemma_skip_ws_from(l, 0);
    if l.len() > 0 {
        assert(l[0] == ' ' || l[0] == '\t');
        assert(is_ws(l[0]));
    }
}

fn parse_blockquote(
    scanner: &mut LineScanner,
    state: &mut ParserState,
    root: Ghost<Seq<char>>,
    fuel: Ghost<int>,
    stk: Ghost<Stack>,
    scope: Ghost<int>,
) -> (out: Ghost<(Seq<Desc>, Stack)>)
    requires
        old(scanner).measure() <= fuel@,
        old(scanner).wf(),
        old(state).wf(root@),
        old(scanner).pos < old(scanner).lines.len(),
        blockquote_spec(cur_line(*old(scanner))),
        stack_is(old(state).heading_stack, stk@, scope@, old(state).blocks@, root@),
        trim_spec(cur_line(*old(scanner))).len() != 0,
        heading_spec(cur_line(*old(scanner))) is None,
        !code_fence_spec(cur_line(*old(scanner))),
        !math_fence_spec(cur_line(*old(scanner))),
        !thematic_break_spec(cur_line(*old(scanner))),
    ensures
        scanned(*old(scanner), *final(scanner), *old(state), *final(state), root@),
        final(scanner).measure() < old(scanner).measure(),
        final(state).heading_stack == old(state).heading_stack,
        stepped(*old(scanner), *final(scanner), *old(state), *final(state), root@, stk@, scope@, fuel@ as nat, out@),
    decreases fuel@, 1int,
{
    let ghost m0 = scanner.measure();
    let ghost st0 = *state;
    let ghost lines = scanner.view_lines();
    let ghost p = scanner.pos as int;
    let mut bq_lines: Vec<Vec<char>> = Vec::new();
    let mut done = false;
    while !done && scanner.has_more()
        invariant
            scanner.wf(),
            scanner.lines == old(scanner).lines,
            old(scanner).pos <= scanner.pos,
            m0 == old(scanner).measure(),
            scanner.measure() <= m0,
            lines_measure(bq_lines@.map_values(|l: Vec<char>| l@)) + bq_lines@.len() <= m0 - scanner.measure(),
            bq_lines@.len() == 0 ==> scanner.pos == old(scanner).pos && !done,
            old(scanner).pos < old(scanner).lines.len(),
            blockquote_spec(cur_line(*old(scanner))),
            lines == scanner.view_lines(),
            lines.len() == scanner.lines.len(),
            p == old(scanner).pos,
            bq_lines@.map_values(|l: Vec<char>| l@) == lines.subrange(p, scanner.pos as int).map_values(
                |l: Seq<char>| strip_blockquote_spec(l),
            ),
            !done ==> quote_end(lines, p) == quote_end(lines, scanner.pos as int),
            done ==> quote_end(lines, p) == scanner.pos,
        decreases scanner.lines.len() - scanner.pos, if done { 0int } else { 1int },
    {
        let line = scanner.peek().unwrap();
        let ghost q = scanner.pos as int;
        assert(line@ == lines[q]);
        proof {
            if bq_lines@.len() == 0 {
                assert(line@ == cur_line(*old(scanner)));
            }
        }
        if !is_blockquote(line) {
            done = true;
        } else {
            let l = scanner.advance().unwrap();
            let st = strip_blockquote(&l);
            proof {
                lemma_strip_blockquote_shorter(l@);
                let ghost before = bq_lines@.map_values(|x: Vec<char>| x@);
                lemma_measure_push(before, st@);
            }
            let ghost b0 = bq_lines@;
            bq_lines.push(st);
            assert(bq_lines@.map_values(|x: Vec<char>| x@) =~= b0.map_values(|x: Vec<char>| x@).push(st@));
            assert(lines.subrange(p, q + 1).map_values(|l: Seq<char>| strip_blockquote_spec(l)) =~= lines.subrange(
                p,
                q,
            ).map_values(|l: Seq<char>| strip_blockquote_spec(l)).push(strip_blockquote_spec(lines[q])));
        }
    }
    let parent_id = state.current_parent();
    let bq_id = state.add_block(BlockType::Blockquote, parent_id, Vec::new(), root);
    let ghost st1 = *state;
    let ghost n0 = st0.blocks@.len() as int;
    let ghost e = quote_end(lines, p);
    let ghost d = (Kind::Quote, Seq::<u8>::empty(), top_or(stk@, scope@));
    proof {
        let bs = state.blocks@;
        assert(bs.take(n0) =~= st0.blocks@);
        lemma_stack_parent(st0.heading_stack, stk@, scope@, st0.blocks@, root@);
        if top_or(stk@, scope@) != -1 {
            assert(bs[top_or(stk@, scope@)] == st0.blocks@[top_or(stk@, scope@)]);
        }
        assert(block_is(bs, n0, d, root@));
        assert(seq![d][0] == d);
        assert(described(bs, n0, seq![d], root@));
    }
    let inner_text = join_lines(&bq_lines);
    proof {
        let v = bq_lines@.map_values(|x: Vec<char>| x@);
        lemma_join_len(v);
        lemma_measure_nonneg(v);
        lemma_measure_nonneg(scanner.view_lines().skip(scanner.pos as int));
        assert(old(scanner).measure() <= lines_measure(old(scanner).view_lines())) by {
            lemma_measure_concat(old(scanner).view_lines().take(old(scanner).pos as int), old(scanner).view_lines().skip(old(scanner).pos as int));
            assert(old(scanner).view_lines() =~= old(scanner).view_lines().take(old(scanner).pos as int) + old(scanner).view_lines().skip(old(scanner).pos as int));
            lemma_measure_nonneg(old(scanner).view_lines().take(old(scanner).pos as int));
        }
    }
    let mut inner = LineScanner::new(&inner_text);
    let mut saved = HeadingStack::new(bq_id.clone());
    std::mem::swap(&mut state.heading_stack, &mut saved);
    proof {
        assert(state.blocks@[state.blocks@.len() - 1].id@ == bq_id@);
        assert(stack_is(state.heading_stack, Seq::empty(), n0, state.blocks@, root@));
    }
    let ghost st2 = *state;
    let ghost inner_lines = inner.view_lines();
    parse_content(&mut inner, state, root, Ghost(fuel@ - 1), Ghost(Seq::empty()), Ghost(n0));
    proof {
        lemma_stack_known_extends(saved, st2.blocks@, state.blocks@, root@);
    }
    std::mem::swap(&mut state.heading_stack, &mut saved);
    let ghost inner_d = content_spec(quote_inner(lines, p, e), 0, Seq::empty(), n0, n0 + 1, (fuel@ - 1) as nat);
    proof {
        assert(state.blocks@.take(st0.blocks@.len() as int) =~= state.blocks@.take(st1.blocks@.len() as int).take(st0.blocks@.len() as int));
        assert(st1.blocks@.take(st0.blocks@.len() as int) =~= st0.blocks@);
        assert(inner_lines == quote_inner(lines, p, e));
        lemma_described_concat(st1.blocks@, state.blocks@, n0, seq![d], inner_d, root@);
        lemma_stack_is_extends(st0.heading_stack, stk@, scope@, st0.blocks@, state.blocks@, root@);
        assert(lines[p] == cur_line(*old(scanner)));
        lemma_skip_here(lines, p);
        assert(scanner.pos == e);
        assert(content_spec(lines, p, stk@, scope@, n0, fuel@ as nat) == seq![d] + inner_d + content_spec(lines, e, stk@, scope@, n0 + 1 + inner_d.len(), fuel@ as nat));
        assert(seq![d] + inner_d + content_spec(lines, e, stk@, scope@, n0 + 1 + inner_d.len(), fuel@ as nat) =~= (seq![d] + inner_d) + content_spec(lines, e, stk@, scope@, state.blocks@.len() as int, fuel@ as nat));
    }
    Ghost((seq![d] + inner_d, stk@))
}

/// Collects the lines nested under a list item: lines indented deeper than
/// the list, and blank lines followed by such a line (kept as empty lines).
fn collect_nested(scanner: &mut LineScanner, base_indent: usize) -> (nested: Vec<Vec<char>>)
    requires
        old(scanner).wf(),
    ensures
        final(scanner).wf(),
        final(scanner).lines == old(scanner).lines,
        old(scanner).pos <= final(scanner).pos,
        final(scanner).measure() <= old(scanner).measure(),
        lines_measure(nested@.map_values(|l: Vec<char>| l@)) <= old(scanner).measure() - final(scanner).measure(),
        forall|i: int| 0 <= i < nested@.len() ==> (#[trigger] nested@[i])@.len() == 0 || indent_spec(nested@[i]@) > base_indent,
        nested@.map_values(|l: Vec<char>| l@) == nested_lines(old(scanner).view_lines(), old(scanner).pos as int, base_indent as int),
        final(scanner).pos == nested_end(old(scanner).view_lines(), old(scanner).pos as int, base_indent as int),
{
    let ghost m_item = scanner.measure();
    let ghost lines = scanner.view_lines();
    let ghost p0 = scanner.pos as int;
    let ghost bi = base_indent as int;
    let mut nested: Vec<Vec<char>> = Vec::new();
    let mut go2 = true;
    while go2 && scanner.has_more()
        invariant
            scanner.wf(),
            scanner.lines == old(scanner).lines,
            old(scanner).pos <= scanner.pos,
            m_item == old(scanner).measure(),
            scanner.measure() <= m_item,
            lines_measure(nested@.map_values(|l: Vec<char>| l@)) <= m_item - scanner.measure(),
            forall|i: int| 0 <= i < nested@.len() ==> (#[trigger] nested@[i])@.len() == 0 || indent_spec(nested@[i]@) > base_indent,
            lines == scanner.view_lines(),
            lines.len() == scanner.lines.len(),
            p0 == old(scanner).pos,
            bi == base_indent,
            nested_lines(lines, p0, bi) == nested@.map_values(|l: Vec<char>| l@) + (if go2 {
                nested_lines(lines, scanner.pos as int, bi)
            } else {
                Seq::empty()
            }),
            nested_end(lines, p0, bi) == if go2 {
                nested_end(lines, scanner.pos as int, bi)
            } else {
                scanner.pos as int
            },
        decreases scanner.measure(), if go2 { 1int } else { 0int },
    {
        let ghost s_before = *scanner;
        let ghost q = scanner.pos as int;
        let ghost n0 = nested@.map_values(|l: Vec<char>| l@);
        let line = scanner.peek().unwrap();
        assert(line@ == lines[q]);
        if is_blank(line) {
            let saved_pos = scanner.pos;
            scanner.advance();
            let mut pushed = false;
            if scanner.has_more() {
                let next = scanner.peek().unwrap();
                assert(next@ == lines[q + 1]);
                if indent_of(next.as_slice()) > base_indent {
                    proof {
                        lemma_measure_push(n0, Seq::empty());
                    }
                    nested.push(Vec::new());
                    assert(nested@.map_values(|x: Vec<char>| x@) =~= n0.push(Seq::empty()));
                    assert(n0 + nested_lines(lines, q, bi) =~= nested@.map_values(|x: Vec<char>| x@) + nested_lines(lines, q + 1, bi));
                    pushed = true;
                }
            }
            if !pushed {
                scanner.pos = saved_pos;
                assert(scanner.view_lines() == s_before.view_lines());
                assert(scanner.measure() == s_before.measure());
                assert(n0 + Seq::<Seq<char>>::empty() =~= n0);
                go2 = false;
            }
        } else if indent_of(line.as_slice()) <= base_indent {
            assert(n0 + Seq::<Seq<char>>::empty() =~= n0);
            go2 = false;
        } else {
            let l = scanner.advance().unwrap();
            proof {
                lemma_measure_push(n0, l@);
            }
            nested.push(l);
            assert(nested@.map_values(|x: Vec<char>| x@) =~= n0.push(lines[q]));
            assert(n0 + nested_lines(lines, q, bi) =~= nested@.map_values(|x: Vec<char>| x@) + nested_lines(lines, q + 1, bi));
        }
        proof {
            lemma_measure_le_total(*scanner);
        }
    }
    proof {
        if go2 {
            assert(nested@.map_values(|x: Vec<char>| x@) + Seq::<Seq<char>>::empty() =~= nested@.map_values(|x: Vec<char>| x@));
        }
    }
    nested
}

proof fn lemma_measure_le_total(sc: LineScanner)
    requires
        sc.wf(),
    ensures
        0 <= sc.measure() <= lines_measure(sc.view_lines()),
        lines_measure(sc.view_lines()) <= max_line() + 1,
{
    lemma_measure_nonneg(sc.view_lines().skip(sc.pos as int));
    lemma_measure_concat(sc.view_lines().take(sc.pos as int), sc.view_lines().skip(sc.pos as int));
    assert(sc.view_lines() =~= sc.view_lines().take(sc.pos as int) + sc.view_lines().skip(sc.pos as int));
    lemma_measure_nonneg(sc.view_lines().take(sc.pos as int));
}

/// Parses one item of a list whose marker line is at the cursor: the item
/// block, a paragraph with the item's text, and the nested content.
fn parse_list_item(
    scanner: &mut LineScanner,
    state: &mut ParserState,
    root: Ghost<Seq<char>>,
    fuel: Ghost<int>,
    list_id: &String,
    base_indent: usize,
    list_idx: Ghost<int>,
) -> (out: Ghost<Seq<Desc>>)
    requires
        old(scanner).wf(),
        old(state).wf(root@),
        old(scanner).pos < old(scanner).lines.len(),
        list_item_spec(cur_line(*old(scanner))),
        indent_spec(cur_line(*old(scanner))) == base_indent,
        trim_spec(cur_line(*old(scanner))).len() != 0,
        old(scanner).measure() <= fuel@,
        known(old(state).blocks@, root@, list_id@),
        0 <= list_idx@ < old(state).blocks@.len(),
        old(state).blocks@[list_idx@].id@ == list_id@,
    ensures
        scanned(*old(scanner), *final(scanner), *old(state), *final(state), root@),
        final(scanner).measure() < old(scanner).measure(),
        final(state).heading_stack == old(state).heading_stack,
        known(final(state).blocks@, root@, list_id@),
        final(state).blocks@.len() - old(state).blocks@.len() + 1 <= 3 * (old(scanner).measure() - final(scanner).measure()),
        described(final(state).blocks@, old(state).blocks@.len() as int, out@, root@),
        final(scanner).pos == nested_end(old(scanner).view_lines(), old(scanner).pos + 1, base_indent as int),
        items_spec(old(scanner).view_lines(), old(scanner).pos as int, base_indent as int, list_idx@, old(state).blocks@.len() as int, fuel@ as nat)
            == out@ + items_spec(final(scanner).view_lines(), final(scanner).pos as int, base_indent as int, list_idx@, final(state).blocks@.len() as int, fuel@ as nat),
    decreases fuel@, 0int,
{
    let ghost s0 = *scanner;
    let ghost st0 = *state;
    let ghost lines = scanner.view_lines();
    let ghost r = scanner.pos as int;
    let ghost n0 = st0.blocks@.len() as int;
    let ghost bi = base_indent as int;
    let item_line = scanner.advance().unwrap();
    let ordered_item = is_ordered_list_item(&item_line);
    let item_text = strip_list_marker(&item_line, ordered_item);
    let item_id = state.add_block(BlockType::ListItem, list_id.clone(), Vec::new(), root);
    let ghost d_item = (Kind::Item, Seq::<u8>::empty(), list_idx@);
    proof {
        assert(state.blocks@[state.blocks@.len() - 1].id@ == item_id@);
        assert(state.blocks@.take(st0.blocks@.len() as int) =~= st0.blocks@);
        lemma_known_extends(st0.blocks@, state.blocks@, root@, list_id@);
        assert(state.blocks@[list_idx@] == st0.blocks@[list_idx@]);
        assert(block_is(state.blocks@, n0, d_item, root@));
        assert(seq![d_item][0] == d_item);
    }
    let ghost st_item = *state;
    let ghost text = strip_marker_spec(lines[r], ordered_item_spec(lines[r]));
    let ghost para: Seq<Desc> = if text.len() > 0 {
        seq![(Kind::Paragraph, encode_utf8(text), n0)]
    } else {
        Seq::empty()
    };
    proof {
        assert(item_line@ == lines[r]);
    }
    if item_text.len() > 0 {
        let content = chars_to_bytes(item_text.as_slice());
        state.add_block(BlockType::Paragraph, item_id.clone(), content, root);
        proof {
            assert(state.blocks@.take(st_item.blocks@.len() as int) =~= st_item.blocks@);
            lemma_known_extends(st_item.blocks@, state.blocks@, root@, list_id@);
            lemma_known_extends(st_item.blocks@, state.blocks@, root@, item_id@);
            assert(state.blocks@[n0] == st_item.blocks@[n0]);
            assert(block_is(state.blocks@, n0 + 1, para[0], root@));
            assert(described(state.blocks@, n0 + 1, para, root@));
            lemma_described_concat(st_item.blocks@, state.blocks@, n0, seq![d_item], para, root@);
        }
    } else {
        proof {
            assert(seq![d_item] + para =~= seq![d_item]);
        }
    }
    proof {
        assert(known(state.blocks@, root@, item_id@));
        assert(state.blocks@.take(st0.blocks@.len() as int) =~= st0.blocks@);
        assert(described(state.blocks@, n0, seq![d_item] + para, root@));
    }
    let ghost st_para = *state;
    let ghost s1 = *scanner;
    let nested = collect_nested(scanner, base_indent);
    let ghost nl = nested_lines(lines, r + 1, bi);
    let ghost inner_d: Seq<Desc> = if nl.len() > 0 && fuel@ > 0 {
        content_spec(item_inner(lines[r], nl), 0, Seq::empty(), n0, n0 + 1 + para.len(), (fuel@ - 1) as nat)
    } else {
        Seq::empty()
    };
    proof {
        assert(nested@.map_values(|l: Vec<char>| l@).len() == nested@.len());
    }
    if nested.len() > 0 {
        let item_trimmed = trim_start_chars(&item_line);
        let item_indent = indent_of(item_line.as_slice());
        let marker_width = list_marker_width(&item_trimmed, ordered_item);
        proof {
            lemma_indent_bound(item_line@);
            lemma_digit_run(item_trimmed@, 0);
            lemma_skip_ws_from(item_line@, 0);
        }
        let dedent = item_indent + marker_width;
        let mut dedented: Vec<Vec<char>> = Vec::new();
        let mut j: usize = 0;
        while j < nested.len()
            invariant
                j <= nested@.len(),
                dedented@.len() == j,
                dedent >= 1,
                forall|i: int| 0 <= i < j ==> (#[trigger] dedented@[i])@ == dedent_spec(nested@[i]@, dedent as int),
            decreases nested.len() - j,
        {
            dedented.push(dedent_line(&nested[j], dedent));
            j += 1;
        }
        let inner_text = join_lines(&dedented);
        proof {
            let dv = dedented@.map_values(|x: Vec<char>| x@);
            let nv = nested@.map_values(|x: Vec<char>| x@);
            assert forall|i: int| 0 <= i < dv.len() implies (#[trigger] dv[i]).len() <= nv[i].len() by {
                lemma_dedent_shorter(nested@[i]@, dedent as int, base_indent as int);
            }
            lemma_measure_pointwise(dv, nv);
            lemma_join_len(dv);
            lemma_measure_le_total(*scanner);
            lemma_measure_le_total(s0);
            assert(dv =~= nl.map_values(|l: Seq<char>| dedent_spec(l, dedent as int)));
        }
        let mut inner = LineScanner::new(&inner_text);
        let mut saved = HeadingStack::new(item_id.clone());
        std::mem::swap(&mut state.heading_stack, &mut saved);
        proof {
            assert(state.blocks@[n0].id@ == item_id@);
            assert(stack_is(state.heading_stack, Seq::empty(), n0, state.blocks@, root@));
            assert(inner.view_lines() == item_inner(lines[r], nl));
        }
        let ghost st2 = *state;
        let ghost inner_m = inner.measure();
        parse_content(&mut inner, state, root, Ghost(fuel@ - 1), Ghost(Seq::empty()), Ghost(n0));
        proof {
            lemma_stack_known_extends(saved, st2.blocks@, state.blocks@, root@);
            lemma_known_extends(st2.blocks@, state.blocks@, root@, list_id@);
        }
        std::mem::swap(&mut state.heading_stack, &mut saved);
        proof {
            assert(state.blocks@.take(st_para.blocks@.len() as int) =~= st_para.blocks@);
            assert(state.blocks@.take(st0.blocks@.len() as int) =~= state.blocks@.take(st_para.blocks@.len() as int).take(st0.blocks@.len() as int));
            lemma_described_concat(st_para.blocks@, state.blocks@, n0, seq![d_item] + para, inner_d, root@);
        }
    } else {
        proof {
            assert(seq![d_item] + para + inner_d =~= seq![d_item] + para);
        }
    }
    proof {
        let nr = nested_end(lines, r + 1, bi);
        assert(lines[r] == cur_line(*old(scanner)));
        lemma_skip_here(lines, r);
        assert(continues_list(lines, r, bi));
        assert(scanner.pos == nr);
        assert(items_spec(lines, r, bi, list_idx@, n0, fuel@ as nat) == seq![d_item] + para + inner_d + items_spec(
            lines,
            nr,
            bi,
            list_idx@,
            n0 + 1 + para.len() + inner_d.len(),
            fuel@ as nat,
        ));
    }
    Ghost(seq![d_item] + para + inner_d)
}

/// Items of a list are read from the first non-blank line on.
proof fn lemma_items_skip(lines: Seq<Seq<char>>, q: int, bi: int, list: int, base: int, fuel: nat)
    requires
        0 <= q,
    ensures
        items_spec(lines, q, bi, list, base, fuel) == items_spec(lines, skip_blank(lines, q), bi, list, base, fuel),
        list_stop(lines, q, bi) == list_stop(lines, skip_blank(lines, q), bi),
{
    lemma_skip_blank(lines, q);
    let r = skip_blank(lines, q);
    if r < lines.len() {
        lemma_skip_here(lines, r);
    }
}

fn parse_list(
    scanner: &mut LineScanner,
    state: &mut ParserState,
    root: Ghost<Seq<char>>,
    fuel: Ghost<int>,
    stk: Ghost<Stack>,
    scope: Ghost<int>,
) -> (out: Ghost<(Seq<Desc>, Stack)>)
    requires
        old(scanner).wf(),
        old(state).wf(root@),
        old(scanner).pos < old(scanner).lines.len(),
        list_item_spec(cur_line(*old(scanner))),
        trim_spec(cur_line(*old(scanner))).len() != 0,
        old(scanner).measure() <= fuel@,
        stack_is(old(state).heading_stack, stk@, scope@, old(state).blocks@, root@),
        heading_spec(cur_line(*old(scanner))) is None,
        !code_fence_spec(cur_line(*old(scanner))),
        !math_fence_spec(cur_line(*old(scanner))),
        !thematic_break_spec(cur_line(*old(scanner))),
        !blockquote_spec(cur_line(*old(scanner))),
    ensures
        scanned(*old(scanner), *final(scanner), *old(state), *final(state), root@),
        final(scanner).measure() < old(scanner).measure(),
        final(state).heading_stack == old(state).heading_stack,
        stepped(*old(scanner), *final(scanner), *old(state), *final(state), root@, stk@, scope@, fuel@ as nat, out@),
    decreases fuel@, 1int,
{
    let ghost m0 = scanner.measure();
    let ghost st0 = *state;
    let ghost lines = scanner.view_lines();
    let ghost p = scanner.pos as int;
    let ghost n0 = st0.blocks@.len() as int;
    let ghost f = fuel@ as nat;
    let first_line = copy_chars(scanner.peek().unwrap());
    let ordered = is_ordered_list_item(&first_line);
    let base_indent = indent_of(first_line.as_slice());
    let ghost bi = base_indent as int;
    let parent_id = state.current_parent();
    let list_id = state.add_block(BlockType::List { ordered }, parent_id, Vec::new(), root);
    let ghost d = (Kind::List(ordered), Seq::<u8>::empty(), top_or(stk@, scope@));
    proof {
        assert(state.blocks@[state.blocks@.len() - 1].id@ == list_id@);
        assert(state.blocks@.take(st0.blocks@.len() as int) =~= st0.blocks@);
        lemma_stack_parent(st0.heading_stack, stk@, scope@, st0.blocks@, root@);
        if top_or(stk@, scope@) != -1 {
            assert(state.blocks@[top_or(stk@, scope@)] == st0.blocks@[top_or(stk@, scope@)]);
        }
        assert(block_is(state.blocks@, n0, d, root@));
        assert(seq![d][0] == d);
        assert(first_line@ == lines[p]);
    }
    let ghost mut acc: Seq<Desc> = Seq::empty();
    proof {
        lemma_measure_le_total(*scanner);
        assert(Seq::<Desc>::empty() + items_spec(lines, p, bi, n0, n0 + 1, f) =~= items_spec(lines, p, bi, n0, n0 + 1, f));
    }
    let mut any_item = false;
    let mut go = true;
    while go && scanner.has_more()
        invariant
            scanner.wf(),
            scanner.lines == old(scanner).lines,
            old(scanner).pos <= scanner.pos,
            m0 == old(scanner).measure(),
            m0 <= fuel@,
            scanner.measure() <= m0,
            any_item ==> scanner.measure() < m0,
            !any_item ==> scanner.pos == old(scanner).pos && go,
            state.wf(root@),
            extends(st0.blocks@, state.blocks@),
            state.now == st0.now,
            state.heading_stack == st0.heading_stack,
            known(state.blocks@, root@, list_id@),
            state.blocks@.len() - st0.blocks@.len() + 1 <= 3 * (m0 - scanner.measure()) + if any_item { 1int } else { 2int },
            old(scanner).pos < old(scanner).lines.len(),
            first_line@ == cur_line(*old(scanner)),
            base_indent == indent_spec(first_line@),
            list_item_spec(cur_line(*old(scanner))),
            trim_spec(cur_line(*old(scanner))).len() != 0,
            lines == scanner.view_lines(),
            lines.len() == scanner.lines.len(),
            p == old(scanner).pos,
            n0 == st0.blocks@.len(),
            f == fuel@,
            bi == base_indent,
            n0 < state.blocks@.len(),
            state.blocks@[n0].id@ == list_id@,
            described(state.blocks@, n0, seq![d] + acc, root@),
            go ==> list_stop(lines, p, bi) == list_stop(lines, scanner.pos as int, bi) && items_spec(lines, p, bi, n0, n0 + 1, f)
                == acc + items_spec(lines, scanner.pos as int, bi, n0, state.blocks@.len() as int, f),
            !go ==> list_stop(lines, p, bi) == scanner.pos && items_spec(lines, p, bi, n0, n0 + 1, f) == acc,
        decreases scanner.measure(), if go { 1int } else { 0int },
    {
        let ghost sa = *scanner;
        let ghost sta = *state;
        let ghost q = scanner.pos as int;
        scanner.skip_blank_lines();
        proof {
            lemma_items_skip(lines, q, bi, n0, state.blocks@.len() as int, f);
        }
        if !scanner.has_more() {
            go = false;
            proof {
                assert(acc + Seq::<Desc>::empty() =~= acc);
            }
        } else {
            let line = scanner.peek().unwrap();
            let ghost rr = scanner.pos as int;
            assert(line@ == lines[rr]);
            proof {
                if !any_item {
                    if scanner.pos > sa.pos {
                        assert(trim_spec(scanner.lines@[sa.pos as int]@).len() == 0);
                    }
                    assert(line@ == first_line@);
                }
            }
            let indent = indent_of(line.as_slice());
            if indent != base_indent || !is_list_item(line) {
                go = false;
                proof {
                    assert(!continues_list(lines, rr, bi));
                    assert(acc + Seq::<Desc>::empty() =~= acc);
                }
            } else {
                let ghost sb = *scanner;
                let ghost stb = *state;
                proof {
                    assert(stb.blocks@[n0] == state.blocks@[n0]);
                }
                let step = parse_list_item(scanner, state, root, fuel, &list_id, base_indent, Ghost(n0));
                proof {
                    assert(state.blocks@.take(st0.blocks@.len() as int) =~= state.blocks@.take(sta.blocks@.len() as int).take(st0.blocks@.len() as int));
                    lemma_described_concat(stb.blocks@, state.blocks@, n0, seq![d] + acc, step@, root@);
                    assert(seq![d] + acc + step@ =~= seq![d] + (acc + step@));
                    assert(acc + items_spec(lines, rr, bi, n0, stb.blocks@.len() as int, f) =~= (acc + step@) + items_spec(lines, scanner.pos as int, bi, n0, state.blocks@.len() as int, f));
                    assert(state.blocks@[n0] == state.blocks@.take(stb.blocks@.len() as int)[n0]);
                    lemma_skip_here(lines, rr);
                    assert(continues_list(lines, rr, bi));
                    lemma_nested_end(lines, rr + 1, bi);
                    assert(list_stop(lines, rr, bi) == list_stop(lines, nested_end(lines, rr + 1, bi), bi));
                    acc = acc + step@;
                }
                any_item = true;
            }
        }
        proof {
            lemma_measure_le_total(*scanner);
        }
    }
    proof {
        if go {
            assert(scanner.pos == lines.len());
            lemma_items_skip(lines, scanner.pos as int, bi, n0, state.blocks@.len() as int, f);
            assert(acc + Seq::<Desc>::empty() =~= acc);
        }
        lemma_stack_is_extends(st0.heading_stack, stk@, scope@, st0.blocks@, state.blocks@, root@);
        assert(lines[p] == cur_line(*old(scanner)));
        lemma_skip_here(lines, p);
        assert(content_spec(lines, p, stk@, scope@, n0, f) == seq![d] + acc + content_spec(lines, list_stop(lines, p, bi), stk@, scope@, n0 + 1 + acc.len(), f));
        assert(seq![d] + acc + content_spec(lines, scanner.pos as int, stk@, scope@, n0 + 1 + acc.len(), f) =~= (seq![d] + acc) + content_spec(lines, scanner.pos as int, stk@, scope@, state.blocks@.len() as int, f));
    }
    Ghost((seq![d] + acc, stk@))
}

/// Blocks are read from the first non-blank line on.
proof fn lemma_content_skip(lines: Seq<Seq<char>>, a: int, st: Stack, scope: int, base: int, fuel: nat)
    requires
        0 <= a,
    ensures
        content_spec(lines, a, st, scope, base, fuel) == content_spec(lines, skip_blank(lines, a), st, scope, base, fuel),
{
    lemma_skip_blank(lines, a);
    let r = skip_blank(lines, a);
    if r < lines.len() {
        lemma_skip_here(lines, r);
    }
}

/// Parses blocks until the scanner runs out.
fn parse_content(
    scanner: &mut LineScanner,
    state: &mut ParserState,
    root: Ghost<Seq<char>>,
    fuel: Ghost<int>,
    stk: Ghost<Stack>,
    scope: Ghost<int>,
)
    requires
        old(scanner).measure() <= fuel@,
        old(scanner).wf(),
        old(state).wf(root@),
        stack_is(old(state).heading_stack, stk@, scope@, old(state).blocks@, root@),
    ensures
        scanned(*old(scanner), *final(scanner), *old(state), *final(state), root@),
        final(scanner).pos == final(scanner).lines.len(),
        described(
            final(state).blocks@,
            old(state).blocks@.len() as int,
            content_spec(old(scanner).view_lines(), old(scanner).pos as int, stk@, scope@, old(state).blocks@.len() as int, fuel@ as nat),
            root@,
        ),
    decreases fuel@, 2int,
{
    let mut go = true;
    let ghost s0 = *scanner;
    let ghost st0 = *state;
    let ghost lines = scanner.view_lines();
    let ghost n0 = st0.blocks@.len() as int;
    let ghost f = fuel@ as nat;
    let ghost mut acc: Seq<Desc> = Seq::empty();
    let ghost mut cur: Stack = stk@;
    proof {
        assert(state.blocks@.take(st0.blocks@.len() as int) =~= st0.blocks@);
        lemma_measure_le_total(*scanner);
        assert(Seq::<Desc>::empty() + content_spec(lines, s0.pos as int, stk@, scope@, n0, f) =~= content_spec(lines, s0.pos as int, stk@, scope@, n0, f));
    }
    while go && scanner.has_more()
        invariant
            scanned(s0, *scanner, st0, *state, root@),
            s0 == *old(scanner),
            st0 == *old(state),
            !go ==> scanner.pos == scanner.lines.len(),
            s0.measure() <= fuel@,
            0 <= fuel@,
            lines == scanner.view_lines(),
            lines.len() == scanner.lines.len(),
            n0 == st0.blocks@.len(),
            f == fuel@,
            described(state.blocks@, n0, acc, root@),
            stack_is(state.heading_stack, cur, scope@, state.blocks@, root@),
            content_spec(lines, s0.pos as int, stk@, scope@, n0, f) == acc + content_spec(lines, scanner.pos as int, cur, scope@, state.blocks@.len() as int, f),
        decreases scanner.measure(), if go { 1int } else { 0int },
    {
        let ghost sa = *scanner;
        let ghost sta = *state;
        scanner.skip_blank_lines();
        proof {
            assert(state.blocks@.take(sta.blocks@.len() as int) =~= sta.blocks@);
            lemma_scanned_trans(s0, sa, *scanner, st0, sta, *state, root@);
            lemma_content_skip(lines, sa.pos as int, cur, scope@, state.blocks@.len() as int, f);
        }
        if !scanner.has_more() {
            go = false;
        } else {
            let ghost sb = *scanner;
            let ghost stb = *state;
            let line = scanner.peek().unwrap();
            assert(line@ == cur_line(*scanner));
            let step;
            if is_heading(line) {
                step = parse_heading(scanner, state, root, Ghost(cur), scope, Ghost(f));
            } else if is_code_fence(line) {
                step = parse_code_block(scanner, state, root, Ghost(cur), scope, Ghost(f));
            } else if is_math_fence(line) {
                step = parse_math_block(scanner, state, root, Ghost(cur), scope, Ghost(f));
            } else if is_thematic_break(line) {
                step = parse_thematic_break(scanner, state, root, Ghost(cur), scope, Ghost(f));
            } else if is_blockquote(line) {
                step = parse_blockquote(scanner, state, root, fuel, Ghost(cur), scope);
            } else if is_list_item(line) {
                step = parse_list(scanner, state, root, fuel, Ghost(cur), scope);
            } else {
                step = parse_paragraph(scanner, state, root, Ghost(cur), scope, Ghost(f));
            }
            proof {
                lemma_scanned_trans(s0, sb, *scanner, st0, stb, *state, root@);
                lemma_described_concat(stb.blocks@, state.blocks@, n0, acc, step@.0, root@);
                assert(acc + (step@.0 + content_spec(lines, scanner.pos as int, step@.1, scope@, state.blocks@.len() as int, f)) =~= (acc + step@.0) + content_spec(lines, scanner.pos as int, step@.1, scope@, state.blocks@.len() as int, f));
                acc = acc + step@.0;
                cur = step@.1;
            }
        }
        proof {
            lemma_measure_le_total(*scanner);
        }
    }
    proof {
        assert(scanner.pos == lines.len());
        assert(acc + Seq::<Desc>::empty() =~= acc);
    }
}


// ─── Parse entry points ──────────────────────────────────────────

/// Title given to a document without heading or paragraph.
pub const DEFAULT_TITLE: &'static str = "无标题文档";

/// `s` cut to `max` characters with `…` appended, when it is longer.
pub open spec fn truncate_spec(s: Seq<char>, max: int) -> Seq<char> {
    if s.len() > max {
        s.take(max).push('…')
    } else {
        s
    }
}

fn truncate_title(s: &Vec<char>, max_len: usize) -> (r: Vec<char>)
    ensures
        r@ == truncate_spec(s@, max_len as int),
{
    if s.len() > max_len {
        let mut t = prefix_of(s, max_len);
        t.push('…');
        t
    } else {
        copy_chars(s)
    }
}

/// Bytes of the document title derived from the parsed blocks: the first
/// heading's text when it is not empty; else the first paragraph's text cut
/// to fifty characters; else the default title.
pub open spec fn title_bytes(bs: Seq<Block>) -> Seq<u8> {
    let h = first_heading(bs);
    let p = first_paragraph(bs);
    if h >= 0 && bs[h].content@.len() > 0 {
        bs[h].content@
    } else if p >= 0 {
        encode_utf8(truncate_spec(utf8_lossy(bs[p].content@), 50))
    } else {
        encode_utf8(DEFAULT_TITLE@)
    }
}

/// The bookkeeping fields every block of a parse shares.
pub open spec fn fresh_block(b: Block, now: Seq<char>) -> bool {
    &&& b.status == BlockStatus::Normal
    &&& b.version == 1
    &&& b.schema_version == 1
    &&& !b.encrypted
    &&& b.created@ == now
    &&& b.modified@ == now
    &&& b.author@ == "system"@
    &&& b.owner_id is None
}

/// The document block of a parse with identifier length twenty, pointing to
/// itself as parent and document, at position `a0`.
pub open spec fn doc_block_ok(doc: Block) -> bool {
    &&& doc.id@.len() == 20
    &&& doc.parent_id@ == doc.id@
    &&& doc.document_id@ == doc.id@
    &&& doc.position@ == seq!['a', '0']
    &&& doc.block_type matches BlockType::Document
    &&& fresh_block(doc, doc.created@)
}

proof fn lemma_encode_empty(s: Seq<char>)
    ensures
        encode_utf8(s).len() == 0 <==> s.len() == 0,
{
    vstd::utf8::encode_utf8_decode_utf8(s);
    if s.len() == 0 {
        assert(encode_utf8(s) =~= Seq::<u8>::empty());
    } else if encode_utf8(s).len() == 0 {
        assert(encode_utf8(s) =~= Seq::<u8>::empty());
        assert(vstd::utf8::decode_utf8(Seq::<u8>::empty()) =~= Seq::<char>::empty());
    }
}

fn find_first_paragraph(bs: &Vec<Block>) -> (r: Option<usize>)
    ensures
        r matches Some(k) ==> k as int == first_paragraph(bs@) && k < bs@.len(),
        r is None ==> first_paragraph(bs@) < 0,
{
    proof {
        lemma_first_paragraph(bs@);
    }
    let mut i: usize = 0;
    while i < bs.len()
        invariant
            i <= bs.len(),
            forall|k: int| 0 <= k < i ==> !is_paragraph_block(#[trigger] bs@[k]),
            -1 <= first_paragraph(bs@) < bs@.len(),
            first_paragraph(bs@) >= 0 ==> is_paragraph_block(bs@[first_paragraph(bs@)]),
            forall|k: int| 0 <= k < bs@.len() && (first_paragraph(bs@) < 0 || k < first_paragraph(bs@)) ==> !is_paragraph_block(#[trigger] bs@[k]),
        decreases bs.len() - i,
    {
        if matches!(bs[i].block_type, BlockType::Paragraph) {
            return Some(i);
        }
        i += 1;
    }
    None
}

/// The blocks the grammar reads from a text, in document order.
pub open spec fn parsed_blocks(text: Seq<char>) -> Seq<Desc> {
    content_spec(split_nl(text), 0, Seq::empty(), -1, 0, (text.len() + 1) as nat)
}

/// Parses Markdown text into a document block and its descendants.
fn parse_markdown(text: &Vec<char>, _options: &ParseOptions) -> (r: Result<(Block, Vec<Block>, Vec<ParseWarning>), AppError>)
    requires
        text@.len() <= max_line(),
    ensures
        r matches Ok(t) && doc_block_ok(t.0) && blocks_wf(t.1@, t.0.id@, t.0.created@)
            && t.2@.len() == 0 && t.0.content@ == title_bytes(t.1@)
            && t.0.properties@ == Map::<String, String>::empty()
            && t.1@.len() <= 3 * (text@.len() + 1)
            && described(t.1@, 0, parsed_blocks(text@), t.0.id@),
{
    let doc_id = generate_block_id();
    let mut state = ParserState::new(doc_id.clone(), now_iso());
    let root = Ghost(doc_id@);
    let mut doc = build_block(
        doc_id.clone(),
        doc_id.clone(),
        doc_id.clone(),
        generate_first(),
        BlockType::Document,
        Vec::new(),
        &state.now,
    );
    let mut scanner = LineScanner::new(text);
    let ghost m = scanner.measure();
    proof {
        assert(stack_is(state.heading_stack, Seq::empty(), -1, state.blocks@, root@));
    }
    parse_content(&mut scanner, &mut state, root, Ghost(m), Ghost(Seq::empty()), Ghost(-1));
    let ghost bs = state.blocks@;
    proof {
        lemma_first_heading(bs);
        lemma_measure_le_total(scanner);
        assert(bs.len() <= 3 * (text@.len() + 1));
    }
    let doc_title: Vec<u8> = if state.doc_title.as_str().is_empty() {
        proof {
            if state.first_heading_seen {
                lemma_encode_empty(state.doc_title@);
            }
        }
        match find_first_paragraph(&state.blocks) {
            Some(k) => {
                let content = lossy_chars(state.blocks[k].content.as_slice());
                let t = truncate_title(&content, 50);
                chars_to_bytes(t.as_slice())
            },
            None => chars_to_bytes(to_chars(DEFAULT_TITLE).as_slice()),
        }
    } else {
        proof {
            lemma_encode_empty(state.doc_title@);
        }
        let title = to_chars(state.doc_title.as_str());
        chars_to_bytes(title.as_slice())
    };
    doc.content = doc_title;
    assert(doc_block_ok(doc));
    assert(blocks_wf(state.blocks@, doc.id@, doc.created@));
    assert(doc.content@ == title_bytes(state.blocks@));
    Ok((doc, state.blocks, state.warnings))
}

/// `HashMap::from([(key, value)])`: a map holding the one entry.
#[verifier::external_body]
pub(crate) fn single_property(key: String, value: String) -> (props: HashMap<String, String>)
    ensures
        props@ == Map::empty().insert(key, value),
{
    HashMap::from([(key, value)])
}

/// The result of parsing blank text: a document with the default title and
/// one empty paragraph.
fn empty_result() -> (r: ParseResult)
    ensures
        empty_result_ok(r),
{
    let doc_id = generate_block_id();
    let para_id = generate_block_id();
    let now = now_iso();
    let title = to_chars(DEFAULT_TITLE);
    let mut doc = build_block(
        doc_id.clone(),
        doc_id.clone(),
        doc_id.clone(),
        generate_first(),
        BlockType::Document,
        chars_to_bytes(title.as_slice()),
        &now,
    );
    doc.properties = single_property("title".to_owned(), DEFAULT_TITLE.to_owned());
    let para = build_block(
        para_id,
        doc_id.clone(),
        doc_id,
        generate_first(),
        BlockType::Paragraph,
        Vec::new(),
        &now,
    );
    let mut children: Vec<Block> = Vec::new();
    children.push(para);
    ParseResult { blocks_created: 2, root: doc, children, warnings: Vec::new() }
}

/// The blank-input result: a document titled with the default title (also
/// its `title` property) and a single empty paragraph under it.
pub open spec fn empty_result_ok(r: ParseResult) -> bool {
    &&& doc_block_ok(r.root)
    &&& r.root.content@ == encode_utf8(DEFAULT_TITLE@)
    &&& r.root.properties@.len() == 1
    &&& r.children@.len() == 1
    &&& r.children@[0].id@.len() == 20
    &&& r.children@[0].block_type matches BlockType::Paragraph
    &&& r.children@[0].parent_id@ == r.root.id@
    &&& r.children@[0].document_id@ == r.root.id@
    &&& r.children@[0].position@ == seq!['a', '0']
    &&& r.children@[0].content@.len() == 0
    &&& r.children@[0].properties@ == Map::<String, String>::empty()
    &&& fresh_block(r.children@[0], r.root.created@)
    &&& r.warnings@.len() == 0
    &&& r.blocks_created == 2
}

/// The Markdown format: parses Markdown into blocks and serializes blocks
/// back to Markdown.
pub struct MarkdownFormat;

impl MarkdownFormat {
    pub fn new() -> (r: Self) {
        MarkdownFormat
    }

}

impl BlockParser for MarkdownFormat {
    open spec fn parse_accepts(&self, text: Seq<char>) -> bool {
        text.len() <= max_line()
    }

    /// Parses Markdown text. Blank text gives a document with an empty
    /// paragraph; other text gives the document, titled from its first
    /// heading or paragraph, and the blocks of the text.
    fn parse(&self, text: &str, options: &ParseOptions) -> (r: Result<ParseResult, AppError>)
        ensures
            r is Ok,
            trim_spec(text@).len() == 0 ==> empty_result_ok(r->Ok_0),
            trim_spec(text@).len() != 0 ==> ({
                let p = r->Ok_0;
                &&& doc_block_ok(p.root)
                &&& p.root.properties@ == Map::<String, String>::empty()
                &&& p.root.content@ == title_bytes(p.children@)
                &&& blocks_wf(p.children@, p.root.id@, p.root.created@)
                &&& p.warnings@.len() == 0
                &&& p.blocks_created == 1 + p.children@.len()
                &&& described(p.children@, 0, parsed_blocks(text@), p.root.id@)
            }),
    {
        let chars = to_chars(text);
        if is_blank(&chars) {
            return Ok(empty_result());
        }
        let (root, children, warnings) = match parse_markdown(&chars, options) {
            Ok(t) => t,
            Err(e) => {
                return Err(e);
            },
        };
        Ok(ParseResult { blocks_created: 1 + children.len(), root, children, warnings })
    }
}

} // verus!
