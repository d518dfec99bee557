//! Pure helpers of the command-line front ends: command splitting, block
//! type names, parsing, truncation and the chat view's phases.

use vstd::prelude::*;
use crate::model::{block_type_debug, BlockType};
use crate::text::{decimal, decimal_chars, from_chars, starts_with_spec, to_chars, trim_chars, trim_spec};

verus! {

/// What the chat view is waiting for.
#[derive(Debug, Clone, Copy, PartialEq, Eq, Structural)]
pub enum AppPhase {
    Idle,
    Thinking,
    Streaming,
    ExecutingTools,
    WaitingPermission,
}

/// The status-bar label of a phase.
pub open spec fn phase_label(p: AppPhase) -> Seq<char> {
    match p {
        AppPhase::Idle => ""@,
        AppPhase::Thinking => "Thinking"@,
        AppPhase::Streaming => "Responding"@,
        AppPhase::ExecutingTools => "Running tools"@,
        AppPhase::WaitingPermission => "Awaiting approval"@,
    }
}

impl AppPhase {
    /// The status-bar label (empty when idle).
    pub fn label(&self) -> (r: &'static str)
        ensures
            r@ == phase_label(*self),
    {
        match self {
            AppPhase::Idle => "",
            AppPhase::Thinking => "Thinking",
            AppPhase::Streaming => "Responding",
            AppPhase::ExecutingTools => "Running tools",
            AppPhase::WaitingPermission => "Awaiting approval",
        }
    }
}

/// State of a tool call shown in the chat.
#[derive(Debug, Clone, Copy, PartialEq, Eq, Structural)]
pub enum ToolCallStatus {
    Running,
    Done,
    Error,
}

/// One entry of the chat transcript.
#[derive(Debug, Clone)]
pub enum ChatEntry {
    UserMessage { text: String },
    AssistantText { text: String },
    ToolCard { name: String, args_summary: String, status: ToolCallStatus, result: Option<String> },
    SystemInfo { text: String },
    Error { text: String },
}

// ─── Commands ────────────────────────────────────────────────────

/// Index of the first space of `s` (or its length).
pub open spec fn first_space(s: Seq<char>, i: int) -> int
    decreases s.len() - i,
{
    if 0 <= i < s.len() && s[i] != ' ' {
        first_space(s, i + 1)
    } else {
        i
    }
}

/// A command line split at its first space: the command, and the trimmed
/// rest (empty when there is no space).
pub open spec fn split_cmd_spec(line: Seq<char>) -> (Seq<char>, Seq<char>) {
    let i = first_space(line, 0);
    if i < line.len() {
        (line.take(i), trim_spec(line.skip(i + 1)))
    } else {
        (line, Seq::empty())
    }
}

proof fn lemma_first_space(s: Seq<char>, i: int)
    requires
        0 <= i <= s.len(),
    ensures
        i <= first_space(s, i) <= s.len(),
    decreases s.len() - i,
{
    if i < s.len() {
        lemma_first_space(s, i + 1);
    }
}

/// Splits a command line at its first space into the command and its
/// trimmed arguments.
pub fn split_cmd(line: &str) -> (r: (String, String))
    ensures
        (r.0@, r.1@) == split_cmd_spec(line@),
{
    let chars = to_chars(line);
    let mut i: usize = 0;
    proof {
        lemma_first_space(chars@, 0);
    }
    while i < chars.len() && chars[i] != ' '
        invariant
            i <= chars@.len(),
            chars@ == line@,
            first_space(chars@, i as int) == first_space(chars@, 0),
        decreases chars.len() - i,
    {
        i += 1;
    }
    if i < chars.len() {
        let head = crate::text::prefix_of(&chars, i);
        let tail = crate::text::suffix_of(&chars, i + 1);
        let args = trim_chars(&tail);
        (from_chars(head.as_slice()), from_chars(args.as_slice()))
    } else {
        (line.to_owned(), String::new())
    }
}

/// The short name the tree listing shows for a block type.
pub open spec fn short_name(bt: BlockType) -> Seq<char> {
    match bt {
        BlockType::Document => "doc"@,
        BlockType::Heading { level } => "h"@ + decimal(level as nat),
        BlockType::Paragraph => "p"@,
        BlockType::CodeBlock { language } => "code("@ + language@ + ")"@,
        BlockType::Blockquote => "quote"@,
        BlockType::List { ordered } => if ordered {
            "ol"@
        } else {
            "ul"@
        },
        BlockType::ListItem => "li"@,
        _ => block_type_debug(bt),
    }
}

/// The short name the tree listing shows for a block type (its debug form
/// for the less common types).
pub fn block_type_short(bt: &BlockType) -> (r: String)
    ensures
        r@ == short_name(*bt),
{
    match bt {
        BlockType::Document => "doc".to_owned(),
        BlockType::Heading { level } => {
            let mut v = to_chars("h");
            let d = decimal_chars(*level as usize);
            crate::text::append_chars(&mut v, &d);
            from_chars(v.as_slice())
        },
        BlockType::Paragraph => "p".to_owned(),
        BlockType::CodeBlock { language } => {
            let mut s = "code(".to_owned();
            crate::text::push_str(&mut s, language.as_str());
            crate::text::push_str(&mut s, ")");
            s
        },
        BlockType::Blockquote => "quote".to_owned(),
        BlockType::List { ordered } => if *ordered {
            "ol".to_owned()
        } else {
            "ul".to_owned()
        },
        BlockType::ListItem => "li".to_owned(),
        _ => bt.debug_text(),
    }
}

// ─── Parsing block types ─────────────────────────────────────────

/// `s` with every leading copy of `p` removed (`str::trim_start_matches`).
pub open spec fn strip_all_prefix(s: Seq<char>, p: Seq<char>) -> Seq<char>
    decreases s.len(),
{
    if p.len() > 0 && starts_with_spec(s, p) {
        strip_all_prefix(s.skip(p.len() as int), p)
    } else {
        s
    }
}

/// `s` with every trailing `c` removed (`str::trim_end_matches`).
pub open spec fn strip_all_suffix(s: Seq<char>, c: char) -> Seq<char>
    decreases s.len(),
{
    if s.len() > 0 && s.last() == c {
        strip_all_suffix(s.drop_last(), c)
    } else {
        s
    }
}

/// Value of a string of decimal digits.
pub open spec fn digits_value(d: Seq<char>) -> nat
    decreases d.len(),
{
    if d.len() == 0 {
        0
    } else {
        10 * digits_value(d.drop_last()) + ((d.last() as u32) - 48) as nat
    }
}

/// All characters are ASCII digits.
pub open spec fn all_digits(d: Seq<char>) -> bool {
    forall|i: int| 0 <= i < d.len() ==> '0' <= #[trigger] d[i] <= '9'
}

/// What `u8::from_str` accepts: an optional `+`, then one or more digits,
/// of value at most 255.
pub open spec fn parse_u8_spec(s: Seq<char>) -> Option<u8> {
    let d = if s.len() > 0 && s[0] == '+' {
        s.skip(1)
    } else {
        s
    };
    if d.len() > 0 && all_digits(d) && digits_value(d) <= 255 {
        Some(digits_value(d) as u8)
    } else {
        None
    }
}

proof fn lemma_digits_value_mono(d: Seq<char>, k: int)
    requires
        0 <= k <= d.len(),
        all_digits(d),
    ensures
        digits_value(d.take(k)) <= digits_value(d),
    decreases d.len() - k,
{
    if k < d.len() {
        lemma_digits_value_mono(d, k + 1);
        assert(d.take(k + 1).drop_last() =~= d.take(k));
    } else {
        assert(d.take(k) =~= d);
    }
}

/// Parses a `u8` as `str::parse` does.
pub fn parse_u8(s: &Vec<char>) -> (r: Option<u8>)
    ensures
        r == parse_u8_spec(s@),
{
    let start: usize = if s.len() > 0 && s[0] == '+' {
        1
    } else {
        0
    };
    let ghost d = s@.skip(start as int);
    assert(s@.skip(0) =~= s@);
    if start >= s.len() {
        return None;
    }
    let mut acc: u32 = 0;
    let mut i: usize = start;
    while i < s.len()
        invariant
            start <= i <= s@.len(),
            start < s@.len(),
            d == s@.skip(start as int),
            d == (if s@.len() > 0 && s@[0] == '+' {
                s@.skip(1)
            } else {
                s@
            }),
            all_digits(d.take(i - start)),
            acc as nat == digits_value(d.take(i - start)),
            acc <= 255,
        decreases s.len() - i,
    {
        let c = s[i];
        if !('0' <= c && c <= '9') {
            proof {
                assert(d[i - start] == c);
            }
            return None;
        }
        let v = (c as u32) - 48;
        proof {
            assert(d.take(i - start + 1).drop_last() =~= d.take(i - start));
            assert(d.take(i - start + 1).last() == c);
        }
        acc = acc * 10 + v;
        if acc > 255 {
            proof {
                assert forall|k: int| 0 <= k < i - start + 1 implies '0' <= #[trigger] d.take(i - start + 1)[k] <= '9' by {
                    if k < i - start {
                        assert(d.take(i - start + 1)[k] == d.take(i - start)[k]);
                    }
                }
                if all_digits(d) {
                    lemma_digits_value_mono(d, i - start + 1);
                }
            }
            return None;
        }
        proof {
            assert forall|k: int| 0 <= k < i - start + 1 implies '0' <= #[trigger] d.take(i - start + 1)[k] <= '9' by {
                if k < i - start {
                    assert(d.take(i - start + 1)[k] == d.take(i - start)[k]);
                }
            }
        }
        i += 1;
    }
    proof {
        assert(d.take(i - start) =~= d);
    }
    Some(acc as u8)
}

fn strip_prefix_all(s: &Vec<char>, p: &str) -> (r: Vec<char>)
    requires
        p@.len() > 0,
    ensures
        r@ == strip_all_prefix(s@, p@),
{
    let pc = to_chars(p);
    let mut cur = crate::text::prefix_of(s, s.len());
    assert(s@.take(s@.len() as int) =~= s@);
    while crate::text::starts_with(cur.as_slice(), pc.as_slice())
        invariant
            pc@ == p@,
            pc@.len() > 0,
            strip_all_prefix(cur@, p@) == strip_all_prefix(s@, p@),
        decreases cur@.len(),
    {
        cur = crate::text::suffix_of(&cur, pc.len());
    }
    cur
}

fn strip_suffix_all(s: &Vec<char>, c: char) -> (r: Vec<char>)
    ensures
        r@ == strip_all_suffix(s@, c),
{
    let mut n = s.len();
    assert(s@.take(n as int) =~= s@);
    while n > 0 && s[n - 1] == c
        invariant
            n <= s@.len(),
            strip_all_suffix(s@.take(n as int), c) == strip_all_suffix(s@, c),
        decreases n,
    {
        assert(s@.take(n as int).drop_last() =~= s@.take(n - 1));
        n -= 1;
    }
    assert(s@.take(s@.len() as int) =~= s@);
    crate::text::prefix_of(s, n)
}

/// The level text of a heading type name: `heading` and then `h` prefixes
/// removed.
pub open spec fn heading_arg(s: Seq<char>) -> Seq<char> {
    strip_all_prefix(strip_all_prefix(s, "heading"@), "h"@)
}

/// The language of a code type name: `code`, then `(` prefixes and `)`
/// suffixes removed.
pub open spec fn code_lang(s: Seq<char>) -> Seq<char> {
    strip_all_suffix(strip_all_prefix(strip_all_prefix(s, "code"@), "("@), ')')
}

/// Parses a block type name of the command line: `paragraph`/`p`,
/// `doc`/`document`, `blockquote`/`quote`, `heading<N>`/`h<N>`, or
/// `code(<lang>)` (language `text` when none is given).
pub fn parse_block_type(s: &str) -> (r: Result<BlockType, String>)
    ensures
        if s@ == "paragraph"@ || s@ == "p"@ {
            r == Ok::<BlockType, String>(BlockType::Paragraph)
        } else if s@ == "doc"@ || s@ == "document"@ {
            r == Ok::<BlockType, String>(BlockType::Document)
        } else if s@ == "blockquote"@ || s@ == "quote"@ {
            r == Ok::<BlockType, String>(BlockType::Blockquote)
        } else if starts_with_spec(s@, "heading"@) || starts_with_spec(s@, "h"@) {
            match parse_u8_spec(heading_arg(s@)) {
                Some(l) => r == Ok::<BlockType, String>(BlockType::Heading { level: l }),
                None => r matches Err(msg) && msg@ == "无效 heading level: "@ + s@,
            }
        } else if starts_with_spec(s@, "code"@) {
            r matches Ok(BlockType::CodeBlock { language }) && language@ == (if code_lang(s@).len() == 0 {
                "text"@
            } else {
                code_lang(s@)
            })
        } else {
            r matches Err(msg) && msg@ == "未知 block type: "@ + s@
        },
{
    if crate::text::str_eq(s, "paragraph") || crate::text::str_eq(s, "p") {
        return Ok(BlockType::Paragraph);
    }
    if crate::text::str_eq(s, "doc") || crate::text::str_eq(s, "document") {
        return Ok(BlockType::Document);
    }
    if crate::text::str_eq(s, "blockquote") || crate::text::str_eq(s, "quote") {
        return Ok(BlockType::Blockquote);
    }
    let chars = to_chars(s);
    let heading_p = to_chars("heading");
    let h_p = to_chars("h");
    let code_p = to_chars("code");
    if crate::text::starts_with(chars.as_slice(), heading_p.as_slice()) || crate::text::starts_with(
        chars.as_slice(),
        h_p.as_slice(),
    ) {
        proof {
            reveal_strlit("heading");
            reveal_strlit("h");
        }
        let a = strip_prefix_all(&chars, "heading");
        let b = strip_prefix_all(&a, "h");
        return match parse_u8(&b) {
            Some(level) => Ok(BlockType::Heading { level }),
            None => {
                let mut msg = "无效 heading level: ".to_owned();
                crate::text::push_str(&mut msg, s);
                Err(msg)
            },
        };
    }
    if crate::text::starts_with(chars.as_slice(), code_p.as_slice()) {
        proof {
            reveal_strlit("code");
            reveal_strlit("(");
        }
        let a = strip_prefix_all(&chars, "code");
        let b = strip_prefix_all(&a, "(");
        let lang = strip_suffix_all(&b, ')');
        let language = if lang.len() == 0 {
            "text".to_owned()
        } else {
            from_chars(lang.as_slice())
        };
        return Ok(BlockType::CodeBlock { language });
    }
    let mut msg = "未知 block type: ".to_owned();
    crate::text::push_str(&mut msg, s);
    Err(msg)
}

// ─── Truncation ──────────────────────────────────────────────────

/// The first `max_chars` characters of `s` (all of it when shorter).
pub fn truncate(s: &str, max_chars: usize) -> (r: String)
    ensures
        r@ == (if s@.len() > max_chars {
            s@.take(max_chars as int)
        } else {
            s@
        }),
{
    let chars = to_chars(s);
    if chars.len() > max_chars {
        let t = crate::text::prefix_of(&chars, max_chars);
        from_chars(t.as_slice())
    } else {
        s.to_owned()
    }
}

/// Bytes the UTF-8 encoding of `c` takes.
pub open spec fn utf8_width(c: char) -> nat {
    if (c as u32) < 0x80 {
        1
    } else if (c as u32) < 0x800 {
        2
    } else if (c as u32) < 0x10000 {
        3
    } else {
        4
    }
}

/// Bytes the UTF-8 encoding of `s` takes.
pub open spec fn utf8_size(s: Seq<char>) -> nat
    decreases s.len(),
{
    if s.len() == 0 {
        0
    } else {
        utf8_size(s.drop_last()) + utf8_width(s.last())
    }
}

/// The longest prefix of `s` whose encoding fits in `max` bytes: its
/// number of characters.
pub open spec fn fitting_chars(s: Seq<char>, max: nat, k: int) -> int
    decreases s.len() - k,
{
    if 0 <= k < s.len() && utf8_size(s.take(k + 1)) <= max {
        fitting_chars(s, max, k + 1)
    } else {
        k
    }
}

fn char_width(c: char) -> (r: usize)
    ensures
        r == utf8_width(c),
{
    let u = c as u32;
    if u < 0x80 {
        1
    } else if u < 0x800 {
        2
    } else if u < 0x10000 {
        3
    } else {
        4
    }
}

proof fn lemma_utf8_size_mono(s: Seq<char>, k: int)
    requires
        0 <= k <= s.len(),
    ensures
        utf8_size(s.take(k)) <= utf8_size(s),
    decreases s.len() - k,
{
    if k < s.len() {
        lemma_utf8_size_mono(s, k + 1);
        assert(s.take(k + 1).drop_last() =~= s.take(k));
    } else {
        assert(s.take(k) =~= s);
    }
}

/// Shortens text longer than `max` bytes to the longest prefix of whole
/// characters within `max` bytes, followed by `...`.
pub fn truncate_str(s: &str, max: usize) -> (r: String)
    ensures
        r@ == (if utf8_size(s@) > max {
            s@.take(fitting_chars(s@, max as nat, 0)) + "..."@
        } else {
            s@
        }),
{
    let chars = to_chars(s);
    let mut size: usize = 0;
    let mut i: usize = 0;
    while i < chars.len() && char_width(chars[i]) <= max - size
        invariant
            i <= chars@.len(),
            chars@ == s@,
            size <= max,
            size as nat == utf8_size(chars@.take(i as int)),
            fitting_chars(chars@, max as nat, 0) == fitting_chars(chars@, max as nat, i as int),
        decreases chars.len() - i,
    {
        proof {
            assert(chars@.take(i + 1).drop_last() =~= chars@.take(i as int));
        }
        size = size + char_width(chars[i]);
        i += 1;
    }
    if i < chars.len() {
        proof {
            assert(chars@.take(i + 1).drop_last() =~= chars@.take(i as int));
            assert(fitting_chars(chars@, max as nat, i as int) == i as int);
            lemma_utf8_size_mono(chars@, i + 1);
        }
        let mut t = crate::text::prefix_of(&chars, i);
        let dots = to_chars("...");
        crate::text::append_chars(&mut t, &dots);
        from_chars(t.as_slice())
    } else {
        proof {
            assert(chars@.take(i as int) =~= chars@);
        }
        s.to_owned()
    }
}

} // verus!
