//! Character-level text utilities: conversions between `str` and `char`
//! sequences, whitespace, trimming, prefixes, line splitting and joining.

use vstd::prelude::*;
use vstd::std_specs::iter::IteratorSpec;

verus! {

/// `String::push`: appends one character.
#[verifier::external_body]
pub(crate) fn push_char(s: &mut String, c: char)
    ensures
        final(s)@ == old(s)@.push(c),
{
    s.push(c);
}

/// `String::push_str`: appends a string slice.
#[verifier::external_body]
pub(crate) fn push_str(s: &mut String, t: &str)
    ensures
        final(s)@ == old(s)@ + t@,
{
    s.push_str(t);
}

/// The characters of a string slice, in order.
pub fn to_chars(s: &str) -> (v: Vec<char>)
    ensures
        v@ == s@,
{
    let mut v: Vec<char> = Vec::new();
    for c in iter: s.chars()
        invariant
            v@ == iter.seq().take(iter.index() as int),
    {
        v.push(c);
    }
    proof {
        broadcast use vstd::string::axiom_spec_iter;
    }
    assert(v@ == s@);
    v
}

/// A string made of the given characters.
pub fn from_chars(v: &[char]) -> (s: String)
    ensures
        s@ == v@,
{
    let mut s = String::new();
    let mut i: usize = 0;
    while i < v.len()
        invariant
            i <= v.len(),
            s@ == v@.take(i as int),
        decreases v.len() - i,
    {
        push_char(&mut s, v[i]);
        i += 1;
        assert(v@.take(i as int) == v@.take(i - 1).push(v@[i - 1]));
    }
    assert(v@.take(v.len() as int) == v@);
    s
}

} // verus!

verus! {

/// The first `n` characters of `v`.
pub fn prefix_of(v: &Vec<char>, n: usize) -> (r: Vec<char>)
    requires
        n <= v.len(),
    ensures
        r@ == v@.take(n as int),
{
    let mut r: Vec<char> = Vec::new();
    let mut i: usize = 0;
    while i < n
        invariant
            i <= n <= v.len(),
            r@ == v@.take(i as int),
        decreases n - i,
    {
        r.push(v[i]);
        i += 1;
        assert(r@ =~= v@.take(i as int));
    }
    r
}

/// The first `n` bytes of `v`.
pub fn prefix_bytes(v: &Vec<u8>, n: usize) -> (r: Vec<u8>)
    requires
        n <= v.len(),
    ensures
        r@ == v@.take(n as int),
{
    let mut r: Vec<u8> = Vec::new();
    let mut i: usize = 0;
    while i < n
        invariant
            i <= n <= v.len(),
            r@ == v@.take(i as int),
        decreases n - i,
    {
        r.push(v[i]);
        i += 1;
        assert(r@ =~= v@.take(i as int));
    }
    r
}

/// The characters of `v` from index `n` on.
pub fn suffix_of(v: &Vec<char>, n: usize) -> (r: Vec<char>)
    requires
        n <= v.len(),
    ensures
        r@ == v@.skip(n as int),
{
    let mut r: Vec<char> = Vec::new();
    let mut i: usize = n;
    while i < v.len()
        invariant
            n <= i <= v.len(),
            r@ == v@.subrange(n as int, i as int),
        decreases v.len() - i,
    {
        r.push(v[i]);
        i += 1;
        assert(r@ =~= v@.subrange(n as int, i as int));
    }
    assert(v@.subrange(n as int, v.len() as int) =~= v@.skip(n as int));
    r
}

/// Appends all characters of `b` to `a`.
pub fn append_chars(a: &mut Vec<char>, b: &Vec<char>)
    ensures
        final(a)@ == old(a)@ + b@,
{
    let ghost a0 = a@;
    let mut i: usize = 0;
    while i < b.len()
        invariant
            i <= b.len(),
            a@ == a0 + b@.take(i as int),
        decreases b.len() - i,
    {
        a.push(b[i]);
        i += 1;
        assert(a@ =~= a0 + b@.take(i as int));
    }
    assert(b@.take(b.len() as int) =~= b@);
}

} // verus!

verus! {

// ─── Whitespace and trimming ─────────────────────────────────────

/// Unicode `White_Space`, the property `char::is_whitespace` tests.
pub open spec fn is_ws(c: char) -> bool {
    let u = c as u32;
    (9 <= u <= 13) || u == 32 || u == 0x85 || u == 0xA0 || u == 0x1680 || (0x2000 <= u <= 0x200A)
        || u == 0x2028 || u == 0x2029 || u == 0x202F || u == 0x205F || u == 0x3000
}

/// Decides `is_ws`.
pub fn is_whitespace(c: char) -> (r: bool)
    ensures
        r == is_ws(c),
{
    let u = c as u32;
    (9 <= u && u <= 13) || u == 32 || u == 0x85 || u == 0xA0 || u == 0x1680 || (0x2000 <= u && u
        <= 0x200A) || u == 0x2028 || u == 0x2029 || u == 0x202F || u == 0x205F || u == 0x3000
}

/// First index at or after `i` that holds no whitespace (or the length).
pub open spec fn skip_ws_from(s: Seq<char>, i: int) -> int
    decreases s.len() - i,
{
    if 0 <= i < s.len() && is_ws(s[i]) {
        skip_ws_from(s, i + 1)
    } else {
        i
    }
}

/// End of `s.take(n)` once trailing whitespace is dropped.
pub open spec fn trim_ws_end(s: Seq<char>, n: int) -> int
    decreases n,
{
    if 0 < n <= s.len() && is_ws(s[n - 1]) {
        trim_ws_end(s, n - 1)
    } else {
        n
    }
}

/// `str::trim_start`.
pub open spec fn trim_start_spec(s: Seq<char>) -> Seq<char> {
    s.skip(skip_ws_from(s, 0))
}

/// `str::trim_end`.
pub open spec fn trim_end_spec(s: Seq<char>) -> Seq<char> {
    s.take(trim_ws_end(s, s.len() as int))
}

/// `str::trim`.
pub open spec fn trim_spec(s: Seq<char>) -> Seq<char> {
    trim_end_spec(trim_start_spec(s))
}

pub proof fn lemma_skip_ws_from(s: Seq<char>, i: int)
    requires
        0 <= i <= s.len(),
    ensures
        i <= skip_ws_from(s, i) <= s.len(),
        forall|j: int| i <= j < skip_ws_from(s, i) ==> is_ws(#[trigger] s[j]),
        skip_ws_from(s, i) < s.len() ==> !is_ws(s[skip_ws_from(s, i)]),
    decreases s.len() - i,
{
    if i < s.len() && is_ws(s[i]) {
        lemma_skip_ws_from(s, i + 1);
    }
}

pub proof fn lemma_trim_ws_end(s: Seq<char>, n: int)
    requires
        0 <= n <= s.len(),
    ensures
        0 <= trim_ws_end(s, n) <= n,
        forall|j: int| trim_ws_end(s, n) <= j < n ==> is_ws(#[trigger] s[j]),
        trim_ws_end(s, n) > 0 ==> !is_ws(s[trim_ws_end(s, n) - 1]),
    decreases n,
{
    if n > 0 && is_ws(s[n - 1]) {
        lemma_trim_ws_end(s, n - 1);
    }
}

/// Index of the first character of `s` that is not whitespace.
pub fn first_non_ws(s: &[char]) -> (r: usize)
    ensures
        r as int == skip_ws_from(s@, 0),
{
    let mut i: usize = 0;
    while i < s.len() && is_whitespace(s[i])
        invariant
            i <= s.len(),
            skip_ws_from(s@, 0) == skip_ws_from(s@, i as int),
        decreases s.len() - i,
    {
        i += 1;
    }
    i
}

/// End index of `s` once trailing whitespace is dropped.
pub fn end_non_ws(s: &[char]) -> (r: usize)
    ensures
        r as int == trim_ws_end(s@, s@.len() as int),
{
    let mut n: usize = s.len();
    while n > 0 && is_whitespace(s[n - 1])
        invariant
            n <= s.len(),
            trim_ws_end(s@, s@.len() as int) == trim_ws_end(s@, n as int),
        decreases n,
    {
        n -= 1;
    }
    n
}

/// `str::trim_start` on characters.
pub fn trim_start_chars(s: &Vec<char>) -> (r: Vec<char>)
    ensures
        r@ == trim_start_spec(s@),
{
    let i = first_non_ws(s.as_slice());
    proof {
        lemma_skip_ws_from(s@, 0);
    }
    suffix_of(s, i)
}

/// `str::trim_end` on characters.
pub fn trim_end_chars(s: &Vec<char>) -> (r: Vec<char>)
    ensures
        r@ == trim_end_spec(s@),
{
    let n = end_non_ws(s.as_slice());
    proof {
        lemma_trim_ws_end(s@, s@.len() as int);
    }
    prefix_of(s, n)
}

/// `str::trim` on characters.
pub fn trim_chars(s: &Vec<char>) -> (r: Vec<char>)
    ensures
        r@ == trim_spec(s@),
{
    let t = trim_start_chars(s);
    trim_end_chars(&t)
}

/// Whether `s` holds whitespace only (its trim is empty).
pub fn is_blank(s: &Vec<char>) -> (r: bool)
    ensures
        r == (trim_spec(s@).len() == 0),
{
    let t = trim_chars(s);
    t.len() == 0
}

/// `s` begins with `p`.
pub open spec fn starts_with_spec(s: Seq<char>, p: Seq<char>) -> bool {
    p.len() <= s.len() && s.take(p.len() as int) == p
}

/// Decides `starts_with_spec`.
pub fn starts_with(s: &[char], p: &[char]) -> (r: bool)
    ensures
        r == starts_with_spec(s@, p@),
{
    if p.len() > s.len() {
        return false;
    }
    let mut i: usize = 0;
    while i < p.len()
        invariant
            i <= p.len() <= s.len(),
            forall|j: int| 0 <= j < i ==> s@[j] == p@[j],
        decreases p.len() - i,
    {
        if s[i] != p[i] {
            assert(s@.take(p.len() as int)[i as int] != p@[i as int]);
            return false;
        }
        i += 1;
    }
    assert(s@.take(p.len() as int) =~= p@);
    true
}

// ─── Lines ───────────────────────────────────────────────────────

/// Index of the first `\n` at or after `i` (or the length).
pub open spec fn next_nl(s: Seq<char>, i: int) -> int
    decreases s.len() - i,
{
    if 0 <= i < s.len() && s[i] != '\n' {
        next_nl(s, i + 1)
    } else {
        i
    }
}

pub proof fn lemma_next_nl(s: Seq<char>, i: int)
    requires
        0 <= i <= s.len(),
    ensures
        i <= next_nl(s, i) <= s.len(),
        forall|j: int| i <= j < next_nl(s, i) ==> #[trigger] s[j] != '\n',
        next_nl(s, i) < s.len() ==> s[next_nl(s, i)] == '\n',
    decreases s.len() - i,
{
    if i < s.len() && s[i] != '\n' {
        lemma_next_nl(s, i + 1);
    }
}

/// The pieces of `s.skip(i)` between `\n` separators (`str::split('\n')`):
/// a trailing separator yields a final empty piece.
pub open spec fn split_nl_from(s: Seq<char>, i: int) -> Seq<Seq<char>>
    decreases s.len() - i,
{
    if i < 0 || i > s.len() {
        seq![]
    } else {
        let k = next_nl(s, i);
        if k >= s.len() || k < i {
            seq![s.subrange(i, s.len() as int)]
        } else {
            seq![s.subrange(i, k)] + split_nl_from(s, k + 1)
        }
    }
}

/// `str::split('\n')`.
pub open spec fn split_nl(s: Seq<char>) -> Seq<Seq<char>> {
    split_nl_from(s, 0)
}

/// Splits characters at every `\n`, keeping empty pieces.
pub fn split_lines(s: &Vec<char>) -> (r: Vec<Vec<char>>)
    ensures
        r@.map_values(|l: Vec<char>| l@) == split_nl(s@),
{
    let mut r: Vec<Vec<char>> = Vec::new();
    let mut start: usize = 0;
    let mut cur: Vec<char> = Vec::new();
    let mut i: usize = 0;
    while i < s.len()
        invariant
            start <= i <= s.len(),
            cur@ == s@.subrange(start as int, i as int),
            forall|j: int| start <= j < i ==> #[trigger] s@[j] != '\n',
            r@.map_values(|l: Vec<char>| l@) + split_nl_from(s@, start as int) == split_nl(s@),
        decreases s.len() - i,
    {
        if s[i] == '\n' {
            proof {
                lemma_next_nl(s@, start as int);
                assert(next_nl(s@, start as int) == i) by {
                    if next_nl(s@, start as int) < i {
                        assert(s@[next_nl(s@, start as int)] == '\n');
                    }
                }
                assert(split_nl_from(s@, start as int) == seq![s@.subrange(start as int, i as int)]
                    + split_nl_from(s@, i + 1));
            }
            let ghost old_r = r@.map_values(|l: Vec<char>| l@);
            r.push(cur);
            assert(r@.map_values(|l: Vec<char>| l@) =~= old_r.push(s@.subrange(start as int, i as int)));
            assert(r@.map_values(|l: Vec<char>| l@) + split_nl_from(s@, i + 1) =~= old_r + (seq![
                s@.subrange(start as int, i as int),
            ] + split_nl_from(s@, i + 1)));
            cur = Vec::new();
            start = i + 1;
        } else {
            cur.push(s[i]);
        }
        i += 1;
        assert(cur@ =~= s@.subrange(start as int, i as int));
    }
    proof {
        lemma_next_nl(s@, start as int);
        assert(next_nl(s@, start as int) == s@.len()) by {
            if next_nl(s@, start as int) < s@.len() {
                assert(s@[next_nl(s@, start as int)] == '\n');
            }
        }
        assert(split_nl_from(s@, start as int) == seq![s@.subrange(start as int, s@.len() as int)]);
    }
    let ghost old_r = r@.map_values(|l: Vec<char>| l@);
    r.push(cur);
    assert(r@.map_values(|l: Vec<char>| l@) =~= old_r.push(s@.subrange(start as int, s@.len() as int)));
    r
}

/// Pieces joined with `\n` between consecutive ones.
pub open spec fn join_nl(lines: Seq<Seq<char>>) -> Seq<char>
    decreases lines.len(),
{
    if lines.len() == 0 {
        seq![]
    } else if lines.len() == 1 {
        lines[0]
    } else {
        join_nl(lines.drop_last()) + seq!['\n'] + lines.last()
    }
}

/// Joins character lines with `\n`.
pub fn join_lines(lines: &Vec<Vec<char>>) -> (r: Vec<char>)
    ensures
        r@ == join_nl(lines@.map_values(|l: Vec<char>| l@)),
{
    let ghost ls = lines@.map_values(|l: Vec<char>| l@);
    let mut r: Vec<char> = Vec::new();
    let mut i: usize = 0;
    while i < lines.len()
        invariant
            i <= lines.len(),
            ls == lines@.map_values(|l: Vec<char>| l@),
            r@ == join_nl(ls.take(i as int)),
        decreases lines.len() - i,
    {
        if i > 0 {
            r.push('\n');
        }
        append_chars(&mut r, &lines[i]);
        proof {
            let t = ls.take(i + 1);
            assert(t.drop_last() =~= ls.take(i as int));
            assert(t.last() == lines@[i as int]@);
            if i == 0 {
                assert(t.len() == 1);
            }
        }
        i += 1;
    }
    assert(ls.take(lines.len() as int) =~= ls);
    r
}

// ─── Decimal numbers ─────────────────────────────────────────────

/// Decimal digits of `n` (no sign, no leading zeros; `0` for zero).
pub open spec fn decimal(n: nat) -> Seq<char>
    decreases n,
{
    if n < 10 {
        seq![((n + 48) as u8) as char]
    } else {
        decimal(n / 10) + seq![(((n % 10) + 48) as u8) as char]
    }
}

/// Formats `n` in decimal.
pub fn decimal_chars(n: usize) -> (r: Vec<char>)
    ensures
        r@ == decimal(n as nat),
    decreases n,
{
    if n < 10 {
        let mut r: Vec<char> = Vec::new();
        r.push(((n + 48) as u8) as char);
        r
    } else {
        let mut r = decimal_chars(n / 10);
        r.push((((n % 10) + 48) as u8) as char);
        r
    }
}

/// Formats a 64-bit `n` in decimal.
pub fn decimal_chars_u64(n: u64) -> (r: Vec<char>)
    ensures
        r@ == decimal(n as nat),
    decreases n,
{
    if n < 10 {
        let mut r: Vec<char> = Vec::new();
        r.push(((n + 48) as u8) as char);
        r
    } else {
        let mut r = decimal_chars_u64(n / 10);
        r.push((((n % 10) + 48) as u8) as char);
        r
    }
}

} // verus!

verus! {

// ─── UTF-8 ───────────────────────────────────────────────────────

/// `String::into_bytes`: the UTF-8 encoding of the string.
#[verifier::external_body]
pub(crate) fn string_into_bytes(s: String) -> (v: Vec<u8>)
    ensures
        v@ == vstd::utf8::encode_utf8(s@),
{
    s.into_bytes()
}

/// What `String::from_utf8_lossy` decodes from `bytes` (invalid sequences
/// become U+FFFD).
pub uninterp spec fn utf8_lossy(bytes: Seq<u8>) -> Seq<char>;

/// `String::from_utf8_lossy`, as an owned string. On valid UTF-8 the result is
/// the decoded text, as std documents.
#[verifier::external_body]
pub(crate) fn from_utf8_lossy(bytes: &[u8]) -> (s: String)
    ensures
        s@ == utf8_lossy(bytes@),
        vstd::utf8::valid_utf8(bytes@) ==> s@ == vstd::utf8::decode_utf8(bytes@),
{
    String::from_utf8_lossy(bytes).into_owned()
}

/// The text of `bytes`, decoded lossily, as characters.
pub fn lossy_chars(bytes: &[u8]) -> (r: Vec<char>)
    ensures
        r@ == utf8_lossy(bytes@),
{
    let s = from_utf8_lossy(bytes);
    to_chars(s.as_str())
}

/// UTF-8 bytes of the given characters.
pub fn chars_to_bytes(v: &[char]) -> (r: Vec<u8>)
    ensures
        r@ == vstd::utf8::encode_utf8(v@),
{
    string_into_bytes(from_chars(v))
}

/// Decoding what `chars_to_bytes` encoded gives the characters back.
pub proof fn lemma_lossy_of_encoded(v: Seq<char>)
    ensures
        vstd::utf8::valid_utf8(vstd::utf8::encode_utf8(v)),
        vstd::utf8::decode_utf8(vstd::utf8::encode_utf8(v)) == v,
{
    vstd::utf8::encode_utf8_valid_utf8(v);
    vstd::utf8::encode_utf8_decode_utf8(v);
}


/// String slices with the same characters.
pub fn str_eq(a: &str, b: &str) -> (r: bool)
    ensures
        r == (a@ == b@),
{
    let x = to_chars(a);
    let y = to_chars(b);
    if x.len() != y.len() {
        return false;
    }
    let mut i: usize = 0;
    while i < x.len()
        invariant
            i <= x.len(),
            x.len() == y.len(),
            x@ == a@,
            y@ == b@,
            forall|k: int| 0 <= k < i ==> x@[k] == y@[k],
        decreases x.len() - i,
    {
        if x[i] != y[i] {
            return false;
        }
        i += 1;
    }
    assert(x@ =~= y@);
    true
}

} // verus!
