//! Fractional-index positions over a base-62 alphabet.
//!
//! Every block carries a `position` string; siblings are ordered by comparing
//! these strings character by character. New positions are generated after,
//! before or between existing ones, so no sibling ever needs renumbering.

use vstd::prelude::*;
use crate::error::AppError;
use crate::text::{to_chars, from_chars};

verus! {

// ─── Alphabet ────────────────────────────────────────────────────

/// Index of `c` in the base-62 alphabet `0-9A-Za-z`, if it belongs to it.
pub open spec fn idx_of(c: char) -> Option<int> {
    let u = c as u32;
    if 48 <= u <= 57 {
        Some(u - 48)
    } else if 65 <= u <= 90 {
        Some(u - 55)
    } else if 97 <= u <= 122 {
        Some(u - 61)
    } else {
        None
    }
}

/// Character at index `i` (0..62) of the alphabet.
pub open spec fn alpha(i: int) -> char {
    if i < 10 {
        (i + 48) as char
    } else if i < 36 {
        (i + 55) as char
    } else {
        (i + 61) as char
    }
}

/// The index of `c` in the alphabet, or 0 for a character outside it.
pub open spec fn idx_or_zero(c: char) -> int {
    match idx_of(c) {
        Some(k) => k,
        None => 0,
    }
}

/// Every character of `s` belongs to the alphabet.
pub open spec fn valid_pos(s: Seq<char>) -> bool {
    forall|i: int| 0 <= i < s.len() ==> (#[trigger] idx_of(s[i])) is Some
}

/// Code-point order on characters (the order of `char` and of `str` bytes).
pub open spec fn char_lt(a: char, b: char) -> bool {
    (a as u32) < (b as u32)
}

/// Lexicographic order on character sequences: `a` is a proper prefix of `b`,
/// or they first differ at an index where `a` has the smaller character.
pub open spec fn lex_lt(a: Seq<char>, b: Seq<char>) -> bool {
    exists|i: int|
        #![trigger a.take(i), b.take(i)]
        0 <= i <= a.len() && i <= b.len() && a.take(i) == b.take(i) && ((i == a.len() && i
            < b.len()) || (i < a.len() && i < b.len() && char_lt(a[i], b[i])))
}

pub proof fn lemma_alpha_char(i: int)
    requires
        0 <= i < 62,
    ensures
        idx_of(alpha(i)) == Some(i),
        (alpha(i) as u32) == (if i < 10 { i + 48 } else if i < 36 { i + 55 } else { i + 61 }),
{
}

pub proof fn lemma_idx_alpha(c: char)
    requires
        idx_of(c) is Some,
    ensures
        alpha(idx_of(c)->0) == c,
        0 <= idx_of(c)->0 < 62,
{
    let u = c as u32;
    assert(c == (u as char)) by {
        vstd::utf8::char_u32_cast(c, u);
    }
}

pub proof fn lemma_alpha_monotone(x: int, y: int)
    requires
        0 <= x < y < 62,
    ensures
        char_lt(alpha(x), alpha(y)),
{
    lemma_alpha_char(x);
    lemma_alpha_char(y);
}

fn char_index(c: char) -> (r: Option<usize>)
    ensures
        r matches Some(k) ==> idx_of(c) == Some(k as int) && k < 62,
        r is None ==> idx_of(c) is None,
{
    let u = c as u32;
    if 48 <= u && u <= 57 {
        Some((u - 48) as usize)
    } else if 65 <= u && u <= 90 {
        Some((u - 55) as usize)
    } else if 97 <= u && u <= 122 {
        Some((u - 61) as usize)
    } else {
        None
    }
}

fn char_at(i: usize) -> (c: char)
    requires
        i < 62,
    ensures
        c == alpha(i as int),
        idx_of(c) == Some(i as int),
{
    proof {
        lemma_alpha_char(i as int);
    }
    if i < 10 {
        ((i + 48) as u8) as char
    } else if i < 36 {
        ((i + 55) as u8) as char
    } else {
        ((i + 61) as u8) as char
    }
}


/// `lex_lt` decided at the first index where `a` and `b` differ (or at the
/// end of the shorter one).
pub proof fn lemma_lex_at(a: Seq<char>, b: Seq<char>, i: int)
    requires
        0 <= i <= a.len(),
        i <= b.len(),
        a.take(i) == b.take(i),
        i == a.len() || i == b.len() || a[i] != b[i],
    ensures
        lex_lt(a, b) == ((i < a.len() && i < b.len() && char_lt(a[i], b[i])) || (i == a.len()
            && i < b.len())),
{
    if (i < a.len() && i < b.len() && char_lt(a[i], b[i])) || (i == a.len() && i < b.len()) {
        assert(a.take(i) == b.take(i));
    }
    if lex_lt(a, b) {
        let j = choose|j: int|
            #![trigger a.take(j), b.take(j)]
            0 <= j <= a.len() && j <= b.len() && a.take(j) == b.take(j) && ((j == a.len() && j
                < b.len()) || (j < a.len() && j < b.len() && char_lt(a[j], b[j])));
        if j > i {
            assert(a.take(j)[i] == b.take(j)[i]);
            assert(a[i] == b[i]);
            assert(false);
        } else if j < i {
            assert(0 <= j < i);
            assert(a.take(i)[j] == a[j]);
            assert(b.take(i)[j] == b[j]);
            assert(a.take(i)[j] == b.take(i)[j]);
            assert(a[j] == b[j]);
            assert(!char_lt(a[j], b[j]));
        } else {
            assert(j == i);
        }
    }
}

/// `lex_lt` is a strict total order: of two different sequences exactly one
/// is below the other, and none is below itself.
pub proof fn lemma_lex_lt_total(a: Seq<char>, b: Seq<char>)
    ensures
        !lex_lt(a, a),
        !(lex_lt(a, b) && lex_lt(b, a)),
        a != b ==> lex_lt(a, b) || lex_lt(b, a),
{
    assert(a.take(0) =~= b.take(0));
    lemma_first_diff(a, b, 0);
    let i = first_diff_from(a, b, 0);
    lemma_lex_at(a, b, i);
    lemma_lex_at(b, a, i);
    assert(a.take(0) =~= a.take(0));
    lemma_first_diff(a, a, 0);
    lemma_lex_at(a, a, first_diff_from(a, a, 0));
    if i == a.len() && i == b.len() {
        assert(a =~= a.take(i));
        assert(b =~= b.take(i));
    }
    if i < a.len() && i < b.len() {
        let x = a[i];
        let y = b[i];
        vstd::utf8::char_u32_cast(x, x as u32);
        vstd::utf8::char_u32_cast(y, y as u32);
        assert((x as u32) != (y as u32));
    }
}

/// `lex_lt` is transitive.
pub proof fn lemma_lex_lt_transitive(a: Seq<char>, b: Seq<char>, c: Seq<char>)
    requires
        lex_lt(a, b),
        lex_lt(b, c),
    ensures
        lex_lt(a, c),
{
    let i = choose|i: int|
        #![trigger a.take(i), b.take(i)]
        0 <= i <= a.len() && i <= b.len() && a.take(i) == b.take(i) && ((i == a.len() && i < b.len()) || (i
            < a.len() && i < b.len() && char_lt(a[i], b[i])));
    let j = choose|j: int|
        #![trigger b.take(j), c.take(j)]
        0 <= j <= b.len() && j <= c.len() && b.take(j) == c.take(j) && ((j == b.len() && j < c.len()) || (j
            < b.len() && j < c.len() && char_lt(b[j], c[j])));
    let m = if i < j { i } else { j };
    assert(a.take(m) =~= c.take(m)) by {
        assert forall|k: int| 0 <= k < m implies a[k] == c[k] by {
            assert(a.take(i)[k] == b.take(i)[k]);
            assert(b.take(j)[k] == c.take(j)[k]);
        }
    }
    if i < j {
        assert(b.take(j)[i] == c.take(j)[i]);
        if i < a.len() {
            assert(a[i] != c[i]);
        }
        lemma_lex_at(a, c, i);
    } else if j < i {
        assert(a.take(i)[j] == b.take(i)[j]);
        assert(a[j] != c[j]);
        lemma_lex_at(a, c, j);
    } else {
        if i < a.len() {
            assert(a[i] != c[i]);
        }
        lemma_lex_at(a, c, i);
    }
}

/// Decides `lex_lt` on character slices.
pub fn lex_less(a: &[char], b: &[char]) -> (r: bool)
    ensures
        r == lex_lt(a@, b@),
{
    let m = if a.len() < b.len() { a.len() } else { b.len() };
    let mut i: usize = 0;
    while i < m && a[i] == b[i]
        invariant
            i <= m,
            m <= a.len(),
            m <= b.len(),
            m == a.len() || m == b.len(),
            a@.take(i as int) == b@.take(i as int),
        decreases m - i,
    {
        assert(a@.take(i + 1) =~= a@.take(i as int).push(a@[i as int]));
        assert(b@.take(i + 1) =~= b@.take(i as int).push(b@[i as int]));
        i += 1;
    }
    proof {
        lemma_lex_at(a@, b@, i as int);
    }
    if i < m {
        (a[i] as u32) < (b[i] as u32)
    } else {
        a.len() < b.len()
    }
}

/// The character can be raised by one step inside the alphabet.
pub open spec fn can_incr(c: char) -> bool {
    idx_of(c) matches Some(k) && k < 61
}

/// The character can be lowered by one step inside the alphabet.
pub open spec fn can_decr(c: char) -> bool {
    idx_of(c) matches Some(k) && k > 0
}

/// Largest index below `n` whose character can be raised, or -1.
pub open spec fn last_incr(s: Seq<char>, n: int) -> int
    decreases n,
{
    if n <= 0 {
        -1
    } else if can_incr(s[n - 1]) {
        n - 1
    } else {
        last_incr(s, n - 1)
    }
}

/// Largest index below `n` whose character can be lowered, or -1.
pub open spec fn last_decr(s: Seq<char>, n: int) -> int
    decreases n,
{
    if n <= 0 {
        -1
    } else if can_decr(s[n - 1]) {
        n - 1
    } else {
        last_decr(s, n - 1)
    }
}

pub proof fn lemma_last_incr_range(s: Seq<char>, n: int)
    requires
        n <= s.len(),
    ensures
        -1 <= last_incr(s, n) < n || (n <= 0 && last_incr(s, n) == -1),
        last_incr(s, n) >= 0 ==> can_incr(s[last_incr(s, n)]),
        forall|j: int| last_incr(s, n) < j < n ==> !can_incr(#[trigger] s[j]),
    decreases n,
{
    if n > 0 && !can_incr(s[n - 1]) {
        lemma_last_incr_range(s, n - 1);
    }
}

pub proof fn lemma_last_decr_range(s: Seq<char>, n: int)
    requires
        n <= s.len(),
    ensures
        -1 <= last_decr(s, n) < n || (n <= 0 && last_decr(s, n) == -1),
        last_decr(s, n) >= 0 ==> can_decr(s[last_decr(s, n)]),
        forall|j: int| last_decr(s, n) < j < n ==> !can_decr(#[trigger] s[j]),
    decreases n,
{
    if n > 0 && !can_decr(s[n - 1]) {
        lemma_last_decr_range(s, n - 1);
    }
}

/// The position right after `s`: raise the last raisable character and drop
/// what follows it; if none can be raised, append the middle character `U`.
pub open spec fn after_spec(s: Seq<char>) -> Seq<char> {
    let j = last_incr(s, s.len() as int);
    if j >= 0 {
        s.take(j).push(alpha(idx_of(s[j])->0 + 1))
    } else {
        s.push('U')
    }
}

/// The position right before `s`: lower the last lowerable character and
/// fill what follows it with `z`; if none can be lowered, prepend `0`.
pub open spec fn before_spec(s: Seq<char>) -> Seq<char> {
    let j = last_decr(s, s.len() as int);
    if j >= 0 {
        s.take(j).push(alpha(idx_of(s[j])->0 - 1)) + Seq::new((s.len() - j - 1) as nat, |k: int| 'z')
    } else {
        seq!['0'] + s
    }
}

/// Generates the first position, `a0`.
pub fn generate_first() -> (r: String)
    ensures
        r@ == seq!['a', '0'],
{
    let mut r = String::new();
    crate::text::push_char(&mut r, 'a');
    crate::text::push_char(&mut r, '0');
    r
}

fn after_chars(chars: &Vec<char>) -> (r: Vec<char>)
    ensures
        r@ == after_spec(chars@),
{
    let ghost s = chars@;
    let mut i: usize = chars.len();
    while i > 0
        invariant
            i <= chars.len(),
            s == chars@,
            last_incr(s, s.len() as int) == last_incr(s, i as int),
        decreases i,
    {
        let c = chars[i - 1];
        match char_index(c) {
            Some(k) => {
                if k < 61 {
                    let mut result = crate::text::prefix_of(chars, i - 1);
                    result.push(char_at(k + 1));
                    return result;
                }
            },
            None => {},
        }
        i -= 1;
    }
    let mut result = chars.clone();
    result.push('U');
    assert(result@ == s.push('U'));
    result
}

fn before_chars(chars: &Vec<char>) -> (r: Vec<char>)
    ensures
        r@ == before_spec(chars@),
{
    let ghost s = chars@;
    let mut i: usize = chars.len();
    while i > 0
        invariant
            i <= chars.len(),
            s == chars@,
            last_decr(s, s.len() as int) == last_decr(s, i as int),
        decreases i,
    {
        let c = chars[i - 1];
        match char_index(c) {
            Some(k) => {
                if k > 0 {
                    let mut result = crate::text::prefix_of(chars, i - 1);
                    result.push(char_at(k - 1));
                    let ghost base = result@;
                    let mut j: usize = i;
                    while j < chars.len()
                        invariant
                            i <= j <= chars.len(),
                            result@ == base + Seq::new((j - i) as nat, |t: int| 'z'),
                        decreases chars.len() - j,
                    {
                        result.push('z');
                        j += 1;
                        assert(result@ =~= base + Seq::new((j - i) as nat, |t: int| 'z'));
                    }
                    return result;
                }
            },
            None => {},
        }
        i -= 1;
    }
    let mut result: Vec<char> = Vec::new();
    result.push('0');
    crate::text::append_chars(&mut result, chars);
    assert(result@ =~= seq!['0'] + s);
    result
}

/// Generates the position right after `after` (see `after_spec`).
pub fn generate_after(after: &str) -> (r: String)
    ensures
        r@ == after_spec(after@),
{
    let chars = to_chars(after);
    let r = after_chars(&chars);
    from_chars(r.as_slice())
}

/// Generates the position right before `before` (see `before_spec`).
pub fn generate_before(before: &str) -> (r: String)
    ensures
        r@ == before_spec(before@),
{
    let chars = to_chars(before);
    let r = before_chars(&chars);
    from_chars(r.as_slice())
}


/// First index from `i` on where `a` and `b` differ, or where one of them ends.
pub open spec fn first_diff_from(a: Seq<char>, b: Seq<char>, i: int) -> int
    decreases a.len() - i,
{
    if i < 0 || i >= a.len() || i >= b.len() || a[i] != b[i] {
        i
    } else {
        first_diff_from(a, b, i + 1)
    }
}

pub open spec fn min_len(a: Seq<char>, b: Seq<char>) -> int {
    if a.len() < b.len() {
        a.len() as int
    } else {
        b.len() as int
    }
}

/// `c` lies strictly between `a` and `b`.
pub open spec fn strictly_between(a: Seq<char>, c: Seq<char>, b: Seq<char>) -> bool {
    lex_lt(a, c) && lex_lt(c, b)
}

/// Last resort of `between_spec` when `a` is shorter than `b`: extend `a`
/// with the position before the rest of `b`, else with `U`.
pub open spec fn between_tail(a: Seq<char>, b: Seq<char>) -> Option<Seq<char>> {
    if a.len() < b.len() {
        let c3 = a + before_spec(b.skip(a.len() as int));
        if strictly_between(a, c3, b) {
            Some(c3)
        } else if strictly_between(a, a.push('U'), b) {
            Some(a.push('U'))
        } else {
            None
        }
    } else {
        None
    }
}

/// The position `generate_between(a, b)` produces, or `None` where it fails.
///
/// At the first differing index `i`: if the alphabet leaves room between the
/// two characters, take their midpoint; otherwise keep `a[..=i]` and extend it
/// (with `U`, or with the position after the rest of `a`), then try `a + U`,
/// and finally `between_tail`. Every candidate but the midpoint is checked to
/// lie strictly between `a` and `b`.
pub open spec fn between_spec(a: Seq<char>, b: Seq<char>) -> Option<Seq<char>> {
    if !lex_lt(a, b) {
        None
    } else {
        let i = first_diff_from(a, b, 0);
        if i < min_len(a, b) {
            let ai = idx_or_zero(a[i]);
            let bi = idx_or_zero(b[i]);
            if bi - ai > 1 {
                Some(a.take(i).push(alpha((ai + bi) / 2)))
            } else {
                let suffix = a.skip(i + 1);
                let c1 = if suffix.len() == 0 {
                    a.take(i + 1).push('U')
                } else {
                    a.take(i + 1) + after_spec(suffix)
                };
                if strictly_between(a, c1, b) {
                    Some(c1)
                } else if strictly_between(a, a.push('U'), b) {
                    Some(a.push('U'))
                } else {
                    between_tail(a, b)
                }
            }
        } else {
            between_tail(a, b)
        }
    }
}

/// Inputs on which `generate_between` would subtract past zero: at the first
/// difference, `b` holds a character outside the alphabet while `a` holds one
/// with a positive index.
pub open spec fn between_underflows(a: Seq<char>, b: Seq<char>) -> bool {
    let i = first_diff_from(a, b, 0);
    lex_lt(a, b) && i < min_len(a, b) && idx_or_zero(b[i]) < idx_or_zero(a[i])
}

pub proof fn lemma_first_diff(a: Seq<char>, b: Seq<char>, i: int)
    requires
        0 <= i <= min_len(a, b),
        a.take(i) == b.take(i),
    ensures
        i <= first_diff_from(a, b, i) <= min_len(a, b),
        a.take(first_diff_from(a, b, i)) == b.take(first_diff_from(a, b, i)),
        first_diff_from(a, b, i) == min_len(a, b) || a[first_diff_from(a, b, i)] != b[first_diff_from(
            a,
            b,
            i,
        )],
    decreases a.len() - i,
{
    if i < a.len() && i < b.len() && a[i] == b[i] {
        assert(a.take(i + 1) =~= a.take(i).push(a[i]));
        assert(b.take(i + 1) =~= b.take(i).push(b[i]));
        lemma_first_diff(a, b, i + 1);
    }
}

fn strictly_between_exec(a: &Vec<char>, c: &Vec<char>, b: &Vec<char>) -> (r: bool)
    ensures
        r == strictly_between(a@, c@, b@),
{
    lex_less(a.as_slice(), c.as_slice()) && lex_less(c.as_slice(), b.as_slice())
}

fn between_tail_exec(a: &Vec<char>, b: &Vec<char>) -> (r: Option<Vec<char>>)
    ensures
        r matches Some(v) ==> between_tail(a@, b@) == Some(v@),
        r is None ==> between_tail(a@, b@) is None,
{
    if a.len() < b.len() {
        let rest = crate::text::suffix_of(b, a.len());
        let x = before_chars(&rest);
        let mut c3 = a.clone();
        crate::text::append_chars(&mut c3, &x);
        if strictly_between_exec(a, &c3, b) {
            return Some(c3);
        }
        let mut c4 = a.clone();
        c4.push('U');
        if strictly_between_exec(a, &c4, b) {
            return Some(c4);
        }
    }
    None
}

fn between_chars(a: &Vec<char>, b: &Vec<char>) -> (r: Option<Vec<char>>)
    requires
        !between_underflows(a@, b@),
    ensures
        r matches Some(v) ==> between_spec(a@, b@) == Some(v@),
        r is None ==> between_spec(a@, b@) is None,
{
    if !lex_less(a.as_slice(), b.as_slice()) {
        return None;
    }
    let m = if a.len() < b.len() { a.len() } else { b.len() };
    let mut i: usize = 0;
    assert(a@.take(0) =~= b@.take(0));
    while i < m && a[i] == b[i]
        invariant
            i <= m,
            m == min_len(a@, b@),
            first_diff_from(a@, b@, 0) == first_diff_from(a@, b@, i as int),
        decreases m - i,
    {
        i += 1;
    }
    if i < m {
        let a_idx = match char_index(a[i]) {
            Some(k) => k,
            None => 0,
        };
        let b_idx = match char_index(b[i]) {
            Some(k) => k,
            None => 0,
        };
        if b_idx - a_idx > 1 {
            let mid_idx = (a_idx + b_idx) / 2;
            let mut result = crate::text::prefix_of(a, i);
            result.push(char_at(mid_idx));
            return Some(result);
        }
        let prefix = crate::text::prefix_of(a, i + 1);
        let suffix = crate::text::suffix_of(a, i + 1);
        let mut c1 = prefix.clone();
        if suffix.len() == 0 {
            c1.push('U');
        } else {
            let new_suffix = after_chars(&suffix);
            crate::text::append_chars(&mut c1, &new_suffix);
        }
        if strictly_between_exec(a, &c1, b) {
            return Some(c1);
        }
        let mut c2 = a.clone();
        c2.push('U');
        if strictly_between_exec(a, &c2, b) {
            return Some(c2);
        }
    }
    between_tail_exec(a, b)
}

/// Generates a position strictly between `a` and `b` (see `between_spec`);
/// fails when `a` is not below `b` or no candidate fits.
pub fn generate_between(a: &str, b: &str) -> (r: Result<String, AppError>)
    requires
        !between_underflows(a@, b@),
    ensures
        r matches Ok(s) ==> between_spec(a@, b@) == Some(s@),
        r is Err ==> between_spec(a@, b@) is None && r->Err_0 is Internal,
{
    let ac = to_chars(a);
    let bc = to_chars(b);
    match between_chars(&ac, &bc) {
        Some(v) => Ok(from_chars(v.as_slice())),
        None => {
            let mut msg = String::new();
            crate::text::push_str(&mut msg, "无法在 ");
            crate::text::push_str(&mut msg, a);
            crate::text::push_str(&mut msg, " 和 ");
            crate::text::push_str(&mut msg, b);
            crate::text::push_str(&mut msg, " 之间生成 position");
            Err(AppError::Internal(msg))
        },
    }
}


// ─── Laws ────────────────────────────────────────────────────────

proof fn lemma_valid_take_push(s: Seq<char>, n: int, c: char)
    requires
        valid_pos(s),
        0 <= n <= s.len(),
        idx_of(c) is Some,
    ensures
        valid_pos(s.take(n).push(c)),
{
    assert forall|i: int| 0 <= i < s.take(n).push(c).len() implies (#[trigger] idx_of(
        s.take(n).push(c)[i],
    )) is Some by {
        if i < n {
            assert(s.take(n).push(c)[i] == s[i]);
        }
    }
}

proof fn lemma_valid_concat(a: Seq<char>, b: Seq<char>)
    requires
        valid_pos(a),
        valid_pos(b),
    ensures
        valid_pos(a + b),
{
    assert forall|i: int| 0 <= i < (a + b).len() implies (#[trigger] idx_of((a + b)[i])) is Some by {
        if i < a.len() {
            assert((a + b)[i] == a[i]);
        } else {
            assert((a + b)[i] == b[i - a.len()]);
        }
    }
}

/// A character of the alphabet compares below another exactly when its index
/// is smaller.
proof fn lemma_char_lt_idx(c: char, d: char)
    requires
        idx_of(c) is Some,
        idx_of(d) is Some,
    ensures
        char_lt(c, d) <==> idx_of(c)->0 < idx_of(d)->0,
{
    lemma_idx_alpha(c);
    lemma_idx_alpha(d);
    let x = idx_of(c)->0;
    let y = idx_of(d)->0;
    if x < y {
        lemma_alpha_monotone(x, y);
    } else if y < x {
        lemma_alpha_monotone(y, x);
    }
}

/// The position after `s` is greater than `s`, whatever `s` is.
pub proof fn law_after_is_greater(s: Seq<char>)
    ensures
        lex_lt(s, after_spec(s)),
{
    lemma_last_incr_range(s, s.len() as int);
    let j = last_incr(s, s.len() as int);
    let r = after_spec(s);
    if j >= 0 {
        let k = idx_of(s[j])->0;
        lemma_idx_alpha(s[j]);
        lemma_alpha_monotone(k, k + 1);
        assert(r.take(j) =~= s.take(j));
        assert(r[j] == alpha(k + 1));
        lemma_lex_at(s, r, j);
    } else {
        assert(r.take(s.len() as int) =~= s.take(s.len() as int));
        lemma_lex_at(s, r, s.len() as int);
    }
}

/// The position after a valid position is valid.
pub proof fn law_after_keeps_valid(s: Seq<char>)
    requires
        valid_pos(s),
    ensures
        valid_pos(after_spec(s)),
{
    lemma_last_incr_range(s, s.len() as int);
    let j = last_incr(s, s.len() as int);
    if j >= 0 {
        lemma_idx_alpha(s[j]);
        lemma_alpha_char(idx_of(s[j])->0 + 1);
        lemma_valid_take_push(s, j, alpha(idx_of(s[j])->0 + 1));
    } else {
        lemma_valid_take_push(s, s.len() as int, 'U');
        assert(s.take(s.len() as int) =~= s);
    }
}

/// The position before `s` is smaller than `s` whenever some character of `s`
/// lies in the alphabet above `0`.
pub proof fn law_before_is_smaller(s: Seq<char>)
    requires
        exists|i: int| 0 <= i < s.len() && #[trigger] can_decr(s[i]),
    ensures
        lex_lt(before_spec(s), s),
{
    lemma_last_decr_range(s, s.len() as int);
    let j = last_decr(s, s.len() as int);
    assert(j >= 0);
    let k = idx_of(s[j])->0;
    lemma_idx_alpha(s[j]);
    lemma_alpha_monotone(k - 1, k);
    let r = before_spec(s);
    assert(r.take(j) =~= s.take(j));
    assert(r[j] == alpha(k - 1));
    lemma_lex_at(r, s, j);
}

/// The position before a valid position is valid.
pub proof fn law_before_keeps_valid(s: Seq<char>)
    requires
        valid_pos(s),
    ensures
        valid_pos(before_spec(s)),
{
    lemma_last_decr_range(s, s.len() as int);
    let j = last_decr(s, s.len() as int);
    if j >= 0 {
        lemma_idx_alpha(s[j]);
        lemma_alpha_char(idx_of(s[j])->0 - 1);
        lemma_valid_take_push(s, j, alpha(idx_of(s[j])->0 - 1));
        let zs = Seq::new((s.len() - j - 1) as nat, |k: int| 'z');
        assert(valid_pos(zs)) by {
            assert forall|i: int| 0 <= i < zs.len() implies (#[trigger] idx_of(zs[i])) is Some by {
                assert(zs[i] == 'z');
            }
        }
        lemma_valid_concat(s.take(j).push(alpha(idx_of(s[j])->0 - 1)), zs);
    } else {
        let z = seq!['0'];
        assert(valid_pos(z)) by {
            assert forall|i: int| 0 <= i < z.len() implies (#[trigger] idx_of(z[i])) is Some by {
                assert(z[i] == '0');
            }
        }
        lemma_valid_concat(z, s);
    }
}

/// Two valid positions never make `generate_between` subtract past zero, so
/// its precondition holds on every pair of valid positions.
pub proof fn law_valid_positions_do_not_underflow(a: Seq<char>, b: Seq<char>)
    requires
        valid_pos(a),
        valid_pos(b),
    ensures
        !between_underflows(a, b),
{
    assert(a.take(0) =~= b.take(0));
    lemma_first_diff(a, b, 0);
    let i = first_diff_from(a, b, 0);
    if lex_lt(a, b) && i < min_len(a, b) {
        lemma_lex_at(a, b, i);
        assert(idx_of(a[i]) is Some);
        assert(idx_of(b[i]) is Some);
        lemma_char_lt_idx(a[i], b[i]);
    }
}

/// Between two valid positions, a generated position lies strictly between
/// them and is itself valid.
pub proof fn law_between_is_between(a: Seq<char>, b: Seq<char>)
    requires
        valid_pos(a),
        valid_pos(b),
        between_spec(a, b) is Some,
    ensures
        strictly_between(a, between_spec(a, b)->0, b),
        valid_pos(between_spec(a, b)->0),
{
    assert(a.take(0) =~= b.take(0));
    lemma_first_diff(a, b, 0);
    let i = first_diff_from(a, b, 0);
    let r = between_spec(a, b)->0;
    if a.len() < b.len() {
        assert(valid_pos(b.skip(a.len() as int))) by {
            assert forall|t: int| 0 <= t < b.skip(a.len() as int).len() implies (#[trigger] idx_of(
                b.skip(a.len() as int)[t],
            )) is Some by {
                assert(b.skip(a.len() as int)[t] == b[t + a.len()]);
            }
        }
        law_before_keeps_valid(b.skip(a.len() as int));
        lemma_valid_concat(a, before_spec(b.skip(a.len() as int)));
    }
    lemma_valid_take_push(a, a.len() as int, 'U');
    assert(a.take(a.len() as int) =~= a);
    if i < min_len(a, b) {
        lemma_lex_at(a, b, i);
        assert(idx_of(a[i]) is Some);
        assert(idx_of(b[i]) is Some);
        lemma_char_lt_idx(a[i], b[i]);
        let ai = idx_or_zero(a[i]);
        let bi = idx_or_zero(b[i]);
        if bi - ai > 1 {
            let mid = (ai + bi) / 2;
            lemma_idx_alpha(a[i]);
            lemma_idx_alpha(b[i]);
            lemma_alpha_monotone(ai, mid);
            lemma_alpha_monotone(mid, bi);
            lemma_alpha_char(mid);
            assert(r == a.take(i).push(alpha(mid)));
            assert(r.take(i) =~= a.take(i));
            lemma_lex_at(a, r, i);
            assert(r.take(i) =~= b.take(i));
            lemma_lex_at(r, b, i);
            lemma_valid_take_push(a, i, alpha(mid));
        } else {
            let suffix = a.skip(i + 1);
            assert(valid_pos(suffix)) by {
                assert forall|t: int| 0 <= t < suffix.len() implies (#[trigger] idx_of(
                    suffix[t],
                )) is Some by {
                    assert(suffix[t] == a[t + i + 1]);
                }
            }
            law_after_keeps_valid(suffix);
            lemma_valid_take_push(a, i + 1, 'U');
            assert(valid_pos(a.take(i + 1))) by {
                assert forall|t: int| 0 <= t < a.take(i + 1).len() implies (#[trigger] idx_of(
                    a.take(i + 1)[t],
                )) is Some by {
                    assert(a.take(i + 1)[t] == a[t]);
                }
            }
            lemma_valid_concat(a.take(i + 1), after_spec(suffix));
        }
    }
}


/// Position from the neighbours a new block goes between: both given → between
/// them (`after` must be below `before`); only `after` → after it; only
/// `before` → before it; neither → the first position.
pub fn calculate_position(_parent_id: &str, after: Option<&str>, before: Option<&str>) -> (r:
    Result<String, AppError>)
    requires
        after matches Some(a) && before matches Some(b) ==> !between_underflows(a@, b@),
    ensures
        match (after, before) {
            (Some(a), Some(b)) => if !lex_lt(a@, b@) {
                r matches Err(AppError::BadRequest(m)) && m@ == "after 位置必须在 before 位置之前"@
            } else {
                match r {
                    Ok(s) => between_spec(a@, b@) == Some(s@),
                    Err(e) => between_spec(a@, b@) is None && e is Internal,
                }
            },
            (Some(a), None) => r matches Ok(s) && s@ == after_spec(a@),
            (None, Some(b)) => r matches Ok(s) && s@ == before_spec(b@),
            (None, None) => r matches Ok(s) && s@ == seq!['a', '0'],
        },
{
    match (after, before) {
        (Some(ap), Some(bp)) => {
            let ac = to_chars(ap);
            let bc = to_chars(bp);
            if !lex_less(ac.as_slice(), bc.as_slice()) {
                proof {
                    reveal_strlit("after 位置必须在 before 位置之前");
                }
                return Err(AppError::BadRequest("after 位置必须在 before 位置之前".to_owned()));
            }
            generate_between(ap, bp)
        },
        (Some(ap), None) => Ok(generate_after(ap)),
        (None, Some(bp)) => Ok(generate_before(bp)),
        (None, None) => Ok(generate_first()),
    }
}

} // verus!

verus! {

/// `b` is `a` followed only by `0`s, the lowest character of the alphabet:
/// no position lies between such a pair.
pub open spec fn zero_extension(a: Seq<char>, b: Seq<char>) -> bool {
    &&& a.len() < b.len()
    &&& b.take(a.len() as int) == a
    &&& forall|k: int| a.len() <= k < b.len() ==> idx_of(#[trigger] b[k]) == Some(0int)
}

/// Extending two sequences by the same prefix keeps their order.
proof fn lemma_lex_prefix(p: Seq<char>, x: Seq<char>, y: Seq<char>)
    requires
        lex_lt(x, y),
    ensures
        lex_lt(p + x, p + y),
{
    let j = choose|j: int|
        #![trigger x.take(j), y.take(j)]
        0 <= j <= x.len() && j <= y.len() && x.take(j) == y.take(j) && ((j == x.len() && j < y.len()) || (j
            < x.len() && j < y.len() && char_lt(x[j], y[j])));
    let n = p.len() + j;
    assert((p + x).take(n) =~= p + x.take(j));
    assert((p + y).take(n) =~= p + y.take(j));
    if j < x.len() && j < y.len() {
        assert((p + x)[n] == x[j]);
        assert((p + y)[n] == y[j]);
    }
    lemma_lex_at(p + x, p + y, n);
}

/// Between two valid positions `a < b` a position is always generated,
/// unless `b` is `a` followed only by `0`s (then none exists, see
/// `law_nothing_between_zero_extension`); it lies strictly between them.
pub proof fn law_between_exists(a: Seq<char>, b: Seq<char>)
    requires
        valid_pos(a),
        valid_pos(b),
        lex_lt(a, b),
        !zero_extension(a, b),
    ensures
        between_spec(a, b) is Some,
        strictly_between(a, between_spec(a, b)->0, b),
{
    assert(a.take(0) =~= b.take(0));
    lemma_first_diff(a, b, 0);
    let i = first_diff_from(a, b, 0);
    lemma_lex_at(a, b, i);
    let u = a.push('U');
    assert(u.take(a.len() as int) =~= a.take(a.len() as int));
    lemma_lex_at(a, u, a.len() as int);
    if i < min_len(a, b) {
        assert(idx_of(a[i]) is Some);
        assert(idx_of(b[i]) is Some);
        lemma_char_lt_idx(a[i], b[i]);
        assert(u.take(i) =~= a.take(i));
        assert(u[i] == a[i]);
        lemma_lex_at(u, b, i);
        assert(strictly_between(a, u, b));
    } else {
        assert(i == a.len() && a.len() < b.len());
        assert(b.take(a.len() as int) =~= a.take(a.len() as int));
        assert(a.take(a.len() as int) =~= a);
        let r = b.skip(a.len() as int);
        assert(b =~= a + r);
        let k = choose|k: int| a.len() <= k < b.len() && idx_of(#[trigger] b[k]) != Some(0int);
        assert(r[k - a.len()] == b[k]);
        assert(idx_of(b[k]) is Some);
        assert(can_decr(r[k - a.len()]));
        law_before_is_smaller(r);
        lemma_last_decr_range(r, r.len() as int);
        let c3 = a + before_spec(r);
        assert(before_spec(r).len() >= 1);
        assert(c3.take(a.len() as int) =~= a.take(a.len() as int));
        lemma_lex_at(a, c3, a.len() as int);
        lemma_lex_prefix(a, before_spec(r), r);
        assert(strictly_between(a, c3, b));
    }
    law_between_is_between(a, b);
}

proof fn lemma_zero_char(c: char)
    requires
        idx_of(c) == Some(0int),
    ensures
        c == '0',
{
    lemma_idx_alpha(c);
    assert(alpha(0) == '0');
}

proof fn lemma_zero_tail(a: Seq<char>, b: Seq<char>)
    requires
        zero_extension(a, b),
    ensures
        forall|k: int| a.len() <= k < b.len() ==> #[trigger] b[k] == '0',
        b =~= a + b.skip(a.len() as int),
{
    assert forall|k: int| a.len() <= k < b.len() implies #[trigger] b[k] == '0' by {
        lemma_zero_char(b[k]);
    }
    assert(b.take(a.len() as int) == a);
}

#[verifier::rlimit(30)]
proof fn lemma_before_zeros_above(a: Seq<char>, b: Seq<char>)
    requires
        zero_extension(a, b),
    ensures
        lex_lt(b, a + before_spec(b.skip(a.len() as int))),
{
    lemma_zero_tail(a, b);
    let n = a.len() as int;
    let r = b.skip(n);
    lemma_last_decr_range(r, r.len() as int);
    assert(last_decr(r, r.len() as int) == -1) by {
        if last_decr(r, r.len() as int) >= 0 {
            let j = last_decr(r, r.len() as int);
            assert(r[j] == b[n + j]);
        }
    }
    let c3 = a + before_spec(r);
    assert(c3 =~= a + seq!['0'] + r);
    assert(c3.take(b.len() as int) =~= b.take(b.len() as int)) by {
        assert forall|t: int| 0 <= t < b.len() implies c3[t] == b[t] by {
            if t > n {
                assert(c3[t] == r[t - n - 1]);
                assert(r[t - n - 1] == b[t - 1]);
            } else if t < n {
                assert(c3[t] == a[t]);
            }
        }
    }
    lemma_lex_at(b, c3, b.len() as int);
}

#[verifier::rlimit(30)]
proof fn lemma_u_above(a: Seq<char>, b: Seq<char>)
    requires
        zero_extension(a, b),
    ensures
        lex_lt(b, a.push('U')),
{
    lemma_zero_tail(a, b);
    let n = a.len() as int;
    let u = a.push('U');
    assert(u.take(n) =~= b.take(n));
    assert(b[n] == '0');
    assert(u[n] == 'U');
    lemma_lex_at(b, u, n);
}

/// The two candidates `between_spec` tries when `b` is `a` followed by
/// `0`s both lie above `b`.
proof fn lemma_zero_extension_candidates(a: Seq<char>, b: Seq<char>)
    requires
        zero_extension(a, b),
    ensures
        !strictly_between(a, a + before_spec(b.skip(a.len() as int)), b),
        !strictly_between(a, a.push('U'), b),
{
    lemma_before_zeros_above(a, b);
    lemma_u_above(a, b);
    lemma_lex_lt_total(a + before_spec(b.skip(a.len() as int)), b);
    lemma_lex_lt_total(a.push('U'), b);
}

/// When `b` is `a` followed only by `0`s, no position is generated between
/// them: with `law_between_exists`, generation between valid positions
/// `a < b` fails exactly on such pairs.
pub proof fn law_between_fails_on_zero_extension(a: Seq<char>, b: Seq<char>)
    requires
        zero_extension(a, b),
    ensures
        between_spec(a, b) is None,
{
    let n = a.len() as int;
    assert(a.take(n) =~= a);
    lemma_lex_at(a, b, n);
    assert(a.take(0) =~= b.take(0));
    lemma_first_diff(a, b, 0);
    let i = first_diff_from(a, b, 0);
    assert(i == n) by {
        if i < n {
            assert(b.take(n)[i] == b[i]);
        }
    }
    lemma_zero_extension_candidates(a, b);
}

} // verus!
