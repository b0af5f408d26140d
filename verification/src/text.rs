//! Character-level helpers shared by the mini-language parser and the code
//! tables: digit classification, positional values of digit strings, scanning
//! for a delimiter, and small executable utilities on character vectors.

use vstd::prelude::*;
use vstd::string::StrSliceExecFns;

verus! {

/// True for the ASCII decimal digits.
pub open spec fn is_dec_digit(c: char) -> bool {
    '0' <= c && c <= '9'
}

/// True for the ASCII hexadecimal digits, either case.
pub open spec fn is_hex_digit(c: char) -> bool {
    is_dec_digit(c) || ('a' <= c && c <= 'f') || ('A' <= c && c <= 'F')
}

/// Numeric value of a digit character; zero on anything else.
pub open spec fn digit_val(c: char) -> int {
    if is_dec_digit(c) {
        c as u32 - '0' as u32
    } else if 'a' <= c && c <= 'f' {
        c as u32 - 'a' as u32 + 10
    } else if 'A' <= c && c <= 'F' {
        c as u32 - 'A' as u32 + 10
    } else {
        0
    }
}

pub open spec fn all_dec_digits(s: Seq<char>) -> bool {
    forall|i: int| 0 <= i < s.len() ==> is_dec_digit(#[trigger] s[i])
}

pub open spec fn all_hex_digits(s: Seq<char>) -> bool {
    forall|i: int| 0 <= i < s.len() ==> is_hex_digit(#[trigger] s[i])
}

/// Positional value of a digit string in the given base.
pub open spec fn seq_value(s: Seq<char>, base: int) -> int
    decreases s.len(),
{
    if s.len() == 0 {
        0
    } else {
        seq_value(s.drop_last(), base) * base + digit_val(s.last())
    }
}

pub proof fn lemma_seq_value_nonneg(s: Seq<char>, base: int)
    requires
        base >= 2,
    ensures
        seq_value(s, base) >= 0,
    decreases s.len(),
{
    if s.len() > 0 {
        lemma_seq_value_nonneg(s.drop_last(), base);
        let v = seq_value(s.drop_last(), base);
        assert(v * base >= 0) by (nonlinear_arith)
            requires
                v >= 0,
                base >= 2,
        ;
    }
}

/// The value of a digit string is at least the value of any of its prefixes.
pub proof fn lemma_seq_value_prefix(s: Seq<char>, k: int, base: int)
    requires
        0 <= k <= s.len(),
        base >= 2,
    ensures
        seq_value(s.subrange(0, k), base) <= seq_value(s, base),
    decreases s.len() - k,
{
    if k == s.len() {
        assert(s.subrange(0, k) =~= s);
    } else {
        let p = s.subrange(0, k);
        let q = s.subrange(0, k + 1);
        assert(q.drop_last() =~= p);
        lemma_seq_value_nonneg(p, base);
        let v = seq_value(p, base);
        assert(v * base >= v) by (nonlinear_arith)
            requires
                v >= 0,
                base >= 2,
        ;
        assert(seq_value(q, base) == v * base + digit_val(s[k]));
        lemma_seq_value_prefix(s, k + 1, base);
    }
}

/// Index of the first character at or after `pos` satisfying `p`; the length
/// of `s` when there is none.
pub open spec fn scan(s: Seq<char>, pos: int, p: spec_fn(char) -> bool) -> int
    decreases s.len() - pos,
{
    if pos >= s.len() {
        s.len() as int
    } else if p(s[pos]) {
        pos
    } else {
        scan(s, pos + 1, p)
    }
}

pub proof fn lemma_scan(s: Seq<char>, pos: int, p: spec_fn(char) -> bool)
    requires
        0 <= pos <= s.len(),
    ensures
        pos <= scan(s, pos, p) <= s.len(),
        scan(s, pos, p) < s.len() ==> p(s[scan(s, pos, p)]),
        forall|k: int| pos <= k < scan(s, pos, p) ==> !p(#[trigger] s[k]),
    decreases s.len() - pos,
{
    if pos < s.len() && !p(s[pos]) {
        lemma_scan(s, pos + 1, p);
    }
}

/// A scan never stops before its starting point.
pub proof fn lemma_scan_ge(s: Seq<char>, pos: int, p: spec_fn(char) -> bool)
    requires
        pos <= s.len(),
    ensures
        pos <= scan(s, pos, p) <= s.len(),
    decreases s.len() - pos,
{
    if pos < s.len() && !p(s[pos]) {
        lemma_scan_ge(s, pos + 1, p);
    }
}

/// Whitespace in the sense of the line-continuation escape.
pub open spec fn is_space(c: char) -> bool {
    c == ' ' || c == '\n' || c == '\r' || c == '\t'
}

pub open spec fn nonspace_pred() -> spec_fn(char) -> bool {
    |c: char| !is_space(c)
}

/// Index of the first non-whitespace character at or after `pos`.
pub open spec fn skip_spaces(s: Seq<char>, pos: int) -> int {
    scan(s, pos, nonspace_pred())
}


/// Relies on `String::push`: appends the single character at the end.
#[verifier::external_body]
pub fn push_char(s: &mut String, c: char)
    ensures
        final(s)@ == old(s)@.push(c),
{
    s.push(c);
}

/// The characters of a string slice, in order.
pub fn str_to_chars(s: &str) -> (v: Vec<char>)
    ensures
        v@ == s@,
{
    let n = s.unicode_len();
    let mut v: Vec<char> = Vec::new();
    let mut i: usize = 0;
    while i < n
        invariant
            n == s@.len(),
            i <= n,
            v@ == s@.subrange(0, i as int),
        decreases n - i,
    {
        let c = s.get_char(i);
        v.push(c);
        assert(v@ =~= s@.subrange(0, i as int + 1));
        i = i + 1;
    }
    assert(v@ =~= s@);
    v
}

/// Appends the characters `v[a..b]` to `out`.
pub fn append_range(out: &mut String, v: &Vec<char>, a: usize, b: usize)
    requires
        a <= b <= v@.len(),
    ensures
        final(out)@ == old(out)@ + v@.subrange(a as int, b as int),
{
    let mut k = a;
    while k < b
        invariant
            a <= k <= b <= v@.len(),
            out@ == old(out)@ + v@.subrange(a as int, k as int),
        decreases b - k,
    {
        push_char(out, v[k]);
        assert(old(out)@ + v@.subrange(a as int, k as int + 1) =~= (old(out)@ + v@.subrange(
            a as int,
            k as int,
        )).push(v@[k as int]));
        k = k + 1;
    }
    assert(out@ =~= old(out)@ + v@.subrange(a as int, b as int));
}

/// The characters `v[a..b]` as a fresh vector.
pub fn copy_range(v: &Vec<char>, a: usize, b: usize) -> (r: Vec<char>)
    requires
        a <= b <= v@.len(),
    ensures
        r@ == v@.subrange(a as int, b as int),
{
    let mut r: Vec<char> = Vec::new();
    let mut k = a;
    while k < b
        invariant
            a <= k <= b <= v@.len(),
            r@ == v@.subrange(a as int, k as int),
        decreases b - k,
    {
        r.push(v[k]);
        assert(r@ =~= v@.subrange(a as int, k as int + 1));
        k = k + 1;
    }
    r
}

/// Compares the characters `v[a..b]` with a string slice.
pub fn range_eq_str(v: &Vec<char>, a: usize, b: usize, lit: &str) -> (r: bool)
    requires
        a <= b <= v@.len(),
    ensures
        r == (v@.subrange(a as int, b as int) == lit@),
{
    let n = lit.unicode_len();
    if b - a != n {
        assert(v@.subrange(a as int, b as int).len() == b - a);
        return false;
    }
    let mut k: usize = 0;
    while k < n
        invariant
            k <= n,
            n == lit@.len(),
            a <= b <= v@.len(),
            b - a == n,
            forall|j: int| 0 <= j < k ==> v@[a + j] == lit@[j],
        decreases n - k,
    {
        let c1 = v[a + k];
        let c2 = lit.get_char(k);
        if c1 != c2 {
            assert(v@.subrange(a as int, b as int)[k as int] == v@[a + k]);
            return false;
        }
        k = k + 1;
    }
    assert(v@.subrange(a as int, b as int) =~= lit@);
    true
}

/// Numeric value of a decimal digit character.
pub fn dec_digit(c: char) -> (r: Option<u8>)
    ensures
        r is Some <==> is_dec_digit(c),
        r is Some ==> r->0 as int == digit_val(c),
{
    if '0' <= c && c <= '9' {
        Some(((c as u32) - ('0' as u32)) as u8)
    } else {
        None
    }
}

/// Numeric value of a hexadecimal digit character, either case.
pub fn hex_digit(c: char) -> (r: Option<u8>)
    ensures
        r is Some <==> is_hex_digit(c),
        r is Some ==> r->0 as int == digit_val(c),
{
    if '0' <= c && c <= '9' {
        Some(((c as u32) - ('0' as u32)) as u8)
    } else if 'a' <= c && c <= 'f' {
        Some(((c as u32) - ('a' as u32) + 10) as u8)
    } else if 'A' <= c && c <= 'F' {
        Some(((c as u32) - ('A' as u32) + 10) as u8)
    } else {
        None
    }
}

} // verus!
