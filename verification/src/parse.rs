//! The styling mini-language: a single pass over literal text that decodes
//! backslash escapes, preserves literal braces and plain format parameters,
//! and rewrites styling parameters `{+style-style#color...}` into raw SGR
//! escape text.
//!
//! The model is [`rewrite_from`]: the translation of the text from a given
//! position on, `None` on a hard failure (bad escape, unknown keyword,
//! malformed color literal, or a directive chain that never closes).  The
//! executable parser is proved to return exactly that translation.

use vstd::prelude::*;
use vstd::utf8::is_scalar;
use crate::codes::{append_codes, emit_codes, parse_sgr, resolve_sgr};
use crate::text::{
    all_hex_digits, append_range, copy_range, digit_val, hex_digit, is_hex_digit, lemma_scan,
    lemma_scan_ge, lemma_seq_value_prefix, nonspace_pred, push_char, scan, seq_value, skip_spaces,
    str_to_chars,
};
use crate::writer::escape_intro;

verus! {

/// The characters that end a segment inside a styling parameter.
pub open spec fn is_delim(c: char) -> bool {
    c == '+' || c == '-' || c == '#' || c == '&' || c == '}'
}

pub open spec fn delim_pred() -> spec_fn(char) -> bool {
    |c: char| is_delim(c)
}

/// Index of the first delimiter at or after `pos`.
pub open spec fn find_delim(s: Seq<char>, pos: int) -> int {
    scan(s, pos, delim_pred())
}

/// The characters that begin a styling directive.
pub open spec fn is_directive(c: char) -> bool {
    c == '+' || c == '-' || c == '#'
}

pub open spec fn close_pred() -> spec_fn(char) -> bool {
    |c: char| c == '}'
}

/// Index of the first closing brace at or after `pos`.
pub open spec fn find_close(s: Seq<char>, pos: int) -> int {
    scan(s, pos, close_pred())
}

/// A code point admissible as a character: a Unicode scalar value.
pub open spec fn is_scalar_value(v: int) -> bool {
    0 <= v < 0x110000 && !(0xD800 <= v <= 0xDFFF)
}

/// The character with the given code point.
pub open spec fn scalar_char(v: int) -> char {
    (v as u32) as char
}

/// The character a simple backslash escape stands for.
pub open spec fn simple_escape_char(e: char) -> char {
    if e == 'n' {
        '\n'
    } else if e == 'r' {
        '\r'
    } else if e == 't' {
        '\t'
    } else if e == '0' {
        '\0'
    } else {
        e
    }
}

/// An embedded-value placeholder written back as a format parameter.
pub open spec fn braced(v: Option<Seq<char>>) -> Seq<char> {
    match v {
        Some(t) => seq!['{'] + t + seq!['}'],
        None => Seq::empty(),
    }
}

/// The directive chain of a styling parameter, from the text of the first
/// segment on.  `d` is the delimiter that opened the current segment,
/// `value` a captured embedded value not yet written back, `first` whether
/// the next code is the first of the escape now open.  The result is the
/// text emitted after the opening `ESC [` together with the position after
/// the closing brace; `None` is the hard failure.
pub open spec fn segments_spec(
    s: Seq<char>,
    pos: int,
    d: char,
    value: Option<Seq<char>>,
    first: bool,
) -> Option<(Seq<char>, int)>
    decreases s.len() - pos,
    via segments_spec_dec
{
    let j = find_delim(s, pos);
    if j >= s.len() {
        None
    } else {
        let t = s.subrange(pos, j);
        let nd = s[j];
        if d == '&' {
            let p = match value {
                Some(w) => w,
                None => t,
            };
            let head = seq!['m', '{'] + p + seq!['}'] + escape_intro();
            if nd == '}' {
                Some((head + seq!['m'], j + 1))
            } else {
                match segments_spec(s, j + 1, nd, None, true) {
                    None => None,
                    Some(r) => Some((head + r.0, r.1)),
                }
            }
        } else {
            match resolve_sgr(d, t) {
                None => None,
                Some(codes) => {
                    let head = emit_codes(codes, first);
                    if nd == '}' {
                        Some((head + seq!['m'] + braced(value), j + 1))
                    } else {
                        match segments_spec(s, j + 1, nd, value, false) {
                            None => None,
                            Some(r) => Some((head + r.0, r.1)),
                        }
                    }
                },
            }
        }
    }
}

#[via_fn]
proof fn segments_spec_dec(s: Seq<char>, pos: int, d: char, value: Option<Seq<char>>, first: bool) {
    if pos <= s.len() {
        lemma_scan_ge(s, pos, delim_pred());
    }
}

/// A successful directive chain ends strictly past its start and within the
/// text.
pub proof fn lemma_segments_next(s: Seq<char>, pos: int, d: char, value: Option<Seq<char>>, first: bool)
    requires
        pos <= s.len(),
    ensures
        segments_spec(s, pos, d, value, first) matches Some(r) ==> pos < r.1 <= s.len(),
    decreases s.len() - pos,
{
    lemma_scan_ge(s, pos, delim_pred());
    let j = find_delim(s, pos);
    if j < s.len() {
        lemma_segments_next(s, j + 1, s[j], None, true);
        lemma_segments_next(s, j + 1, s[j], value, false);
    }
}

/// One styling or format parameter, `i` the position of its opening brace,
/// the character after the brace being neither brace.  The result is the
/// emitted text with the position where scanning resumes; `None` is the
/// hard failure.  An unterminated parameter whose first delimiter search
/// reaches the end of the text degrades to the literal text from the brace
/// on.
pub open spec fn param_spec(s: Seq<char>, i: int) -> Option<(Seq<char>, int)> {
    let first = s[i + 1];
    if is_directive(first) {
        if find_delim(s, i + 2) >= s.len() {
            Some((s.subrange(i, s.len() as int), s.len() as int))
        } else {
            match segments_spec(s, i + 2, first, None, true) {
                None => None,
                Some(r) => Some((escape_intro() + r.0, r.1)),
            }
        }
    } else {
        let j = find_delim(s, i + 2);
        if j >= s.len() {
            Some((s.subrange(i, s.len() as int), s.len() as int))
        } else {
            let value = s.subrange(i + 1, j);
            let d = s[j];
            if d == '}' {
                Some((s.subrange(i, j + 1), j + 1))
            } else if find_delim(s, j + 1) >= s.len() {
                Some((s.subrange(i, s.len() as int), s.len() as int))
            } else {
                match segments_spec(s, j + 1, d, Some(value), true) {
                    None => None,
                    Some(r) => Some((escape_intro() + r.0, r.1)),
                }
            }
        }
    }
}

/// A parameter always consumes text: scanning resumes strictly past the
/// opening brace and within the text.
pub proof fn lemma_param_next(s: Seq<char>, i: int)
    requires
        i + 1 < s.len(),
    ensures
        param_spec(s, i) matches Some(r) ==> i < r.1 <= s.len(),
{
    lemma_scan_ge(s, i + 2, delim_pred());
    let j = find_delim(s, i + 2);
    lemma_segments_next(s, i + 2, s[i + 1], None, true);
    if j < s.len() {
        lemma_scan_ge(s, j + 1, delim_pred());
        lemma_segments_next(s, j + 1, s[j], Some(s.subrange(i + 1, j)), true);
    }
}

/// The translation of the text from position `i` on: plain characters are
/// copied, backslash escapes decoded, `{{`/`}}` and `{}` and stray `}` kept
/// literally, and each styling parameter rewritten by [`param_spec`].
/// `None` is the hard failure.
pub open spec fn rewrite_from(s: Seq<char>, i: int) -> Option<Seq<char>>
    decreases s.len() - i,
    via rewrite_from_dec
{
    if i >= s.len() {
        Some(Seq::empty())
    } else {
        let c = s[i];
        if c == '\\' {
            if i + 1 >= s.len() {
                None
            } else {
                let e = s[i + 1];
                if e == '\'' || e == '"' || e == 'n' || e == 'r' || e == 't' || e == '\\' || e
                    == '0' {
                    match rewrite_from(s, i + 2) {
                        None => None,
                        Some(r) => Some(seq![simple_escape_char(e)] + r),
                    }
                } else if e == 'x' {
                    if i + 4 > s.len() {
                        None
                    } else {
                        let h = s.subrange(i + 2, i + 4);
                        if all_hex_digits(h) {
                            match rewrite_from(s, i + 4) {
                                None => None,
                                Some(r) => Some(seq![scalar_char(seq_value(h, 16))] + r),
                            }
                        } else {
                            None
                        }
                    }
                } else if e == 'u' {
                    if i + 2 >= s.len() || s[i + 2] != '{' {
                        None
                    } else {
                        let j = find_close(s, i + 3);
                        if j >= s.len() {
                            None
                        } else {
                            let h = s.subrange(i + 3, j);
                            if h.len() > 0 && all_hex_digits(h) && is_scalar_value(
                                seq_value(h, 16),
                            ) {
                                match rewrite_from(s, j + 1) {
                                    None => None,
                                    Some(r) => Some(seq![scalar_char(seq_value(h, 16))] + r),
                                }
                            } else {
                                None
                            }
                        }
                    }
                } else if e == '\n' {
                    rewrite_from(s, skip_spaces(s, i + 2))
                } else {
                    None
                }
            }
        } else if c == '{' {
            if i + 1 >= s.len() {
                Some(seq!['{'])
            } else if s[i + 1] == '{' {
                match rewrite_from(s, i + 2) {
                    None => None,
                    Some(r) => Some(seq!['{', '{'] + r),
                }
            } else if s[i + 1] == '}' {
                match rewrite_from(s, i + 2) {
                    None => None,
                    Some(r) => Some(seq!['{', '}'] + r),
                }
            } else {
                match param_spec(s, i) {
                    None => None,
                    Some(p) => match rewrite_from(s, p.1) {
                        None => None,
                        Some(r) => Some(p.0 + r),
                    },
                }
            }
        } else if c == '}' {
            if i + 1 < s.len() && s[i + 1] == '}' {
                match rewrite_from(s, i + 2) {
                    None => None,
                    Some(r) => Some(seq!['}', '}'] + r),
                }
            } else {
                match rewrite_from(s, i + 1) {
                    None => None,
                    Some(r) => Some(seq!['}'] + r),
                }
            }
        } else {
            match rewrite_from(s, i + 1) {
                None => None,
                Some(r) => Some(seq![c] + r),
            }
        }
    }
}

#[via_fn]
proof fn rewrite_from_dec(s: Seq<char>, i: int) {
    if i < s.len() {
        if i + 2 <= s.len() {
            lemma_scan_ge(s, i + 2, nonspace_pred());
        }
        if i + 3 <= s.len() {
            lemma_scan_ge(s, i + 3, close_pred());
        }
        if i + 1 < s.len() {
            lemma_param_next(s, i);
        }
    }
}

/// The translation of a whole literal text.
pub open spec fn rewrite_spec(s: Seq<char>) -> Option<Seq<char>> {
    rewrite_from(s, 0)
}

/// Relies on `char::from_u32`: the character with the given code point, or
/// `None` when the value is no Unicode scalar (a surrogate, or past the
/// largest code point).
pub assume_specification[ char::from_u32 ](v: u32) -> (r: Option<char>)
    ensures
        r is Some <==> is_scalar(v),
        r is Some ==> r->0 as u32 == v,
;

/// Index of the first delimiter in `v` at or after `start`.
pub fn find_delimiter(v: &Vec<char>, start: usize) -> (r: usize)
    requires
        start <= v@.len(),
    ensures
        r as int == find_delim(v@, start as int),
        start <= r <= v@.len(),
        r < v@.len() ==> is_delim(v@[r as int]),
{
    proof {
        lemma_scan(v@, start as int, delim_pred());
    }
    let mut k = start;
    while k < v.len()
        invariant
            start <= k <= v@.len(),
            find_delim(v@, start as int) == find_delim(v@, k as int),
        decreases v@.len() - k,
    {
        let c = v[k];
        if c == '+' || c == '-' || c == '#' || c == '&' || c == '}' {
            return k;
        }
        k = k + 1;
    }
    k
}

/// Index of the first closing brace in `v` at or after `start`.
fn find_close_exec(v: &Vec<char>, start: usize) -> (r: usize)
    requires
        start <= v@.len(),
    ensures
        r as int == find_close(v@, start as int),
        start <= r <= v@.len(),
{
    proof {
        lemma_scan(v@, start as int, close_pred());
    }
    let mut k = start;
    while k < v.len()
        invariant
            start <= k <= v@.len(),
            find_close(v@, start as int) == find_close(v@, k as int),
        decreases v@.len() - k,
    {
        if v[k] == '}' {
            return k;
        }
        k = k + 1;
    }
    k
}

/// Index of the first non-whitespace character in `v` at or after `start`.
fn skip_spaces_exec(v: &Vec<char>, start: usize) -> (r: usize)
    requires
        start <= v@.len(),
    ensures
        r as int == skip_spaces(v@, start as int),
        start <= r <= v@.len(),
{
    proof {
        lemma_scan(v@, start as int, nonspace_pred());
    }
    let mut k = start;
    while k < v.len()
        invariant
            start <= k <= v@.len(),
            skip_spaces(v@, start as int) == skip_spaces(v@, k as int),
        decreases v@.len() - k,
    {
        let c = v[k];
        if !(c == ' ' || c == '\n' || c == '\r' || c == '\t') {
            return k;
        }
        k = k + 1;
    }
    k
}

/// Decodes the two-hex-digit escape body `v[i..i+2]` into its character.
pub fn parse_7bit(v: &Vec<char>, i: usize) -> (r: Option<char>)
    requires
        i + 2 <= v@.len(),
    ensures
        r is Some <==> all_hex_digits(v@.subrange(i as int, i as int + 2)),
        r is Some ==> r->0 == scalar_char(seq_value(v@.subrange(i as int, i as int + 2), 16)),
{
    let ghost h = v@.subrange(i as int, i as int + 2);
    let n = v.len();
    assert(i + 2 <= n);
    let d1 = hex_digit(v[i]);
    let d2 = hex_digit(v[i + 1]);
    match (d1, d2) {
        (Some(h1), Some(h2)) => {
            let x: u8 = h1 * 16 + h2;
            proof {
                assert(h.drop_last() =~= seq![v@[i as int]]);
                assert(seq![v@[i as int]].drop_last() =~= Seq::<char>::empty());
                assert(seq_value(Seq::<char>::empty(), 16) == 0);
                assert(seq_value(seq![v@[i as int]], 16) == digit_val(v@[i as int]));
                assert(seq_value(h, 16) == digit_val(v@[i as int]) * 16 + digit_val(
                    v@[i as int + 1],
                ));
                assert(all_hex_digits(h)) by {
                    assert(forall|k: int| 0 <= k < 2 ==> h[k] == v@[i as int + k]);
                }
            }
            Some(x as char)
        },
        _ => {
            proof {
                if all_hex_digits(h) {
                    assert(is_hex_digit(h[0]) && is_hex_digit(h[1]));
                }
            }
            None
        },
    }
}

/// Decodes the hex body `v[a..b]` of a `\u{..}` escape into its character.
pub fn parse_24bit(v: &Vec<char>, a: usize, b: usize) -> (r: Option<char>)
    requires
        a <= b <= v@.len(),
    ensures
        r is Some <==> (b > a && all_hex_digits(v@.subrange(a as int, b as int))
            && is_scalar_value(seq_value(v@.subrange(a as int, b as int), 16))),
        r is Some ==> r->0 == scalar_char(seq_value(v@.subrange(a as int, b as int), 16)),
{
    let ghost h = v@.subrange(a as int, b as int);
    if a == b {
        return None;
    }
    let mut acc: u32 = 0;
    let mut k = a;
    while k < b
        invariant
            a <= k <= b <= v@.len(),
            h == v@.subrange(a as int, b as int),
            acc <= 0x10FFFF,
            acc == seq_value(h.subrange(0, k - a), 16),
            all_hex_digits(h.subrange(0, k - a)),
        decreases b - k,
    {
        match hex_digit(v[k]) {
            None => {
                assert(h[k - a] == v@[k as int]);
                return None;
            },
            Some(d) => {
                let na = acc * 16 + d as u32;
                proof {
                    assert(h.subrange(0, k - a + 1).drop_last() =~= h.subrange(0, k - a));
                    assert(h.subrange(0, k - a + 1).last() == v@[k as int]);
                }
                if na > 0x10FFFF {
                    proof {
                        lemma_seq_value_prefix(h, k - a + 1, 16);
                    }
                    return None;
                }
                acc = na;
                k = k + 1;
            },
        }
    }
    proof {
        assert(h.subrange(0, (b - a) as int) =~= h);
    }
    if acc >= 0xD800 && acc <= 0xDFFF {
        return None;
    }
    let c = char::from_u32(acc);
    match c {
        Some(ch) => {
            proof {
                vstd::utf8::char_u32_cast(ch, acc);
            }
            Some(ch)
        },
        None => {
            proof {
                assert(is_scalar(acc));
            }
            None
        },
    }
}

/// A captured embedded value, as a range of the input.
pub open spec fn value_view(s: Seq<char>, val: Option<(usize, usize)>) -> Option<Seq<char>> {
    match val {
        Some(p) => Some(s.subrange(p.0 as int, p.1 as int)),
        None => None,
    }
}

/// Walks the directive chain of a styling parameter, emitting codes and the
/// written-back embedded value; returns the emitted text and the position
/// after the closing brace.
#[verifier::rlimit(60)]
fn parse_segments(v: &Vec<char>, pos0: usize, d0: char, val0: Option<(usize, usize)>) -> (r:
    Option<(String, usize)>)
    requires
        pos0 <= v@.len(),
        match val0 {
            Some(p) => p.0 <= p.1 <= v@.len(),
            None => true,
        },
    ensures
        match r {
            Some(p) => segments_spec(v@, pos0 as int, d0, value_view(v@, val0), true) == Some(
                (p.0@, p.1 as int),
            ) && pos0 < p.1 <= v@.len(),
            None => segments_spec(v@, pos0 as int, d0, value_view(v@, val0), true) is None,
        },
{
    let n = v.len();
    let mut buf = String::new();
    let mut pos = pos0;
    let mut d = d0;
    let mut value = val0;
    let mut first = true;
    proof {
        lemma_segments_next(v@, pos0 as int, d0, value_view(v@, val0), true);
    }
    loop
        invariant
            pos0 <= pos <= n == v@.len(),
            match value {
                Some(p) => p.0 <= p.1 <= v@.len(),
                None => true,
            },
            match segments_spec(v@, pos as int, d, value_view(v@, value), first) {
                Some(p) => segments_spec(v@, pos0 as int, d0, value_view(v@, val0), true) == Some(
                    (buf@ + p.0, p.1),
                ),
                None => segments_spec(v@, pos0 as int, d0, value_view(v@, val0), true) is None,
            },
        decreases v@.len() - pos,
    {
        let ghost buf0 = buf@;
        let j = find_delimiter(v, pos);
        if j >= n {
            return None;
        }
        let nd = v[j];
        if d == '&' {
            let ghost p = match value_view(v@, value) {
                Some(w) => w,
                None => v@.subrange(pos as int, j as int),
            };
            let ghost head = seq!['m', '{'] + p + seq!['}'] + escape_intro();
            push_char(&mut buf, 'm');
            push_char(&mut buf, '{');
            match value {
                Some(range) => append_range(&mut buf, v, range.0, range.1),
                None => append_range(&mut buf, v, pos, j),
            }
            push_char(&mut buf, '}');
            push_char(&mut buf, '\x1b');
            push_char(&mut buf, '[');
            proof {
                assert(buf@ =~= buf0 + head);
            }
            if nd == '}' {
                push_char(&mut buf, 'm');
                proof {
                    assert(buf@ =~= buf0 + (head + seq!['m']));
                }
                return Some((buf, j + 1));
            }
            value = None;
            d = nd;
            first = true;
            proof {
                match segments_spec(v@, j + 1, nd, value_view(v@, value), true) {
                    Some(q) => {
                        assert(buf0 + (head + q.0) =~= buf@ + q.0);
                    },
                    None => {},
                }
            }
            pos = j + 1;
        } else {
            match parse_sgr(d, v, pos, j) {
                None => {
                    return None;
                },
                Some(codes) => {
                    let ghost head = emit_codes(codes@, first);
                    append_codes(&mut buf, &codes, first);
                    if nd == '}' {
                        push_char(&mut buf, 'm');
                        match value {
                            Some(range) => {
                                push_char(&mut buf, '{');
                                append_range(&mut buf, v, range.0, range.1);
                                push_char(&mut buf, '}');
                            },
                            None => {},
                        }
                        proof {
                            assert(buf@ =~= buf0 + (head + seq!['m'] + braced(
                                value_view(v@, value),
                            )));
                        }
                        return Some((buf, j + 1));
                    }
                    d = nd;
                    first = false;
                    proof {
                        match segments_spec(v@, j + 1, nd, value_view(v@, value), false) {
                            Some(q) => {
                                assert(buf0 + (head + q.0) =~= buf@ + q.0);
                            },
                            None => {},
                        }
                    }
                    pos = j + 1;
                },
            }
        }
    }
}

/// Parses one parameter whose opening brace stands at `i`, the character
/// after it being neither `{` nor `}`: either a plain format parameter
/// copied through, or a styling parameter rewritten into escape text.
/// Returns the emitted text and the position where scanning resumes.
pub fn parse_param(v: &Vec<char>, i: usize) -> (r: Option<(String, usize)>)
    requires
        i + 1 < v@.len(),
        v@[i as int] == '{',
        v@[i as int + 1] != '{',
        v@[i as int + 1] != '}',
    ensures
        match r {
            Some(p) => param_spec(v@, i as int) == Some((p.0@, p.1 as int)) && i < p.1 <= v@.len(),
            None => param_spec(v@, i as int) is None,
        },
{
    let n = v.len();
    let first = v[i + 1];
    proof {
        lemma_param_next(v@, i as int);
    }
    if first == '+' || first == '-' || first == '#' {
        let j0 = find_delimiter(v, i + 2);
        if j0 >= n {
            let mut out = String::new();
            append_range(&mut out, v, i, n);
            proof {
                assert(out@ =~= v@.subrange(i as int, n as int));
            }
            return Some((out, n));
        }
        let mut out = String::new();
        push_char(&mut out, '\x1b');
        push_char(&mut out, '[');
        proof {
            assert(out@ =~= escape_intro());
        }
        match parse_segments(v, i + 2, first, None) {
            None => None,
            Some(seg) => {
                let (txt, nxt) = seg;
                out.append(txt.as_str());
                proof {
                    assert(out@ == escape_intro() + txt@);
                }
                Some((out, nxt))
            },
        }
    } else {
        let j = find_delimiter(v, i + 2);
        if j >= n {
            let mut out = String::new();
            append_range(&mut out, v, i, n);
            proof {
                assert(out@ =~= v@.subrange(i as int, n as int));
            }
            return Some((out, n));
        }
        let d = v[j];
        if d == '}' {
            let mut out = String::new();
            append_range(&mut out, v, i, j + 1);
            proof {
                assert(out@ =~= v@.subrange(i as int, j as int + 1));
            }
            return Some((out, j + 1));
        }
        let j2 = find_delimiter(v, j + 1);
        if j2 >= n {
            let mut out = String::new();
            append_range(&mut out, v, i, n);
            proof {
                assert(out@ =~= v@.subrange(i as int, n as int));
            }
            return Some((out, n));
        }
        let mut out = String::new();
        push_char(&mut out, '\x1b');
        push_char(&mut out, '[');
        proof {
            assert(out@ =~= escape_intro());
        }
        match parse_segments(v, j + 1, d, Some((i + 1, j))) {
            None => None,
            Some(seg) => {
                let (txt, nxt) = seg;
                out.append(txt.as_str());
                proof {
                    assert(out@ == escape_intro() + txt@);
                    assert(value_view(v@, Some(((i + 1) as usize, j))) == Some(
                        v@.subrange(i as int + 1, j as int),
                    ));
                }
                Some((out, nxt))
            },
        }
    }
}

/// One loop step of the rewriting: if the step from `i0` emits `em` and
/// continues at `i1`, the whole translation extends by `em`.
proof fn lemma_step(s: Seq<char>, i0: int, i1: int, em: Seq<char>, pre: Seq<char>)
    requires
        rewrite_from(s, i0) == (match rewrite_from(s, i1) {
            None => None::<Seq<char>>,
            Some(r) => Some(em + r),
        }),
        match rewrite_from(s, i0) {
            Some(rest) => rewrite_from(s, 0) == Some(pre + rest),
            None => rewrite_from(s, 0) is None,
        },
    ensures
        match rewrite_from(s, i1) {
            Some(rest) => rewrite_from(s, 0) == Some((pre + em) + rest),
            None => rewrite_from(s, 0) is None,
        },
{
    match rewrite_from(s, i1) {
        Some(r) => {
            assert(pre + (em + r) =~= (pre + em) + r);
        },
        None => {},
    }
}

/// Rewrites a literal text body: backslash escapes are decoded, literal
/// braces and plain format parameters preserved, and styling parameters
/// replaced by raw SGR escape text.  Returns `None` exactly on a hard
/// failure: an invalid escape, an unknown keyword, a malformed color
/// literal, or a directive chain begun and never closed.
#[verifier::rlimit(60)]
pub fn parse_string(s: &str) -> (r: Option<String>)
    ensures
        match r {
            Some(out) => rewrite_spec(s@) == Some(out@),
            None => rewrite_spec(s@) is None,
        },
{
    let v = str_to_chars(s);
    let n = v.len();
    let mut out = String::new();
    let mut i: usize = 0;
    while i < n
        invariant
            i <= n == v@.len(),
            v@ == s@,
            match rewrite_from(v@, i as int) {
                Some(rest) => rewrite_from(v@, 0) == Some(out@ + rest),
                None => rewrite_from(v@, 0) is None,
            },
        decreases n - i,
    {
        let ghost pre = out@;
        let c = v[i];
        if c == '\\' {
            if n - i < 2 {
                return None;
            }
            let e = v[i + 1];
            if e == '\'' || e == '"' || e == '\\' || e == 'n' || e == 'r' || e == 't' || e == '0' {
                let d: char = if e == 'n' {
                    '\n'
                } else if e == 'r' {
                    '\r'
                } else if e == 't' {
                    '\t'
                } else if e == '0' {
                    '\0'
                } else {
                    e
                };
                push_char(&mut out, d);
                proof {
                    assert(d == simple_escape_char(e));
                    lemma_step(v@, i as int, i as int + 2, seq![simple_escape_char(e)], pre);
                    assert(out@ =~= pre + seq![simple_escape_char(e)]);
                }
                i = i + 2;
            } else if e == 'x' {
                if n - i < 4 {
                    return None;
                }
                match parse_7bit(&v, i + 2) {
                    None => {
                        return None;
                    },
                    Some(c2) => {
                        push_char(&mut out, c2);
                        proof {
                            lemma_step(v@, i as int, i as int + 4, seq![c2], pre);
                            assert(out@ =~= pre + seq![c2]);
                        }
                        i = i + 4;
                    },
                }
            } else if e == 'u' {
                if n - i < 3 {
                    return None;
                }
                if v[i + 2] != '{' {
                    return None;
                }
                let j = find_close_exec(&v, i + 3);
                if j >= n {
                    return None;
                }
                match parse_24bit(&v, i + 3, j) {
                    None => {
                        return None;
                    },
                    Some(c2) => {
                        push_char(&mut out, c2);
                        proof {
                            lemma_step(v@, i as int, j as int + 1, seq![c2], pre);
                            assert(out@ =~= pre + seq![c2]);
                        }
                        i = j + 1;
                    },
                }
            } else if e == '\n' {
                let k = skip_spaces_exec(&v, i + 2);
                proof {
                    match rewrite_from(v@, k as int) {
                        Some(r) => {
                            assert(Seq::<char>::empty() + r =~= r);
                        },
                        None => {},
                    }
                    lemma_step(v@, i as int, k as int, Seq::empty(), pre);
                    assert(pre + Seq::<char>::empty() =~= pre);
                }
                i = k;
            } else {
                return None;
            }
        } else if c == '{' {
            if n - i < 2 {
                push_char(&mut out, '{');
                proof {
                    assert(rewrite_from(v@, n as int) == Some(Seq::<char>::empty()));
                    assert(seq!['{'] + Seq::<char>::empty() =~= seq!['{']);
                    lemma_step(v@, i as int, n as int, seq!['{'], pre);
                    assert(out@ =~= pre + seq!['{']);
                }
                i = n;
            } else {
                let c1 = v[i + 1];
                if c1 == '{' {
                    push_char(&mut out, '{');
                    push_char(&mut out, '{');
                    proof {
                        lemma_step(v@, i as int, i as int + 2, seq!['{', '{'], pre);
                        assert(out@ =~= pre + seq!['{', '{']);
                    }
                    i = i + 2;
                } else if c1 == '}' {
                    push_char(&mut out, '{');
                    push_char(&mut out, '}');
                    proof {
                        lemma_step(v@, i as int, i as int + 2, seq!['{', '}'], pre);
                        assert(out@ =~= pre + seq!['{', '}']);
                    }
                    i = i + 2;
                } else {
                    match parse_param(&v, i) {
                        None => {
                            return None;
                        },
                        Some(p) => {
                            let (txt, nxt) = p;
                            out.append(txt.as_str());
                            proof {
                                lemma_step(v@, i as int, nxt as int, txt@, pre);
                            }
                            i = nxt;
                        },
                    }
                }
            }
        } else if c == '}' {
            if n - i >= 2 && v[i + 1] == '}' {
                push_char(&mut out, '}');
                push_char(&mut out, '}');
                proof {
                    lemma_step(v@, i as int, i as int + 2, seq!['}', '}'], pre);
                    assert(out@ =~= pre + seq!['}', '}']);
                }
                i = i + 2;
            } else {
                push_char(&mut out, '}');
                proof {
                    lemma_step(v@, i as int, i as int + 1, seq!['}'], pre);
                    assert(out@ =~= pre + seq!['}']);
                }
                i = i + 1;
            }
        } else {
            push_char(&mut out, c);
            proof {
                lemma_step(v@, i as int, i as int + 1, seq![c], pre);
                assert(out@ =~= pre + seq![c]);
            }
            i = i + 1;
        }
    }
    proof {
        assert(rewrite_from(v@, n as int) == Some(Seq::<char>::empty()));
        assert(out@ + Seq::<char>::empty() =~= out@);
    }
    Some(out)
}

/// A literal with its quoting removed: the body of a plain string literal,
/// or the body of a raw string literal with its hash count.
pub enum UnwrappedLiteral {
    Plain(String),
    Raw(String, usize),
}

/// Whether the literal text is a raw literal: it begins with `r`.
pub open spec fn is_raw_literal(s: Seq<char>) -> bool {
    s.len() > 0 && s[0] == 'r'
}

/// The body of a plain literal: the text between its two quotes.
pub open spec fn unwrap_plain_spec(s: Seq<char>) -> Option<Seq<char>> {
    if s.len() >= 2 && s[0] == '"' && s.last() == '"' {
        Some(s.subrange(1, s.len() - 1))
    } else {
        None
    }
}

pub open spec fn nonhash_pred() -> spec_fn(char) -> bool {
    |c: char| c != '#'
}

/// The end of `t[..e]` with its trailing `#` run removed.
pub open spec fn trim_end_hash(t: Seq<char>, e: int) -> int
    decreases e,
{
    if e <= 0 {
        0
    } else if t[e - 1] == '#' {
        trim_end_hash(t, e - 1)
    } else {
        e
    }
}

/// The body of a raw literal: after the leading `r`, the `#` runs of both
/// ends are stripped, the remainder must be quoted, and the hash count is
/// half the number of stripped `#` characters.
pub open spec fn unwrap_raw_spec(s: Seq<char>) -> Option<(Seq<char>, int)> {
    let t = s.subrange(1, s.len() as int);
    let l = scan(t, 0, nonhash_pred());
    if l >= t.len() {
        None
    } else {
        let e = trim_end_hash(t, t.len() as int);
        let m = t.subrange(l, e);
        let diff = l + (t.len() - e);
        if m.len() >= 2 && m[0] == '"' && m.last() == '"' {
            Some((m.subrange(1, m.len() - 1), diff / 2))
        } else {
            None
        }
    }
}

/// Trimming trailing hashes stops at the first non-hash character, and in
/// particular never before a known non-hash position.
proof fn lemma_trim_end_hash(t: Seq<char>, e: int, l: int)
    requires
        0 <= l < e <= t.len(),
        t[l] != '#',
    ensures
        l < trim_end_hash(t, e) <= e,
    decreases e,
{
    if t[e - 1] == '#' {
        lemma_trim_end_hash(t, e - 1, l);
    }
}

/// Removes the quoting of a literal: `r#"..."#` forms give the body with
/// their hash count, `"..."` forms the body alone; anything not quoted that
/// way gives `None`.
pub fn unwrap_string(s: &str) -> (r: Option<UnwrappedLiteral>)
    ensures
        match r {
            Some(UnwrappedLiteral::Raw(t, k)) => is_raw_literal(s@) && unwrap_raw_spec(s@)
                == Some((t@, k as int)),
            Some(UnwrappedLiteral::Plain(t)) => !is_raw_literal(s@) && unwrap_plain_spec(s@)
                == Some(t@),
            None => (is_raw_literal(s@) ==> unwrap_raw_spec(s@) is None) && (!is_raw_literal(s@)
                ==> unwrap_plain_spec(s@) is None),
        },
{
    let v = str_to_chars(s);
    let n = v.len();
    if n > 0 && v[0] == 'r' {
        let t = copy_range(&v, 1, n);
        let m = t.len();
        proof {
            lemma_scan(t@, 0, nonhash_pred());
        }
        let mut l: usize = 0;
        while l < m && t[l] == '#'
            invariant
                l <= m == t@.len(),
                scan(t@, 0, nonhash_pred()) == scan(t@, l as int, nonhash_pred()),
            decreases m - l,
        {
            l = l + 1;
        }
        if l >= m {
            return None;
        }
        assert(l as int == scan(t@, 0, nonhash_pred()));
        assert(t@[l as int] != '#');
        let mut e: usize = m;
        while e > 0 && t[e - 1] == '#'
            invariant
                l < e <= m == t@.len(),
                t@[l as int] != '#',
                trim_end_hash(t@, m as int) == trim_end_hash(t@, e as int),
            decreases e,
        {
            proof {
                lemma_trim_end_hash(t@, e as int, l as int);
            }
            e = e - 1;
        }
        assert(e as int == trim_end_hash(t@, m as int));
        let diff = l + (m - e);
        let ghost w = t@.subrange(l as int, e as int);
        if e - l >= 2 && t[l] == '"' && t[e - 1] == '"' {
            proof {
                assert(w[0] == t@[l as int]);
                assert(w.last() == t@[e as int - 1]);
            }
            let mut body = String::new();
            append_range(&mut body, &t, l + 1, e - 1);
            proof {
                assert(body@ =~= w.subrange(1, w.len() - 1));
            }
            Some(UnwrappedLiteral::Raw(body, diff / 2))
        } else {
            proof {
                if w.len() >= 2 && w[0] == '"' && w.last() == '"' {
                    assert(t@[l as int] == w[0]);
                    assert(t@[e as int - 1] == w.last());
                }
            }
            None
        }
    } else {
        if n >= 2 && v[0] == '"' && v[n - 1] == '"' {
            let mut body = String::new();
            append_range(&mut body, &v, 1, n - 1);
            proof {
                assert(body@ =~= s@.subrange(1, s@.len() - 1));
            }
            Some(UnwrappedLiteral::Plain(body))
        } else {
            None
        }
    }
}

/// A run of `k` hash characters.
pub open spec fn hashes(k: int) -> Seq<char> {
    Seq::new(k as nat, |x: int| '#')
}

/// A raw literal body wrapped back up with `k` hashes on each side.
pub open spec fn raw_wrapped(s: Seq<char>, k: int) -> Seq<char> {
    seq!['r'] + hashes(k) + seq!['"'] + s + seq!['"'] + hashes(k)
}

/// Wraps a body as the raw string literal `r#..#"body"#..#` with `i` hash
/// characters on each side.
pub fn parse_raw_string(s: &str, i: usize) -> (r: String)
    ensures
        r@ == raw_wrapped(s@, i as int),
{
    let mut buf = String::new();
    push_char(&mut buf, 'r');
    let mut k: usize = 0;
    while k < i
        invariant
            k <= i,
            buf@ == seq!['r'] + hashes(k as int),
        decreases i - k,
    {
        push_char(&mut buf, '#');
        assert(buf@ =~= seq!['r'] + hashes(k as int + 1));
        k = k + 1;
    }
    push_char(&mut buf, '"');
    buf.append(s);
    push_char(&mut buf, '"');
    let ghost mid = seq!['r'] + hashes(i as int) + seq!['"'] + s@ + seq!['"'];
    proof {
        assert(buf@ =~= mid);
    }
    let mut k2: usize = 0;
    while k2 < i
        invariant
            k2 <= i,
            buf@ == mid + hashes(k2 as int),
        decreases i - k2,
    {
        push_char(&mut buf, '#');
        assert(buf@ =~= mid + hashes(k2 as int + 1));
        k2 = k2 + 1;
    }
    proof {
        assert(buf@ =~= raw_wrapped(s@, i as int));
    }
    buf
}

/// Law: text holding no brace and no backslash is translated to itself.
pub proof fn lemma_passthrough(s: Seq<char>)
    requires
        forall|k: int| 0 <= k < s.len() ==> #[trigger] s[k] != '{' && s[k] != '}' && s[k] != '\\',
    ensures
        rewrite_spec(s) == Some(s),
{
    lemma_passthrough_from(s, 0);
    assert(s.subrange(0, s.len() as int) =~= s);
}

proof fn lemma_passthrough_from(s: Seq<char>, i: int)
    requires
        0 <= i <= s.len(),
        forall|k: int| 0 <= k < s.len() ==> #[trigger] s[k] != '{' && s[k] != '}' && s[k] != '\\',
    ensures
        rewrite_from(s, i) == Some(s.subrange(i, s.len() as int)),
    decreases s.len() - i,
{
    if i == s.len() {
        assert(s.subrange(i, s.len() as int) =~= Seq::<char>::empty());
    } else {
        lemma_passthrough_from(s, i + 1);
        assert(seq![s[i]] + s.subrange(i + 1, s.len() as int) =~= s.subrange(i, s.len() as int));
    }
}

/// Law: a doubled opening brace is always the two-character literal `{{`,
/// never the start of a parameter or of styling, whatever stands around it.
pub proof fn lemma_double_open_brace(s: Seq<char>, i: int)
    requires
        0 <= i,
        i + 1 < s.len(),
        s[i] == '{',
        s[i + 1] == '{',
    ensures
        rewrite_from(s, i) == (match rewrite_from(s, i + 2) {
            None => None::<Seq<char>>,
            Some(r) => Some(seq!['{', '{'] + r),
        }),
{
}

/// Law: a doubled closing brace is always the two-character literal `}}`.
pub proof fn lemma_double_close_brace(s: Seq<char>, i: int)
    requires
        0 <= i,
        i + 1 < s.len(),
        s[i] == '}',
        s[i + 1] == '}',
    ensures
        rewrite_from(s, i) == (match rewrite_from(s, i + 2) {
            None => None::<Seq<char>>,
            Some(r) => Some(seq!['}', '}'] + r),
        }),
{
}

/// Law (round trip, full escape): a styling parameter holding one directive
/// that resolves to some codes emits exactly the escape text the runtime
/// builder produces for a value with those codes: the introducer, the codes
/// under the separator discipline, and the terminator.
pub proof fn lemma_single_directive_param(s: Seq<char>, i: int, codes: Seq<u8>)
    requires
        0 <= i,
        i + 1 < s.len(),
        s[i] == '{',
        is_directive(s[i + 1]),
        find_delim(s, i + 2) < s.len(),
        s[find_delim(s, i + 2)] == '}',
        resolve_sgr(s[i + 1], s.subrange(i + 2, find_delim(s, i + 2))) == Some(codes),
    ensures
        param_spec(s, i) == Some(
            (escape_intro() + emit_codes(codes, true) + seq!['m'], find_delim(s, i + 2) + 1),
        ),
{
    let j = find_delim(s, i + 2);
    let head = emit_codes(codes, true);
    assert(segments_spec(s, i + 2, s[i + 1], None, true) == Some(
        (head + seq!['m'] + braced(None), j + 1),
    ));
    assert(head + seq!['m'] + braced(None) =~= head + seq!['m']);
    assert(escape_intro() + (head + seq!['m']) =~= escape_intro() + head + seq!['m']);
}

} // verus!