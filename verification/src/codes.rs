//! The SGR code tables and the textual rendering of numeric codes: keyword
//! lookup for styles and colors, decimal rendering of a code, and the
//! separator discipline that joins the codes of one escape sequence.

use vstd::prelude::*;
use crate::text::{
    all_dec_digits, all_hex_digits, copy_range, dec_digit, digit_val, hex_digit, is_dec_digit,
    is_hex_digit, lemma_scan, lemma_scan_ge, lemma_seq_value_prefix, push_char, range_eq_str, scan,
    seq_value,
};

verus! {

broadcast use vstd::string::group_string_axioms;

/// The character for a single decimal digit value.
pub open spec fn dec_digit_char(d: int) -> char {
    (('0' as u32 + d) as u32) as char
}

/// Decimal rendering of a code: one to three digits, no leading zero.
pub open spec fn dec_of(n: u8) -> Seq<char> {
    if n >= 100 {
        seq![
            dec_digit_char(n as int / 100),
            dec_digit_char((n as int / 10) % 10),
            dec_digit_char(n as int % 10),
        ]
    } else if n >= 10 {
        seq![dec_digit_char(n as int / 10), dec_digit_char(n as int % 10)]
    } else {
        seq![dec_digit_char(n as int)]
    }
}

/// Appends the decimal rendering of `n` to `out`.
pub fn append_code(out: &mut String, n: u8)
    ensures
        final(out)@ == old(out)@ + dec_of(n),
{
    let ghost start = old(out)@;
    if n >= 100 {
        push_char(out, (48u8 + n / 100) as char);
        push_char(out, (48u8 + (n / 10) % 10) as char);
        push_char(out, (48u8 + n % 10) as char);
        assert(out@ =~= start + dec_of(n));
    } else if n >= 10 {
        push_char(out, (48u8 + n / 10) as char);
        push_char(out, (48u8 + n % 10) as char);
        assert(out@ =~= start + dec_of(n));
    } else {
        push_char(out, (48u8 + n) as char);
        assert(out@ =~= start + dec_of(n));
    }
}

/// Text of a run of codes inside one escape: codes joined by `;`, with a
/// leading `;` unless the first code of the run is the first of its escape.
pub open spec fn emit_codes(codes: Seq<u8>, first: bool) -> Seq<char>
    decreases codes.len(),
{
    if codes.len() == 0 {
        Seq::empty()
    } else {
        (if first {
            Seq::<char>::empty()
        } else {
            seq![';']
        }) + dec_of(codes[0]) + emit_codes(codes.drop_first(), false)
    }
}

pub proof fn lemma_emit_codes_snoc(codes: Seq<u8>, c: u8, first: bool)
    ensures
        emit_codes(codes.push(c), first) == emit_codes(codes, first) + (if first && codes.len()
            == 0 {
            Seq::<char>::empty()
        } else {
            seq![';']
        }) + dec_of(c),
    decreases codes.len(),
{
    if codes.len() == 0 {
        let s = codes.push(c);
        assert(s[0] == c);
        assert(s.drop_first() =~= Seq::<u8>::empty());
        assert(emit_codes(s.drop_first(), false) == Seq::<char>::empty());
        assert(emit_codes(codes, first) == Seq::<char>::empty());
        assert(emit_codes(s, first) == (if first {
            Seq::<char>::empty()
        } else {
            seq![';']
        }) + dec_of(c) + emit_codes(s.drop_first(), false));
        assert(emit_codes(s, first) =~= emit_codes(codes, first) + (if first {
            Seq::<char>::empty()
        } else {
            seq![';']
        }) + dec_of(c));
    } else {
        assert(codes.push(c).drop_first() =~= codes.drop_first().push(c));
        lemma_emit_codes_snoc(codes.drop_first(), c, false);
        assert(emit_codes(codes.push(c), first) =~= emit_codes(codes, first) + seq![';'] + dec_of(
            c,
        ));
    }
}

/// Appends the codes to `out` under the separator discipline, `first` saying
/// whether the first of them is the first code of its escape.
pub fn append_codes(out: &mut String, codes: &Vec<u8>, first: bool)
    ensures
        final(out)@ == old(out)@ + emit_codes(codes@, first),
{
    let mut k: usize = 0;
    while k < codes.len()
        invariant
            k <= codes@.len(),
            out@ == old(out)@ + emit_codes(codes@.subrange(0, k as int), first),
        decreases codes@.len() - k,
    {
        if !(first && k == 0) {
            push_char(out, ';');
        }
        append_code(out, codes[k]);
        proof {
            lemma_emit_codes_snoc(codes@.subrange(0, k as int), codes@[k as int], first);
            assert(codes@.subrange(0, k as int).push(codes@[k as int]) =~= codes@.subrange(
                0,
                k as int + 1,
            ));
            assert(out@ =~= old(out)@ + emit_codes(codes@.subrange(0, k as int + 1), first));
        }
        k = k + 1;
    }
    assert(codes@.subrange(0, codes@.len() as int) =~= codes@);
}

/// The add-style table: keyword to the code that switches the style on.
pub open spec fn add_style_spec(s: Seq<char>) -> Option<u8> {
    if s == "Reset"@ {
        Some(0u8)
    } else if s == "Bold"@ {
        Some(1u8)
    } else if s == "Dim"@ {
        Some(2u8)
    } else if s == "Italic"@ {
        Some(3u8)
    } else if s == "Underline"@ {
        Some(4u8)
    } else if s == "Blinking"@ {
        Some(5u8)
    } else if s == "Inverse"@ {
        Some(7u8)
    } else if s == "Hidden"@ {
        Some(8u8)
    } else if s == "Strikethrough"@ {
        Some(9u8)
    } else {
        None
    }
}

/// The remove-style table: keyword to the code that switches the style off.
/// `Bold` and `Dim` both remove to 22.
pub open spec fn sub_style_spec(s: Seq<char>) -> Option<u8> {
    if s == "Bold"@ || s == "Dim"@ {
        Some(22u8)
    } else if s == "Italic"@ {
        Some(23u8)
    } else if s == "Underline"@ {
        Some(24u8)
    } else if s == "Blinking"@ {
        Some(25u8)
    } else if s == "Inverse"@ {
        Some(27u8)
    } else if s == "Hidden"@ {
        Some(28u8)
    } else if s == "Strikethrough"@ {
        Some(29u8)
    } else {
        None
    }
}

/// The named-color table: keyword to its fixed single code.
pub open spec fn simple_color_spec(s: Seq<char>) -> Option<u8> {
    if s == "BlackFg"@ {
        Some(30u8)
    } else if s == "RedFg"@ {
        Some(31u8)
    } else if s == "GreenFg"@ {
        Some(32u8)
    } else if s == "YellowFg"@ {
        Some(33u8)
    } else if s == "BlueFg"@ {
        Some(34u8)
    } else if s == "MagentaFg"@ {
        Some(35u8)
    } else if s == "CyanFg"@ {
        Some(36u8)
    } else if s == "WhiteFg"@ {
        Some(37u8)
    } else if s == "DefaultFg"@ {
        Some(39u8)
    } else if s == "BlackBg"@ {
        Some(40u8)
    } else if s == "RedBg"@ {
        Some(41u8)
    } else if s == "GreenBg"@ {
        Some(42u8)
    } else if s == "YellowBg"@ {
        Some(43u8)
    } else if s == "BlueBg"@ {
        Some(44u8)
    } else if s == "MagentaBg"@ {
        Some(45u8)
    } else if s == "CyanBg"@ {
        Some(46u8)
    } else if s == "WhiteBg"@ {
        Some(47u8)
    } else if s == "DefaultBg"@ {
        Some(49u8)
    } else {
        None
    }
}

/// Looks up an add-style keyword held in `v[a..b]`.
pub fn parse_add_style(v: &Vec<char>, a: usize, b: usize) -> (r: Option<u8>)
    requires
        a <= b <= v@.len(),
    ensures
        r == add_style_spec(v@.subrange(a as int, b as int)),
{
    if range_eq_str(v, a, b, "Reset") {
        Some(0)
    } else if range_eq_str(v, a, b, "Bold") {
        Some(1)
    } else if range_eq_str(v, a, b, "Dim") {
        Some(2)
    } else if range_eq_str(v, a, b, "Italic") {
        Some(3)
    } else if range_eq_str(v, a, b, "Underline") {
        Some(4)
    } else if range_eq_str(v, a, b, "Blinking") {
        Some(5)
    } else if range_eq_str(v, a, b, "Inverse") {
        Some(7)
    } else if range_eq_str(v, a, b, "Hidden") {
        Some(8)
    } else if range_eq_str(v, a, b, "Strikethrough") {
        Some(9)
    } else {
        None
    }
}

/// Looks up a remove-style keyword held in `v[a..b]`.
pub fn parse_sub_style(v: &Vec<char>, a: usize, b: usize) -> (r: Option<u8>)
    requires
        a <= b <= v@.len(),
    ensures
        r == sub_style_spec(v@.subrange(a as int, b as int)),
{
    if range_eq_str(v, a, b, "Bold") || range_eq_str(v, a, b, "Dim") {
        Some(22)
    } else if range_eq_str(v, a, b, "Italic") {
        Some(23)
    } else if range_eq_str(v, a, b, "Underline") {
        Some(24)
    } else if range_eq_str(v, a, b, "Blinking") {
        Some(25)
    } else if range_eq_str(v, a, b, "Inverse") {
        Some(27)
    } else if range_eq_str(v, a, b, "Hidden") {
        Some(28)
    } else if range_eq_str(v, a, b, "Strikethrough") {
        Some(29)
    } else {
        None
    }
}

/// Looks up a named-color keyword held in `v[a..b]`.
pub fn parse_color_simple(v: &Vec<char>, a: usize, b: usize) -> (r: Option<u8>)
    requires
        a <= b <= v@.len(),
    ensures
        r == simple_color_spec(v@.subrange(a as int, b as int)),
{
    if range_eq_str(v, a, b, "BlackFg") {
        Some(30)
    } else if range_eq_str(v, a, b, "RedFg") {
        Some(31)
    } else if range_eq_str(v, a, b, "GreenFg") {
        Some(32)
    } else if range_eq_str(v, a, b, "YellowFg") {
        Some(33)
    } else if range_eq_str(v, a, b, "BlueFg") {
        Some(34)
    } else if range_eq_str(v, a, b, "MagentaFg") {
        Some(35)
    } else if range_eq_str(v, a, b, "CyanFg") {
        Some(36)
    } else if range_eq_str(v, a, b, "WhiteFg") {
        Some(37)
    } else if range_eq_str(v, a, b, "DefaultFg") {
        Some(39)
    } else if range_eq_str(v, a, b, "BlackBg") {
        Some(40)
    } else if range_eq_str(v, a, b, "RedBg") {
        Some(41)
    } else if range_eq_str(v, a, b, "GreenBg") {
        Some(42)
    } else if range_eq_str(v, a, b, "YellowBg") {
        Some(43)
    } else if range_eq_str(v, a, b, "BlueBg") {
        Some(44)
    } else if range_eq_str(v, a, b, "MagentaBg") {
        Some(45)
    } else if range_eq_str(v, a, b, "CyanBg") {
        Some(46)
    } else if range_eq_str(v, a, b, "WhiteBg") {
        Some(47)
    } else if range_eq_str(v, a, b, "DefaultBg") {
        Some(49)
    } else {
        None
    }
}

/// A non-empty run of decimal digits whose value fits in a byte.
pub open spec fn dec_u8_spec(t: Seq<char>) -> Option<u8> {
    if t.len() > 0 && all_dec_digits(t) && seq_value(t, 10) <= 255 {
        Some(seq_value(t, 10) as u8)
    } else {
        None
    }
}

/// A run of exactly `n` hexadecimal digits read as one base-16 number.
pub open spec fn hex_bytes_spec(t: Seq<char>) -> Option<u8> {
    if t.len() == 2 && all_hex_digits(t) {
        Some(seq_value(t, 16) as u8)
    } else {
        None
    }
}

/// Reads the decimal byte held in `v[a..b]`.
pub fn parse_dec_u8(v: &Vec<char>, a: usize, b: usize) -> (r: Option<u8>)
    requires
        a <= b <= v@.len(),
    ensures
        r == dec_u8_spec(v@.subrange(a as int, b as int)),
{
    let ghost t = v@.subrange(a as int, b as int);
    if a == b {
        return None;
    }
    let mut acc: u32 = 0;
    let mut k = a;
    while k < b
        invariant
            a <= k <= b <= v@.len(),
            t == v@.subrange(a as int, b as int),
            acc <= 255,
            acc == seq_value(t.subrange(0, k - a), 10),
            all_dec_digits(t.subrange(0, k - a)),
        decreases b - k,
    {
        match dec_digit(v[k]) {
            None => {
                assert(t[k - a] == v@[k as int]);
                return None;
            },
            Some(d) => {
                let na = acc * 10 + d as u32;
                proof {
                    assert(t.subrange(0, k - a + 1).drop_last() =~= t.subrange(0, k - a));
                    assert(t.subrange(0, k - a + 1).last() == v@[k as int]);
                }
                if na > 255 {
                    proof {
                        lemma_seq_value_prefix(t, k - a + 1, 10);
                    }
                    return None;
                }
                acc = na;
                k = k + 1;
            },
        }
    }
    proof {
        assert(t.subrange(0, (b - a) as int) =~= t);
    }
    Some(acc as u8)
}

/// Reads the two-digit hexadecimal byte held in `v[a..b]`.
pub fn parse_hex_u8(v: &Vec<char>, a: usize, b: usize) -> (r: Option<u8>)
    requires
        a <= b <= v@.len(),
    ensures
        r == hex_bytes_spec(v@.subrange(a as int, b as int)),
{
    let ghost t = v@.subrange(a as int, b as int);
    if b - a != 2 {
        return None;
    }
    let d1 = hex_digit(v[a]);
    let d2 = hex_digit(v[a + 1]);
    match (d1, d2) {
        (Some(h1), Some(h2)) => {
            let r: u8 = h1 * 16 + h2;
            proof {
                assert(t.drop_last() =~= seq![v@[a as int]]);
                assert(seq![v@[a as int]].drop_last() =~= Seq::<char>::empty());
                assert(seq_value(Seq::<char>::empty(), 16) == 0);
                assert(seq_value(seq![v@[a as int]], 16) == digit_val(v@[a as int]));
                assert(t.last() == v@[a as int + 1]);
                assert(seq_value(t, 16) == digit_val(v@[a as int]) * 16 + digit_val(
                    v@[a as int + 1],
                ));
            }
            Some(r)
        },
        _ => {
            proof {
                if hex_bytes_spec(t) is Some {
                    assert(is_hex_digit(t[0]) && is_hex_digit(t[1]));
                }
            }
            None
        },
    }
}

pub open spec fn comma_pred() -> spec_fn(char) -> bool {
    |c: char| c == ','
}

/// Index of the first comma at or after `pos`.
pub open spec fn find_comma(t: Seq<char>, pos: int) -> int {
    scan(t, pos, comma_pred())
}

/// The comma-separated decimal byte list held in `t` from `pos` on.
pub open spec fn dec_list_spec(t: Seq<char>, pos: int) -> Option<Seq<u8>>
    decreases t.len() - pos,
    via dec_list_spec_dec
{
    let j = find_comma(t, pos);
    match dec_u8_spec(t.subrange(pos, j)) {
        None => None,
        Some(n) => if j >= t.len() {
            Some(seq![n])
        } else {
            match dec_list_spec(t, j + 1) {
                None => None,
                Some(rest) => Some(seq![n] + rest),
            }
        },
    }
}

#[via_fn]
proof fn dec_list_spec_dec(t: Seq<char>, pos: int) {
    if pos <= t.len() {
        lemma_scan_ge(t, pos, comma_pred());
    }
}

/// Reads the comma-separated decimal byte list held in `v[a..b]`.
pub fn parse_dec_list(v: &Vec<char>, a: usize, b: usize) -> (r: Option<Vec<u8>>)
    requires
        a <= b <= v@.len(),
    ensures
        match r {
            Some(parts) => dec_list_spec(v@.subrange(a as int, b as int), 0) == Some(parts@),
            None => dec_list_spec(v@.subrange(a as int, b as int), 0) is None,
        },
{
    let inner = copy_range(v, a, b);
    let ghost t = inner@;
    let n = inner.len();
    let mut parts: Vec<u8> = Vec::new();
    let mut pos: usize = 0;
    loop
        invariant
            pos <= n == t.len(),
            t == v@.subrange(a as int, b as int),
            inner@ == t,
            match dec_list_spec(t, pos as int) {
                Some(rest) => dec_list_spec(t, 0) == Some(parts@ + rest),
                None => dec_list_spec(t, 0) is None,
            },
        decreases t.len() - pos,
    {
        let j = find_comma_exec(&inner, pos);
        match parse_dec_u8(&inner, pos, j) {
            None => {
                return None;
            },
            Some(x) => {
                let ghost parts0 = parts@;
                parts.push(x);
                if j >= n {
                    proof {
                        assert(dec_list_spec(t, pos as int) == Some(seq![x]));
                        assert(parts@ =~= parts0 + seq![x]);
                    }
                    return Some(parts);
                }
                proof {
                    match dec_list_spec(t, j + 1) {
                        Some(tail) => {
                            assert(dec_list_spec(t, pos as int) == Some(seq![x] + tail));
                            assert(parts0 + (seq![x] + tail) =~= parts@ + tail);
                        },
                        None => {
                            assert(dec_list_spec(t, pos as int) is None);
                        },
                    }
                }
                pos = j + 1;
            },
        }
    }
}

/// Index of the first comma in `v` at or after `pos`.
pub fn find_comma_exec(v: &Vec<char>, pos: usize) -> (r: usize)
    requires
        pos <= v@.len(),
    ensures
        r == find_comma(v@, pos as int),
        pos <= r <= v@.len(),
{
    proof {
        lemma_scan(v@, pos as int, comma_pred());
    }
    let mut k = pos;
    while k < v.len()
        invariant
            pos <= k <= v@.len(),
            find_comma(v@, pos as int) == find_comma(v@, k as int),
        decreases v@.len() - k,
    {
        if v[k] == ',' {
            return k;
        }
        k = k + 1;
    }
    k
}

/// The color table, names and parametric literals alike: the code sequence
/// for a `#` directive, `None` when the text is no color.
///
/// A name gives its fixed single code.  A parametric literal `f..`/`b..`
/// gives mode 38 (foreground) or 48 (background) followed by `5;<n>` for an
/// indexed color or `2;<r>;<g>;<b>` for a 24-bit color, the bytes written
/// either as a parenthesized decimal list or as a bracketed hex string.
pub open spec fn color_spec(t: Seq<char>) -> Option<Seq<u8>> {
    match simple_color_spec(t) {
        Some(c) => Some(seq![c]),
        None => if t.len() < 3 {
            None
        } else if t[0] != 'f' && t[0] != 'b' {
            None
        } else {
            let mode: u8 = if t[0] == 'f' {
                38u8
            } else {
                48u8
            };
            let inner = t.subrange(2, t.len() - 1);
            if t[1] == '(' && t.last() == ')' {
                match dec_list_spec(inner, 0) {
                    None => None,
                    Some(parts) => if parts.len() == 1 {
                        Some(seq![mode, 5u8, parts[0]])
                    } else if parts.len() == 3 {
                        Some(seq![mode, 2u8, parts[0], parts[1], parts[2]])
                    } else {
                        None
                    },
                }
            } else if t[1] == '[' && t.last() == ']' {
                if inner.len() == 2 {
                    match hex_bytes_spec(inner) {
                        None => None,
                        Some(x) => Some(seq![mode, 5u8, x]),
                    }
                } else if inner.len() == 6 {
                    match (hex_bytes_spec(inner.subrange(0, 2)), hex_bytes_spec(
                        inner.subrange(2, 4),
                    ), hex_bytes_spec(inner.subrange(4, 6))) {
                        (Some(x1), Some(x2), Some(x3)) => Some(seq![mode, 2u8, x1, x2, x3]),
                        _ => None,
                    }
                } else {
                    None
                }
            } else {
                None
            }
        },
    }
}

/// Resolves the color text held in `v[a..b]` to its code sequence.
pub fn parse_color(v: &Vec<char>, a: usize, b: usize) -> (r: Option<Vec<u8>>)
    requires
        a <= b <= v@.len(),
    ensures
        match r {
            Some(codes) => color_spec(v@.subrange(a as int, b as int)) == Some(codes@),
            None => color_spec(v@.subrange(a as int, b as int)) is None,
        },
{
    let ghost t = v@.subrange(a as int, b as int);
    match parse_color_simple(v, a, b) {
        Some(c) => {
            let mut codes: Vec<u8> = Vec::new();
            codes.push(c);
            assert(codes@ =~= seq![c]);
            return Some(codes);
        },
        None => {},
    }
    if b - a < 3 {
        return None;
    }
    let mode: u8;
    if v[a] == 'f' {
        mode = 38;
    } else if v[a] == 'b' {
        mode = 48;
    } else {
        return None;
    }
    proof {
        assert(t[0] == v@[a as int]);
        assert(t[1] == v@[a as int + 1]);
        assert(t.last() == v@[b as int - 1]);
        assert(t.subrange(2, t.len() - 1) =~= v@.subrange(a as int + 2, b as int - 1));
    }
    let left = v[a + 1];
    let right = v[b - 1];
    if left == '(' && right == ')' {
        match parse_dec_list(v, a + 2, b - 1) {
            None => None,
            Some(parts) => {
                if parts.len() == 1 {
                    let mut codes: Vec<u8> = Vec::new();
                    codes.push(mode);
                    codes.push(5);
                    codes.push(parts[0]);
                    assert(codes@ =~= seq![mode, 5u8, parts@[0]]);
                    Some(codes)
                } else if parts.len() == 3 {
                    let mut codes: Vec<u8> = Vec::new();
                    codes.push(mode);
                    codes.push(2);
                    codes.push(parts[0]);
                    codes.push(parts[1]);
                    codes.push(parts[2]);
                    assert(codes@ =~= seq![mode, 2u8, parts@[0], parts@[1], parts@[2]]);
                    Some(codes)
                } else {
                    None
                }
            },
        }
    } else if left == '[' && right == ']' {
        let ilen = (b - 1) - (a + 2);
        if ilen == 2 {
            match parse_hex_u8(v, a + 2, b - 1) {
                None => None,
                Some(x) => {
                    let mut codes: Vec<u8> = Vec::new();
                    codes.push(mode);
                    codes.push(5);
                    codes.push(x);
                    assert(codes@ =~= seq![mode, 5u8, x]);
                    Some(codes)
                },
            }
        } else if ilen == 6 {
            proof {
                let inner = t.subrange(2, t.len() - 1);
                assert(inner.subrange(0, 2) =~= v@.subrange(a as int + 2, a as int + 4));
                assert(inner.subrange(2, 4) =~= v@.subrange(a as int + 4, a as int + 6));
                assert(inner.subrange(4, 6) =~= v@.subrange(a as int + 6, a as int + 8));
            }
            let h1 = parse_hex_u8(v, a + 2, a + 4);
            let h2 = parse_hex_u8(v, a + 4, a + 6);
            let h3 = parse_hex_u8(v, a + 6, a + 8);
            match (h1, h2, h3) {
                (Some(x1), Some(x2), Some(x3)) => {
                    let mut codes: Vec<u8> = Vec::new();
                    codes.push(mode);
                    codes.push(2);
                    codes.push(x1);
                    codes.push(x2);
                    codes.push(x3);
                    assert(codes@ =~= seq![mode, 2u8, x1, x2, x3]);
                    Some(codes)
                },
                _ => None,
            }
        } else {
            None
        }
    } else {
        None
    }
}

/// Resolves one directive segment: `+` add-style, `-` remove-style,
/// `#` color; anything else resolves to nothing.
pub open spec fn resolve_sgr(d: char, t: Seq<char>) -> Option<Seq<u8>> {
    if d == '+' {
        match add_style_spec(t) {
            Some(c) => Some(seq![c]),
            None => None,
        }
    } else if d == '-' {
        match sub_style_spec(t) {
            Some(c) => Some(seq![c]),
            None => None,
        }
    } else if d == '#' {
        color_spec(t)
    } else {
        None
    }
}

/// Resolves the directive segment whose keyword is held in `v[a..b]`.
pub fn parse_sgr(d: char, v: &Vec<char>, a: usize, b: usize) -> (r: Option<Vec<u8>>)
    requires
        a <= b <= v@.len(),
    ensures
        match r {
            Some(codes) => resolve_sgr(d, v@.subrange(a as int, b as int)) == Some(codes@),
            None => resolve_sgr(d, v@.subrange(a as int, b as int)) is None,
        },
{
    if d == '+' {
        match parse_add_style(v, a, b) {
            Some(c) => {
                let mut codes: Vec<u8> = Vec::new();
                codes.push(c);
                assert(codes@ =~= seq![c]);
                Some(codes)
            },
            None => None,
        }
    } else if d == '-' {
        match parse_sub_style(v, a, b) {
            Some(c) => {
                let mut codes: Vec<u8> = Vec::new();
                codes.push(c);
                assert(codes@ =~= seq![c]);
                Some(codes)
            },
            None => None,
        }
    } else if d == '#' {
        parse_color(v, a, b)
    } else {
        None
    }
}

/// Law: a keyword has a remove-form exactly when it has an add-form other
/// than `Reset`, and then the remove code is the add code plus 20 — except
/// that `Bold`, whose add code is 1, removes to 22, the code `Dim` also
/// removes to.
pub proof fn lemma_add_sub_tables(k: Seq<char>)
    ensures
        sub_style_spec(k) is Some <==> (add_style_spec(k) is Some && add_style_spec(k) != Some(
            0u8,
        )),
        (sub_style_spec(k) is Some && add_style_spec(k) is Some) ==> sub_style_spec(k)->0 as int
            == (if add_style_spec(k)->0 == 1 {
            22int
        } else {
            add_style_spec(k)->0 + 20
        }),
{
    reveal_strlit("Reset");
    reveal_strlit("Bold");
    reveal_strlit("Dim");
    reveal_strlit("Italic");
    reveal_strlit("Underline");
    reveal_strlit("Blinking");
    reveal_strlit("Inverse");
    reveal_strlit("Hidden");
    reveal_strlit("Strikethrough");
    assert("Reset"@.len() == 5);
    assert("Bold"@.len() == 4);
    assert("Dim"@.len() == 3);
    assert("Italic"@.len() == 6);
    assert("Underline"@.len() == 9);
    assert("Blinking"@.len() == 8);
    assert("Inverse"@.len() == 7);
    assert("Hidden"@.len() == 6);
    assert("Strikethrough"@.len() == 13);
}

/// A rendered digit is a digit character with its value.
pub proof fn lemma_dec_digit_char(d: int)
    requires
        0 <= d <= 9,
    ensures
        is_dec_digit(dec_digit_char(d)),
        digit_val(dec_digit_char(d)) == d,
{
}

/// The decimal rendering of a byte consists of digits and reads back as the
/// same value.
pub proof fn lemma_dec_of_value(n: u8)
    ensures
        1 <= dec_of(n).len() <= 3,
        all_dec_digits(dec_of(n)),
        seq_value(dec_of(n), 10) == n,
{
    let t = dec_of(n);
    if n >= 100 {
        let d1 = n as int / 100;
        let d2 = (n as int / 10) % 10;
        let d3 = n as int % 10;
        lemma_dec_digit_char(d1);
        lemma_dec_digit_char(d2);
        lemma_dec_digit_char(d3);
        assert(t.drop_last() =~= seq![dec_digit_char(d1), dec_digit_char(d2)]);
        assert(seq![dec_digit_char(d1), dec_digit_char(d2)].drop_last() =~= seq![
            dec_digit_char(d1),
        ]);
        assert(seq![dec_digit_char(d1)].drop_last() =~= Seq::<char>::empty());
        assert(seq_value(Seq::<char>::empty(), 10) == 0);
        assert(seq_value(seq![dec_digit_char(d1)], 10) == d1);
        assert(seq_value(seq![dec_digit_char(d1), dec_digit_char(d2)], 10) == d1 * 10 + d2);
        assert(seq_value(t, 10) == (d1 * 10 + d2) * 10 + d3);
        assert((d1 * 10 + d2) * 10 + d3 == n);
    } else if n >= 10 {
        let d1 = n as int / 10;
        let d2 = n as int % 10;
        lemma_dec_digit_char(d1);
        lemma_dec_digit_char(d2);
        assert(t.drop_last() =~= seq![dec_digit_char(d1)]);
        assert(seq![dec_digit_char(d1)].drop_last() =~= Seq::<char>::empty());
        assert(seq_value(Seq::<char>::empty(), 10) == 0);
        assert(seq_value(seq![dec_digit_char(d1)], 10) == d1);
        assert(seq_value(t, 10) == d1 * 10 + d2);
    } else {
        lemma_dec_digit_char(n as int);
        assert(t.drop_last() =~= Seq::<char>::empty());
        assert(seq_value(Seq::<char>::empty(), 10) == 0);
    }
}

/// The character for a single hexadecimal digit value, lower case.
pub open spec fn hex_digit_char(d: int) -> char {
    if d < 10 {
        (('0' as u32 + d) as u32) as char
    } else {
        (('a' as u32 + (d - 10)) as u32) as char
    }
}

/// The two-digit lower-case hexadecimal rendering of a byte.
pub open spec fn hex_of(n: u8) -> Seq<char> {
    seq![hex_digit_char(n as int / 16), hex_digit_char(n as int % 16)]
}

/// A rendered hexadecimal digit is a hexadecimal digit character with its
/// value.
pub proof fn lemma_hex_digit_char(d: int)
    requires
        0 <= d <= 15,
    ensures
        is_hex_digit(hex_digit_char(d)),
        digit_val(hex_digit_char(d)) == d,
{
}

/// The hexadecimal rendering of a byte consists of hex digits and reads
/// back as the same value.
pub proof fn lemma_hex_of_value(n: u8)
    ensures
        hex_of(n).len() == 2,
        all_hex_digits(hex_of(n)),
        hex_bytes_spec(hex_of(n)) == Some(n),
{
    let t = hex_of(n);
    let d1 = n as int / 16;
    let d2 = n as int % 16;
    lemma_hex_digit_char(d1);
    lemma_hex_digit_char(d2);
    assert(t.drop_last() =~= seq![hex_digit_char(d1)]);
    assert(seq![hex_digit_char(d1)].drop_last() =~= Seq::<char>::empty());
    assert(seq_value(Seq::<char>::empty(), 16) == 0);
    assert(seq_value(seq![hex_digit_char(d1)], 16) == d1);
    assert(seq_value(t, 16) == d1 * 16 + d2);
}

} // verus!