//! The typed style and color values of the runtime path, and the laws tying
//! them to the static keyword tables: a value's code sequence is exactly what
//! the mini-language resolves its keyword (or parametric literal) to.

use vstd::prelude::*;
use crate::codes::{
    color_spec, comma_pred, dec_list_spec, dec_of, dec_u8_spec, emit_codes, find_comma,
    hex_bytes_spec, hex_of, lemma_dec_of_value, lemma_hex_of_value, resolve_sgr,
    simple_color_spec,
};
use crate::text::{is_dec_digit, lemma_scan};
use crate::writer::{escape_intro, AnsiWriter, FmtWriter};

verus! {

/// A symbolic SGR style: the codes 0 to 9 that switch a rendition on, and
/// the `Not` forms, codes 22 to 29, that switch it off.  `NotBold` and
/// `NotDim` share the code 22.
#[derive(Debug, Clone)]
pub enum Style {
    Reset,
    Bold,
    Dim,
    Italic,
    Underline,
    Blinking,
    Inverse,
    Hidden,
    Strikethrough,
    NotBold,
    NotDim,
    NotItalic,
    NotUnderline,
    NotBlinking,
    NotInverse,
    NotHidden,
    NotStrikethrough,
}

/// The single code of a style.
pub open spec fn style_code(s: Style) -> u8 {
    match s {
        Style::Reset => 0u8,
        Style::Bold => 1u8,
        Style::Dim => 2u8,
        Style::Italic => 3u8,
        Style::Underline => 4u8,
        Style::Blinking => 5u8,
        Style::Inverse => 7u8,
        Style::Hidden => 8u8,
        Style::Strikethrough => 9u8,
        Style::NotBold => 22u8,
        Style::NotDim => 22u8,
        Style::NotItalic => 23u8,
        Style::NotUnderline => 24u8,
        Style::NotBlinking => 25u8,
        Style::NotInverse => 27u8,
        Style::NotHidden => 28u8,
        Style::NotStrikethrough => 29u8,
    }
}

/// A symbolic SGR color: the eight named foreground and background colors,
/// the defaults, an indexed 8-bit color and a 24-bit color, each for
/// foreground (mode 38) and background (mode 48).
#[derive(Debug, Clone)]
pub enum Color {
    BlackFg,
    RedFg,
    GreenFg,
    YellowFg,
    BlueFg,
    MagentaFg,
    CyanFg,
    WhiteFg,
    ByteFg(u8),
    RgbFg(u8, u8, u8),
    DefaultFg,
    BlackBg,
    RedBg,
    GreenBg,
    YellowBg,
    BlueBg,
    MagentaBg,
    CyanBg,
    WhiteBg,
    ByteBg(u8),
    RgbBg(u8, u8, u8),
    DefaultBg,
}

/// The code sequence of a color: one fixed code for a named color, the mode
/// code and `5;<n>` for an indexed color, the mode code and `2;<r>;<g>;<b>`
/// for a 24-bit color.
pub open spec fn color_codes(c: Color) -> Seq<u8> {
    match c {
        Color::BlackFg => seq![30u8],
        Color::RedFg => seq![31u8],
        Color::GreenFg => seq![32u8],
        Color::YellowFg => seq![33u8],
        Color::BlueFg => seq![34u8],
        Color::MagentaFg => seq![35u8],
        Color::CyanFg => seq![36u8],
        Color::WhiteFg => seq![37u8],
        Color::ByteFg(n) => seq![38u8, 5u8, n],
        Color::RgbFg(r, g, b) => seq![38u8, 2u8, r, g, b],
        Color::DefaultFg => seq![39u8],
        Color::BlackBg => seq![40u8],
        Color::RedBg => seq![41u8],
        Color::GreenBg => seq![42u8],
        Color::YellowBg => seq![43u8],
        Color::BlueBg => seq![44u8],
        Color::MagentaBg => seq![45u8],
        Color::CyanBg => seq![46u8],
        Color::WhiteBg => seq![47u8],
        Color::ByteBg(n) => seq![48u8, 5u8, n],
        Color::RgbBg(r, g, b) => seq![48u8, 2u8, r, g, b],
        Color::DefaultBg => seq![49u8],
    }
}

/// SGR values written as one run of codes inside an escape the writer opens
/// and closes around them.
pub trait DiscreteSGR: Sized {
    /// The code sequence of the value.
    spec fn sgr_codes(&self) -> Seq<u8>;

    /// Pushes the value's codes into the writer's open escape.
    fn write<W: AnsiWriter>(&self, writer: &mut W)
        ensures
            final(writer).sgr_out() == old(writer).sgr_out() + emit_codes(
                self.sgr_codes(),
                old(writer).sgr_first(),
            ),
            final(writer).sgr_first() == (old(writer).sgr_first() && self.sgr_codes().len() == 0),
    ;

    /// The value's complete escape sequence as text.
    fn standard_display(&self) -> (r: String)
        ensures
            r@ == escape_intro() + emit_codes(self.sgr_codes(), true) + seq!['m'],
    {
        let mut w = FmtWriter::new(String::new());
        w.escape();
        self.write(&mut w);
        w.end();
        let out = w.into_inner();
        proof {
            assert(out@ =~= escape_intro() + emit_codes(self.sgr_codes(), true) + seq!['m']);
        }
        out
    }
}

impl DiscreteSGR for Style {
    open spec fn sgr_codes(&self) -> Seq<u8> {
        seq![style_code(*self)]
    }

    fn write<W: AnsiWriter>(&self, writer: &mut W) {
        let code: u8 = match self {
            Style::Reset => 0,
            Style::Bold => 1,
            Style::Dim => 2,
            Style::Italic => 3,
            Style::Underline => 4,
            Style::Blinking => 5,
            Style::Inverse => 7,
            Style::Hidden => 8,
            Style::Strikethrough => 9,
            Style::NotBold => 22,
            Style::NotDim => 22,
            Style::NotItalic => 23,
            Style::NotUnderline => 24,
            Style::NotBlinking => 25,
            Style::NotInverse => 27,
            Style::NotHidden => 28,
            Style::NotStrikethrough => 29,
        };
        writer.write_code(code);
    }
}

impl DiscreteSGR for Color {
    open spec fn sgr_codes(&self) -> Seq<u8> {
        color_codes(*self)
    }

    fn write<W: AnsiWriter>(&self, writer: &mut W) {
        match self {
            Color::BlackFg => writer.write_code(30),
            Color::RedFg => writer.write_code(31),
            Color::GreenFg => writer.write_code(32),
            Color::YellowFg => writer.write_code(33),
            Color::BlueFg => writer.write_code(34),
            Color::MagentaFg => writer.write_code(35),
            Color::CyanFg => writer.write_code(36),
            Color::WhiteFg => writer.write_code(37),
            Color::ByteFg(n) => {
                let mut codes: Vec<u8> = Vec::new();
                codes.push(38);
                codes.push(5);
                codes.push(*n);
                assert(codes@ =~= color_codes(*self));
                writer.write_all(codes.as_slice());
            },
            Color::RgbFg(r, g, b) => {
                let mut codes: Vec<u8> = Vec::new();
                codes.push(38);
                codes.push(2);
                codes.push(*r);
                codes.push(*g);
                codes.push(*b);
                assert(codes@ =~= color_codes(*self));
                writer.write_all(codes.as_slice());
            },
            Color::DefaultFg => writer.write_code(39),
            Color::BlackBg => writer.write_code(40),
            Color::RedBg => writer.write_code(41),
            Color::GreenBg => writer.write_code(42),
            Color::YellowBg => writer.write_code(43),
            Color::BlueBg => writer.write_code(44),
            Color::MagentaBg => writer.write_code(45),
            Color::CyanBg => writer.write_code(46),
            Color::WhiteBg => writer.write_code(47),
            Color::ByteBg(n) => {
                let mut codes: Vec<u8> = Vec::new();
                codes.push(48);
                codes.push(5);
                codes.push(*n);
                assert(codes@ =~= color_codes(*self));
                writer.write_all(codes.as_slice());
            },
            Color::RgbBg(r, g, b) => {
                let mut codes: Vec<u8> = Vec::new();
                codes.push(48);
                codes.push(2);
                codes.push(*r);
                codes.push(*g);
                codes.push(*b);
                assert(codes@ =~= color_codes(*self));
                writer.write_all(codes.as_slice());
            },
            Color::DefaultBg => writer.write_code(49),
        }
    }
}

/// A value written without the writer opening or closing an escape around
/// it, for callers that compose several values into one escape.
pub trait PartialSGR: Sized {
    /// The code sequence of the value.
    spec fn partial_codes(&self) -> Seq<u8>;

    /// Pushes the value's codes into the writer's open escape.
    fn write<W: AnsiWriter>(&self, writer: &mut W)
        ensures
            final(writer).sgr_out() == old(writer).sgr_out() + emit_codes(
                self.partial_codes(),
                old(writer).sgr_first(),
            ),
            final(writer).sgr_first() == (old(writer).sgr_first() && self.partial_codes().len()
                == 0),
    ;

    /// The value's codes wrapped in one escape, as text.
    fn standard_display(&self) -> (r: String)
        ensures
            r@ == escape_intro() + emit_codes(self.partial_codes(), true) + seq!['m'],
    {
        let mut w = FmtWriter::new(String::new());
        w.escape();
        self.write(&mut w);
        w.end();
        let out = w.into_inner();
        proof {
            assert(out@ =~= escape_intro() + emit_codes(self.partial_codes(), true) + seq!['m']);
        }
        out
    }
}

impl<D: DiscreteSGR> PartialSGR for D {
    open spec fn partial_codes(&self) -> Seq<u8> {
        self.sgr_codes()
    }

    fn write<W: AnsiWriter>(&self, writer: &mut W) {
        DiscreteSGR::write(self, writer)
    }
}

/// Whether a style is a remove form, resolved through the remove table.
pub open spec fn style_is_remove(s: Style) -> bool {
    match s {
        Style::NotBold | Style::NotDim | Style::NotItalic | Style::NotUnderline
            | Style::NotBlinking | Style::NotInverse | Style::NotHidden
            | Style::NotStrikethrough => true,
        _ => false,
    }
}

/// The mini-language keyword of a style; a remove form uses the bare name
/// behind the `-` delimiter.
pub open spec fn style_keyword(s: Style) -> Seq<char> {
    match s {
        Style::Reset => "Reset"@,
        Style::Bold => "Bold"@,
        Style::Dim => "Dim"@,
        Style::Italic => "Italic"@,
        Style::Underline => "Underline"@,
        Style::Blinking => "Blinking"@,
        Style::Inverse => "Inverse"@,
        Style::Hidden => "Hidden"@,
        Style::Strikethrough => "Strikethrough"@,
        Style::NotBold => "Bold"@,
        Style::NotDim => "Dim"@,
        Style::NotItalic => "Italic"@,
        Style::NotUnderline => "Underline"@,
        Style::NotBlinking => "Blinking"@,
        Style::NotInverse => "Inverse"@,
        Style::NotHidden => "Hidden"@,
        Style::NotStrikethrough => "Strikethrough"@,
    }
}

proof fn lemma_style_literals()
    ensures
        "Reset"@.len() == 5,
        "Bold"@.len() == 4,
        "Dim"@.len() == 3,
        "Italic"@.len() == 6,
        "Underline"@.len() == 9,
        "Blinking"@.len() == 8,
        "Inverse"@.len() == 7,
        "Hidden"@.len() == 6,
        "Strikethrough"@.len() == 13,
        "Italic"@[0] == 'I',
        "Hidden"@[0] == 'H',
{
    reveal_strlit("Reset");
    reveal_strlit("Bold");
    reveal_strlit("Dim");
    reveal_strlit("Italic");
    reveal_strlit("Underline");
    reveal_strlit("Blinking");
    reveal_strlit("Inverse");
    reveal_strlit("Hidden");
    reveal_strlit("Strikethrough");
}

/// Law (round trip): resolving a style's keyword through the table of its
/// form - add for the plain styles, remove for the `Not` forms - gives
/// exactly the single code the runtime value writes.
pub proof fn lemma_style_roundtrip(st: Style)
    ensures
        resolve_sgr(
            if style_is_remove(st) {
                '-'
            } else {
                '+'
            },
            style_keyword(st),
        ) == Some(seq![style_code(st)]),
{
    lemma_style_literals();
}

/// Whether a color is one of the named (non-parametric) colors.
pub open spec fn color_is_named(c: Color) -> bool {
    match c {
        Color::ByteFg(_) | Color::RgbFg(_, _, _) | Color::ByteBg(_) | Color::RgbBg(_, _, _) =>
            false,
        _ => true,
    }
}

/// The mini-language keyword of a named color.
pub open spec fn color_keyword(c: Color) -> Seq<char> {
    match c {
        Color::BlackFg => "BlackFg"@,
        Color::RedFg => "RedFg"@,
        Color::GreenFg => "GreenFg"@,
        Color::YellowFg => "YellowFg"@,
        Color::BlueFg => "BlueFg"@,
        Color::MagentaFg => "MagentaFg"@,
        Color::CyanFg => "CyanFg"@,
        Color::WhiteFg => "WhiteFg"@,
        Color::DefaultFg => "DefaultFg"@,
        Color::BlackBg => "BlackBg"@,
        Color::RedBg => "RedBg"@,
        Color::GreenBg => "GreenBg"@,
        Color::YellowBg => "YellowBg"@,
        Color::BlueBg => "BlueBg"@,
        Color::MagentaBg => "MagentaBg"@,
        Color::CyanBg => "CyanBg"@,
        Color::WhiteBg => "WhiteBg"@,
        Color::DefaultBg => "DefaultBg"@,
        _ => Seq::empty(),
    }
}

proof fn lemma_color_literals()
    ensures
        "BlackFg"@.len() == 7 && "BlackFg"@[0] == 'B' && "BlackFg"@[5] == 'F' && "BlackFg"@[1]
            == 'l',
        "RedFg"@.len() == 5 && "RedFg"@[3] == 'F' && "RedFg"@[1] == 'e',
        "GreenFg"@.len() == 7 && "GreenFg"@[0] == 'G' && "GreenFg"@[5] == 'F' && "GreenFg"@[1]
            == 'r',
        "YellowFg"@.len() == 8 && "YellowFg"@[6] == 'F' && "YellowFg"@[1] == 'e',
        "BlueFg"@.len() == 6 && "BlueFg"@[0] == 'B' && "BlueFg"@[4] == 'F' && "BlueFg"@[1] == 'l',
        "MagentaFg"@.len() == 9 && "MagentaFg"@[0] == 'M' && "MagentaFg"@[7] == 'F'
            && "MagentaFg"@[1] == 'a',
        "CyanFg"@.len() == 6 && "CyanFg"@[0] == 'C' && "CyanFg"@[4] == 'F' && "CyanFg"@[1] == 'y',
        "WhiteFg"@.len() == 7 && "WhiteFg"@[0] == 'W' && "WhiteFg"@[5] == 'F' && "WhiteFg"@[1]
            == 'h',
        "DefaultFg"@.len() == 9 && "DefaultFg"@[0] == 'D' && "DefaultFg"@[7] == 'F'
            && "DefaultFg"@[1] == 'e',
        "BlackBg"@.len() == 7 && "BlackBg"@[0] == 'B' && "BlackBg"@[5] == 'B' && "BlackBg"@[1]
            == 'l',
        "RedBg"@.len() == 5 && "RedBg"@[3] == 'B' && "RedBg"@[1] == 'e',
        "GreenBg"@.len() == 7 && "GreenBg"@[0] == 'G' && "GreenBg"@[5] == 'B' && "GreenBg"@[1]
            == 'r',
        "YellowBg"@.len() == 8 && "YellowBg"@[6] == 'B' && "YellowBg"@[1] == 'e',
        "BlueBg"@.len() == 6 && "BlueBg"@[0] == 'B' && "BlueBg"@[4] == 'B' && "BlueBg"@[1] == 'l',
        "MagentaBg"@.len() == 9 && "MagentaBg"@[0] == 'M' && "MagentaBg"@[7] == 'B'
            && "MagentaBg"@[1] == 'a',
        "CyanBg"@.len() == 6 && "CyanBg"@[0] == 'C' && "CyanBg"@[4] == 'B' && "CyanBg"@[1] == 'y',
        "WhiteBg"@.len() == 7 && "WhiteBg"@[0] == 'W' && "WhiteBg"@[5] == 'B' && "WhiteBg"@[1]
            == 'h',
        "DefaultBg"@.len() == 9 && "DefaultBg"@[0] == 'D' && "DefaultBg"@[7] == 'B'
            && "DefaultBg"@[1] == 'e',
{
    reveal_strlit("BlackFg");
    reveal_strlit("RedFg");
    reveal_strlit("GreenFg");
    reveal_strlit("YellowFg");
    reveal_strlit("BlueFg");
    reveal_strlit("MagentaFg");
    reveal_strlit("CyanFg");
    reveal_strlit("WhiteFg");
    reveal_strlit("DefaultFg");
    reveal_strlit("BlackBg");
    reveal_strlit("RedBg");
    reveal_strlit("GreenBg");
    reveal_strlit("YellowBg");
    reveal_strlit("BlueBg");
    reveal_strlit("MagentaBg");
    reveal_strlit("CyanBg");
    reveal_strlit("WhiteBg");
    reveal_strlit("DefaultBg");
}

/// Law (round trip): resolving a named color's keyword through the color
/// table gives exactly the single code the runtime value writes.
pub proof fn lemma_color_roundtrip(c: Color)
    requires
        color_is_named(c),
    ensures
        resolve_sgr('#', color_keyword(c)) == Some(color_codes(c)),
{
    lemma_color_literals();
}

/// A parametric literal is never a named color: its second character is a
/// bracket, which no keyword has.
proof fn lemma_parametric_not_named(t: Seq<char>)
    requires
        t.len() >= 2,
        t[1] == '(' || t[1] == '[',
    ensures
        simple_color_spec(t) is None,
{
    lemma_color_literals();
}

/// The parenthesized decimal literal of an indexed color.
pub open spec fn byte_literal(n: u8, bg: bool) -> Seq<char> {
    seq![
        if bg {
            'b'
        } else {
            'f'
        },
        '(',
    ] + dec_of(n) + seq![')']
}

/// Law (round trip): the decimal indexed-color literal built from a byte
/// resolves to exactly the runtime codes of the indexed color with that
/// byte.
pub proof fn lemma_color_byte_roundtrip(n: u8, bg: bool)
    ensures
        color_spec(byte_literal(n, bg)) == Some(
            color_codes(
                if bg {
                    Color::ByteBg(n)
                } else {
                    Color::ByteFg(n)
                },
            ),
        ),
{
    lemma_dec_of_value(n);
    let t = byte_literal(n, bg);
    let d = dec_of(n);
    assert(t.len() == 3 + d.len());
    assert(t[1] == '(');
    assert(t.last() == ')');
    lemma_parametric_not_named(t);
    let inner = t.subrange(2, t.len() - 1);
    assert(inner =~= d);
    assert(find_comma(d, 0) == d.len()) by {
        lemma_scan(d, 0, comma_pred());
        if find_comma(d, 0) < d.len() {
            assert(is_dec_digit(d[find_comma(d, 0)]));
            assert(d[find_comma(d, 0)] == ',');
        }
    }
    assert(d.subrange(0, d.len() as int) =~= d);
    assert(dec_u8_spec(d) == Some(n));
    assert(dec_list_spec(d, 0) == Some(seq![n]));
}

/// The parenthesized decimal literal of a 24-bit color.
pub open spec fn rgb_literal(r: u8, g: u8, b: u8, bg: bool) -> Seq<char> {
    seq![
        if bg {
            'b'
        } else {
            'f'
        },
        '(',
    ] + dec_of(r) + seq![','] + dec_of(g) + seq![','] + dec_of(b) + seq![')']
}

/// Law (round trip): the decimal 24-bit color literal built from three
/// bytes resolves to exactly the runtime codes of the 24-bit color with
/// those bytes.
#[verifier::rlimit(60)]
pub proof fn lemma_color_rgb_roundtrip(r: u8, g: u8, b: u8, bg: bool)
    ensures
        color_spec(rgb_literal(r, g, b, bg)) == Some(
            color_codes(
                if bg {
                    Color::RgbBg(r, g, b)
                } else {
                    Color::RgbFg(r, g, b)
                },
            ),
        ),
{
    lemma_dec_of_value(r);
    lemma_dec_of_value(g);
    lemma_dec_of_value(b);
    let t = rgb_literal(r, g, b, bg);
    let inner = dec_of(r) + seq![','] + dec_of(g) + seq![','] + dec_of(b);
    let lr = dec_of(r).len() as int;
    let lg = dec_of(g).len() as int;
    let lb = dec_of(b).len() as int;
    assert(t.len() == 3 + inner.len());
    assert(t[1] == '(');
    assert(t.last() == ')');
    lemma_parametric_not_named(t);
    assert(t.subrange(2, t.len() - 1) =~= inner);
    assert(inner[lr] == ',');
    assert(inner[lr + 1 + lg] == ',');
    assert(forall|k: int| 0 <= k < lr ==> #[trigger] inner[k] == dec_of(r)[k]);
    assert(forall|k: int|
        lr + 1 <= k < lr + 1 + lg ==> #[trigger] inner[k] == dec_of(g)[k - (lr + 1)]);
    assert(forall|k: int|
        lr + lg + 2 <= k < inner.len() ==> #[trigger] inner[k] == dec_of(b)[k - (lr + lg + 2)]);
    let j1 = find_comma(inner, 0);
    assert(j1 == lr) by {
        lemma_scan(inner, 0, comma_pred());
        if j1 < lr {
            assert(is_dec_digit(inner[j1]));
            assert(inner[j1] == ',');
        } else if j1 > lr {
            assert(!comma_pred()(inner[lr]));
        }
    }
    assert(inner.subrange(0, lr) =~= dec_of(r));
    let j2 = find_comma(inner, lr + 1);
    assert(j2 == lr + 1 + lg) by {
        lemma_scan(inner, lr + 1, comma_pred());
        if j2 < lr + 1 + lg {
            assert(is_dec_digit(inner[j2]));
            assert(inner[j2] == ',');
        } else if j2 > lr + 1 + lg {
            assert(!comma_pred()(inner[lr + 1 + lg]));
        }
    }
    assert(inner.subrange(lr + 1, lr + 1 + lg) =~= dec_of(g));
    let pos3 = lr + lg + 2;
    let j3 = find_comma(inner, pos3);
    assert(j3 == inner.len()) by {
        lemma_scan(inner, pos3, comma_pred());
        if j3 < inner.len() {
            assert(is_dec_digit(inner[j3]));
            assert(inner[j3] == ',');
        }
    }
    assert(inner.subrange(pos3, inner.len() as int) =~= dec_of(b));
    assert(dec_u8_spec(dec_of(r)) == Some(r));
    assert(dec_u8_spec(dec_of(g)) == Some(g));
    assert(dec_u8_spec(dec_of(b)) == Some(b));
    assert(dec_list_spec(inner, pos3) == Some(seq![b]));
    assert(dec_list_spec(inner, lr + 1) == Some(seq![g] + seq![b]));
    assert(dec_list_spec(inner, 0) == Some(seq![r] + (seq![g] + seq![b])));
    assert(seq![r] + (seq![g] + seq![b]) =~= seq![r, g, b]);
}

/// The bracketed hexadecimal literal of an indexed color.
pub open spec fn byte_hex_literal(n: u8, bg: bool) -> Seq<char> {
    seq![
        if bg {
            'b'
        } else {
            'f'
        },
        '[',
    ] + hex_of(n) + seq![']']
}

/// Law (round trip): the hexadecimal indexed-color literal built from a
/// byte resolves to exactly the runtime codes of the indexed color with
/// that byte.
pub proof fn lemma_color_byte_hex_roundtrip(n: u8, bg: bool)
    ensures
        color_spec(byte_hex_literal(n, bg)) == Some(
            color_codes(
                if bg {
                    Color::ByteBg(n)
                } else {
                    Color::ByteFg(n)
                },
            ),
        ),
{
    lemma_hex_of_value(n);
    let t = byte_hex_literal(n, bg);
    assert(t.len() == 5);
    assert(t[1] == '[');
    assert(t.last() == ']');
    lemma_parametric_not_named(t);
    assert(t.subrange(2, t.len() - 1) =~= hex_of(n));
}

/// The bracketed hexadecimal literal of a 24-bit color.
pub open spec fn rgb_hex_literal(r: u8, g: u8, b: u8, bg: bool) -> Seq<char> {
    seq![
        if bg {
            'b'
        } else {
            'f'
        },
        '[',
    ] + hex_of(r) + hex_of(g) + hex_of(b) + seq![']']
}

/// Law (round trip): the hexadecimal 24-bit color literal built from three
/// bytes resolves to exactly the runtime codes of the 24-bit color with
/// those bytes.
pub proof fn lemma_color_rgb_hex_roundtrip(r: u8, g: u8, b: u8, bg: bool)
    ensures
        color_spec(rgb_hex_literal(r, g, b, bg)) == Some(
            color_codes(
                if bg {
                    Color::RgbBg(r, g, b)
                } else {
                    Color::RgbFg(r, g, b)
                },
            ),
        ),
{
    lemma_hex_of_value(r);
    lemma_hex_of_value(g);
    lemma_hex_of_value(b);
    let t = rgb_hex_literal(r, g, b, bg);
    assert(t.len() == 9);
    assert(t[1] == '[');
    assert(t.last() == ']');
    lemma_parametric_not_named(t);
    let inner = t.subrange(2, t.len() - 1);
    assert(inner =~= hex_of(r) + hex_of(g) + hex_of(b));
    assert(inner.subrange(0, 2) =~= hex_of(r));
    assert(inner.subrange(2, 4) =~= hex_of(g));
    assert(inner.subrange(4, 6) =~= hex_of(b));
    assert(hex_bytes_spec(inner.subrange(0, 2)) == Some(r));
    assert(hex_bytes_spec(inner.subrange(2, 4)) == Some(g));
    assert(hex_bytes_spec(inner.subrange(4, 6)) == Some(b));
}

} // verus!