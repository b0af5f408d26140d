//! The incremental escape builder: a writer accumulates one escape sequence
//! at a time through an explicit `escape` / `write_code` / `end` lifecycle,
//! inserting `;` before every code except the first of its escape.

use vstd::prelude::*;
use vstd::string::StringExecFns;
use crate::codes::{append_code, emit_codes, lemma_emit_codes_snoc};
use crate::text::push_char;

verus! {

/// The escape introducer `ESC [`.
pub open spec fn escape_intro() -> Seq<char> {
    seq!['\x1b', '[']
}

/// A byte sequence read as text, one character per byte.
pub open spec fn bytes_text(s: Seq<u8>) -> Seq<char> {
    s.map_values(|b: u8| b as char)
}

/// A sink that accumulates SGR escape sequences.
///
/// `sgr_out` is the text emitted so far and `sgr_first` says whether the next
/// code written would be the first of the escape now open.  Any sequence
/// `escape` / `write_code`* / `end` yields one well-formed escape with the
/// codes in call order, separated by `;`.
pub trait AnsiWriter: Sized {
    /// The text emitted so far.
    spec fn sgr_out(&self) -> Seq<char>;

    /// Whether the next code written is the first of its escape.
    spec fn sgr_first(&self) -> bool;

    /// Whether `escape` resets the separator state, or leaves it as it was
    /// set at construction.
    spec fn resets_on_escape() -> bool;

    /// Begins an escape sequence: emits the introducer `ESC [`.
    fn escape(&mut self)
        ensures
            final(self).sgr_out() == old(self).sgr_out() + escape_intro(),
            final(self).sgr_first() == (Self::resets_on_escape() || old(self).sgr_first()),
    ;

    /// Ends the escape sequence: emits the terminator `m`.
    fn end(&mut self)
        ensures
            final(self).sgr_out() == old(self).sgr_out().push('m'),
            final(self).sgr_first() == old(self).sgr_first(),
    ;

    /// Writes one code in decimal, preceded by `;` unless it is the first
    /// code of its escape.
    fn write_code(&mut self, code: u8)
        ensures
            final(self).sgr_out() == old(self).sgr_out() + emit_codes(
                seq![code],
                old(self).sgr_first(),
            ),
            final(self).sgr_first() == false,
    ;

    /// Writes each code in order, as `write_code` would.
    fn write_all(&mut self, codes: &[u8])
        ensures
            final(self).sgr_out() == old(self).sgr_out() + emit_codes(
                codes@,
                old(self).sgr_first(),
            ),
            final(self).sgr_first() == (old(self).sgr_first() && codes@.len() == 0),
    {
        let mut k: usize = 0;
        while k < codes.len()
            invariant
                k <= codes@.len(),
                self.sgr_out() == old(self).sgr_out() + emit_codes(
                    codes@.subrange(0, k as int),
                    old(self).sgr_first(),
                ),
                self.sgr_first() == (old(self).sgr_first() && k == 0),
            decreases codes@.len() - k,
        {
            self.write_code(codes[k]);
            proof {
                lemma_emit_codes_snoc(
                    codes@.subrange(0, k as int),
                    codes@[k as int],
                    old(self).sgr_first(),
                );
                assert(codes@.subrange(0, k as int).push(codes@[k as int]) =~= codes@.subrange(
                    0,
                    k as int + 1,
                ));
                assert(seq![codes@[k as int]].drop_first() =~= Seq::<u8>::empty());
                assert(seq![codes@[k as int]][0] == codes@[k as int]);
                assert(emit_codes(Seq::<u8>::empty(), false) == Seq::<char>::empty());
                assert(self.sgr_out() =~= old(self).sgr_out() + emit_codes(
                    codes@.subrange(0, k as int + 1),
                    old(self).sgr_first(),
                ));
            }
            k = k + 1;
        }
        assert(codes@.subrange(0, codes@.len() as int) =~= codes@);
    }
}

/// A builder over an in-memory text buffer.  Its separator state starts
/// fresh and `escape` resets it.
pub struct FmtWriter {
    writer: String,
    first_write: bool,
}

impl FmtWriter {
    /// Wraps a text buffer; what is emitted is appended to it.
    pub fn new(writer: String) -> (r: FmtWriter)
        ensures
            r.sgr_out() == writer@,
            r.sgr_first() == true,
    {
        FmtWriter { writer, first_write: true }
    }

    /// Appends literal text, leaving the separator state alone.
    pub fn write_str(&mut self, s: &str)
        ensures
            final(self).sgr_out() == old(self).sgr_out() + s@,
            final(self).sgr_first() == old(self).sgr_first(),
    {
        self.writer.append(s);
    }

    /// The accumulated text.
    pub fn into_inner(self) -> (r: String)
        ensures
            r@ == self.sgr_out(),
    {
        self.writer
    }
}

impl AnsiWriter for FmtWriter {
    closed spec fn sgr_out(&self) -> Seq<char> {
        self.writer@
    }

    closed spec fn sgr_first(&self) -> bool {
        self.first_write
    }

    open spec fn resets_on_escape() -> bool {
        true
    }

    fn escape(&mut self) {
        self.first_write = true;
        push_char(&mut self.writer, '\x1b');
        push_char(&mut self.writer, '[');
        assert(self.writer@ =~= old(self).writer@ + escape_intro());
    }

    fn end(&mut self) {
        push_char(&mut self.writer, 'm');
    }

    fn write_code(&mut self, code: u8) {
        let ghost first0 = self.first_write;
        let ghost out0 = self.writer@;
        if self.first_write {
            self.first_write = false;
        } else {
            push_char(&mut self.writer, ';');
        }
        append_code(&mut self.writer, code);
        proof {
            assert(seq![code].drop_first() =~= Seq::<u8>::empty());
            assert(seq![code][0] == code);
            assert(emit_codes(Seq::<u8>::empty(), false) == Seq::<char>::empty());
            assert(self.writer@ =~= out0 + emit_codes(seq![code], first0));
        }
    }
}

/// A builder over a byte buffer.  Its separator state is set at
/// construction and `escape` leaves it as it is.
pub struct IoWriter {
    writer: Vec<u8>,
    first_write: bool,
}

impl IoWriter {
    /// Wraps a byte buffer; `first_write` says whether the next code written
    /// counts as the first of its escape.
    pub fn new(writer: Vec<u8>, first_write: bool) -> (r: IoWriter)
        ensures
            r.sgr_out() == bytes_text(writer@),
            r.sgr_first() == first_write,
    {
        IoWriter { writer, first_write }
    }

    /// Appends raw bytes, leaving the separator state alone.
    pub fn write(&mut self, buf: &[u8]) -> (r: usize)
        ensures
            final(self).sgr_out() == old(self).sgr_out() + bytes_text(buf@),
            final(self).sgr_first() == old(self).sgr_first(),
            r == buf@.len(),
    {
        let mut k: usize = 0;
        while k < buf.len()
            invariant
                k <= buf@.len(),
                self.first_write == old(self).first_write,
                self.writer@ == old(self).writer@ + buf@.subrange(0, k as int),
            decreases buf@.len() - k,
        {
            self.writer.push(buf[k]);
            assert(self.writer@ =~= old(self).writer@ + buf@.subrange(0, k as int + 1));
            k = k + 1;
        }
        assert(buf@.subrange(0, buf@.len() as int) =~= buf@);
        assert(bytes_text(self.writer@) =~= bytes_text(old(self).writer@) + bytes_text(buf@));
        buf.len()
    }

    /// Nothing is buffered beyond the byte buffer itself.
    pub fn flush(&mut self)
        ensures
            *final(self) == *old(self),
    {
    }

    /// The accumulated bytes.
    pub fn into_inner(self) -> (r: Vec<u8>)
        ensures
            bytes_text(r@) == self.sgr_out(),
    {
        self.writer
    }
}

impl AnsiWriter for IoWriter {
    closed spec fn sgr_out(&self) -> Seq<char> {
        bytes_text(self.writer@)
    }

    closed spec fn sgr_first(&self) -> bool {
        self.first_write
    }

    open spec fn resets_on_escape() -> bool {
        false
    }

    fn escape(&mut self) {
        self.writer.push(27);
        self.writer.push(91);
        assert(bytes_text(self.writer@) =~= bytes_text(old(self).writer@) + escape_intro());
    }

    fn end(&mut self) {
        self.writer.push(109);
        assert(bytes_text(self.writer@) =~= bytes_text(old(self).writer@).push('m'));
    }

    fn write_code(&mut self, code: u8) {
        let ghost first0 = self.first_write;
        let ghost out0 = bytes_text(self.writer@);
        if self.first_write {
            self.first_write = false;
        } else {
            self.writer.push(59);
        }
        if code >= 100 {
            self.writer.push(48 + code / 100);
            self.writer.push(48 + (code / 10) % 10);
            self.writer.push(48 + code % 10);
        } else if code >= 10 {
            self.writer.push(48 + code / 10);
            self.writer.push(48 + code % 10);
        } else {
            self.writer.push(48 + code);
        }
        proof {
            assert(seq![code].drop_first() =~= Seq::<u8>::empty());
            assert(seq![code][0] == code);
            assert(emit_codes(Seq::<u8>::empty(), false) == Seq::<char>::empty());
            assert(bytes_text(self.writer@) =~= out0 + emit_codes(seq![code], first0));
        }
    }
}

} // verus!

