//! Generation of ANSI "Select Graphic Rendition" (SGR) escape sequences.
//!
//! Two entry points produce the same escape text: a static rewriter that
//! translates a styling mini-language embedded in literal text into raw
//! escape sequences ([`parse::parse_string`]), and a runtime builder that
//! composes escapes incrementally from typed style and color values
//! ([`writer::AnsiWriter`] together with [`discrete::DiscreteSGR`]).

pub mod codes;
pub mod discrete;
pub mod parse;
pub mod writer;
pub mod text;
