//! Parsing of Japanese numerals written in the financial (daiji) style.
//!
//! A numeral is scanned from its least significant glyph; digit glyphs and
//! place markers are looked up in two caller-supplied tables and the digits
//! are laid out positionally, zero-filled where the numeral leaves a place
//! unwritten.

pub mod number_parts;
pub mod parser;
mod text;
