//! Parsers for the numeral styles.

pub mod financial;
pub mod lemmas;
