//! The persistence layer: the text format and the numerals it uses.

pub mod decimal;
pub mod file;
