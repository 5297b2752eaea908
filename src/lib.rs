//! A small dictionary widget's core: a parser for the word-list format and a
//! case-insensitive substring search over the parsed entries.
pub mod chars;
pub mod dictionary;
pub mod parser;
pub mod search;
pub mod text;
