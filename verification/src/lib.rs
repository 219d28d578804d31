//! Tokenizer for lines of semicolon-separated operations.
//!
//! A line such as `set browser "firefox --private-window" ; open-in-browser`
//! is split into operations, each a non-empty list of tokens:
//! `[["set", "browser", "firefox --private-window"], ["open-in-browser"]]`.
//!
//! - `grammar` says, over sequences of characters, what the parse of a line
//!   is.
//! - `tokenizer` computes it.
//! - `laws` proves what holds of every parse, and `render` that an operation
//!   written out as a line is read back.
//! - `text` goes between strings and their characters.

pub mod grammar;
pub mod laws;
pub mod render;
pub mod text;
pub mod tokenizer;

pub use grammar::ParseError;
pub use tokenizer::tokenize_operation_sequence;
