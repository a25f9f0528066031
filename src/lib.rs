//! Reads whitespace-separated tokens, one at a time, from a text source.
pub mod scanner;
pub mod words;

pub use scanner::{ScanError, Scanner, TokenBuffer};
pub use words::split_tokens;
