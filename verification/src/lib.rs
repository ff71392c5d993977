//! A greedy, longest-match-first tokenizer for a small expression and
//! function-definition language.
//!
//! The scanner walks the input once. At each cursor position it skips a run
//! of ASCII spaces, then tries a fixed, ordered list of recognizers: the
//! operator and keyword vocabulary (two-character operators before their
//! one-character prefixes, keywords before the generic identifier), then an
//! identifier, then an unsigned integer literal. The first recognizer that
//! matches wins and the cursor advances past the matched text. When none
//! matches, the whole scan fails and reports the position and the unconsumed
//! remainder. A successful scan ends with a single end-of-input marker.

pub mod classify;
pub mod laws;
pub mod scan;
pub mod token;
pub mod tokenizer;

pub use token::SpecToken;
pub use token::Token;
pub use token::TokenizeError;
pub use tokenizer::IntegerParseError;
pub use tokenizer::Tokenizer;
pub use tokenizer::str_to_fromstr;
pub use tokenizer::tokenize;
