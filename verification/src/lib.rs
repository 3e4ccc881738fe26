//! Spelling alphabets: turning text into the words of a spelling or phonetic
//! alphabet, such as `"abc"` into `Alpha`, `Bravo`, `Charlie`.
//!
//! An alphabet is a table from symbols to words. A symbol is mostly one
//! character, sometimes more: a digraph, or a number. A text is spelled by
//! matching it against the symbols from left to right, always taking the
//! longest symbol that fits.

pub mod alphabet;
pub mod catalog;
pub mod matching;
pub mod source;
pub mod table;
pub mod text;

pub use alphabet::{EmptyAlphabetError, Spelling, SpellingAlphabet};
pub use catalog::{validate_alphabet, AlphabetNotFoundError, AlphabetSource, LoadError};
