//! A character-indexed prefix tree holding a vocabulary of words, with prefix
//! lookup and longest-known-prefix suggestions.

pub mod dictionary;
mod text;
pub mod trie;
pub mod words;

pub use dictionary::Dictionary;
pub use trie::Trie;
