//! A greedy tokenizer: splits a text into identifier/number runs, quoted
//! literals and keywords, where the keywords are recognized by a prefix
//! trie built once from the keyword set.  Whitespace separates tokens and
//! is never yielded.  Scanning stops at the first position where no
//! recognizer matches, and the failure offset is reported as the final item.

pub mod chars;
pub mod scanner;
pub mod state;

pub use crate::scanner::TokenIterator;
pub use crate::scanner::Tokenizer;
pub use crate::state::State;

