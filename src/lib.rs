//! Formal grammars over single-character symbols: symbol sets, words, rule
//! tables, validated grammars and single-step rule application.

pub mod grammar;
pub mod laws;

pub use grammar::{Alphabet, Grammar, GrammarError, Productions, Word};
