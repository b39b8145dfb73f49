//! A tokenizer for a small language of words separated by single spaces:
//! keywords, identifiers, integer literals, operators, and string literals in
//! double quotes that may run over several words.
//!
//! [`Tokenizer::new`] cuts a source into words, [`Tokenizer::tokenize`] scans
//! them, and [`Tokenizer::tokens`] and [`Tokenizer::diagnostics`] hand out
//! what the scan found. A word that is no token is recorded and passed over:
//! one scan reports every problem of a source.
//!
//! `words` cuts texts, `grammar` holds the rules for single words, `scan`
//! says what a scan yields, word by word, and `laws` proves what holds of
//! every scan.

pub mod chars;
pub mod grammar;
pub mod laws;
pub mod lexer;
pub mod scan;
pub mod token;
pub mod words;

pub use crate::lexer::Tokenizer;
pub use crate::scan::ScanState;
pub use crate::token::{Diagnostic, Literal, Token, TokenType};
