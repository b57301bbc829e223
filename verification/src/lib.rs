//! Tokenizes Replicube Lua code and reports what each token costs.

pub mod bytes;
pub mod grammar;
pub mod laws;
pub mod lexer;
pub mod token;
pub mod tokenizer;
pub mod warning;

pub use token::{Token, TokenKind};
pub use tokenizer::{can_tokenize, tokenize};
pub use warning::Warning;
