//! A lexer for a small S-expression language.
//!
//! Text is split into tokens: each `(` and `)` stands alone, and every other
//! maximal run of non-whitespace characters is one word. Whitespace (the
//! Unicode `White_Space` property) separates tokens and is dropped. Tokens are
//! slices borrowed from the input, not copies.
pub mod classify;
pub mod laws;
pub mod lexer;
pub mod model;
pub mod slices;

pub use classify::{is_parenthesis, is_whitespace, utf8_width};
pub use lexer::tokenize;
