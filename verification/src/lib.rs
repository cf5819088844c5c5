//! Front end of a small expression language: a scanner that turns source text
//! into tokens, and a precedence-climbing parser that turns tokens into
//! statements. Every expression is stored flat, operands before their operator,
//! in a paged buffer that grows at both ends.
//!
//! - `utils` holds the buffers: `array_page_buffer` the paged buffer of the
//!   expressions, `buffer` and `u16vec` a small vector with its storage.
//! - `lexer` is the scanner, with the patterns of the language in `pattern`.
//! - `ast` holds the nodes, what makes a sequence of nodes a forest of trees
//!   (`forest`, `subtree`), and the traversal that reads it back
//!   (`traversal`).
//! - `parser` is the parser; `grammar` says what it makes of a token
//!   sequence, and `shape`, `origin`, `order` and `mirror` what holds of
//!   every outcome.

pub mod ast;
pub mod lexer;
pub mod parser;
pub mod utils;
