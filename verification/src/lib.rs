//! A restricted Markdown-to-HTML converter: a block-level lexer splits a
//! document's lines into typed blocks, an inline-level lexer re-tokenizes the
//! text inside each block into a tree of inline elements, and each token
//! renders to a fixed HTML template.

pub mod block_lexer;
pub mod inline_lexer;
pub mod laws;
pub mod links;
pub mod text;
pub mod token;
