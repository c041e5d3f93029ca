//! The ledger's source text and the lines it is made of.

pub mod source;
pub mod lexer;
pub mod rewrite;
pub mod readings;
