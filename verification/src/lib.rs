//! Ledr: a plain text accounting library, with exact rational arithmetic
//! and the text processing that reads and writes ledger files.

pub mod util;
pub mod text;
pub mod syntax;
pub mod ui;
pub mod reports;
pub mod diagnostics;
pub mod render;
pub mod input;
pub mod config;
pub mod parsing;
pub mod tidy;
pub mod tidy_shape;
pub mod gl;
