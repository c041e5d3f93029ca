//! Reading ledger files and the files they include.

pub mod filesystem;
pub mod loader;
