//! Reading what people type: names, currencies and amounts.

pub mod setup;
pub mod fuzzy;
pub mod expr;
pub mod quick;
pub mod history;
pub mod compose;
pub mod interactive;
pub mod arithmetic;
pub mod matching;
