//! Plain-text report layouts.

pub mod table;
pub mod check;
pub mod portfolio_reporter;
