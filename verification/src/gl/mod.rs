//! The general ledger's exchange rates.

pub mod exchange_rates;
