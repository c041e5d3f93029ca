pub mod numbers;
pub mod quant;
pub mod order;
pub mod decimal;
pub mod laws;
pub mod date;
pub mod period;
pub mod period_laws;
