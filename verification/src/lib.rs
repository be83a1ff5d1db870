//! A toy payments engine: it applies deposits, withdrawals, disputes,
//! resolutions and chargebacks to client accounts and reports their balances.

pub mod text;
pub mod requests;
pub mod engine;
pub mod cli;
pub mod laws;
