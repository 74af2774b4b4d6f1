//! A personal ledger: fixed-point amounts, named budget breakdowns,
//! dated transactions, and an engine that distributes unallocated money
//! over prioritised monthly budget targets.

pub mod accounts;
pub mod amount;
pub mod args;
pub mod config;
pub mod contacts;
pub mod import;
pub mod income;
pub mod toml;
pub mod transactions;
