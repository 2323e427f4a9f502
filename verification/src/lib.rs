//! Core of a small account-model blockchain node: account balances, signed
//! value-transfer transactions, deterministic block assembly, a content-addressed
//! chain log, and a crash-recoverable persistence layer.

pub mod abi;
pub mod accounts;
pub mod api;
pub mod blockchain;
pub mod clock;
pub mod codec;
pub mod crypto;
pub mod errors;
pub mod laws;
pub mod model;
pub mod store;
pub mod text;
