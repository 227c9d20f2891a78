//! A payments transaction processor: a fixed-point money type, per-client
//! accounts with a balance invariant, and an engine that routes deposits,
//! withdrawals and the dispute lifecycle through a transaction index.

pub mod account;
pub mod decimal;
pub mod engine;
pub mod transaction;

pub use account::ClientAccount;
pub use decimal::Decimal4;
pub use engine::PaymentsEngine;
pub use transaction::{ParsedTransaction, StoredTransaction, TransactionRecord, TxKind};
