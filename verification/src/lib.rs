//! A per-client payments ledger: exact fixed-point money arithmetic,
//! validated transaction records, and an account state machine with a
//! three-step dispute lifecycle (dispute, then resolve or chargeback).

pub mod accounts;
pub mod input;
pub mod output;
pub mod simple_fp;
pub mod transaction;

pub use simple_fp::FixedPoint;
