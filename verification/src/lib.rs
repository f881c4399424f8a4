//! A verified accounting engine over a stream of client transaction events.
//!
//! Deposits, withdrawals, disputes, resolutions and chargebacks addressed to
//! numbered client accounts are folded into a final balance snapshot per
//! client. The per-event state machine, the shared transaction ledger and the
//! per-client routing are all specified against a mathematical model and
//! proved, including exactness of the fixed-point balance arithmetic.

pub mod account;
pub mod engine;
pub mod errors;
pub mod laws;
pub mod ledger;
pub mod model;
pub mod records;
pub mod transactions;
