//! A verified transaction-processing ledger.
//!
//! The library keeps per-client accounts and applies deposit, withdrawal,
//! dispute, resolve and chargeback events to them, enforcing the ledger
//! invariants (`total == available + held`, non-negative balances, disputes
//! only against settled transactions). It also decodes the delimiter-separated
//! record format that events arrive in, and computes the worker shard that
//! owns each client. All money is held in fixed-point minor units
//! (1/10000 of a whole unit), never in floating point.

pub mod dispatch;
pub mod model;
pub mod record;
