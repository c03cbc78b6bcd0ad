//! A time-decaying voting-power ledger.
//!
//! Accounts lock a fungible deposit for a bounded number of weekly periods
//! and receive voting power that decays linearly to zero at the lock's
//! expiry. The ledger answers "what was the voting power of an account, or
//! of the whole system, at period P" for any past or current period, while
//! locks are created, increased, extended, withdrawn and blacklisted. The
//! global total is maintained lazily: scheduled slope changes are absorbed
//! only when the ledger is touched, yet every expiry takes effect exactly
//! at the period it occurs.

pub mod assembly;
mod clock;
pub mod escrow;
pub mod fixed;
pub mod laws;
pub mod point;
pub mod schedule;
pub mod unlock;

pub use clock::get_period;
pub use clock::WEEK;
