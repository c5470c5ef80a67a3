//! Mortgage arithmetic in fixed point.
//!
//! Money amounts and interest rates are integers counting billionths
//! (nano-units) of a currency unit or of a rate of 1.0. Every function states
//! exactly which integer it returns, so rounding happens only where a contract
//! says it does: when an amount is rounded up to a whole cent, and when a
//! fixed-point product discards its sub-nano remainder.

pub mod currency;
pub mod fixed;
pub mod interest;
