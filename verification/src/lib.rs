//! Wide-table factor engine: period returns and rolling momentum over a
//! time-indexed panel of asset prices.
//!
//! The panel is a hand-built columnar store: one time column (integer time
//! keys, e.g. day numbers) and any number of asset columns holding exact
//! rational values or an undefined sentinel. Every transform is a pure
//! function from one immutable panel to a new one, specified down to the
//! exact cell values.

pub mod rational;
pub mod table;
pub mod wide_table;
pub mod factor;

pub use factor::FactorCalculator;
pub use rational::{Rat, Value};
pub use table::{ColData, Column, Table};
pub use wide_table::{FactorError, WideTable};
