//! Stateless facade over the two transforms: a stable, narrow entry surface
//! that adds no logic of its own.

use vstd::prelude::*;
use crate::wide_table::{FactorError, WideTable, spec_momentum, spec_returns};

verus! {

/// Factor calculator: pass-through API over `WideTable`.
pub struct FactorCalculator;

impl FactorCalculator {
    /// Momentum factor of `table` over a trailing window of `periods` rows;
    /// delegates to `WideTable::momentum`.
    pub fn calculate_momentum(table: &WideTable, periods: i32) -> (r: Result<
        WideTable,
        FactorError,
    >)
        requires
            table.wf(),
            1 <= periods,
        ensures
            r is Ok,
            r.unwrap().time_col@ == table.time_col@,
            r.unwrap().df@ == spec_momentum(table.df@, table.time_col@, periods as int),
            r.unwrap().wf(),
    {
        table.momentum(periods)
    }

    /// Period returns of `table` over `periods` rows; delegates to
    /// `WideTable::pct_change`.
    pub fn calculate_returns(table: &WideTable, periods: i32) -> (r: Result<
        WideTable,
        FactorError,
    >)
        requires
            table.wf(),
            1 <= periods,
        ensures
            r is Ok,
            r.unwrap().time_col@ == table.time_col@,
            r.unwrap().df@ == spec_returns(table.df@, table.time_col@, periods as int),
            r.unwrap().wf(),
    {
        table.pct_change(periods)
    }
}

} // verus!
