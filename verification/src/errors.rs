//! Per-tick error kinds. All are non-fatal: the offending tick is skipped
//! and processing continues with the rest of the batch.

use vstd::prelude::*;

verus! {

/// Why a single tick was rejected.
#[derive(Clone, Copy, Debug, PartialEq, Eq, Structural)]
pub enum EngineError {
    /// The pair symbol has no configured quote suffix, an empty base,
    /// or base equal to quote.
    InvalidSymbol,
    /// The price string is not a decimal numeral the engine can represent.
    InvalidPrice,
    /// The rate is not a positive finite rational.
    InvalidRate,
}

} // verus!
