//! The closed set of failures the engine reports.

use vstd::prelude::*;
use crate::binary64::Binary64;

verus! {

/// Why a triple was not built, or a distance not asked for. Every failure is
/// a returned value; the numbers it carries are the ones that were judged.
#[derive(Clone, Copy, Debug, PartialEq, Eq, Structural)]
pub enum ConnesError {
    /// The matrix has `rows` rows and `cols` columns, and they differ; or a
    /// chain of `rows` states was given a stationary distribution of `cols`
    /// entries.
    NotSquare { rows: usize, cols: usize },
    /// Some row of a generator does not sum to zero within the tolerance;
    /// `max_abs` is the largest absolute row sum, or the NaN where a row
    /// sum is one.
    RowSumsNotZero { max_abs: Binary64 },
    /// Some row of a transition matrix does not sum to one within the
    /// tolerance; `max_abs` is the largest absolute deviation, or the NaN
    /// where a deviation is one.
    RowSumsNotOne { max_abs: Binary64 },
    /// Some entry of the stationary distribution does not lie above zero.
    StationaryNonPositive,
    /// The stationary distribution sums to `sum`, which is not within the
    /// tolerance of one.
    StationaryNotNormalized { sum: Binary64 },
    /// The regularization parameter does not lie above zero.
    NonPositiveEpsilon(Binary64),
    /// The state `idx` does not exist in a chain of `n` states.
    StateOutOfRange { idx: usize, n: usize },
}

} // verus!
