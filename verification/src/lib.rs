//! One-dimensional cutting-stock solver: assigns every required cut to an
//! instance of a stock length so as to minimize total material, then waste,
//! then bin count, within a caller-given time budget. A fast best-fit
//! heuristic always produces a feasible assignment; a time-boxed, pruned,
//! memoized branch-and-bound search refines it when the budget allows.
//!
//! All lengths are exact fixed-point values: one unit is `MICRO` micro-units.

use vstd::prelude::*;

pub mod model;
pub mod normalize;
pub mod heuristic;
pub mod search;
pub mod clock;
pub mod output;
pub mod laws;

verus! {

/// Scale of the fixed-point length representation: one length unit is
/// `MICRO` micro-units, so values carry six decimal digits exactly.
pub const MICRO: u64 = 1_000_000;

/// Largest single length value (in micro-units) the solver accepts.
pub const MAX_LEN: u64 = 1_000_000_000_000;

/// Largest number of cuts, and of stock lengths, the solver accepts.
pub const MAX_ITEMS: usize = 1_000_000;

/// Largest total any sum of accepted lengths can reach: `MAX_LEN * MAX_ITEMS`.
pub const MAX_TOTAL: u64 = 1_000_000_000_000_000_000;

/// A sequence of machine lengths as mathematical integers.
pub open spec fn seq_int(s: Seq<u64>) -> Seq<int> {
    Seq::new(s.len(), |i: int| s[i] as int)
}

/// Round a micro-unit length to the nearest thousandth of a unit
/// (half away from zero), staying on the micro-unit grid.
pub open spec fn round_milli_spec(v: int) -> int {
    ((v + 500) / 1000) * 1000
}

/// Explicit error values of the solver; never used for normal control flow.
#[derive(Clone, Copy, PartialEq, Eq, Structural, Debug)]
pub enum SolveError {
    /// No usable stock length remains after filtering.
    NoUsableStock,
    /// The carried cut (in micro-units) exceeds every configured stock length.
    CutExceedsStock(u64),
    /// Defensive only: an internal indexing invariant failed.
    InternalInvariant,
}

/// Rounds a nonnegative micro-unit value to the milli grid, as reports do.
pub fn round_milli(v: u64) -> (r: u64)
    requires
        v <= MAX_TOTAL,
    ensures
        r == round_milli_spec(v as int),
        r <= v + 500,
{
    ((v + 500) / 1000) * 1000
}

/// Rounding to the milli grid moves a value by at most half the grid step.
pub proof fn lemma_round_milli_bounds(v: int)
    requires
        v >= 0,
    ensures
        0 <= round_milli_spec(v) <= v + 500,
{
    vstd::arithmetic::div_mod::lemma_fundamental_div_mod(v + 500, 1000);
    vstd::arithmetic::div_mod::lemma_mod_bound(v + 500, 1000);
    assert(1000 * ((v + 500) / 1000) == ((v + 500) / 1000) * 1000) by (nonlinear_arith);
}

} // verus!
