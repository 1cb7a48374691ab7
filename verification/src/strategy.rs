//! The growth policy: immutable per-plant ratios controlling shape
//! and branching.

use vstd::prelude::*;

verus! {

/// The largest magnitude a policy ratio may have.
pub const RATE_CAP: i64 = 0x10_0000_0000;

/// The per-plant ratios that define the shape of the root.
#[derive(Clone, Copy, PartialEq, Eq, Structural, Debug)]
pub struct BranchingStrategy {
    /// Target length-to-radius ratio: below it a branch elongates,
    /// at or above it the branch thickens.
    pub conic_ratio: i64,
    /// Desired ratio of total child biomass to own biomass.
    pub children_weight_rate: i64,
    /// Inverse of the minimum own-mass threshold before branching is
    /// attempted.
    pub child_weight_rate: i64,
    /// Angle at which a new branch tends to grow. Reserved: stored but
    /// not consulted by the branching-angle algorithm.
    pub default_side_angle: i64,
}

/// A usable policy: positive bounded ratios.
pub open spec fn strategy_wf(s: BranchingStrategy) -> bool {
    &&& 0 < s.conic_ratio <= RATE_CAP
    &&& 0 < s.children_weight_rate <= RATE_CAP
    &&& 0 < s.child_weight_rate <= RATE_CAP
    &&& -RATE_CAP <= s.default_side_angle <= RATE_CAP
}

} // verus!
