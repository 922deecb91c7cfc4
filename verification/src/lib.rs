//! Chatterjee's xi rank-correlation coefficient.
//!
//! The coefficient measures how strongly one sequence is a (possibly
//! non-monotonic) function of another, using only pairwise ordering
//! information. This crate verifies the whole rank pipeline on plain
//! integer keys: the order-index builder ([`order::argsort`]), the
//! permutation applier ([`order::permute`]), the tie-aware rank counters
//! ([`counts::cumulative_lte`], [`counts::cumulative_gte`]) and the
//! integer reducer ([`xi::xi_sums`]) that turns the rank sequences into
//! the two sums from which the statistic is a single floating-point
//! division away.

pub mod counts;
pub mod order;
pub mod xi;
