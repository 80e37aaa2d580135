//! Estimation of the entry rate into a bucketed applicant score pool.
//!
//! The pool is observed through periodic snapshots (candidate counts per
//! score bucket) and discrete invitation rounds that remove candidates.
//! The engine merges both event streams chronologically and produces a
//! per-bucket arrival-rate series, together with smoothing and a
//! short-horizon projection.
//!
//! All quantities are held in fixed-point arithmetic: a count of one
//! candidate is represented as `SCALE` units, so fractional rates remain
//! exact integers and every operation has a precise contract.

use vstd::prelude::*;

pub mod analyzer;
pub mod category;
pub mod category_analyzer;
pub mod date;
pub mod fixed;
pub mod invite;
pub mod pathway;
pub mod pool_data;
pub mod rate;
pub mod score_pool;
pub mod smooth;
pub mod strutil;

verus! {

/// Number of score buckets the pool is partitioned into.
pub const BUCKETS: usize = 15;

/// Index of the bucket reserved for provincial-nominee scores (601-1200).
pub const PNP_BUCKET: usize = 14;

/// Upper end of the score domain.
pub const SCORE_TOP: i64 = 1200;

/// Fixed-point scale: one candidate equals this many units.
pub const SCALE: i128 = 1_000_000;

/// Largest raw candidate count (or draw size) the engine accepts.
pub const COUNT_LIMIT: i64 = 100_000_000;

/// Largest magnitude a single redistribution may remove from one bucket;
/// equals `COUNT_LIMIT * SCALE`.
pub const REMOVAL_CAP: i128 = 100_000_000_000_000;

/// Magnitude bound on the entries of a working pool vector.
pub const POOL_MAG: i128 = 20_000_000_000_000_000_000_000;

/// Magnitude bound on the entries of a single rate contribution.
pub const CONTRIB_MAG: i128 = 20_000_000_000_000_000_000_000;

/// Magnitude bound on the entries of an accumulated or smoothed rate.
pub const RATE_MAG: i128 = 10_000_000_000_000_000_000_000_000_000_000;

/// Magnitude bound under which elementwise sums stay exact in `i128`.
pub const ADD_MAG: i128 = 10_000_000_000_000_000_000_000_000_000_000_000;

/// Largest accepted length of either input stream.
pub const INPUT_LIMIT: usize = 100_000_000;

/// Largest number of contributions an accumulator may hold at once.
pub const PENDING_LIMIT: usize = 200_000_000;

/// Magnitude bound on day numbers.
pub const DATE_MAG: i64 = 100_000_000;

} // verus!
