//! The bucketed pool vector: candidate counts per score bucket, in
//! fixed-point units, with the elementwise algebra and the two
//! consumption-multiplier operations the redistribution model is built
//! from.

use crate::fixed::{div_trunc, lemma_div_trunc_le_factor, lemma_div_trunc_mag, lemma_div_trunc_mag_factor};
use crate::{ADD_MAG, BUCKETS, COUNT_LIMIT, PNP_BUCKET, POOL_MAG, RATE_MAG, REMOVAL_CAP, SCALE, SCORE_TOP};
use vstd::arithmetic::div_mod::lemma_div_by_multiple;
use vstd::prelude::*;

verus! {

// ---------------------------------------------------------------------
// Spec-level algebra over the per-bucket value sequences.
// ---------------------------------------------------------------------

/// A pool vector has exactly one entry per bucket.
pub open spec fn wf_counts(s: Seq<int>) -> bool {
    s.len() == BUCKETS
}

/// Every entry has magnitude at most `m`.
pub open spec fn bounded(s: Seq<int>, m: int) -> bool {
    forall|i: int| 0 <= i < s.len() ==> -m <= #[trigger] s[i] <= m
}

/// The all-zero pool vector.
pub open spec fn sp_zero() -> Seq<int> {
    Seq::new(BUCKETS as nat, |i: int| 0)
}

/// Elementwise sum.
pub open spec fn sp_add(a: Seq<int>, b: Seq<int>) -> Seq<int> {
    Seq::new(a.len(), |i: int| a[i] + b[i])
}

/// Elementwise difference.
pub open spec fn sp_sub(a: Seq<int>, b: Seq<int>) -> Seq<int> {
    Seq::new(a.len(), |i: int| a[i] - b[i])
}

/// Elementwise fixed-point product: each entry of `m` is a fraction in
/// `SCALE` units.
pub open spec fn sp_mul(a: Seq<int>, m: Seq<int>) -> Seq<int> {
    Seq::new(a.len(), |i: int| div_trunc(a[i] * m[i], SCALE as int))
}

/// Fixed-point product with one scalar fraction.
pub open spec fn sp_scale(a: Seq<int>, x: int) -> Seq<int> {
    Seq::new(a.len(), |i: int| div_trunc(a[i] * x, SCALE as int))
}

/// Division of every entry by a whole number (of days).
pub open spec fn sp_div_whole(a: Seq<int>, d: int) -> Seq<int> {
    Seq::new(a.len(), |i: int| div_trunc(a[i], d))
}

/// Sum of all entries.
pub open spec fn sum_of(s: Seq<int>) -> int
    decreases s.len(),
{
    if s.len() == 0 {
        0
    } else {
        sum_of(s.drop_last()) + s.last()
    }
}

/// Lower end of bucket `i`'s score range.
pub open spec fn spec_min_score(i: int) -> int {
    if i == 0 {
        0
    } else if i == 1 {
        300
    } else if i == 2 {
        350
    } else if i == 3 {
        400
    } else if i <= 13 {
        410 + (i - 4) * 10
    } else {
        600
    }
}

/// Upper end of bucket `i`'s score range.
pub open spec fn spec_max_score(i: int) -> int {
    if i == 0 {
        300
    } else if i == 1 {
        350
    } else if i == 2 {
        400
    } else if i == 3 {
        410
    } else if i <= 12 {
        420 + (i - 4) * 10
    } else if i == 13 {
        600
    } else {
        1200
    }
}

/// Law: the static bucket ranges cover the score domain without gaps:
/// they start at zero, each bucket ends where the next begins, they
/// ascend strictly, and the last is open-ended up to the domain top.
pub proof fn lemma_bucket_ranges_contiguous()
    ensures
        spec_min_score(0) == 0,
        spec_max_score(BUCKETS - 1) == SCORE_TOP,
        forall|i: int| 0 <= i < BUCKETS - 1 ==> #[trigger] spec_max_score(i) == spec_min_score(
            i + 1,
        ),
        forall|i: int| 0 <= i < BUCKETS ==> #[trigger] spec_min_score(i) < spec_max_score(i),
{
}

/// Count still wanted when the top-down consumption sweep reaches
/// bucket `i`, were it to consume every bucket above `i` in full.
pub open spec fn gm_rem(p: Seq<int>, c0: int, i: int) -> int
    decreases BUCKETS - i,
{
    if i >= BUCKETS - 1 {
        c0
    } else {
        gm_rem(p, c0, i + 1) - p[i + 1]
    }
}

/// Whether the top-down sweep is still consuming whole buckets when it
/// reaches bucket `i` (every bucket above held less than was wanted).
pub open spec fn gm_continuing(p: Seq<int>, c0: int, i: int) -> bool {
    forall|j: int| i < j < BUCKETS ==> gm_rem(p, c0, j) > p[j]
}

/// The count-based consumption multiplier: buckets are consumed from
/// the highest score down; a bucket holding less than the remaining
/// demand is consumed in full, the bucket where the demand runs out is
/// consumed fractionally, and everything below it is untouched.  An
/// empty bucket met with no remaining demand contributes nothing.
pub open spec fn general_multiplier(p: Seq<int>, c0: int) -> Seq<int> {
    Seq::new(
        BUCKETS as nat,
        |i: int|
            if gm_continuing(p, c0, i) {
                if gm_rem(p, c0, i) > p[i] {
                    SCALE as int
                } else if p[i] == 0 {
                    0
                } else {
                    div_trunc(gm_rem(p, c0, i) * SCALE, p[i])
                }
            } else {
                0
            },
    )
}

/// The range-overlap multiplier: the fraction of bucket `i`'s score
/// range covered by the query range, assuming uniform density.
pub open spec fn overlap_multiplier(minq: int, maxq: int) -> Seq<int> {
    Seq::new(
        BUCKETS as nat,
        |i: int|
            {
                let dmin = spec_min_score(i);
                let dmax = spec_max_score(i);
                let lo = if minq > dmin {
                    if minq < dmax {
                        minq
                    } else {
                        dmax
                    }
                } else {
                    dmin
                };
                let hi = if maxq < dmax {
                    if maxq > dmin {
                        maxq
                    } else {
                        dmin
                    }
                } else {
                    dmax
                };
                div_trunc((hi - lo) * SCALE, dmax - dmin)
            },
    )
}

// ---------------------------------------------------------------------
// Bounding lemmas.
// ---------------------------------------------------------------------

/// The sum of a magnitude-bounded vector is bounded by the length
/// times the magnitude.
pub proof fn lemma_sum_of_bounded(s: Seq<int>, m: int)
    requires
        bounded(s, m),
        m >= 0,
    ensures
        -(s.len() as int * m) <= sum_of(s) <= s.len() as int * m,
    decreases s.len(),
{
    if s.len() == 0 {
    } else {
        assert(bounded(s.drop_last(), m));
        lemma_sum_of_bounded(s.drop_last(), m);
        assert((s.len() as int) * m == (s.len() - 1) * m + m) by (nonlinear_arith);
    }
}

/// A fixed-point product with a fraction of magnitude at most one keeps
/// the entry magnitude.
pub proof fn lemma_mul_entry_mag(a: int, m: int, mag: int)
    requires
        -mag <= a <= mag,
        -(SCALE as int) <= m <= SCALE as int,
        mag >= 0,
    ensures
        -mag <= div_trunc(a * m, SCALE as int) <= mag,
{
    assert(-(SCALE as int * mag) <= a * m <= SCALE as int * mag) by (nonlinear_arith)
        requires
            -mag <= a <= mag,
            -(SCALE as int) <= m <= SCALE as int,
            mag >= 0,
    ;
    lemma_div_trunc_mag_factor(a * m, SCALE as int, mag);
}

/// Multiplying by a whole fraction (`SCALE` units) gives the entry back.
pub proof fn lemma_mul_entry_identity(a: int)
    ensures
        div_trunc(a * SCALE, SCALE as int) == a,
{
    if a >= 0 {
        lemma_div_by_multiple(a, SCALE as int);
    } else {
        assert(-(a * SCALE) == (-a) * SCALE) by (nonlinear_arith);
        lemma_div_by_multiple(-a, SCALE as int);
    }
}

/// Entries of the range-overlap multiplier always have magnitude at
/// most one; for an ordered query range they lie between zero and one.
pub proof fn lemma_overlap_multiplier_range(minq: int, maxq: int)
    ensures
        forall|i: int|
            0 <= i < BUCKETS ==> -(SCALE as int) <= #[trigger] overlap_multiplier(minq, maxq)[i]
                <= SCALE as int,
        minq <= maxq ==> forall|i: int|
            0 <= i < BUCKETS ==> 0 <= #[trigger] overlap_multiplier(minq, maxq)[i] <= SCALE as int,
{
    assert forall|i: int| 0 <= i < BUCKETS implies -(SCALE as int) <= #[trigger] overlap_multiplier(
        minq,
        maxq,
    )[i] <= SCALE as int by {
        lemma_overlap_entry_range(minq, maxq, i);
    }
    if minq <= maxq {
        assert forall|i: int| 0 <= i < BUCKETS implies 0 <= #[trigger] overlap_multiplier(
            minq,
            maxq,
        )[i] <= SCALE as int by {
            lemma_overlap_entry_range(minq, maxq, i);
        }
    }
}

/// Range facts for one entry of the overlap multiplier.
proof fn lemma_overlap_entry_range(minq: int, maxq: int, i: int)
    requires
        0 <= i < BUCKETS,
    ensures
        -(SCALE as int) <= overlap_multiplier(minq, maxq)[i] <= SCALE as int,
        minq <= maxq ==> 0 <= overlap_multiplier(minq, maxq)[i] <= SCALE as int,
{
    let dmin = spec_min_score(i);
    let dmax = spec_max_score(i);
    let w = dmax - dmin;
    let lo = if minq > dmin {
        if minq < dmax {
            minq
        } else {
            dmax
        }
    } else {
        dmin
    };
    let hi = if maxq < dmax {
        if maxq > dmin {
            maxq
        } else {
            dmin
        }
    } else {
        dmax
    };
    assert(dmin <= lo <= dmax);
    assert(dmin <= hi <= dmax);
    assert(-(w * 1) <= hi - lo <= w * 1);
    assert(w * (SCALE as int) >= (hi - lo) * SCALE && -(w * (SCALE as int)) <= (hi - lo) * SCALE)
        by (nonlinear_arith)
        requires
            -w <= hi - lo <= w,
            w > 0,
    ;
    lemma_div_trunc_mag_factor((hi - lo) * SCALE, w, SCALE as int);
    if minq <= maxq {
        assert(lo <= hi);
        assert(0 <= (hi - lo) * SCALE) by (nonlinear_arith)
            requires
                hi - lo >= 0,
        ;
        lemma_div_trunc_le_factor((hi - lo) * SCALE, w, SCALE as int);
    }
}

// ---------------------------------------------------------------------
// The executable pool vector.
// ---------------------------------------------------------------------

/// Candidate counts per score bucket, each in `SCALE` fixed-point
/// units; rates and partially consumed pools use the same shape.
#[derive(Debug)]
pub struct ScorePool {
    counts: Vec<i128>,
}

impl View for ScorePool {
    type V = Seq<int>;

    closed spec fn view(&self) -> Seq<int> {
        self.counts@.map_values(|x: i128| x as int)
    }
}

impl ScorePool {
    /// Structurally well formed: one entry per bucket.
    pub open spec fn wf(&self) -> bool {
        self@.len() == BUCKETS
    }

    /// The all-zero vector.
    pub fn zero() -> (r: ScorePool)
        ensures
            r.wf(),
            r@ =~= sp_zero(),
    {
        let mut counts: Vec<i128> = Vec::new();
        let mut k: usize = 0;
        while k < BUCKETS
            invariant
                k <= BUCKETS,
                counts@.len() == k,
                forall|j: int| 0 <= j < k ==> counts@[j] == 0,
            decreases BUCKETS - k,
        {
            counts.push(0);
            k += 1;
        }
        ScorePool { counts }
    }

    /// A pool built from raw per-bucket candidate counts.
    pub fn from_counts(raw: &Vec<i64>) -> (r: ScorePool)
        requires
            raw@.len() == BUCKETS,
            forall|j: int| 0 <= j < BUCKETS ==> 0 <= #[trigger] raw@[j] <= COUNT_LIMIT,
        ensures
            r.wf(),
            forall|j: int| 0 <= j < BUCKETS ==> r@[j] == raw@[j] * SCALE,
            bounded(r@, REMOVAL_CAP as int),
    {
        let mut counts: Vec<i128> = Vec::new();
        let mut k: usize = 0;
        while k < BUCKETS
            invariant
                k <= BUCKETS,
                raw@.len() == BUCKETS,
                forall|j: int| 0 <= j < BUCKETS ==> 0 <= #[trigger] raw@[j] <= COUNT_LIMIT,
                counts@.len() == k,
                forall|j: int| 0 <= j < k ==> counts@[j] == raw@[j] * SCALE,
            decreases BUCKETS - k,
        {
            counts.push((raw[k] as i128) * SCALE);
            k += 1;
        }
        let r = ScorePool { counts };
        assert forall|j: int| 0 <= j < BUCKETS implies -(REMOVAL_CAP as int) <= #[trigger] r@[j]
            <= REMOVAL_CAP as int by {
            assert(0 <= raw@[j] * SCALE <= COUNT_LIMIT * SCALE) by (nonlinear_arith)
                requires
                    0 <= raw@[j] <= COUNT_LIMIT,
            ;
        }
        r
    }

    /// An identical copy.
    pub fn copy_of(&self) -> (r: ScorePool)
        ensures
            r@ == self@,
    {
        ScorePool { counts: self.counts.clone() }
    }

    /// The raw fixed-point entries, for callers outside the engine.
    pub fn to_units(&self) -> (r: Vec<i128>)
        ensures
            r@.len() == self@.len(),
            forall|j: int| 0 <= j < self@.len() ==> r@[j] == self@[j],
    {
        self.counts.clone()
    }

    /// One entry, in fixed-point units.
    pub fn count(&self, i: usize) -> (r: i128)
        requires
            self.wf(),
            i < BUCKETS,
        ensures
            r == self@[i as int],
    {
        self.counts[i]
    }

    /// Sum of all entries.
    pub fn total(&self) -> (r: i128)
        requires
            self.wf(),
            bounded(self@, ADD_MAG as int),
        ensures
            r == sum_of(self@),
    {
        let mut acc: i128 = 0;
        let mut k: usize = 0;
        while k < BUCKETS
            invariant
                k <= BUCKETS,
                self.wf(),
                bounded(self@, ADD_MAG as int),
                acc == sum_of(self@.take(k as int)),
                -(k as int) * (ADD_MAG as int) <= acc <= (k as int) * (ADD_MAG as int),
            decreases BUCKETS - k,
        {
            proof {
                assert(self.counts@[k as int] == self@[k as int]);
                assert(self@.take(k as int + 1).drop_last() =~= self@.take(k as int));
                assert(self@.take(k as int + 1).last() == self@[k as int]);
                assert((k as int + 1) * (ADD_MAG as int) == k as int * (ADD_MAG as int) + (
                ADD_MAG as int)) by (nonlinear_arith);
            }
            acc = acc + self.counts[k];
            k += 1;
        }
        proof {
            assert(self@.take(BUCKETS as int) =~= self@);
        }
        acc
    }

    /// Elementwise sum.
    pub fn add(&self, rhs: &ScorePool) -> (r: ScorePool)
        requires
            self.wf(),
            rhs.wf(),
            bounded(self@, ADD_MAG as int),
            bounded(rhs@, ADD_MAG as int),
        ensures
            r.wf(),
            r@ =~= sp_add(self@, rhs@),
    {
        let mut counts: Vec<i128> = Vec::new();
        let mut k: usize = 0;
        while k < BUCKETS
            invariant
                k <= BUCKETS,
                self.wf(),
                rhs.wf(),
                bounded(self@, ADD_MAG as int),
                bounded(rhs@, ADD_MAG as int),
                counts@.len() == k,
                forall|j: int| 0 <= j < k ==> counts@[j] == self@[j] + rhs@[j],
            decreases BUCKETS - k,
        {
            proof {
                assert(self.counts@[k as int] == self@[k as int]);
                assert(rhs.counts@[k as int] == rhs@[k as int]);
            }
            counts.push(self.counts[k] + rhs.counts[k]);
            k += 1;
        }
        ScorePool { counts }
    }

    /// Elementwise difference.
    pub fn sub(&self, rhs: &ScorePool) -> (r: ScorePool)
        requires
            self.wf(),
            rhs.wf(),
            bounded(self@, ADD_MAG as int),
            bounded(rhs@, ADD_MAG as int),
        ensures
            r.wf(),
            r@ =~= sp_sub(self@, rhs@),
    {
        let mut counts: Vec<i128> = Vec::new();
        let mut k: usize = 0;
        while k < BUCKETS
            invariant
                k <= BUCKETS,
                self.wf(),
                rhs.wf(),
                bounded(self@, ADD_MAG as int),
                bounded(rhs@, ADD_MAG as int),
                counts@.len() == k,
                forall|j: int| 0 <= j < k ==> counts@[j] == self@[j] - rhs@[j],
            decreases BUCKETS - k,
        {
            proof {
                assert(self.counts@[k as int] == self@[k as int]);
                assert(rhs.counts@[k as int] == rhs@[k as int]);
            }
            counts.push(self.counts[k] - rhs.counts[k]);
            k += 1;
        }
        ScorePool { counts }
    }

    /// Elementwise fixed-point product with a multiplier vector whose
    /// entries are fractions of magnitude at most one.
    pub fn mul(&self, m: &ScorePool) -> (r: ScorePool)
        requires
            self.wf(),
            m.wf(),
            bounded(self@, RATE_MAG as int),
            bounded(m@, SCALE as int),
        ensures
            r.wf(),
            r@ =~= sp_mul(self@, m@),
    {
        let mut counts: Vec<i128> = Vec::new();
        let mut k: usize = 0;
        while k < BUCKETS
            invariant
                k <= BUCKETS,
                self.wf(),
                m.wf(),
                bounded(self@, RATE_MAG as int),
                bounded(m@, SCALE as int),
                counts@.len() == k,
                forall|j: int| 0 <= j < k ==> counts@[j] == div_trunc(
                    self@[j] * m@[j],
                    SCALE as int,
                ),
            decreases BUCKETS - k,
        {
            proof {
                assert(-(RATE_MAG as int) * (SCALE as int) <= self@[k as int] * m@[k as int] <= (
                RATE_MAG as int) * (SCALE as int)) by (nonlinear_arith)
                    requires
                        -(RATE_MAG as int) <= self@[k as int] <= RATE_MAG as int,
                        -(SCALE as int) <= m@[k as int] <= SCALE as int,
                ;
                lemma_mul_entry_mag(self@[k as int], m@[k as int], RATE_MAG as int);
            }
            let p = self.counts[k] * m.counts[k];
            counts.push(crate::fixed::div_i128(p, SCALE));
            k += 1;
        }
        ScorePool { counts }
    }

    /// Fixed-point product with one scalar fraction of magnitude at
    /// most one.
    pub fn mul_fraction(&self, x: i128) -> (r: ScorePool)
        requires
            self.wf(),
            bounded(self@, RATE_MAG as int),
            -SCALE <= x <= SCALE,
        ensures
            r.wf(),
            r@ =~= sp_scale(self@, x as int),
    {
        let mut counts: Vec<i128> = Vec::new();
        let mut k: usize = 0;
        while k < BUCKETS
            invariant
                k <= BUCKETS,
                self.wf(),
                bounded(self@, RATE_MAG as int),
                -SCALE <= x <= SCALE,
                counts@.len() == k,
                forall|j: int| 0 <= j < k ==> counts@[j] == div_trunc(self@[j] * x, SCALE as int),
            decreases BUCKETS - k,
        {
            proof {
                assert(-(RATE_MAG as int) * (SCALE as int) <= self@[k as int] * x <= (
                RATE_MAG as int) * (SCALE as int)) by (nonlinear_arith)
                    requires
                        -(RATE_MAG as int) <= self@[k as int] <= RATE_MAG as int,
                        -(SCALE as int) <= x <= SCALE as int,
                ;
                lemma_mul_entry_mag(self@[k as int], x as int, RATE_MAG as int);
            }
            let p = self.counts[k] * x;
            counts.push(crate::fixed::div_i128(p, SCALE));
            k += 1;
        }
        ScorePool { counts }
    }

    /// Elementwise fixed-point quotient; every divisor entry must be
    /// nonzero.
    pub fn div(&self, rhs: &ScorePool) -> (r: ScorePool)
        requires
            self.wf(),
            rhs.wf(),
            bounded(self@, RATE_MAG as int),
            bounded(rhs@, RATE_MAG as int),
            forall|j: int| 0 <= j < BUCKETS ==> #[trigger] rhs@[j] != 0,
        ensures
            r.wf(),
            forall|j: int| 0 <= j < BUCKETS ==> #[trigger] r@[j] == div_trunc(
                self@[j] * SCALE,
                rhs@[j],
            ),
    {
        let mut counts: Vec<i128> = Vec::new();
        let mut k: usize = 0;
        while k < BUCKETS
            invariant
                k <= BUCKETS,
                self.wf(),
                rhs.wf(),
                bounded(self@, RATE_MAG as int),
                bounded(rhs@, RATE_MAG as int),
                forall|j: int| 0 <= j < BUCKETS ==> #[trigger] rhs@[j] != 0,
                counts@.len() == k,
                forall|j: int| 0 <= j < k ==> #[trigger] counts@[j] == div_trunc(
                    self@[j] * SCALE,
                    rhs@[j],
                ),
            decreases BUCKETS - k,
        {
            proof {
                assert(self.counts@[k as int] == self@[k as int]);
                assert(rhs.counts@[k as int] == rhs@[k as int]);
                assert(-(RATE_MAG as int) * (SCALE as int) <= self@[k as int] * SCALE <= (
                RATE_MAG as int) * (SCALE as int)) by (nonlinear_arith)
                    requires
                        -(RATE_MAG as int) <= self@[k as int] <= RATE_MAG as int,
                ;
            }
            let p = self.counts[k] * SCALE;
            counts.push(crate::fixed::div_i128(p, rhs.counts[k]));
            k += 1;
        }
        ScorePool { counts }
    }

    /// Fixed-point quotient by one nonzero scalar fraction.
    pub fn div_fraction(&self, x: i128) -> (r: ScorePool)
        requires
            self.wf(),
            bounded(self@, RATE_MAG as int),
            x != 0,
            x > i128::MIN,
        ensures
            r.wf(),
            forall|j: int| 0 <= j < BUCKETS ==> #[trigger] r@[j] == div_trunc(
                self@[j] * SCALE,
                x as int,
            ),
    {
        let mut counts: Vec<i128> = Vec::new();
        let mut k: usize = 0;
        while k < BUCKETS
            invariant
                k <= BUCKETS,
                self.wf(),
                bounded(self@, RATE_MAG as int),
                x != 0,
                x > i128::MIN,
                counts@.len() == k,
                forall|j: int| 0 <= j < k ==> #[trigger] counts@[j] == div_trunc(
                    self@[j] * SCALE,
                    x as int,
                ),
            decreases BUCKETS - k,
        {
            proof {
                assert(self.counts@[k as int] == self@[k as int]);
                assert(-(RATE_MAG as int) * (SCALE as int) <= self@[k as int] * SCALE <= (
                RATE_MAG as int) * (SCALE as int)) by (nonlinear_arith)
                    requires
                        -(RATE_MAG as int) <= self@[k as int] <= RATE_MAG as int,
                ;
            }
            let p = self.counts[k] * SCALE;
            counts.push(crate::fixed::div_i128(p, x));
            k += 1;
        }
        ScorePool { counts }
    }

    /// The vector scaled so its entries are fractions of its total,
    /// or the zero vector when the total is exactly zero.
    pub fn normalize(&self) -> (r: ScorePool)
        requires
            self.wf(),
            bounded(self@, RATE_MAG as int),
        ensures
            r.wf(),
            sum_of(self@) == 0 ==> r@ =~= sp_zero(),
            sum_of(self@) != 0 ==> forall|j: int|
                0 <= j < BUCKETS ==> #[trigger] r@[j] == div_trunc(
                    self@[j] * SCALE,
                    sum_of(self@),
                ),
    {
        let tot = self.total();
        if tot == 0 {
            ScorePool::zero()
        } else {
            proof {
                lemma_sum_of_bounded(self@, RATE_MAG as int);
            }
            self.div_fraction(tot)
        }
    }

    /// Division of every entry by a whole number of days.
    pub fn div_days(&self, d: i64) -> (r: ScorePool)
        requires
            self.wf(),
            d >= 1,
            bounded(self@, ADD_MAG as int),
        ensures
            r.wf(),
            r@ =~= sp_div_whole(self@, d as int),
    {
        let mut counts: Vec<i128> = Vec::new();
        let mut k: usize = 0;
        while k < BUCKETS
            invariant
                k <= BUCKETS,
                self.wf(),
                d >= 1,
                bounded(self@, ADD_MAG as int),
                counts@.len() == k,
                forall|j: int| 0 <= j < k ==> counts@[j] == div_trunc(self@[j], d as int),
            decreases BUCKETS - k,
        {
            proof {
                lemma_div_trunc_mag(self@[k as int], d as int);
            }
            counts.push(crate::fixed::div_i128(self.counts[k], d as i128));
            k += 1;
        }
        ScorePool { counts }
    }

    /// Only the provincial-nominee bucket, everything else zero.
    pub fn pnp(&self) -> (r: ScorePool)
        requires
            self.wf(),
        ensures
            r.wf(),
            r@ =~= sp_zero().update(PNP_BUCKET as int, self@[PNP_BUCKET as int]),
    {
        let mut r = ScorePool::zero();
        r.counts[PNP_BUCKET] = self.counts[PNP_BUCKET];
        proof {
            assert(r@ =~= sp_zero().update(PNP_BUCKET as int, self@[PNP_BUCKET as int]));
        }
        r
    }

    /// The pool with the provincial-nominee bucket emptied.
    pub fn non_pnp(&self) -> (r: ScorePool)
        requires
            self.wf(),
        ensures
            r.wf(),
            r@ =~= self@.update(PNP_BUCKET as int, 0),
    {
        let mut r = self.copy_of();
        r.counts[PNP_BUCKET] = 0;
        proof {
            assert(r@ =~= self@.update(PNP_BUCKET as int, 0));
        }
        r
    }

    /// Lower end of bucket `i`'s score range.
    pub fn min_score(i: usize) -> (r: i64)
        requires
            i < BUCKETS,
        ensures
            r == spec_min_score(i as int),
    {
        if i == 0 {
            0
        } else if i == 1 {
            300
        } else if i == 2 {
            350
        } else if i == 3 {
            400
        } else if i <= 13 {
            410 + (i as i64 - 4) * 10
        } else {
            600
        }
    }

    /// Upper end of bucket `i`'s score range.
    pub fn max_score(i: usize) -> (r: i64)
        requires
            i < BUCKETS,
        ensures
            r == spec_max_score(i as int),
    {
        if i == 0 {
            300
        } else if i == 1 {
            350
        } else if i == 2 {
            400
        } else if i == 3 {
            410
        } else if i <= 12 {
            420 + (i as i64 - 4) * 10
        } else if i == 13 {
            600
        } else {
            1200
        }
    }

    /// The count-based consumption multiplier: consume from the highest
    /// bucket down until the demand runs out.
    pub fn multiplier_invite_general(&self, count: i128) -> (r: ScorePool)
        requires
            self.wf(),
            bounded(self@, POOL_MAG as int),
            0 <= count <= REMOVAL_CAP,
        ensures
            r.wf(),
            r@ =~= general_multiplier(self@, count as int),
            forall|j: int| 0 <= j < BUCKETS ==> 0 <= #[trigger] r@[j] <= SCALE as int,
    {
        let ghost p = self@;
        let ghost c0 = count as int;
        let mut m = ScorePool::zero();
        let mut c = count;
        let mut stopped = false;
        let mut k: usize = BUCKETS;
        while k > 0
            invariant
                k <= BUCKETS,
                self.wf(),
                m.wf(),
                bounded(p, POOL_MAG as int),
                p == self@,
                c0 == count as int,
                0 <= c0 <= REMOVAL_CAP,
                forall|j: int| k <= j < BUCKETS ==> m@[j] == general_multiplier(p, c0)[j],
                forall|j: int| 0 <= j < k ==> m@[j] == 0,
                forall|j: int| 0 <= j < BUCKETS ==> 0 <= #[trigger] m@[j] <= SCALE as int,
                !stopped ==> k > 0 ==> c == gm_rem(p, c0, k as int - 1),
                !stopped ==> k > 0 ==> gm_continuing(p, c0, k as int - 1),
                !stopped ==> 0 <= c <= REMOVAL_CAP + (BUCKETS - k) * (POOL_MAG as int),
                stopped ==> forall|j: int| 0 <= j < k ==> !gm_continuing(p, c0, j),
            decreases k,
        {
            let i = k - 1;
            if !stopped {
                proof {
                    assert((BUCKETS - k + 1) * (POOL_MAG as int) == (BUCKETS - k) * (
                    POOL_MAG as int) + POOL_MAG as int) by (nonlinear_arith);
                }
                proof {
                    assert(self.counts@[i as int] == p[i as int]);
                }
                if c > self.counts[i] {
                    let ghost prev = m@;
                    m.counts[i] = SCALE;
                    c = c - self.counts[i];
                    proof {
                        assert(m@ =~= prev.update(i as int, SCALE as int));
                        assert(gm_rem(p, c0, i as int) > p[i as int]);
                        assert(general_multiplier(p, c0)[i as int] == SCALE as int);
                        if i > 0 {
                            assert(gm_rem(p, c0, i as int - 1) == gm_rem(p, c0, i as int) - p[
                            i as int]);
                        }
                    }
                } else {
                    if self.counts[i] != 0 {
                        proof {
                            assert(p[i as int] >= 1);
                            assert(0 <= c * SCALE <= p[i as int] * SCALE) by (nonlinear_arith)
                                requires
                                    0 <= c <= p[i as int],
                                    SCALE as int > 0,
                            ;
                            lemma_div_trunc_le_factor(c as int * SCALE, p[i as int], SCALE as int);
                        }
                        let ghost prev = m@;
                        let q = crate::fixed::div_i128(c * SCALE, self.counts[i]);
                        m.counts[i] = q;
                        proof {
                            assert(m@ =~= prev.update(
                                i as int,
                                div_trunc(c as int * SCALE, p[i as int]),
                            ));
                            assert(general_multiplier(p, c0)[i as int] == div_trunc(
                                gm_rem(p, c0, i as int) * SCALE,
                                p[i as int],
                            ));
                        }
                    } else {
                        proof {
                            assert(general_multiplier(p, c0)[i as int] == 0);
                        }
                    }
                    stopped = true;
                    proof {
                        assert forall|j: int| 0 <= j < i implies !gm_continuing(p, c0, j) by {
                            assert(!(gm_rem(p, c0, i as int) > p[i as int]));
                        }
                    }
                }
            }
            k = i;
        }
        proof {
            assert(m@ =~= general_multiplier(p, c0));
        }
        m
    }

    /// The range-overlap consumption multiplier: the fraction of each
    /// bucket whose scores fall inside the query range.
    pub fn multiplier_within_score(&self, min_score: i64, max_score: i64) -> (r: ScorePool)
        requires
            self.wf(),
        ensures
            r.wf(),
            r@ =~= overlap_multiplier(min_score as int, max_score as int),
            forall|j: int| 0 <= j < BUCKETS ==> -(SCALE as int) <= #[trigger] r@[j] <= SCALE as int,
            min_score <= max_score ==> forall|j: int|
                0 <= j < BUCKETS ==> 0 <= #[trigger] r@[j] <= SCALE as int,
    {
        let mut counts: Vec<i128> = Vec::new();
        let mut k: usize = 0;
        while k < BUCKETS
            invariant
                k <= BUCKETS,
                counts@.len() == k,
                forall|j: int| 0 <= j < k ==> counts@[j] == overlap_multiplier(
                    min_score as int,
                    max_score as int,
                )[j],
            decreases BUCKETS - k,
        {
            let dmin = Self::min_score(k);
            let dmax = Self::max_score(k);
            let lo = if min_score > dmin {
                if min_score < dmax {
                    min_score
                } else {
                    dmax
                }
            } else {
                dmin
            };
            let hi = if max_score < dmax {
                if max_score > dmin {
                    max_score
                } else {
                    dmin
                }
            } else {
                dmax
            };
            proof {
                lemma_div_trunc_mag((hi - lo) as int * SCALE, (dmax - dmin) as int);
            }
            let q = crate::fixed::div_i128(
                ((hi - lo) as i128) * SCALE,
                (dmax - dmin) as i128,
            );
            counts.push(q);
            k += 1;
        }
        let r = ScorePool { counts };
        proof {
            lemma_overlap_multiplier_range(min_score as int, max_score as int);
            assert(r@ =~= overlap_multiplier(min_score as int, max_score as int));
        }
        r
    }

    /// Whether every entry's magnitude stays within `m`; callers
    /// outside the verified world use it to test preconditions.
    pub fn magnitude_within(&self, m: i128) -> (r: bool)
        requires
            self.wf(),
            m >= 0,
        ensures
            r == bounded(self@, m as int),
    {
        let mut k: usize = 0;
        while k < BUCKETS
            invariant
                k <= BUCKETS,
                self.wf(),
                m >= 0,
                forall|j: int| 0 <= j < k ==> -(m as int) <= #[trigger] self@[j] <= m as int,
            decreases BUCKETS - k,
        {
            proof {
                assert(self.counts@[k as int] == self@[k as int]);
            }
            let v = self.counts[k];
            if v > m || v < -m {
                proof {
                    assert(!(-(m as int) <= self@[k as int] <= m as int));
                }
                return false;
            }
            k += 1;
        }
        true
    }

    /// The portion of the pool whose scores fall inside the query range.
    pub fn within_score(&self, min_score: i64, max_score: i64) -> (r: ScorePool)
        requires
            self.wf(),
            bounded(self@, RATE_MAG as int),
        ensures
            r.wf(),
            r@ =~= sp_mul(self@, overlap_multiplier(min_score as int, max_score as int)),
    {
        let m = self.multiplier_within_score(min_score, max_score);
        self.mul(&m)
    }
}

// ---------------------------------------------------------------------
// The redistribution model.
// ---------------------------------------------------------------------

/// What one invitation round removes from the pool `p`.  A round that
/// does not draw from the provincial-nominee pathway cannot touch the
/// reserved bucket, so that bucket is emptied first.  A general draw
/// consumes from the top down by the count-based multiplier.  A
/// category-restricted draw takes the slice of the pool above the
/// score cutoff and rescales it so its total equals the draw size;
/// when that slice is empty, or the rescaling degenerates past the
/// removal cap, no meaningful invited subset exists and the result is
/// the zero vector.
/// The slice rescaled so that (before rounding) its total equals the
/// wanted size, entry by entry.
pub open spec fn scale_to_size(inter: Seq<int>, size_units: int) -> Seq<int> {
    Seq::new(inter.len(), |i: int| div_trunc(inter[i] * size_units, sum_of(inter)))
}

/// Every entry's magnitude stays within the removal cap.
pub open spec fn within_cap(s: Seq<int>) -> bool {
    forall|i: int| 0 <= i < s.len() ==> -(REMOVAL_CAP as int) <= #[trigger] s[i]
        <= REMOVAL_CAP as int
}

/// The pool a round draws from: without the provincial-nominee flag
/// the reserved bucket is out of reach.
pub open spec fn invite_base(p: Seq<int>, pnp: bool) -> Seq<int> {
    if !pnp {
        p.update(PNP_BUCKET as int, 0)
    } else {
        p
    }
}

pub open spec fn spec_invite(p: Seq<int>, general: bool, pnp: bool, size: int, score: int) -> Seq<
    int,
> {
    let base = invite_base(p, pnp);
    if general {
        sp_mul(base, general_multiplier(base, size * SCALE))
    } else {
        let inter = sp_mul(base, overlap_multiplier(score, SCORE_TOP as int));
        if sum_of(inter) == 0 {
            sp_zero()
        } else {
            let scaled = scale_to_size(inter, size * SCALE);
            if within_cap(scaled) {
                scaled
            } else {
                sp_zero()
            }
        }
    }
}

impl ScorePool {
    /// The sub-pool one invitation round removes from this pool.
    pub fn invite(&self, inv: &crate::invite::Invite) -> (r: ScorePool)
        requires
            self.wf(),
            bounded(self@, POOL_MAG as int),
            inv.wf(),
        ensures
            r.wf(),
            r@ =~= spec_invite(
                self@,
                inv.category.code == crate::category::CategoryCode::General,
                inv.pathway.spec_is_pnp(),
                inv.size as int,
                inv.score as int,
            ),
            bounded(r@, POOL_MAG as int),
            inv.category.code == crate::category::CategoryCode::General ==> forall|j: int|
                0 <= j < BUCKETS ==> {
                    let e = invite_base(self@, inv.pathway.spec_is_pnp())[j];
                    if e >= 0 {
                        0 <= #[trigger] r@[j] <= e
                    } else {
                        e <= r@[j] <= 0
                    }
                },
            inv.category.code != crate::category::CategoryCode::General ==> within_cap(r@),
    {
        let base = if !inv.pathway.is_pnp() {
            self.non_pnp()
        } else {
            self.copy_of()
        };
        proof {
            assert(bounded(base@, POOL_MAG as int));
            assert(base@ == invite_base(self@, inv.pathway.spec_is_pnp()));
        }
        if matches!(inv.category.code, crate::category::CategoryCode::General) {
            let count = (inv.size as i128) * SCALE;
            let m = base.multiplier_invite_general(count);
            let r = base.mul(&m);
            proof {
                assert forall|j: int| 0 <= j < BUCKETS implies -(POOL_MAG as int)
                    <= #[trigger] r@[j] <= POOL_MAG as int by {
                    lemma_mul_entry_mag(base@[j], m@[j], POOL_MAG as int);
                }
                assert(m@ == general_multiplier(base@, (inv.size as int) * (SCALE as int)));
                assert(r@ =~= sp_mul(base@, m@));
                assert(r@ =~= spec_invite(
                    self@,
                    true,
                    inv.pathway.spec_is_pnp(),
                    inv.size as int,
                    inv.score as int,
                ));
                assert forall|j: int| 0 <= j < BUCKETS implies ({
                    let e = invite_base(self@, inv.pathway.spec_is_pnp())[j];
                    if e >= 0 {
                        0 <= #[trigger] r@[j] <= e
                    } else {
                        e <= r@[j] <= 0
                    }
                }) by {
                    let e = base@[j];
                    let w = m@[j];
                    assert(0 <= w <= SCALE as int);
                    assert(r@[j] == div_trunc(e * w, SCALE as int));
                    if e >= 0 {
                        assert(0 <= e * w <= (SCALE as int) * e) by (nonlinear_arith)
                            requires
                                0 <= w <= SCALE as int,
                                e >= 0,
                        ;
                        lemma_div_trunc_le_factor(e * w, SCALE as int, e);
                    } else {
                        assert(0 <= -(e * w) <= (SCALE as int) * (-e)) by (nonlinear_arith)
                            requires
                                0 <= w <= SCALE as int,
                                e < 0,
                        ;
                        lemma_div_trunc_le_factor(-(e * w), SCALE as int, -e);
                    }
                }
            }
            r
        } else {
            let m = base.multiplier_within_score(inv.score, SCORE_TOP);
            let inter = base.mul(&m);
            proof {
                assert forall|j: int| 0 <= j < BUCKETS implies -(POOL_MAG as int)
                    <= #[trigger] inter@[j] <= POOL_MAG as int by {
                    lemma_mul_entry_mag(base@[j], m@[j], POOL_MAG as int);
                }
            }
            let tot = inter.total();
            proof {
                lemma_sum_of_bounded(inter@, POOL_MAG as int);
                assert(inv.category.code != crate::category::CategoryCode::General);
                assert(inter@ == sp_mul(
                    (if !inv.pathway.spec_is_pnp() {
                        self@.update(PNP_BUCKET as int, 0)
                    } else {
                        self@
                    }),
                    overlap_multiplier(inv.score as int, SCORE_TOP as int),
                ));
            }
            if tot == 0 {
                proof {
                    assert(sp_zero() =~= spec_invite(
                        self@,
                        false,
                        inv.pathway.spec_is_pnp(),
                        inv.size as int,
                        inv.score as int,
                    ));
                }
                return ScorePool::zero();
            }
            let size_units = (inv.size as i128) * SCALE;
            let ghost scaled = scale_to_size(inter@, size_units as int);
            let mut counts: Vec<i128> = Vec::new();
            let mut ok = true;
            let mut k: usize = 0;
            while k < BUCKETS
                invariant
                    k <= BUCKETS,
                    inter.wf(),
                    bounded(inter@, POOL_MAG as int),
                    tot == sum_of(inter@),
                    tot != 0,
                    -(15 * (POOL_MAG as int)) <= tot <= 15 * (POOL_MAG as int),
                    0 <= size_units <= REMOVAL_CAP,
                    scaled == scale_to_size(inter@, size_units as int),
                    counts@.len() == k,
                    forall|j: int| 0 <= j < k ==> counts@[j] == scaled[j],
                    ok <==> (forall|j: int|
                        0 <= j < k ==> -(REMOVAL_CAP as int) <= #[trigger] scaled[j]
                            <= REMOVAL_CAP as int),
                decreases BUCKETS - k,
            {
                proof {
                    assert(inter.view()[k as int] * (size_units as int) <= (POOL_MAG as int) * (
                    REMOVAL_CAP as int) && inter.view()[k as int] * (size_units as int) >= -((
                    POOL_MAG as int) * (REMOVAL_CAP as int))) by (nonlinear_arith)
                        requires
                            -(POOL_MAG as int) <= inter.view()[k as int] <= POOL_MAG as int,
                            0 <= size_units <= REMOVAL_CAP as int,
                    ;
                }
                let q = crate::fixed::div_i128(inter.count(k) * size_units, tot);
                proof {
                    assert(q == scaled[k as int]);
                }
                if q > REMOVAL_CAP || q < -REMOVAL_CAP {
                    ok = false;
                    proof {
                        assert(!(-(REMOVAL_CAP as int) <= scaled[k as int] <= REMOVAL_CAP as int));
                    }
                }
                counts.push(q);
                k += 1;
            }
            if ok {
                let r = ScorePool { counts };
                proof {
                    assert(r@ =~= scaled);
                    assert(r@ =~= spec_invite(
                        self@,
                        false,
                        inv.pathway.spec_is_pnp(),
                        inv.size as int,
                        inv.score as int,
                    ));
                }
                r
            } else {
                let r = ScorePool::zero();
                proof {
                    assert(r@ =~= spec_invite(
                        self@,
                        false,
                        inv.pathway.spec_is_pnp(),
                        inv.size as int,
                        inv.score as int,
                    ));
                }
                r
            }
        }
    }
}

// ---------------------------------------------------------------------
// Algebraic laws.
// ---------------------------------------------------------------------

/// Adding a vector and then subtracting it gives the first vector back,
/// exactly: the fixed-point algebra has no rounding in `+` and `-`.
pub proof fn lemma_add_sub_cancel(v: Seq<int>, w: Seq<int>)
    requires
        v.len() == w.len(),
    ensures
        sp_sub(sp_add(v, w), w) =~= v,
{
}

/// The range-overlap multiplier of the full score domain is all ones,
/// and multiplying any vector by it is the identity.
pub proof fn lemma_full_overlap_identity(v: Seq<int>, minq: int, maxq: int)
    requires
        wf_counts(v),
        minq <= 0,
        maxq >= SCORE_TOP,
    ensures
        forall|i: int| 0 <= i < BUCKETS ==> #[trigger] overlap_multiplier(minq, maxq)[i]
            == SCALE as int,
        sp_mul(v, overlap_multiplier(minq, maxq)) =~= v,
{
    assert forall|i: int| 0 <= i < BUCKETS implies #[trigger] overlap_multiplier(minq, maxq)[i]
        == SCALE as int by {
        let dmin = spec_min_score(i);
        let dmax = spec_max_score(i);
        let w = dmax - dmin;
        assert(overlap_multiplier(minq, maxq)[i] == div_trunc(w * SCALE, w));
        assert(w * SCALE == SCALE as int * w) by (nonlinear_arith);
        assert(0 <= w * SCALE) by (nonlinear_arith)
            requires
                w > 0,
        ;
        lemma_div_by_multiple(SCALE as int, w);
    }
    assert forall|i: int| 0 <= i < BUCKETS implies #[trigger] sp_mul(
        v,
        overlap_multiplier(minq, maxq),
    )[i] == v[i] by {
        lemma_mul_entry_identity(v[i]);
    }
}

} // verus!
