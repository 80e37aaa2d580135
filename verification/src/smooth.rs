//! Exponential smoothing generalized to irregular day gaps: the decay
//! weight is the per-day factor raised to the number of days between
//! neighbouring points, and the leftover weight falls on the raw value
//! two steps back, so the three weights always sum to one.

use crate::date::Date;
use crate::fixed::{div_trunc, lemma_div_trunc_le_factor};
use crate::score_pool::{bounded, sp_add, sp_scale, ScorePool};
use crate::{ADD_MAG, BUCKETS, RATE_MAG, SCALE};
use vstd::arithmetic::div_mod::{
    lemma_div_is_ordered, lemma_div_pos_is_pos, lemma_fundamental_div_mod,
};
use vstd::prelude::*;

verus! {

/// The per-bucket values of a pool sequence.
pub open spec fn pools_view(s: Seq<ScorePool>) -> Seq<Seq<int>> {
    s.map_values(|p: ScorePool| p@)
}

/// The day numbers of a date sequence.
pub open spec fn days_view(s: Seq<Date>) -> Seq<int> {
    s.map_values(|d: Date| d.days as int)
}

/// The fraction `b / SCALE` raised to the `n`-th power, truncating at
/// every step exactly as the executable code does.
pub open spec fn pow_frac(b: int, n: int) -> int
    decreases n when n >= 0
{
    if n <= 0 {
        SCALE as int
    } else {
        div_trunc(pow_frac(b, n - 1) * b, SCALE as int)
    }
}

/// A power of a fraction between zero and one stays between zero and
/// one, and from the first power on it never exceeds the base.
pub proof fn lemma_pow_frac_range(b: int, n: int)
    requires
        0 <= b <= SCALE,
        n >= 0,
    ensures
        0 <= pow_frac(b, n) <= SCALE as int,
        n >= 1 ==> pow_frac(b, n) <= b,
    decreases n,
{
    if n > 0 {
        lemma_pow_frac_range(b, n - 1);
        let p = pow_frac(b, n - 1);
        assert(0 <= p * b <= SCALE as int * b && p * b <= b * (SCALE as int)) by (nonlinear_arith)
            requires
                0 <= p <= SCALE as int,
                0 <= b <= SCALE as int,
        ;
        lemma_div_trunc_le_factor(p * b, SCALE as int, b);
    }
}

/// Law: the three smoothing weights always sum to one, exactly: the
/// residual weight is one minus the other two by construction, for
/// every smoothing constant and every step width.
pub proof fn lemma_smoother_weights_sum_to_one(alpha: int, steps: int)
    requires
        0 < alpha < SCALE,
        steps >= 0,
    ensures
        alpha + pow_frac(SCALE - alpha, steps) + (SCALE - alpha - pow_frac(
            SCALE - alpha,
            steps,
        )) == SCALE,
{
}

/// One smoothed entry: three weighted terms whose weights sum to one
/// cannot leave the magnitude bound of their inputs.
pub proof fn lemma_smooth_step_bound(x1: int, x2: int, x3: int, a: int, b: int, r: int, mag: int)
    requires
        -mag <= x1 <= mag,
        -mag <= x2 <= mag,
        -mag <= x3 <= mag,
        a >= 0,
        b >= 0,
        r >= 0,
        a + b + r == SCALE,
        mag >= 0,
    ensures
        -mag <= div_trunc(x1 * a, SCALE as int) + div_trunc(x2 * b, SCALE as int) + div_trunc(
            x3 * r,
            SCALE as int,
        ) <= mag,
{
    let s = SCALE as int;
    lemma_weighted_term_bound(x1, a, mag);
    lemma_weighted_term_bound(x2, b, mag);
    lemma_weighted_term_bound(x3, r, mag);
    assert(mag * a + mag * b + mag * r == mag * s) by (nonlinear_arith)
        requires
            a + b + r == s,
    ;
    // the three per-term ceilings themselves sum to at most `mag`
    lemma_floor_sum_le(mag * a, mag * b, mag * r, mag, s);
}

/// A single weighted term is bounded by the floor of the weighted
/// magnitude.
proof fn lemma_weighted_term_bound(x: int, w: int, mag: int)
    requires
        -mag <= x <= mag,
        w >= 0,
        mag >= 0,
    ensures
        -((mag * w) / (SCALE as int)) <= div_trunc(x * w, SCALE as int) <= (mag * w) / (
        SCALE as int),
{
    let s = SCALE as int;
    assert(-(mag * w) <= x * w <= mag * w) by (nonlinear_arith)
        requires
            -mag <= x <= mag,
            w >= 0,
    ;
    lemma_div_pos_is_pos(mag * w, s);
    if x * w >= 0 {
        lemma_div_is_ordered(x * w, mag * w, s);
    } else {
        lemma_div_is_ordered(-(x * w), mag * w, s);
    }
}

/// Floors of three nonnegative parts sum to at most the floor of the
/// whole.
proof fn lemma_floor_sum_le(p: int, q: int, t: int, mag: int, s: int)
    requires
        p >= 0,
        q >= 0,
        t >= 0,
        s > 0,
        p + q + t == mag * s,
        mag >= 0,
    ensures
        p / s + q / s + t / s <= mag,
{
    lemma_fundamental_div_mod(p, s);
    lemma_fundamental_div_mod(q, s);
    lemma_fundamental_div_mod(t, s);
    lemma_div_pos_is_pos(p, s);
    lemma_div_pos_is_pos(q, s);
    lemma_div_pos_is_pos(t, s);
    assert(s * (p / s) + s * (q / s) + s * (t / s) <= mag * s);
    assert(p / s + q / s + t / s <= mag) by (nonlinear_arith)
        requires
            s * (p / s) + s * (q / s) + s * (t / s) <= mag * s,
            s > 0,
    ;
}

/// The smoothed series, defined point by point: the first point is
/// the raw first point; every later point mixes the raw value there,
/// the smoothed previous point and the raw previous point with the
/// three weights.
pub open spec fn smoothed(labels: Seq<int>, raw: Seq<Seq<int>>, alpha: int, k: int) -> Seq<int>
    decreases k when k >= 0
{
    if k <= 0 {
        raw[0]
    } else {
        let steps = labels[k] - labels[k - 1];
        let b = pow_frac(SCALE - alpha, steps);
        let r = SCALE - alpha - b;
        sp_add(
            sp_add(sp_scale(raw[k], alpha), sp_scale(smoothed(labels, raw, alpha, k - 1), b)),
            sp_scale(raw[k - 1], r),
        )
    }
}

pub struct Smoother;

impl Smoother {
    /// The decay weight for a gap of `steps` days.
    fn decay(base: i128, steps: i64) -> (r: i128)
        requires
            0 <= base <= SCALE,
            steps >= 0,
        ensures
            r == pow_frac(base as int, steps as int),
            0 <= r <= SCALE,
    {
        let mut acc: i128 = SCALE;
        let mut i: i64 = 0;
        while i < steps
            invariant
                0 <= i <= steps,
                0 <= base <= SCALE,
                acc == pow_frac(base as int, i as int),
                0 <= acc <= SCALE,
            decreases steps - i,
        {
            proof {
                lemma_pow_frac_range(base as int, i as int + 1);
                assert(0 <= acc * base <= SCALE as int * SCALE as int) by (nonlinear_arith)
                    requires
                        0 <= acc <= SCALE as int,
                        0 <= base <= SCALE as int,
                ;
            }
            acc = crate::fixed::div_i128(acc * base, SCALE);
            i += 1;
        }
        acc
    }

    /// Smooths the series in place.  Labels must ascend strictly, as
    /// the sweep emits them; every smoothed value stays within the
    /// magnitude bound of the raw input.
    pub fn exponential(labels: &Vec<Date>, values: &mut Vec<ScorePool>, alpha: i128)
        requires
            labels@.len() == old(values)@.len(),
            0 < alpha < SCALE,
            forall|j: int| 0 <= j < labels@.len() ==> (#[trigger] labels@[j]).wf(),
            forall|j: int|
                1 <= j < labels@.len() ==> labels@[j - 1].days < #[trigger] labels@[j].days,
            forall|j: int|
                0 <= j < old(values)@.len() ==> (#[trigger] old(values)@[j]).wf() && bounded(
                    old(values)@[j]@,
                    RATE_MAG as int,
                ),
        ensures
            final(values)@.len() == old(values)@.len(),
            forall|k: int|
                0 <= k < old(values)@.len() ==> (#[trigger] final(values)@[k])@ =~= smoothed(
                    days_view(labels@),
                    pools_view(old(values)@),
                    alpha as int,
                    k,
                ),
            forall|k: int|
                0 <= k < old(values)@.len() ==> (#[trigger] final(values)@[k]).wf() && bounded(
                    final(values)@[k]@,
                    RATE_MAG as int,
                ),
    {
        let ghost lab = days_view(labels@);
        let ghost raw = pools_view(old(values)@);
        if values.len() == 0 {
            return ;
        }
        let mut prev_raw = values[0].copy_of();
        let mut k: usize = 1;
        while k < values.len()
            invariant
                1 <= k <= values@.len(),
                labels@.len() == values@.len(),
                values@.len() == raw.len(),
                0 < alpha < SCALE,
                lab == days_view(labels@),
                raw == pools_view(old(values)@),
                forall|j: int| 0 <= j < labels@.len() ==> (#[trigger] labels@[j]).wf(),
                forall|j: int|
                    1 <= j < labels@.len() ==> labels@[j - 1].days < #[trigger] labels@[j].days,
                forall|j: int|
                    0 <= j < raw.len() ==> (#[trigger] raw[j]).len() == BUCKETS && bounded(
                        raw[j],
                        RATE_MAG as int,
                    ),
                forall|j: int|
                    k <= j < values@.len() ==> (#[trigger] values@[j])@ == raw[j],
                forall|j: int|
                    0 <= j < k ==> (#[trigger] values@[j])@ =~= smoothed(lab, raw, alpha as int, j),
                forall|j: int|
                    0 <= j < values@.len() ==> (#[trigger] values@[j]).wf() && bounded(
                        values@[j]@,
                        RATE_MAG as int,
                    ),
                prev_raw.wf(),
                prev_raw@ == raw[k - 1],
            decreases values@.len() - k,
        {
            let steps = labels[k].days_since(labels[k - 1]);
            let b = Smoother::decay(SCALE - alpha, steps);
            let r = SCALE - alpha - b;
            proof {
                lemma_pow_frac_range((SCALE - alpha) as int, steps as int);
                assert(r >= 0);
                lemma_smoother_weights_sum_to_one(alpha as int, steps as int);
            }
            let t1 = values[k].mul_fraction(alpha);
            let t2 = values[k - 1].mul_fraction(b);
            let t3 = prev_raw.mul_fraction(r);
            let next_prev = values[k].copy_of();
            proof {
                assert forall|i: int| 0 <= i < t1@.len() implies -(RATE_MAG as int)
                    <= #[trigger] t1@[i] <= RATE_MAG as int by {
                    crate::score_pool::lemma_mul_entry_mag(
                        values@[k as int]@[i],
                        alpha as int,
                        RATE_MAG as int,
                    );
                }
                assert forall|i: int| 0 <= i < t2@.len() implies -(RATE_MAG as int)
                    <= #[trigger] t2@[i] <= RATE_MAG as int by {
                    crate::score_pool::lemma_mul_entry_mag(
                        values@[k as int - 1]@[i],
                        b as int,
                        RATE_MAG as int,
                    );
                }
                assert forall|i: int| 0 <= i < t3@.len() implies -(RATE_MAG as int)
                    <= #[trigger] t3@[i] <= RATE_MAG as int by {
                    crate::score_pool::lemma_mul_entry_mag(prev_raw@[i], r as int, RATE_MAG as int);
                }
                assert(bounded(t1@, ADD_MAG as int));
                assert(bounded(t2@, ADD_MAG as int));
                assert(bounded(t3@, ADD_MAG as int));
            }
            let mixed = t1.add(&t2).add(&t3);
            proof {
                let x1 = values@[k as int]@;
                let x2 = values@[k as int - 1]@;
                let x3 = prev_raw@;
                assert forall|i: int| 0 <= i < BUCKETS implies -(RATE_MAG as int)
                    <= #[trigger] mixed@[i] <= RATE_MAG as int by {
                    lemma_smooth_step_bound(
                        x1[i],
                        x2[i],
                        x3[i],
                        alpha as int,
                        b as int,
                        r as int,
                        RATE_MAG as int,
                    );
                }
                assert(mixed@ =~= smoothed(lab, raw, alpha as int, k as int));
            }
            let ghost vs = values@;
            values[k] = mixed;
            proof {
                assert(values@ =~= vs.update(k as int, values@[k as int]));
            }
            prev_raw = next_prev;
            k += 1;
        }
    }
}

} // verus!
