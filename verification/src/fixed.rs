//! Truncating division on `i128` scalars, with the lemmas the vector
//! algebra needs to bound its fixed-point products and quotients.

use vstd::arithmetic::div_mod::{
    lemma_div_nonincreasing, lemma_div_pos_is_pos, lemma_multiply_divide_le,
};
use vstd::prelude::*;

verus! {

/// Quotient of `a` by `b`, rounded toward zero (the rounding the engine
/// uses everywhere), defined for any nonzero divisor.
pub open spec fn div_trunc(a: int, b: int) -> int
    recommends
        b != 0,
{
    if b > 0 {
        if a >= 0 {
            a / b
        } else {
            -((-a) / b)
        }
    } else {
        if a >= 0 {
            -(a / (-b))
        } else {
            (-a) / (-b)
        }
    }
}

/// Truncating division never increases the magnitude (divisor at least 1).
pub proof fn lemma_div_trunc_mag(a: int, b: int)
    requires
        b >= 1,
    ensures
        a >= 0 ==> 0 <= div_trunc(a, b) <= a,
        a < 0 ==> a <= div_trunc(a, b) <= 0,
{
    if a >= 0 {
        lemma_div_pos_is_pos(a, b);
        lemma_div_nonincreasing(a, b);
    } else {
        lemma_div_pos_is_pos(-a, b);
        lemma_div_nonincreasing(-a, b);
    }
}

/// A nonnegative quotient is bounded by any factorization of a bound on
/// the dividend: `0 <= a <= b * c` gives `a / b <= c`.
pub proof fn lemma_div_trunc_le_factor(a: int, b: int, c: int)
    requires
        b >= 1,
        c >= 0,
        0 <= a <= b * c,
    ensures
        0 <= div_trunc(a, b) <= c,
{
    lemma_div_pos_is_pos(a, b);
    lemma_multiply_divide_le(a, b, c);
}

/// Magnitude form of the factor bound, for either sign of the dividend.
pub proof fn lemma_div_trunc_mag_factor(a: int, b: int, c: int)
    requires
        b >= 1,
        c >= 0,
        -(b * c) <= a <= b * c,
    ensures
        -c <= div_trunc(a, b) <= c,
{
    if a >= 0 {
        lemma_div_trunc_le_factor(a, b, c);
    } else {
        lemma_div_trunc_le_factor(-a, b, c);
    }
}

/// Truncating division of `a` by `b`, on any operands whose negation
/// stays in range.
pub fn div_i128(a: i128, b: i128) -> (r: i128)
    requires
        b != 0,
        a > i128::MIN,
        b > i128::MIN,
    ensures
        r == div_trunc(a as int, b as int),
{
    proof {
        if b > 0 {
            lemma_div_trunc_mag(a as int, b as int);
        } else {
            lemma_div_trunc_mag(a as int, -(b as int));
        }
    }
    if b > 0 {
        if a >= 0 {
            a / b
        } else {
            let m = -a;
            -(m / b)
        }
    } else {
        let n = -b;
        if a >= 0 {
            -(a / n)
        } else {
            let m = -a;
            m / n
        }
    }
}

} // verus!
