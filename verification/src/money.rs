//! Fixed-point cost arithmetic.
//!
//! A cost is an `i128` count of millionths of the currency unit. Ratios
//! (percentages, averages) are rounded to the nearest integer, a tie going
//! to the value farther from zero.

use vstd::prelude::*;
use vstd::arithmetic::div_mod::lemma_fundamental_div_mod_converse;

verus! {

/// Stored units in one unit of currency.
pub const UNITS_PER_CURRENCY: i128 = 1_000_000;

/// Bound on the summed magnitudes of the costs that one report may hold.
/// It leaves room in `i128` for the products that percentages need.
pub const COST_LIMIT: i128 = 1_000_000_000_000_000_000_000_000_000_000;

/// Absolute value.
pub open spec fn magnitude(x: int) -> int {
    if x < 0 {
        -x
    } else {
        x
    }
}

/// The integer nearest to `n / d`; of two equally near, the one farther from zero.
pub open spec fn round_div(n: int, d: int) -> int
    recommends
        d != 0,
{
    let q = (2 * magnitude(n) + magnitude(d)) / (2 * magnitude(d));
    if (n < 0) == (d < 0) {
        q
    } else {
        -q
    }
}

/// Whether `round_div(n, d)` can be computed in `i128`.
pub open spec fn ratio_fits(n: int, d: int) -> bool {
    d != 0 && 2 * magnitude(n) + magnitude(d) <= i128::MAX
}

/// `round_div` on non-negative operands, in terms of quotient and remainder.
pub proof fn lemma_round_div_split(n: int, d: int, q: int, r: int)
    requires
        0 <= n,
        0 < d,
        n == q * d + r,
        0 <= r < d,
    ensures
        round_div(n, d) == if 2 * r >= d {
            q + 1
        } else {
            q
        },
{
    let k: int = if 2 * r >= d {
        q + 1
    } else {
        q
    };
    let rest: int = 2 * n + d - k * (2 * d);
    assert(2 * n + d == k * (2 * d) + rest && 0 <= rest < 2 * d) by (nonlinear_arith)
        requires
            n == q * d + r,
            0 <= r < d,
            k == if 2 * r >= d {
                q + 1
            } else {
                q
            },
            rest == 2 * n + d - k * (2 * d),
    ;
    lemma_fundamental_div_mod_converse(2 * n + d, 2 * d, k, rest);
}

/// The rounded quotient lies within half a divisor of the exact one.
pub proof fn lemma_round_div_nearest(n: int, d: int)
    requires
        d != 0,
    ensures
        2 * magnitude(round_div(n, d) * d - n) <= magnitude(d),
{
    let an = magnitude(n);
    let ad = magnitude(d);
    let q = an / ad;
    let r = an % ad;
    vstd::arithmetic::div_mod::lemma_fundamental_div_mod(an, ad);
    vstd::arithmetic::div_mod::lemma_mod_bound(an, ad);
    assert(an == q * ad + r) by (nonlinear_arith)
        requires
            an == ad * q + r,
    ;
    lemma_round_div_split(an, ad, q, r);
    let k = round_div(an, ad);
    assert(round_div(n, d) == if (n < 0) == (d < 0) {
        k
    } else {
        -k
    });
    assert(2 * magnitude(k * ad - an) <= ad) by (nonlinear_arith)
        requires
            an == q * ad + r,
            0 <= r < ad,
            k == if 2 * r >= ad {
                q + 1
            } else {
                q
            },
    ;
    assert(magnitude(round_div(n, d) * d - n) == magnitude(k * ad - an)) by (nonlinear_arith)
        requires
            an == magnitude(n),
            ad == magnitude(d),
            d != 0,
            round_div(n, d) == if (n < 0) == (d < 0) {
                k
            } else {
                -k
            },
    ;
}

/// The rounded quotient has the sign of the exact one and is no larger
/// than the operands allow.
pub proof fn lemma_round_div_bound(n: int, d: int)
    requires
        d != 0,
    ensures
        magnitude(round_div(n, d)) <= 2 * magnitude(n) + magnitude(d),
        (n >= 0 && d > 0) ==> round_div(n, d) >= 0,
{
    let an = magnitude(n);
    let ad = magnitude(d);
    let q = (2 * an + ad) / (2 * ad);
    vstd::arithmetic::div_mod::lemma_fundamental_div_mod(2 * an + ad, 2 * ad);
    vstd::arithmetic::div_mod::lemma_mod_bound(2 * an + ad, 2 * ad);
    assert(0 <= q <= 2 * an + ad) by (nonlinear_arith)
        requires
            2 * an + ad == (2 * ad) * q + (2 * an + ad) % (2 * ad),
            0 <= (2 * an + ad) % (2 * ad) < 2 * ad,
            0 <= an,
            1 <= ad,
    ;
}

/// An exact multiple is returned unrounded.
pub proof fn lemma_round_div_exact(k: int, d: int)
    requires
        d != 0,
    ensures
        round_div(k * d, d) == k,
{
    let ak = magnitude(k);
    let ad = magnitude(d);
    assert(magnitude(k * d) == ak * ad) by (nonlinear_arith)
        requires
            ak == magnitude(k),
            ad == magnitude(d),
    ;
    lemma_round_div_split(ak * ad, ad, ak, 0);
    assert((k > 0 && d > 0) || (k < 0 && d < 0) ==> k * d > 0) by (nonlinear_arith);
    assert((k > 0 && d < 0) || (k < 0 && d > 0) ==> k * d < 0) by (nonlinear_arith);
    assert(k == 0 ==> k * d == 0) by (nonlinear_arith);
}

/// Computes `round_div(n, d)`.
pub fn rounded_quotient(n: i128, d: i128) -> (q: i128)
    requires
        ratio_fits(n as int, d as int),
    ensures
        q == round_div(n as int, d as int),
{
    let an: i128 = if n < 0 {
        -n
    } else {
        n
    };
    let ad: i128 = if d < 0 {
        -d
    } else {
        d
    };
    let whole: i128 = an / ad;
    let rest: i128 = an % ad;
    proof {
        vstd::arithmetic::div_mod::lemma_fundamental_div_mod(an as int, ad as int);
        vstd::arithmetic::div_mod::lemma_mod_bound(an as int, ad as int);
        assert(an == whole * ad + rest) by (nonlinear_arith)
            requires
                an == ad * whole + rest,
        ;
        assert(whole <= an) by (nonlinear_arith)
            requires
                an == whole * ad + rest,
                0 <= rest,
                1 <= ad,
                0 <= an,
        ;
        lemma_round_div_split(an as int, ad as int, whole as int, rest as int);
    }
    let near: i128 = if rest >= ad - rest {
        whole + 1
    } else {
        whole
    };
    if (n < 0) == (d < 0) {
        near
    } else {
        -near
    }
}

} // verus!
