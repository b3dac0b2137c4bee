//! Library-wide laws of the evaluator, proved once and for all inputs.

use crate::eval::{display_rows_ok, half_down, highlight_spec, miss_scaled, scale, tenths_spec,
    DisplayCell};
use vstd::arithmetic::div_mod::*;
use vstd::arithmetic::power::*;
use vstd::prelude::*;

verus! {

/// Rounding to the nearest integer (halves down) is monotone in the exact
/// rational value: if `x2/d2 <= x1/d1`, the rounded values are ordered the
/// same way.
pub proof fn lemma_round_monotone(x1: int, d1: int, x2: int, d2: int)
    requires
        0 <= x1,
        0 <= x2,
        1 <= d1,
        1 <= d2,
        x2 * d1 <= x1 * d2,
    ensures
        half_down(x2, d2) <= half_down(x1, d1),
{
    let q1 = x1 / d1;
    let r1 = x1 % d1;
    let q2 = x2 / d2;
    let r2 = x2 % d2;
    let s1 = half_down(x1, d1);
    let s2 = half_down(x2, d2);
    lemma_fundamental_div_mod(x1, d1);
    lemma_mod_bound(x1, d1);
    lemma_fundamental_div_mod(x2, d2);
    lemma_mod_bound(x2, d2);
    // A lower bound on the rounded value: `2*s1*d1 >= 2*x1 - d1`.
    if 2 * r1 > d1 {
        assert(s1 == q1 + 1);
        assert(2 * s1 * d1 >= 2 * x1 - d1) by (nonlinear_arith)
            requires
                s1 == q1 + 1,
                x1 == d1 * q1 + r1,
                0 <= r1 < d1,
        ;
    } else {
        assert(s1 == q1);
        assert(2 * s1 * d1 >= 2 * x1 - d1) by (nonlinear_arith)
            requires
                s1 == q1,
                x1 == d1 * q1 + r1,
                2 * r1 <= d1,
        ;
    }
    // An upper bound on the rounded value: `2*s2*d2 <= 2*x2 + d2 - 1`.
    if 2 * r2 > d2 {
        assert(s2 == q2 + 1);
        assert(2 * s2 * d2 <= 2 * x2 + d2 - 1) by (nonlinear_arith)
            requires
                s2 == q2 + 1,
                x2 == d2 * q2 + r2,
                2 * r2 > d2,
                0 <= r2 < d2,
        ;
    } else {
        assert(s2 == q2);
        assert(2 * s2 * d2 <= 2 * x2 + d2 - 1) by (nonlinear_arith)
            requires
                s2 == q2,
                x2 == d2 * q2 + r2,
                0 <= r2,
                1 <= d2,
        ;
    }
    // Cross-multiplying the two bounds squeezes `s2 - s1` strictly below 1.
    assert(2 * d1 * d2 * (s2 - s1) < 2 * d1 * d2) by (nonlinear_arith)
        requires
            2 * s1 * d1 >= 2 * x1 - d1,
            2 * s2 * d2 <= 2 * x2 + d2 - 1,
            x2 * d1 <= x1 * d2,
            1 <= d1,
            1 <= d2,
    ;
    assert(s2 - s1 < 1) by (nonlinear_arith)
        requires
            2 * d1 * d2 * (s2 - s1) < 2 * d1 * d2,
            1 <= d1,
            1 <= d2,
    ;
}

/// The cumulative-occurrence percentage never decreases when the hit count
/// grows: exactly, as a comparison of the underlying rationals
/// (`miss` fractions ordered the other way, cross-multiplied), and also
/// after rounding to displayed tenths.
pub proof fn lemma_percent_monotone(n: int, t1: nat, t2: nat)
    requires
        0 <= n < 100,
        1 <= t1 <= t2,
    ensures
        miss_scaled(n, t2) * scale(t1) <= miss_scaled(n, t1) * scale(t2),
        tenths_spec(n, t1) <= tenths_spec(n, t2),
{
    let e = (t2 - t1) as nat;
    lemma_pow_adds(n, t1, e);
    lemma_pow_adds(10, 2 * t1, 2 * e);
    crate::eval::lemma_pow_base_le(n, 100, e);
    crate::eval::lemma_scale_is_pow100(e);
    crate::eval::lemma_scale_is_pow100(t1);
    crate::eval::lemma_scale_is_pow100(t2);
    crate::eval::lemma_pow_nat_nonneg(n, t1);
    crate::eval::lemma_pow_nat_nonneg(n, e);
    assert(pow(n, t2) * scale(t1) <= pow(n, t1) * scale(t2)) by (nonlinear_arith)
        requires
            pow(n, t2) == pow(n, t1) * pow(n, e),
            scale(t2) == scale(t1) * pow(10, 2 * e),
            0 <= pow(n, e) <= pow(10, 2 * e),
            0 <= pow(n, t1),
            0 < scale(t1),
    ;
    assert(miss_scaled(n, t2) * scale(t1) <= miss_scaled(n, t1) * scale(t2)) by (nonlinear_arith)
        requires
            pow(n, t2) * scale(t1) <= pow(n, t1) * scale(t2),
            miss_scaled(n, t2) == 1000 * pow(n, t2),
            miss_scaled(n, t1) == 1000 * pow(n, t1),
    ;
    crate::eval::lemma_tenths_bounds(n, t1);
    crate::eval::lemma_tenths_bounds(n, t2);
    lemma_round_monotone(miss_scaled(n, t1), scale(t1), miss_scaled(n, t2), scale(t2));
}

/// After a single hit the displayed percentage is exact, with no rounding:
/// the cell shows `(100 - n)` percent in whole tenths, and highlights
/// exactly when that percentage exceeds 70 (that is, `n < 30`).
pub proof fn lemma_single_hit_exact(n: int)
    requires
        0 <= n <= 100,
    ensures
        tenths_spec(n, 1) == 1000 - 10 * n,
        highlight_spec(n, 1) <==> n < 30,
{
    lemma_pow1(n);
    crate::eval::lemma_pow10_small();
    assert(scale(1) == 100);
    assert(1000 * n == (10 * n) * 100 + 0) by (nonlinear_arith);
    lemma_fundamental_div_mod_converse(1000 * n, 100, 10 * n, 0);
    assert(half_down(miss_scaled(n, 1), scale(1)) == 10 * n);
}

/// Evaluation is deterministic: any two displayed tables for the same hit
/// count agree cell for cell, so repeated calls of `evaluate` on identical
/// inputs yield identical output.
pub proof fn lemma_display_deterministic(a: Seq<Seq<DisplayCell>>, b: Seq<Seq<DisplayCell>>, t: nat)
    requires
        display_rows_ok(a, t),
        display_rows_ok(b, t),
    ensures
        a =~~= b,
{
    assert forall|i: int| 0 <= i < 5 implies a[i] =~= b[i] by {
        assert forall|j: int| 0 <= j < 10 implies a[i][j] == b[i][j] by {
            assert(a[i][j].tenths == b[i][j].tenths);
            assert(a[i][j].highlight == b[i][j].highlight);
        }
    }
}

} // verus!
