//! Live evaluation of the cumulative-occurrence table.
//!
//! For a cell whose per-hit non-occurrence probability is `n/100` and a hit
//! count `t >= 1`, the chance that the effect has triggered at least once is
//! `100 * (1 - (n/100)^t)` percent, an exact rational with denominator
//! `10^(2t)`. A displayed cell holds that percentage rounded to tenths
//! (`tenths`, in `[0, 1000]`) together with a highlight flag that is set
//! exactly when the unrounded percentage strictly exceeds 70.
//!
//! Rounding to the nearest tenth is half-up on the displayed percentage,
//! which is half-down on the non-occurrence side (`half_down` below).
//! Everything is computed exactly: `n^t` is carried as a base-10 digit
//! sequence, and once the remaining mass rounds to nothing for every later
//! hit count the cell is flat at `100%`, so the digit sequence never grows
//! past a few hundred digits however large `t` is.

use crate::digits::{digits_pair, digits_wf, lemma_pow10_succ, lemma_val3, lemma_val4,
    lemma_val_bound, lemma_val_split, lemma_val_zero_iff, mul_digit, val_of};
use crate::grid::{lemma_miss_numerator_range, miss_numerator, ProbabilityGrid};
use vstd::arithmetic::div_mod::*;
use vstd::arithmetic::power::*;
use vstd::prelude::*;

verus! {

/// Denominator of the exact cumulative probability after `t` hits: `10^(2t)`
/// (that is, `100^t`).
pub open spec fn scale(t: nat) -> int {
    pow(10, 2 * t)
}

/// Numerator of the non-occurrence probability after `t` hits, scaled to
/// tenths of a percent: `1000 * n^t` over the denominator `scale(t)`.
pub open spec fn miss_scaled(n: int, t: nat) -> int {
    1000 * pow(n, t)
}

/// Nearest integer to the rational `x / d`, with halves rounded down.
/// Subtracting it from 1000 rounds the displayed percentage
/// `(1000*d - x) / d` to the nearest integer with halves rounded up.
pub open spec fn half_down(x: int, d: int) -> int
    recommends
        d > 0,
{
    x / d + if 2 * (x % d) > d {
        1int
    } else {
        0int
    }
}

/// The displayed tenths-of-a-percent value for a cell with non-occurrence
/// numerator `n` (over 100) after `t` hits: the exact percentage
/// `100 * (1 - (n/100)^t)`, in tenths, rounded half-up.
pub open spec fn tenths_spec(n: int, t: nat) -> int {
    1000 - half_down(miss_scaled(n, t), scale(t))
}

/// The highlight flag: the exact, unrounded percentage strictly exceeds 70,
/// that is `100 * (1 - (n/100)^t) > 70`, cleared of denominators.
pub open spec fn highlight_spec(n: int, t: nat) -> bool {
    100 * pow(n, t) < 30 * scale(t)
}

/// `pow` of a nonnegative base is nonnegative.
pub proof fn lemma_pow_nat_nonneg(b: int, e: nat)
    requires
        0 <= b,
    ensures
        0 <= pow(b, e),
    decreases e,
{
    if e == 0 {
        lemma_pow0(b);
    } else {
        lemma_pow_nat_nonneg(b, (e - 1) as nat);
        lemma_pow1(b);
        lemma_pow_adds(b, 1, (e - 1) as nat);
        assert(0 <= b * pow(b, (e - 1) as nat)) by (nonlinear_arith)
            requires
                0 <= b,
                0 <= pow(b, (e - 1) as nat),
        ;
    }
}

/// `pow` is monotone in the base.
pub proof fn lemma_pow_base_le(a: int, b: int, e: nat)
    requires
        0 <= a <= b,
    ensures
        pow(a, e) <= pow(b, e),
    decreases e,
{
    if e == 0 {
        lemma_pow0(a);
        lemma_pow0(b);
    } else {
        let e1 = (e - 1) as nat;
        lemma_pow_base_le(a, b, e1);
        lemma_pow_nat_nonneg(a, e1);
        lemma_pow1(a);
        lemma_pow1(b);
        lemma_pow_adds(a, 1, e1);
        lemma_pow_adds(b, 1, e1);
        assert(a * pow(a, e1) <= b * pow(b, e1)) by (nonlinear_arith)
            requires
                0 <= a <= b,
                0 <= pow(a, e1) <= pow(b, e1),
        ;
    }
}

/// `pow` is strictly monotone in the base once the exponent is positive.
pub proof fn lemma_pow_base_lt(a: int, b: int, e: nat)
    requires
        0 <= a < b,
        1 <= e,
    ensures
        pow(a, e) < pow(b, e),
    decreases e,
{
    if e == 1 {
        lemma_pow1(a);
        lemma_pow1(b);
    } else {
        let e1 = (e - 1) as nat;
        lemma_pow_base_lt(a, b, e1);
        lemma_pow_nat_nonneg(a, e1);
        lemma_pow1(a);
        lemma_pow1(b);
        lemma_pow_adds(a, 1, e1);
        lemma_pow_adds(b, 1, e1);
        assert(a * pow(a, e1) < b * pow(b, e1)) by (nonlinear_arith)
            requires
                0 <= a < b,
                0 <= pow(a, e1) < pow(b, e1),
        ;
    }
}

/// `10^2 == 100` and `10^3 == 1000`.
pub proof fn lemma_pow10_small()
    ensures
        pow(10, 1) == 10,
        pow(10, 2) == 100,
        pow(10, 3) == 1000,
{
    lemma_pow1(10);
    lemma_pow_adds(10, 1, 1);
    lemma_pow_adds(10, 1, 2);
}

/// `scale(t) == 100^t`, so `pow(n, t) <= scale(t)` for `n <= 100`.
pub proof fn lemma_scale_is_pow100(t: nat)
    ensures
        scale(t) == pow(100, t),
        scale(t) > 0,
{
    lemma_pow10_small();
    lemma_pow_multiplies(10, 2, t);
    lemma_pow_positive(10, 2 * t);
}

/// Scaling numerator and denominator by the same positive factor changes
/// neither the quotient nor which side of the half the remainder falls on.
pub proof fn lemma_half_down_scale(x: int, d: int, c: int)
    requires
        0 <= x,
        1 <= d,
        1 <= c,
    ensures
        half_down(c * x, c * d) == half_down(x, d),
{
    let q = x / d;
    let r = x % d;
    lemma_fundamental_div_mod(x, d);
    lemma_mod_bound(x, d);
    assert(c * x == q * (c * d) + c * r) by (nonlinear_arith)
        requires
            x == d * q + r,
    ;
    assert(0 <= c * r < c * d) by (nonlinear_arith)
        requires
            0 <= r < d,
            1 <= c,
    ;
    lemma_fundamental_div_mod_converse(c * x, c * d, q, c * r);
    assert(2 * (c * r) > c * d <==> 2 * r > d) by (nonlinear_arith)
        requires
            1 <= c,
    ;
}

/// Once the remaining non-occurrence mass is below half a tenth of a percent
/// at hit count `k`, it stays there for every later hit count, so the cell
/// is flat: it displays exactly `100%` (tenths 1000) and is highlighted.
pub proof fn lemma_flat_tail(n: int, k: nat, t: nat)
    requires
        0 <= n < 100,
        1 <= k <= t,
        2000 * pow(n, k) < pow(10, 2 * k),
    ensures
        2000 * pow(n, t) < pow(10, 2 * t),
        tenths_spec(n, t) == 1000,
        highlight_spec(n, t),
{
    let e = (t - k) as nat;
    lemma_pow_adds(n, k, e);
    lemma_pow_adds(10, 2 * k, 2 * e);
    lemma_pow_base_le(n, 100, e);
    lemma_scale_is_pow100(e);
    lemma_pow_nat_nonneg(n, e);
    lemma_pow_nat_nonneg(n, k);
    lemma_pow_positive(10, 2 * k);
    lemma_pow_positive(10, 2 * e);
    lemma_pow_positive(10, 2 * t);
    assert(2000 * pow(n, t) < pow(10, 2 * t)) by (nonlinear_arith)
        requires
            pow(n, t) == pow(n, k) * pow(n, e),
            pow(10, 2 * t) == pow(10, 2 * k) * pow(10, 2 * e),
            2000 * pow(n, k) < pow(10, 2 * k),
            0 <= pow(n, e) <= pow(10, 2 * e),
            0 <= pow(n, k),
            0 < pow(10, 2 * k),
            0 < pow(10, 2 * e),
    ;
    // The scaled mass is below one half, so it rounds to zero tenths.
    let x = miss_scaled(n, t);
    let d = scale(t);
    lemma_pow_nat_nonneg(n, t);
    assert(0 <= x < d);
    lemma_fundamental_div_mod_converse(x, d, 0, x);
    assert(x / d == 0 && x % d == x);
    assert(!(2 * (x % d) > d));
    assert(half_down(x, d) == 0);
    // And the unrounded percentage is far above 70.
    assert(100 * pow(n, t) < 30 * scale(t));
}

/// The displayed tenths always land in `[0, 1000]`.
pub proof fn lemma_tenths_bounds(n: int, t: nat)
    requires
        0 <= n < 100,
        1 <= t,
    ensures
        0 <= half_down(miss_scaled(n, t), scale(t)) <= 1000,
        0 <= tenths_spec(n, t) <= 1000,
{
    let x = miss_scaled(n, t);
    let d = scale(t);
    lemma_scale_is_pow100(t);
    lemma_pow_nat_nonneg(n, t);
    lemma_pow_base_lt(n, 100, t);
    assert(pow(n, t) < pow(100, t));
    assert(x <= 1000 * pow(100, t) - 1000);
    lemma_div_pos_is_pos(x, d);
    lemma_mod_bound(x, d);
    lemma_div_is_ordered(x, 1000 * d - 1, d);
    assert(1000 * d - 1 == 999 * d + (d - 1)) by (nonlinear_arith);
    lemma_fundamental_div_mod_converse(1000 * d - 1, d, 999, d - 1);
    assert((1000 * d - 1) / d == 999);
    assert(x / d <= 999);
}

/// One cell of the displayed table: the cumulative-occurrence percentage in
/// tenths (`0` to `1000`), and whether it strictly exceeds the 70% highlight
/// threshold before rounding.
#[derive(Clone, Copy, Debug, PartialEq, Eq, Structural)]
pub struct DisplayCell {
    pub tenths: u16,
    pub highlight: bool,
}

/// A rejected evaluation request.
#[derive(Clone, Copy, Debug, PartialEq, Eq, Structural)]
pub enum EvalError {
    /// The supplied hit count was not a positive integer.
    InvalidInput,
}

/// Compute the displayed cell for a non-occurrence numerator `n` (over 100)
/// and a hit count `trials`, exactly: the tenths value is the true rounded
/// percentage and the highlight flag compares the true unrounded one.
pub fn cell_display(n: u64, trials: i32) -> (c: DisplayCell)
    requires
        n < 100,
        1 <= trials,
    ensures
        c.tenths as int == tenths_spec(n as int, trials as nat),
        c.highlight == highlight_spec(n as int, trials as nat),
        c.tenths <= 1000,
{
    proof {
        lemma_tenths_bounds(n as int, trials as nat);
    }
    if trials == 1 {
        proof {
            lemma_pow1(n as int);
            lemma_pow10_small();
            assert(scale(1) == 100);
            assert(1000 * (n as int) == (10 * (n as int)) * 100 + 0) by (nonlinear_arith);
            lemma_fundamental_div_mod_converse(1000 * (n as int), 100, 10 * (n as int), 0);
            assert(half_down(miss_scaled(n as int, 1), scale(1)) == 10 * (n as int));
        }
        let tenths: u16 = 1000 - 10 * (n as u16);
        let highlight: bool = n < 30;
        return DisplayCell { tenths, highlight };
    }
    let mut p: Vec<u64> = digits_pair(n);
    let mut k: i32 = 1;
    proof {
        lemma_pow1(n as int);
    }
    while k < trials
        invariant
            n < 100,
            2 <= trials,
            1 <= k <= trials,
            digits_wf(p@),
            p@.len() == 2 * k,
            val_of(p@) == pow(n as int, k as nat),
        decreases trials - k,
    {
        if k >= 2 {
            let len: usize = p.len();
            proof {
                assert(p@[len - 4] < 10 && p@[len - 3] < 10 && p@[len - 2] < 10
                    && p@[len - 1] < 10);
            }
            let hi4: u64 = p[len - 4] + 10 * p[len - 3] + 100 * p[len - 2] + 1000 * p[len - 1];
            if hi4 <= 4 {
                proof {
                    let m: int = 2 * (k as int) - 4;
                    lemma_val_split(p@, m);
                    assert(p@.skip(m).len() == 4);
                    lemma_val4(p@.skip(m));
                    assert(p@.skip(m)[0] == p@[len - 4] && p@.skip(m)[1] == p@[len - 3]
                        && p@.skip(m)[2] == p@[len - 2] && p@.skip(m)[3] == p@[len - 1]);
                    assert(val_of(p@.skip(m)) == hi4);
                    assert(digits_wf(p@.take(m)));
                    lemma_val_bound(p@.take(m));
                    let pm: int = pow(10, m as nat);
                    lemma_pow_positive(10, m as nat);
                    // n^k < 5 * 10^(2k-4), hence 2000 * n^k < 10^(2k).
                    assert(pow(n as int, k as nat) < 5 * pm) by (nonlinear_arith)
                        requires
                            pow(n as int, k as nat) == val_of(p@.take(m)) + pm * hi4,
                            0 <= val_of(p@.take(m)) < pm,
                            hi4 <= 4,
                            0 < pm,
                    ;
                    lemma_pow10_small();
                    lemma_pow_adds(10, 4, m as nat);
                    lemma_pow_adds(10, 1, 3);
                    assert(pow(10, 4) == 10 * 1000);
                    assert(pow(10, 2 * (k as nat)) == 10000 * pm);
                    assert(2000 * pow(n as int, k as nat) < pow(10, 2 * (k as nat)))
                        by (nonlinear_arith)
                        requires
                            pow(n as int, k as nat) < 5 * pm,
                            pow(10, 2 * (k as nat)) == 10000 * pm,
                            0 < pm,
                    ;
                    lemma_flat_tail(n as int, k as nat, trials as nat);
                }
                return DisplayCell { tenths: 1000, highlight: true };
            }
        }
        let ghost k0: int = k as int;
        p = mul_digit(&p, n);
        k = k + 1;
        proof {
            lemma_pow1(n as int);
            lemma_pow_adds(n as int, 1, k0 as nat);
            assert(val_of(p@) == (n as int) * pow(n as int, k0 as nat));
        }
    }
    // Here `k == trials`: `p` holds the exact digits of `n^trials`.
    let len: usize = p.len();
    proof {
        assert(p@[len - 3] < 10 && p@[len - 2] < 10 && p@[len - 1] < 10 && p@[len - 4] < 10);
    }
    let u3: u64 = p[len - 3] + 10 * p[len - 2] + 100 * p[len - 1];
    let d5: u64 = p[len - 4];
    let mut allz: bool = true;
    let mut idx: usize = 0;
    while idx < len - 4
        invariant
            len == p@.len(),
            4 <= len,
            idx <= len - 4,
            digits_wf(p@),
            allz <==> (forall|b: int| 0 <= b < idx ==> p@[b] == 0),
        decreases len - 4 - idx,
    {
        if p[idx] != 0 {
            allz = false;
        }
        idx = idx + 1;
    }
    let flag: bool = d5 > 5 || (d5 == 5 && !allz);
    let add: u16 = if flag {
        1
    } else {
        0
    };
    let tenths: u16 = 1000 - (u3 as u16 + add);
    let highlight: bool = p[len - 1] <= 2;
    proof {
        let t: int = trials as int;
        let tn: nat = trials as nat;
        let nn: int = n as int;
        let m: int = 2 * t - 3;
        let bign: int = pow(nn, tn);
        let pm: int = pow(10, m as nat);
        let pm1: int = pow(10, (m - 1) as nat);
        lemma_pow_positive(10, m as nat);
        lemma_pow_positive(10, (m - 1) as nat);
        lemma_pow10_succ((m - 1) as nat);
        assert(pm == 10 * pm1);
        // High part: the top three digits are the quotient by 10^(2t-3).
        lemma_val_split(p@, m);
        assert(p@.skip(m).len() == 3);
        lemma_val3(p@.skip(m));
        assert(p@.skip(m)[0] == p@[len - 3] && p@.skip(m)[1] == p@[len - 2]
            && p@.skip(m)[2] == p@[len - 1]);
        assert(val_of(p@.skip(m)) == u3);
        assert(digits_wf(p@.take(m)));
        lemma_val_bound(p@.take(m));
        let low3: int = val_of(p@.take(m));
        assert(u3 * pm + low3 == bign) by (nonlinear_arith)
            requires
                bign == low3 + pm * u3,
        ;
        lemma_fundamental_div_mod_converse(bign, pm, u3 as int, low3);
        assert(bign / pm == u3 && bign % pm == low3);
        // Low part: split off the digit at 2t-4 to compare with half.
        assert(p@.take(m).take(m - 1) =~= p@.take(m - 1));
        lemma_val_split(p@.take(m), m - 1);
        assert(p@.take(m).skip(m - 1).len() == 1);
        assert(p@.take(m).skip(m - 1)[0] == p@[m - 1]);
        assert(val_of(p@.take(m).skip(m - 1).skip(1)) == 0);
        assert(val_of(p@.take(m).skip(m - 1))
            == p@[m - 1] + 10 * val_of(p@.take(m).skip(m - 1).skip(1)));
        assert(m - 1 == len - 4);
        assert(val_of(p@.take(m).skip(m - 1)) == d5);
        assert(digits_wf(p@.take(m - 1)));
        lemma_val_bound(p@.take(m - 1));
        let low4: int = val_of(p@.take(m - 1));
        assert(low3 == low4 + pm1 * d5);
        // `allz` decides whether the digits below position 2t-4 are all zero.
        lemma_val_zero_iff(p@.take(m - 1));
        assert(forall|b: int| 0 <= b < m - 1 ==> p@.take(m - 1)[b] == p@[b]);
        assert(allz <==> low4 == 0);
        // The round-up flag is exact: remainder strictly above half of 10^(2t-3).
        assert(flag <==> 2 * low3 > pm) by (nonlinear_arith)
            requires
                low3 == low4 + pm1 * d5,
                0 <= low4 < pm1,
                pm == 10 * pm1,
                0 < pm1,
                d5 < 10,
                flag <==> (d5 > 5 || (d5 == 5 && low4 > 0)),
        ;
        assert(half_down(bign, pm) == u3 + add);
        // Scale numerator and denominator by 1000 to reach the spec's terms.
        lemma_pow10_small();
        lemma_pow_adds(10, 3, m as nat);
        assert(pow(10, 2 * tn) == 1000 * pm);
        lemma_pow_nat_nonneg(nn, tn);
        lemma_half_down_scale(bign, pm, 1000);
        assert(half_down(1000 * bign, 1000 * pm) == u3 + add);
        assert(half_down(miss_scaled(nn, tn), scale(tn)) == u3 + add);
        assert(u3 <= 999);
        assert(tenths as int == tenths_spec(nn, tn));
        // Highlight: compare the top digit with 3.
        let q1: int = pow(10, (2 * tn - 1) as nat);
        lemma_pow_positive(10, (2 * tn - 1) as nat);
        lemma_pow10_succ((2 * tn - 1) as nat);
        assert(scale(tn) == 10 * q1);
        lemma_val_split(p@, 2 * t - 1);
        assert(p@.skip(2 * t - 1).len() == 1);
        assert(p@.skip(2 * t - 1)[0] == p@[len - 1]);
        assert(val_of(p@.skip(2 * t - 1).skip(1)) == 0);
        assert(val_of(p@.skip(2 * t - 1))
            == p@[len - 1] + 10 * val_of(p@.skip(2 * t - 1).skip(1)));
        assert(digits_wf(p@.take(2 * t - 1)));
        lemma_val_bound(p@.take(2 * t - 1));
        assert(bign < 3 * q1 <==> p@[len - 1] <= 2) by (nonlinear_arith)
            requires
                bign == val_of(p@.take(2 * t - 1)) + q1 * (p@[len - 1] as int),
                0 <= val_of(p@.take(2 * t - 1)) < q1,
                0 < q1,
                p@[len - 1] < 10,
        ;
        assert(highlight <==> 100 * bign < 30 * (10 * q1)) by (nonlinear_arith)
            requires
                highlight <==> bign < 3 * q1,
                0 < q1,
        ;
        assert(highlight == highlight_spec(nn, tn));
    }
    DisplayCell { tenths, highlight }
}

/// The views of a sequence of display rows.
pub open spec fn rows_view(v: Seq<Vec<DisplayCell>>) -> Seq<Seq<DisplayCell>> {
    v.map_values(|row: Vec<DisplayCell>| row@)
}

/// A full displayed table for hit count `t`: 5 rows of 10 cells, and every
/// cell holds exactly the rounded percentage and exact highlight flag for
/// its grid position. This pins the output of `evaluate` completely.
pub open spec fn display_rows_ok(rows: Seq<Seq<DisplayCell>>, t: nat) -> bool {
    &&& rows.len() == 5
    &&& forall|i: int| 0 <= i < 5 ==> (#[trigger] rows[i]).len() == 10
    &&& forall|i: int, j: int|
        0 <= i < 5 && 0 <= j < 10 ==> {
            &&& (#[trigger] rows[i][j]).tenths as int == tenths_spec(miss_numerator(i, j), t)
            &&& rows[i][j].highlight == highlight_spec(miss_numerator(i, j), t)
            &&& rows[i][j].tenths <= 1000
        }
}

/// Evaluate the whole table for a hit count.
///
/// A non-positive hit count is rejected with `InvalidInput`; any positive
/// hit count is accepted, and the result is the exact displayed table:
/// deterministic, and recomputed from scratch on every call.
pub fn evaluate(grid: &ProbabilityGrid, trials: i32) -> (r: Result<
    Vec<Vec<DisplayCell>>,
    EvalError,
>)
    requires
        grid.wf(),
    ensures
        trials < 1 <==> r is Err,
        r is Err ==> r->Err_0 == EvalError::InvalidInput,
        r is Ok ==> display_rows_ok(rows_view(r->Ok_0@), trials as nat),
{
    if trials < 1 {
        return Err(EvalError::InvalidInput);
    }
    let mut rows: Vec<Vec<DisplayCell>> = Vec::new();
    let mut i: usize = 0;
    while i < 5
        invariant
            grid.wf(),
            1 <= trials,
            i <= 5,
            rows@.len() == i,
            forall|a: int| 0 <= a < i ==> (#[trigger] rows@[a])@.len() == 10,
            forall|a: int, b: int|
                0 <= a < i && 0 <= b < 10 ==> {
                    &&& (#[trigger] rows@[a]@[b]).tenths as int == tenths_spec(
                        miss_numerator(a, b),
                        trials as nat,
                    )
                    &&& rows@[a]@[b].highlight == highlight_spec(miss_numerator(a, b), trials as nat)
                    &&& rows@[a]@[b].tenths <= 1000
                },
        decreases 5 - i,
    {
        let mut row: Vec<DisplayCell> = Vec::new();
        let mut j: usize = 0;
        while j < 10
            invariant
                grid.wf(),
                1 <= trials,
                i < 5,
                j <= 10,
                row@.len() == j,
                forall|b: int|
                    0 <= b < j ==> {
                        &&& (#[trigger] row@[b]).tenths as int == tenths_spec(
                            miss_numerator(i as int, b),
                            trials as nat,
                        )
                        &&& row@[b].highlight == highlight_spec(
                            miss_numerator(i as int, b),
                            trials as nat,
                        )
                        &&& row@[b].tenths <= 1000
                    },
            decreases 10 - j,
        {
            proof {
                lemma_miss_numerator_range(i as int, j as int);
            }
            let n: u64 = grid.cells[i][j];
            let c: DisplayCell = cell_display(n, trials);
            row.push(c);
            j = j + 1;
        }
        rows.push(row);
        i = i + 1;
    }
    proof {
        assert forall|a: int| 0 <= a < 5 implies (#[trigger] rows_view(rows@)[a]).len() == 10 by {
            assert(rows_view(rows@)[a] == rows@[a]@);
        }
        assert forall|a: int, b: int| 0 <= a < 5 && 0 <= b < 10 implies {
            &&& (#[trigger] rows_view(rows@)[a][b]).tenths as int == tenths_spec(
                miss_numerator(a, b),
                trials as nat,
            )
            &&& rows_view(rows@)[a][b].highlight == highlight_spec(miss_numerator(a, b), trials as nat)
            &&& rows_view(rows@)[a][b].tenths <= 1000
        } by {
            assert(rows_view(rows@)[a] == rows@[a]@);
        }
    }
    Ok(rows)
}

} // verus!
