//! Exact little-endian base-10 arithmetic.
//!
//! Probability cells are rationals with a power-of-ten denominator, so the
//! evaluator needs the exact value of `n^t` for trial counts `t` far beyond
//! any fixed-width integer. A `Vec<u64>` of decimal digits, least significant
//! first, denotes an unbounded integer (`val_of`); multiplying by a small
//! factor and reading off digits around a power-of-ten position stay cheap
//! and are verified exactly.

use vstd::arithmetic::div_mod::*;
use vstd::arithmetic::power::*;
use vstd::prelude::*;

verus! {

/// The integer denoted by a little-endian sequence of base-10 digits.
pub open spec fn val_of(s: Seq<u64>) -> int
    decreases s.len(),
{
    if s.len() == 0 {
        0
    } else {
        s[0] + 10 * val_of(s.skip(1))
    }
}

/// Every entry is a single decimal digit.
pub open spec fn digits_wf(s: Seq<u64>) -> bool {
    forall|i: int| 0 <= i < s.len() ==> s[i] < 10
}

/// `pow(10, e + 1) == 10 * pow(10, e)`.
pub proof fn lemma_pow10_succ(e: nat)
    ensures
        pow(10, e + 1) == 10 * pow(10, e),
{
    lemma_pow1(10);
    lemma_pow_adds(10, 1, e);
}

/// Appending a digit on the most-significant end adds `d * 10^len`.
pub proof fn lemma_val_push(s: Seq<u64>, d: u64)
    ensures
        val_of(s.push(d)) == val_of(s) + d * pow(10, s.len()),
    decreases s.len(),
{
    if s.len() == 0 {
        assert(s.push(d)[0] == d);
        assert(s.push(d).skip(1) =~= Seq::<u64>::empty());
        assert(val_of(s.push(d)) == d + 10 * val_of(Seq::<u64>::empty()));
        lemma_pow0(10);
    } else {
        assert(s.push(d).skip(1) =~= s.skip(1).push(d));
        lemma_val_push(s.skip(1), d);
        lemma_pow10_succ((s.len() - 1) as nat);
        let p: int = pow(10, (s.len() - 1) as nat);
        assert(val_of(s.push(d)) == s[0] + 10 * (val_of(s.skip(1)) + d * p));
        assert(10 * (val_of(s.skip(1)) + d * p) == 10 * val_of(s.skip(1)) + d * (10 * p))
            by (nonlinear_arith);
    }
}

/// Extending a prefix by one digit adds `s[i] * 10^i`.
pub proof fn lemma_val_take_succ(s: Seq<u64>, i: int)
    requires
        0 <= i < s.len(),
    ensures
        val_of(s.take(i + 1)) == val_of(s.take(i)) + s[i] * pow(10, i as nat),
{
    assert(s.take(i + 1) =~= s.take(i).push(s[i]));
    lemma_val_push(s.take(i), s[i]);
}

/// A digit sequence of length `len` denotes a value in `[0, 10^len)`.
pub proof fn lemma_val_bound(s: Seq<u64>)
    requires
        digits_wf(s),
    ensures
        0 <= val_of(s) < pow(10, s.len()),
    decreases s.len(),
{
    if s.len() == 0 {
        lemma_pow0(10);
    } else {
        assert(digits_wf(s.skip(1)));
        lemma_val_bound(s.skip(1));
        lemma_pow10_succ((s.len() - 1) as nat);
        let p: int = pow(10, (s.len() - 1) as nat);
        assert(s[0] + 10 * val_of(s.skip(1)) < 10 * p) by (nonlinear_arith)
            requires
                s[0] < 10,
                val_of(s.skip(1)) < p,
        ;
    }
}

/// Splitting at position `m`: low digits plus `10^m` times the high digits.
pub proof fn lemma_val_split(s: Seq<u64>, m: int)
    requires
        0 <= m <= s.len(),
    ensures
        val_of(s) == val_of(s.take(m)) + pow(10, m as nat) * val_of(s.skip(m)),
    decreases m,
{
    if m == 0 {
        assert(s.take(0) =~= Seq::<u64>::empty());
        assert(s.skip(0) =~= s);
        lemma_pow0(10);
    } else {
        lemma_val_split(s, m - 1);
        lemma_val_take_succ(s, m - 1);
        assert(s.skip(m - 1).len() == s.len() - (m - 1));
        assert(s.skip(m - 1)[0] == s[m - 1]);
        assert(s.skip(m - 1).skip(1) =~= s.skip(m));
        assert(val_of(s.skip(m - 1)) == s[m - 1] + 10 * val_of(s.skip(m)));
        lemma_pow10_succ((m - 1) as nat);
        let p: int = pow(10, (m - 1) as nat);
        assert(p * (s[m - 1] + 10 * val_of(s.skip(m)))
            == s[m - 1] * p + (10 * p) * val_of(s.skip(m))) by (nonlinear_arith);
    }
}

/// A well-formed digit sequence denotes zero exactly when all digits are zero.
pub proof fn lemma_val_zero_iff(s: Seq<u64>)
    requires
        digits_wf(s),
    ensures
        val_of(s) == 0 <==> (forall|i: int| 0 <= i < s.len() ==> s[i] == 0),
    decreases s.len(),
{
    if s.len() == 0 {
    } else {
        assert(digits_wf(s.skip(1)));
        lemma_val_zero_iff(s.skip(1));
        lemma_val_bound(s.skip(1));
        if val_of(s) == 0 {
            assert(s[0] == 0 && val_of(s.skip(1)) == 0);
            assert forall|i: int| 0 <= i < s.len() implies s[i] == 0 by {
                if i >= 1 {
                    assert(s.skip(1)[i - 1] == 0);
                }
            }
        } else {
            if forall|i: int| 0 <= i < s.len() ==> s[i] == 0 {
                assert forall|i: int| 0 <= i < s.skip(1).len() implies s.skip(1)[i] == 0 by {
                    assert(s[i + 1] == 0);
                }
                assert(val_of(s.skip(1)) == 0);
                assert(s[0] == 0);
                assert(false);
            }
        }
    }
}

/// Closed form for a three-digit sequence.
pub proof fn lemma_val3(s: Seq<u64>)
    requires
        s.len() == 3,
    ensures
        val_of(s) == s[0] + 10 * s[1] + 100 * s[2],
{
    let s1 = s.skip(1);
    let s2 = s1.skip(1);
    assert(s1.len() == 2 && s2.len() == 1);
    assert(s1[0] == s[1] && s2[0] == s[2]);
    assert(val_of(s2.skip(1)) == 0);
    assert(val_of(s2) == s2[0] + 10 * val_of(s2.skip(1)));
    assert(s1.skip(1) =~= s2);
    assert(val_of(s1) == s1[0] + 10 * val_of(s2));
    assert(s.skip(1) =~= s1);
    assert(val_of(s) == s[0] + 10 * val_of(s1));
}

/// Closed form for a four-digit sequence.
pub proof fn lemma_val4(s: Seq<u64>)
    requires
        s.len() == 4,
    ensures
        val_of(s) == s[0] + 10 * s[1] + 100 * s[2] + 1000 * s[3],
{
    let s1 = s.skip(1);
    assert(s1.len() == 3);
    assert(s1[0] == s[1] && s1[1] == s[2] && s1[2] == s[3]);
    lemma_val3(s1);
    assert(val_of(s) == s[0] + 10 * val_of(s1));
}

/// The two-digit representation of `n < 100`.
pub fn digits_pair(n: u64) -> (r: Vec<u64>)
    requires
        n < 100,
    ensures
        digits_wf(r@),
        r@.len() == 2,
        val_of(r@) == n,
{
    let mut r: Vec<u64> = Vec::new();
    r.push(n % 10);
    r.push(n / 10);
    proof {
        lemma_fundamental_div_mod(n as int, 10);
        let e = Seq::<u64>::empty();
        assert(r@ =~= e.push(n % 10).push(n / 10));
        lemma_val_push(e, n % 10);
        lemma_val_push(e.push(n % 10), n / 10);
        lemma_pow0(10);
        lemma_pow10_succ(0);
        assert(val_of(e) == 0);
        assert(val_of(e.push(n % 10)) == n % 10);
        assert(e.push(n % 10).len() == 1);
        assert(pow(10, 1) == 10);
        assert(val_of(r@) == n % 10 + (n / 10) * 10);
        assert(n == 10 * (n / 10) + n % 10);
    }
    r
}

/// Multiply a digit sequence by a factor below 100, padding the result with
/// exactly two extra digit positions so the length stays predictable.
pub fn mul_digit(v: &Vec<u64>, m: u64) -> (r: Vec<u64>)
    requires
        digits_wf(v@),
        m < 100,
    ensures
        digits_wf(r@),
        r@.len() == v@.len() + 2,
        val_of(r@) == m * val_of(v@),
{
    let mut r: Vec<u64> = Vec::new();
    let mut c: u64 = 0;
    let mut i: usize = 0;
    while i < v.len()
        invariant
            digits_wf(v@),
            m < 100,
            i <= v.len(),
            r@.len() == i,
            digits_wf(r@),
            c <= 99,
            val_of(r@) + c * pow(10, i as nat) == m * val_of(v@.take(i as int)),
        decreases v.len() - i,
    {
        let ghost r0 = r@;
        let ghost c0: int = c as int;
        let ghost i0: int = i as int;
        assert(v@[i0] < 10);
        assert(v@[i0] * m <= 891) by (nonlinear_arith)
            requires
                v@[i0] < 10,
                m < 100,
        ;
        let t: u64 = v[i] * m + c;
        r.push(t % 10);
        c = t / 10;
        i = i + 1;
        proof {
            lemma_fundamental_div_mod(t as int, 10);
            assert(t <= 990);
            assert(c <= 99);
            lemma_val_push(r0, t % 10);
            lemma_val_take_succ(v@, i0);
            lemma_pow10_succ(i0 as nat);
            let p: int = pow(10, i0 as nat);
            lemma_pow_positive(10, i0 as nat);
            assert(val_of(r@) == val_of(r0) + (t % 10) * p);
            assert((t % 10) * p + (t / 10) * (10 * p) == t * p) by (nonlinear_arith)
                requires
                    t == 10 * (t / 10) + (t % 10),
            ;
            assert(t * p == (v@[i0] * m) * p + c0 * p) by (nonlinear_arith)
                requires
                    t == v@[i0] * m + c0,
            ;
            assert(m * val_of(v@.take(i0 + 1)) == m * val_of(v@.take(i0)) + m * (v@[i0] * p))
                by (nonlinear_arith)
                requires
                    val_of(v@.take(i0 + 1)) == val_of(v@.take(i0)) + v@[i0] * p,
            ;
            assert((v@[i0] * m) * p == m * (v@[i0] * p)) by (nonlinear_arith);
            assert(val_of(r@) + c * pow(10, (i0 + 1) as nat) == m * val_of(v@.take(i0 + 1)));
        }
    }
    proof {
        assert(v@.take(v.len() as int) =~= v@);
    }
    let ghost rm = r@;
    let ghost cm: int = c as int;
    let ghost lm: int = r@.len() as int;
    r.push(c % 10);
    r.push(c / 10);
    proof {
        lemma_fundamental_div_mod(cm, 10);
        assert(c / 10 < 10);
        lemma_val_push(rm, c % 10);
        lemma_val_push(rm.push(c % 10), c / 10);
        lemma_pow10_succ(lm as nat);
        let p: int = pow(10, lm as nat);
        assert((cm % 10) * p + (cm / 10) * (10 * p) == cm * p) by (nonlinear_arith)
            requires
                cm == 10 * (cm / 10) + (cm % 10),
        ;
        assert(val_of(r@) == val_of(rm) + cm * p);
    }
    r
}

} // verus!
