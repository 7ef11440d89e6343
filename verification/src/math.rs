//! Exact integer arithmetic used by the solver: truncating (round toward
//! zero) division and a floor integer square root, together with the lemmas
//! the pipeline stages need about them.

use vstd::prelude::*;
use vstd::arithmetic::div_mod::{lemma_fundamental_div_mod, lemma_mod_division_less_than_divisor};

verus! {

/// Quotient of `a / b` rounded toward zero, the rounding Rust's `/` uses.
pub open spec fn tdiv(a: int, b: int) -> int
    recommends
        b > 0,
{
    if a >= 0 {
        a / b
    } else {
        -((-a) / b)
    }
}

/// Floor of the square root: the greatest `r >= 0` with `r * r <= n`.
pub open spec fn isqrt_at(n: int) -> int
    decreases n,
{
    if n < 1 {
        0
    } else {
        let r = isqrt_at(n - 1);
        if (r + 1) * (r + 1) <= n {
            r + 1
        } else {
            r
        }
    }
}

/// `isqrt_at(n)` really is the floor square root of `n`.
pub proof fn lemma_isqrt(n: int)
    requires
        n >= 0,
    ensures
        isqrt_at(n) >= 0,
        isqrt_at(n) * isqrt_at(n) <= n,
        n < (isqrt_at(n) + 1) * (isqrt_at(n) + 1),
    decreases n,
{
    if n >= 1 {
        lemma_isqrt(n - 1);
        let r = isqrt_at(n - 1);
        if (r + 1) * (r + 1) <= n {
            assert(n < (r + 2) * (r + 2)) by (nonlinear_arith)
                requires
                    r >= 0,
                    n - 1 < (r + 1) * (r + 1),
            ;
        }
    }
}

/// Any `r` with `r * r <= n < (r + 1) * (r + 1)` equals `isqrt_at(n)`.
pub proof fn lemma_isqrt_unique(n: int, r: int)
    requires
        r >= 0,
        r * r <= n,
        n < (r + 1) * (r + 1),
    ensures
        r == isqrt_at(n),
{
    lemma_isqrt(n);
    let s = isqrt_at(n);
    if r < s {
        assert(s * s > n) by (nonlinear_arith)
            requires
                r >= 0,
                s >= r + 1,
                n < (r + 1) * (r + 1),
        ;
    }
    if r > s {
        assert(r * r > n) by (nonlinear_arith)
            requires
                s >= 0,
                r >= s + 1,
                n < (s + 1) * (s + 1),
        ;
    }
}

/// Monotonicity entry: if `a * a <= n` then `a <= isqrt_at(n)`.
pub proof fn lemma_isqrt_at_least(n: int, a: int)
    requires
        a >= 0,
        a * a <= n,
    ensures
        a <= isqrt_at(n),
{
    lemma_isqrt(n);
    let s = isqrt_at(n);
    if a > s {
        assert(a * a > n) by (nonlinear_arith)
            requires
                s >= 0,
                a >= s + 1,
                n < (s + 1) * (s + 1),
        ;
    }
}

/// The floor square root of a perfect square is exact.
pub proof fn lemma_isqrt_square(a: int)
    requires
        a >= 0,
    ensures
        isqrt_at(a * a) == a,
{
    assert(a * a < (a + 1) * (a + 1)) by (nonlinear_arith)
        requires
            a >= 0,
    ;
    lemma_isqrt_unique(a * a, a);
}

/// A coordinate of a vector is no longer than the vector: `|x| <= isqrt_at(x * x + y * y)`.
pub proof fn lemma_coord_le_norm(x: int, y: int)
    ensures
        abs_at(x) <= isqrt_at(x * x + y * y),
    {
    assert(abs_at(x) * abs_at(x) == x * x && y * y >= 0) by (nonlinear_arith);
    lemma_isqrt_at_least(x * x + y * y, abs_at(x));
}

/// Absolute value.
pub open spec fn abs_at(a: int) -> int {
    if a >= 0 {
        a
    } else {
        -a
    }
}

/// Characterization of truncating division: quotient and remainder signs
/// follow the dividend, and the remainder is smaller than the divisor.
pub proof fn lemma_tdiv(a: int, b: int)
    requires
        b > 0,
    ensures
        a >= 0 ==> tdiv(a, b) >= 0 && tdiv(a, b) * b <= a && a < tdiv(a, b) * b + b,
        a <= 0 ==> tdiv(a, b) <= 0 && tdiv(a, b) * b >= a && a > tdiv(a, b) * b - b,
{
    if a >= 0 {
        lemma_fundamental_div_mod(a, b);
        lemma_mod_division_less_than_divisor(a, b);
        let q = a / b;
        assert(q >= 0 && q * b <= a && a < q * b + b) by (nonlinear_arith)
            requires
                b > 0,
                a >= 0,
                b * q == a - a % b,
                0 <= a % b < b,
        ;
    }
    if a <= 0 {
        lemma_fundamental_div_mod(-a, b);
        lemma_mod_division_less_than_divisor(-a, b);
        let q = (-a) / b;
        assert(q >= 0 && (-q) * b >= a && a > (-q) * b - b) by (nonlinear_arith)
            requires
                b > 0,
                -a >= 0,
                b * q == -a - (-a) % b,
                0 <= (-a) % b < b,
        ;
        assert(tdiv(a, b) == -q);
    }
}

/// A bound on the dividend gives the matching bound on the truncated quotient.
pub proof fn lemma_tdiv_bound(a: int, b: int, m: int)
    requires
        b > 0,
        m >= 0,
        -(b * m) <= a <= b * m,
    ensures
        -m <= tdiv(a, b) <= m,
{
    lemma_tdiv(a, b);
    let q = tdiv(a, b);
    if a >= 0 {
        assert(q <= m) by (nonlinear_arith)
            requires
                b > 0,
                m >= 0,
                q >= 0,
                q * b <= a,
                a <= b * m,
        ;
    }
    if a <= 0 {
        assert(q >= -m) by (nonlinear_arith)
            requires
                b > 0,
                m >= 0,
                q <= 0,
                q * b >= a,
                a >= -(b * m),
        ;
    }
}

/// Scaling dividend and divisor by the same positive factor keeps the
/// truncated quotient.
pub proof fn lemma_tdiv_scale(a: int, b: int, k: int)
    requires
        b > 0,
        k > 0,
    ensures
        tdiv(a * k, b * k) == tdiv(a, b),
{
    if a >= 0 {
        lemma_div_scale_nonneg(a, b, k);
        assert(a * k >= 0) by (nonlinear_arith)
            requires
                a >= 0,
                k > 0,
        ;
    } else {
        lemma_div_scale_nonneg(-a, b, k);
        assert(a * k < 0 && (-a) * k == -(a * k)) by (nonlinear_arith)
            requires
                a < 0,
                k > 0,
        ;
    }
}

proof fn lemma_div_scale_nonneg(a: int, b: int, k: int)
    requires
        a >= 0,
        b > 0,
        k > 0,
    ensures
        (a * k) / (b * k) == a / b,
{
    lemma_fundamental_div_mod(a, b);
    lemma_mod_division_less_than_divisor(a, b);
    let q = a / b;
    let r = a % b;
    assert(b * k > 0 && a * k >= 0) by (nonlinear_arith)
        requires
            a >= 0,
            b > 0,
            k > 0,
    ;
    lemma_fundamental_div_mod(a * k, b * k);
    lemma_mod_division_less_than_divisor(a * k, b * k);
    let q2 = (a * k) / (b * k);
    let r2 = (a * k) % (b * k);
    assert(q2 == q) by (nonlinear_arith)
        requires
            b > 0,
            k > 0,
            a == b * q + r,
            0 <= r < b,
            a * k == (b * k) * q2 + r2,
            0 <= r2 < b * k,
    ;
}

/// Truncating division is odd in its dividend.
pub proof fn lemma_tdiv_neg(a: int, b: int)
    requires
        b > 0,
    ensures
        tdiv(-a, b) == -tdiv(a, b),
{
    lemma_tdiv(0, b);
    assert(tdiv(0, b) == 0);
}

/// Range of the displacement a link solve applies to one coordinate: a pair
/// closer than the rest length is pushed apart by at most `rest`, and a pair
/// farther apart is pulled toward each other by no more than its own
/// separation, so the endpoints never overshoot one another.
pub proof fn lemma_shift_range(rest: int, d: int, dx: int)
    requires
        d > 0,
        rest >= 0,
        abs_at(dx) <= d,
    ensures
        dx >= 0 ==> -dx <= tdiv((rest - d) * dx, 2 * d) <= rest,
        dx <= 0 ==> -rest <= tdiv((rest - d) * dx, 2 * d) <= -dx,
{
    let delta = rest - d;
    let num = delta * dx;
    lemma_tdiv(num, 2 * d);
    if delta >= 0 {
        assert(-(2 * d * rest) <= num <= 2 * d * rest) by (nonlinear_arith)
            requires
                d > 0,
                0 <= delta <= rest,
                abs_at(dx) <= d,
                num == delta * dx,
        ;
        lemma_tdiv_bound(num, 2 * d, rest);
        if dx >= 0 {
            assert(num >= 0) by (nonlinear_arith)
                requires
                    delta >= 0,
                    dx >= 0,
                    num == delta * dx,
            ;
        } else {
            assert(num <= 0) by (nonlinear_arith)
                requires
                    delta >= 0,
                    dx <= 0,
                    num == delta * dx,
            ;
        }
    } else {
        assert(-(2 * d * abs_at(dx)) <= num <= 2 * d * abs_at(dx)) by (nonlinear_arith)
            requires
                d > 0,
                -d <= delta < 0,
                abs_at(dx) <= d,
                num == delta * dx,
        ;
        lemma_tdiv_bound(num, 2 * d, abs_at(dx));
        if dx >= 0 {
            assert(num <= 0) by (nonlinear_arith)
                requires
                    delta < 0,
                    dx >= 0,
                    num == delta * dx,
            ;
        } else {
            assert(num >= 0) by (nonlinear_arith)
                requires
                    delta < 0,
                    dx <= 0,
                    num == delta * dx,
            ;
        }
    }
}

/// Range of the displacement a collision applies to one coordinate: at most
/// the collision diameter, directed against the separation.
pub proof fn lemma_push_range(dia: int, d: int, dx: int)
    requires
        0 < d < dia,
        abs_at(dx) <= d,
    ensures
        -dia <= tdiv(3 * (d - dia) * dx, 16 * d) <= dia,
        dx >= 0 ==> tdiv(3 * (d - dia) * dx, 16 * d) <= 0,
        dx <= 0 ==> tdiv(3 * (d - dia) * dx, 16 * d) >= 0,
{
    let num = 3 * (d - dia) * dx;
    lemma_tdiv(num, 16 * d);
    assert(-(16 * d * dia) <= num <= 16 * d * dia) by (nonlinear_arith)
        requires
            0 < d < dia,
            abs_at(dx) <= d,
            num == 3 * (d - dia) * dx,
    ;
    lemma_tdiv_bound(num, 16 * d, dia);
    if dx >= 0 {
        assert(num <= 0) by (nonlinear_arith)
            requires
                d < dia,
                dx >= 0,
                num == 3 * (d - dia) * dx,
        ;
    } else {
        assert(num >= 0) by (nonlinear_arith)
            requires
                d < dia,
                dx <= 0,
                num == 3 * (d - dia) * dx,
        ;
    }
}

/// Exact truncating division on machine integers.
pub fn div_trunc(a: i128, b: i128) -> (q: i128)
    requires
        b > 0,
        a > i128::MIN,
    ensures
        q == tdiv(a as int, b as int),
{
    proof {
        lemma_tdiv(a as int, b as int);
        assert(b * abs_at(a as int) >= abs_at(a as int)) by (nonlinear_arith)
            requires
                b >= 1,
                abs_at(a as int) >= 0,
        ;
        lemma_tdiv_bound(a as int, b as int, abs_at(a as int));
    }
    if a >= 0 {
        let q0: u128 = (a as u128) / (b as u128);
        q0 as i128
    } else {
        let neg: i128 = -a;
        let q0: u128 = (neg as u128) / (b as u128);
        -(q0 as i128)
    }
}

/// Floor integer square root by bisection.
pub fn isqrt(n: u128) -> (r: u128)
    requires
        (n as int) < 0x40000000000000000000000000000000,
    ensures
        r == isqrt_at(n as int),
{
    let mut lo: u128 = 0;
    let mut hi: u128 = 0x8000000000000000;
    proof {
        assert((0x8000000000000000 as int) * (0x8000000000000000 as int)
            == 0x40000000000000000000000000000000) by (nonlinear_arith);
    }
    while lo + 1 < hi
        invariant
            lo < hi,
            hi <= 0x8000000000000000,
            (lo as int) * (lo as int) <= n as int,
            (n as int) < (hi as int) * (hi as int),
        decreases hi - lo,
    {
        let mid = lo + (hi - lo) / 2;
        proof {
            assert((mid as int) * (mid as int) < 0x100000000000000000000000000000000)
                by (nonlinear_arith)
                requires
                    mid <= 0x8000000000000000,
            ;
        }
        if mid * mid <= n {
            lo = mid;
        } else {
            hi = mid;
        }
    }
    proof {
        lemma_isqrt_unique(n as int, lo as int);
    }
    lo
}

} // verus!
