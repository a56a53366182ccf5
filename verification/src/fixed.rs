//! Scalar fixed-point arithmetic: truncating division and integer square
//! root, with the facts about them that the vector algebra needs.

use vstd::prelude::*;
use vstd::arithmetic::div_mod::lemma_fundamental_div_mod;
use vstd::arithmetic::div_mod::lemma_mod_bound;

verus! {

/// Number of fixed-point units per whole unit: a component of `SCALE`
/// stands for the real value one.
pub const SCALE: i64 = 65536;

/// Magnitude of a mathematical integer.
pub open spec fn iabs(a: int) -> int {
    if a < 0 {
        -a
    } else {
        a
    }
}

/// Whether a mathematical integer is representable as an `i64`.
pub open spec fn fits_i64(v: int) -> bool {
    i64::MIN <= v <= i64::MAX
}

/// Division rounded toward zero, the rounding that all fixed-point
/// operations of this crate use.  Total; the value at `b == 0` is
/// never relied upon.
pub open spec fn div_trunc(a: int, b: int) -> int {
    if b == 0 {
        0
    } else if (a < 0) != (b < 0) {
        -(iabs(a) / iabs(b))
    } else {
        iabs(a) / iabs(b)
    }
}

/// The quotient-remainder characterization of truncating division:
/// the remainder is smaller than the divisor in magnitude, and the
/// quotient never overshoots the dividend.
pub proof fn lemma_div_trunc_fundamental(a: int, b: int)
    requires
        b != 0,
    ensures
        a == b * div_trunc(a, b) + (a - b * div_trunc(a, b)),
        iabs(a - b * div_trunc(a, b)) < iabs(b),
        iabs(b * div_trunc(a, b)) <= iabs(a),
{
    let m = iabs(a);
    let n = iabs(b);
    let q0 = m / n;
    let r0 = m % n;
    lemma_fundamental_div_mod(m, n);
    lemma_mod_bound(m, n);
    assert(m == n * q0 + r0);
    assert(0 <= r0 < n);
    assert(q0 >= 0) by (nonlinear_arith)
        requires
            m == n * q0 + r0,
            m >= 0,
            0 <= r0 < n,
            n >= 1;
    let q = div_trunc(a, b);
    if (a < 0) != (b < 0) {
        assert(q == -q0);
        assert(b * q == -(b * q0)) by (nonlinear_arith)
            requires
                q == -q0;
        if a < 0 {
            assert(b > 0);
            assert(b * q0 == n * q0) by (nonlinear_arith)
                requires
                    b == n;
            assert(a == -m);
        } else {
            assert(b < 0);
            assert(b * q0 == -(n * q0)) by (nonlinear_arith)
                requires
                    b == -n;
            assert(a == m);
        }
        assert(iabs(a - b * q) < iabs(b));
        assert(iabs(b * q) <= iabs(a)) by (nonlinear_arith)
            requires
                iabs(b * q) == n * q0,
                iabs(a) == m,
                m == n * q0 + r0,
                r0 >= 0;
    } else {
        assert(q == q0);
        if a < 0 {
            assert(b < 0);
            assert(b * q0 == -(n * q0)) by (nonlinear_arith)
                requires
                    b == -n;
            assert(a == -m);
        } else {
            assert(b == n || m == 0);
            if b == n {
                assert(b * q0 == n * q0);
            } else {
                assert(m == 0);
                assert(q0 == 0) by (nonlinear_arith)
                    requires
                        m == n * q0 + r0,
                        m == 0,
                        0 <= r0 < n,
                        q0 >= 0,
                        n >= 1;
                assert(b * q0 == 0) by (nonlinear_arith)
                    requires
                        q0 == 0;
                assert(n * q0 == 0) by (nonlinear_arith)
                    requires
                        q0 == 0;
            }
            assert(a == m);
        }
        assert(iabs(a - b * q) < iabs(b));
        assert(iabs(b * q) <= iabs(a)) by (nonlinear_arith)
            requires
                iabs(b * q) == n * q0,
                iabs(a) == m,
                m == n * q0 + r0,
                r0 >= 0;
    }
}

/// Magnitude bound for a truncating quotient: if the dividend is at most
/// `c` times the divisor, the quotient is at most `c`.
pub proof fn lemma_div_trunc_bounded(a: int, b: int, c: int)
    requires
        b != 0,
        c >= 0,
        iabs(a) <= c * iabs(b),
    ensures
        iabs(div_trunc(a, b)) <= c,
{
    let m = iabs(a);
    let n = iabs(b);
    lemma_fundamental_div_mod(m, n);
    lemma_mod_bound(m, n);
    assert(m / n <= c) by (nonlinear_arith)
        requires
            m == n * (m / n) + m % n,
            0 <= m % n < n,
            m <= c * n,
            n >= 1,
            c >= 0;
    assert(m / n >= 0) by (nonlinear_arith)
        requires
            m == n * (m / n) + m % n,
            m >= 0,
            0 <= m % n < n,
            n >= 1;
}

/// Truncating division of `i128` values, the executable form of
/// [`div_trunc`].
pub fn div_trunc_i128(a: i128, b: i128) -> (q: i128)
    requires
        b != 0,
        a != i128::MIN,
        b != i128::MIN,
    ensures
        q == div_trunc(a as int, b as int),
{
    let na: u128 = if a < 0 {
        (-a) as u128
    } else {
        a as u128
    };
    let nb: u128 = if b < 0 {
        (-b) as u128
    } else {
        b as u128
    };
    proof {
        assert(na == iabs(a as int));
        assert(nb == iabs(b as int));
    }
    let q0: u128 = na / nb;
    proof {
        lemma_fundamental_div_mod(na as int, nb as int);
        lemma_mod_bound(na as int, nb as int);
        assert(q0 <= na) by (nonlinear_arith)
            requires
                na == nb * ((na as int) / (nb as int)) + (na as int) % (nb as int),
                q0 == (na as int) / (nb as int),
                0 <= ((na as int) % (nb as int)) < (nb as int),
                nb >= 1,
                na >= 0;
    }
    let qi: i128 = q0 as i128;
    if (a < 0) != (b < 0) {
        -qi
    } else {
        qi
    }
}

/// The magnitude of a product is the product of the magnitudes.
pub proof fn lemma_iabs_mul(p: int, q: int)
    ensures
        iabs(p * q) == iabs(p) * iabs(q),
{
    if p >= 0 && q >= 0 {
        assert(p * q >= 0) by (nonlinear_arith)
            requires
                p >= 0,
                q >= 0;
    } else if p >= 0 && q < 0 {
        assert(p * q <= 0 && p * (-q) == -(p * q)) by (nonlinear_arith)
            requires
                p >= 0,
                q < 0;
    } else if p < 0 && q >= 0 {
        assert(p * q <= 0 && (-p) * q == -(p * q)) by (nonlinear_arith)
            requires
                p < 0,
                q >= 0;
    } else {
        assert(p * q >= 0 && (-p) * (-q) == p * q) by (nonlinear_arith)
            requires
                p < 0,
                q < 0;
    }
}

/// A product of bounded factors is bounded by the product of the bounds.
pub proof fn lemma_mul_bound(x: int, y: int, bx: int, by: int)
    requires
        iabs(x) <= bx,
        iabs(y) <= by,
    ensures
        iabs(x * y) <= bx * by,
{
    lemma_iabs_mul(x, y);
    assert(iabs(x) * iabs(y) <= bx * by) by (nonlinear_arith)
        requires
            0 <= iabs(x) <= bx,
            0 <= iabs(y) <= by;
}

/// A truncating quotient has the sign of its dividend (for a positive
/// divisor), and so does the remainder.
pub proof fn lemma_div_trunc_sign(a: int, b: int)
    requires
        b >= 1,
    ensures
        a >= 0 ==> div_trunc(a, b) >= 0 && a - b * div_trunc(a, b) >= 0,
        a <= 0 ==> div_trunc(a, b) <= 0 && a - b * div_trunc(a, b) <= 0,
{
    let m = iabs(a);
    let n = iabs(b);
    lemma_fundamental_div_mod(m, n);
    lemma_mod_bound(m, n);
    assert(m / n >= 0) by (nonlinear_arith)
        requires
            m == n * (m / n) + m % n,
            m >= 0,
            0 <= m % n < n,
            n >= 1;
    if a >= 0 {
        assert(a - b * div_trunc(a, b) == a % b);
        if a == 0 {
            assert(m / n == 0) by (nonlinear_arith)
                requires
                    m == n * (m / n) + m % n,
                    m == 0,
                    0 <= m % n < n,
                    m / n >= 0,
                    n >= 1;
        }
    } else {
        let q0 = m / n;
        assert(b * (-q0) == -(n * q0)) by (nonlinear_arith)
            requires
                b == n;
        assert(a - b * div_trunc(a, b) == -(m % n));
    }
}

/// Truncating division by a positive divisor is monotone in the
/// dividend.
pub proof fn lemma_div_trunc_monotone(a1: int, a2: int, b: int)
    requires
        a1 <= a2,
        b >= 1,
    ensures
        div_trunc(a1, b) <= div_trunc(a2, b),
{
    lemma_div_trunc_sign(a1, b);
    lemma_div_trunc_sign(a2, b);
    if a1 >= 0 {
        vstd::arithmetic::div_mod::lemma_div_is_ordered(a1, a2, b);
        assert(div_trunc(a1, b) == a1 / b && div_trunc(a2, b) == a2 / b);
    } else if a2 <= 0 {
        let m1 = iabs(a1);
        let m2 = iabs(a2);
        vstd::arithmetic::div_mod::lemma_div_is_ordered(m2, m1, b);
        assert(div_trunc(a1, b) == -(m1 / b) && div_trunc(a2, b) == -(m2 / b));
    }
}

/// Existence: [`sqrt_floor`] of a nonnegative integer really is its
/// rounded-down square root.
pub proof fn lemma_sqrt_floor_props(n: int)
    requires
        n >= 0,
    ensures
        is_isqrt(n, sqrt_floor(n)),
        sqrt_floor(n) >= 0,
    decreases n,
{
    if n == 0 {
        assert(is_isqrt(0, 0));
        assert(exists|x: int| is_isqrt(n, x));
    } else {
        lemma_sqrt_floor_props(n - 1);
        let r = sqrt_floor(n - 1);
        if n < (r + 1) * (r + 1) {
            assert(is_isqrt(n, r));
        } else {
            assert(n == (r + 1) * (r + 1));
            assert(is_isqrt(n, r + 1)) by (nonlinear_arith)
                requires
                    n == (r + 1) * (r + 1),
                    r >= 0;
        }
        assert(exists|x: int| is_isqrt(n, x));
    }
}

/// A truncating quotient never exceeds the dividend in magnitude.
pub proof fn lemma_div_trunc_le(a: int, b: int)
    requires
        b != 0,
    ensures
        iabs(div_trunc(a, b)) <= iabs(a),
{
    assert(iabs(a) <= iabs(a) * iabs(b)) by (nonlinear_arith)
        requires
            iabs(a) >= 0,
            iabs(b) >= 1;
    lemma_div_trunc_bounded(a, b, iabs(a));
}

/// Dividing an exact multiple is exact.
pub proof fn lemma_div_trunc_exact(k: int, b: int)
    requires
        b >= 1,
    ensures
        div_trunc(k * b, b) == k,
{
    lemma_iabs_mul(k, b);
    vstd::arithmetic::div_mod::lemma_div_multiples_vanish(iabs(k), b);
    assert(b * iabs(k) == iabs(k) * b) by (nonlinear_arith);
    if k >= 0 {
        assert(k * b >= 0) by (nonlinear_arith)
            requires
                k >= 0,
                b >= 1;
    } else {
        assert(k * b < 0) by (nonlinear_arith)
            requires
                k < 0,
                b >= 1;
    }
}

/// Scaling by `s` and then dividing by `s` again returns to the start up
/// to an error below `SCALE / iabs(s) + 1`, stated multiplicatively.
pub proof fn lemma_scale_round_trip(x: int, s: int)
    requires
        s != 0,
    ensures
        iabs(x - div_trunc(div_trunc(x * s, SCALE as int) * (SCALE as int), s)) * iabs(s)
            < SCALE + iabs(s),
{
    let sc = SCALE as int;
    let m = div_trunc(x * s, sc);
    let d = div_trunc(m * sc, s);
    lemma_div_trunc_fundamental(x * s, sc);
    lemma_div_trunc_fundamental(m * sc, s);
    let r1 = x * s - sc * m;
    let r2 = m * sc - s * d;
    assert(iabs(r1) < sc);
    assert(iabs(r2) < iabs(s));
    assert(s * (x - d) == r1 + r2) by (nonlinear_arith)
        requires
            r1 == x * s - sc * m,
            r2 == m * sc - s * d;
    lemma_iabs_mul(s, x - d);
    assert(iabs(r1 + r2) < sc + iabs(s));
    assert(iabs(x - d) * iabs(s) == iabs(s) * iabs(x - d)) by (nonlinear_arith);
}

/// For a scalar of magnitude at least one whole unit, the scale-then-divide
/// round trip moves each value by at most one fixed-point step.
pub proof fn lemma_scale_round_trip_unit(x: int, s: int)
    requires
        iabs(s) >= SCALE,
    ensures
        iabs(x - div_trunc(div_trunc(x * s, SCALE as int) * (SCALE as int), s)) <= 1,
{
    lemma_scale_round_trip(x, s);
    let e = iabs(x - div_trunc(div_trunc(x * s, SCALE as int) * (SCALE as int), s));
    assert(e <= 1) by (nonlinear_arith)
        requires
            e * iabs(s) < SCALE + iabs(s),
            iabs(s) >= SCALE,
            SCALE >= 2,
            e >= 0;
}

/// `r` is the integer square root of `n` rounded down.
pub open spec fn is_isqrt(n: int, r: int) -> bool {
    0 <= r && r * r <= n && n < (r + 1) * (r + 1)
}

/// The integer square root of `n`, rounded down.
pub open spec fn sqrt_floor(n: int) -> int {
    choose|r: int| is_isqrt(n, r)
}

/// The rounded-down square root is unique, so any witness equals
/// [`sqrt_floor`].
pub proof fn lemma_sqrt_floor_is(n: int, r: int)
    requires
        is_isqrt(n, r),
    ensures
        sqrt_floor(n) == r,
{
    assert(is_isqrt(n, sqrt_floor(n))) by {
        assert(exists|x: int| is_isqrt(n, x));
    }
    let s = sqrt_floor(n);
    assert(s == r) by (nonlinear_arith)
        requires
            0 <= s,
            s * s <= n,
            n < (s + 1) * (s + 1),
            0 <= r,
            r * r <= n,
            n < (r + 1) * (r + 1);
}

/// Integer square root by binary search.
pub fn isqrt_u128(n: u128) -> (r: u128)
    requires
        n < 0x40000000000000000000000000000000u128,
    ensures
        is_isqrt(n as int, r as int),
        r as int == sqrt_floor(n as int),
        r < 0x8000000000000000u128,
{
    let mut lo: u128 = 0;
    let mut hi: u128 = 0x8000000000000000u128;
    proof {
        assert((hi as int) * (hi as int) == 0x40000000000000000000000000000000);
    }
    while lo + 1 < hi
        invariant
            lo < hi,
            hi <= 0x8000000000000000u128,
            (lo as int) * (lo as int) <= n as int,
            (n as int) < (hi as int) * (hi as int),
        decreases hi - lo,
    {
        let mid: u128 = lo + (hi - lo) / 2;
        proof {
            assert(lo < mid < hi);
            assert((mid as int) * (mid as int) < 0x100000000000000000000000000000000)
                by (nonlinear_arith)
                requires
                    0 <= (mid as int),
                    (mid as int) < 0x8000000000000000;
        }
        if mid * mid <= n {
            lo = mid;
        } else {
            hi = mid;
        }
    }
    proof {
        assert(hi == lo + 1);
        lemma_sqrt_floor_is(n as int, lo as int);
    }
    lo
}

} // verus!
