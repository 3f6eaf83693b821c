//! Fixed-point arithmetic: rounding division and clamping.

use vstd::prelude::*;

verus! {

/// Microseconds in a second.
pub const SECOND: i64 = 1_000_000;

/// `n / d` to the nearest whole number, halves away from zero.
pub open spec fn rounded(n: int, d: int) -> int {
    if n >= 0 {
        (2 * n + d) / (2 * d)
    } else {
        -((2 * (-n) + d) / (2 * d))
    }
}

/// `n / d` to the nearest whole number, halves to the even one: how numbers are
/// written with a fixed number of places.
pub open spec fn even_rounded(n: int, d: int) -> int {
    if n >= 0 {
        even_up(n, d)
    } else {
        -even_up(-n, d)
    }
}

/// `n / d` to the nearest whole number, halves to the even one, where neither is
/// negative.
pub open spec fn even_up(n: int, d: int) -> int {
    if 2 * (n % d) > d || (2 * (n % d) == d && (n / d) % 2 == 1) {
        n / d + 1
    } else {
        n / d
    }
}

/// `x`, moved into `lo..=hi`.
pub open spec fn clamped(x: int, lo: int, hi: int) -> int {
    if x < lo {
        lo
    } else if x > hi {
        hi
    } else {
        x
    }
}

/// The size of `x`.
pub open spec fn size(x: int) -> int {
    if x < 0 {
        -x
    } else {
        x
    }
}

/// Rounding moves a quotient by at most one half.
pub proof fn lemma_rounded_near(n: int, d: int)
    requires
        d > 0,
    ensures
        -d <= 2 * (n - rounded(n, d) * d) <= d,
{
    let m = size(n);
    let q = (2 * m + d) / (2 * d);
    assert(2 * d * q <= 2 * m + d < 2 * d * q + 2 * d) by {
        vstd::arithmetic::div_mod::lemma_fundamental_div_mod(2 * m + d, 2 * d);
        vstd::arithmetic::div_mod::lemma_mod_bound(2 * m + d, 2 * d);
    }
    assert(2 * d * q == 2 * (q * d)) by (nonlinear_arith);
    assert((-q) * d == -(q * d)) by (nonlinear_arith);
}

/// Rounding to even moves a quotient by at most one half, and does not change its
/// sign.
pub proof fn lemma_even_near(n: int, d: int)
    requires
        d > 0,
    ensures
        -d <= 2 * (n - even_rounded(n, d) * d) <= d,
        n >= 0 ==> even_rounded(n, d) >= 0,
        size(even_rounded(n, d)) <= size(n),
{
    let m = size(n);
    let q = m / d;
    vstd::arithmetic::div_mod::lemma_fundamental_div_mod(m, d);
    vstd::arithmetic::div_mod::lemma_mod_bound(m, d);
    vstd::arithmetic::div_mod::lemma_div_pos_is_pos(m, d);
    assert(d * q == q * d && (q + 1) * d == q * d + d && (-q) * d == -(q * d) && (-(q + 1)) * d == -(q * d) - d)
        by (nonlinear_arith);
    assert(q <= m) by (nonlinear_arith)
        requires
            m == d * q + m % d,
            0 <= m % d < d,
            q >= 0,
            d > 0,
    ;
    assert(2 * (m % d) >= d ==> q + 1 <= m) by (nonlinear_arith)
        requires
            m == d * q + m % d,
            0 <= m % d < d,
            q >= 0,
            d > 0,
    ;
}

/// Rounding to even takes a tie to an even number.
pub proof fn lemma_even_ties(n: int, d: int)
    requires
        d > 0,
        n >= 0,
    ensures
        2 * (n - even_rounded(n, d) * d) == d ==> even_rounded(n, d) % 2 == 0,
        2 * (n - even_rounded(n, d) * d) == -d ==> even_rounded(n, d) % 2 == 0,
{
    let q = n / d;
    let r = n % d;
    vstd::arithmetic::div_mod::lemma_fundamental_div_mod(n, d);
    vstd::arithmetic::div_mod::lemma_mod_bound(n, d);
    assert(d * q == q * d && (q + 1) * d == q * d + d) by (nonlinear_arith);
}

/// Rounding takes a tie away from zero: the rounded quotient is never nearer to zero
/// than the quotient where both neighbours are equally near.
pub proof fn lemma_rounded_ties(n: int, d: int)
    requires
        d > 0,
    ensures
        n > 0 ==> 2 * (n - rounded(n, d) * d) < d,
        n < 0 ==> 2 * (rounded(n, d) * d - n) < d,
        rounded(-n, d) == -rounded(n, d),
{
    let m = size(n);
    let q = (2 * m + d) / (2 * d);
    vstd::arithmetic::div_mod::lemma_fundamental_div_mod(2 * m + d, 2 * d);
    vstd::arithmetic::div_mod::lemma_mod_bound(2 * m + d, 2 * d);
    assert(2 * d * q == 2 * (q * d)) by (nonlinear_arith);
    assert((-q) * d == -(q * d)) by (nonlinear_arith);
    if n == 0 {
        lemma_rounded_whole(0, d);
        assert(0 * d == 0);
    }
}

/// A larger number never has a smaller rounded quotient.
pub proof fn lemma_rounded_grows(a: int, b: int, d: int)
    requires
        a <= b,
        d > 0,
    ensures
        rounded(a, d) <= rounded(b, d),
{
    let p = rounded(a, d);
    let q = rounded(b, d);
    lemma_rounded_near(a, d);
    lemma_rounded_near(b, d);
    lemma_rounded_ties(a, d);
    lemma_rounded_ties(b, d);
    if p > q {
        assert(p * d - q * d >= d) by (nonlinear_arith)
            requires
                p >= q + 1,
                d > 0,
        ;
    }
}

/// A whole quotient is kept as it is.
pub proof fn lemma_rounded_whole(q: int, d: int)
    requires
        d > 0,
    ensures
        rounded(q * d, d) == q,
{
    let r = rounded(q * d, d);
    lemma_rounded_near(q * d, d);
    assert(q * d - r * d == (q - r) * d) by (nonlinear_arith);
    if q - r >= 1 {
        assert((q - r) * d >= d) by (nonlinear_arith)
            requires
                q - r >= 1,
                d > 0,
        ;
    } else if q - r <= -1 {
        assert((q - r) * d <= -d) by (nonlinear_arith)
            requires
                q - r <= -1,
                d > 0,
        ;
    }
}

/// Equal quotients are rounded alike.
pub proof fn lemma_rounded_ratio(n: int, d: int, m: int, e: int)
    requires
        d > 0,
        e > 0,
        n * e == m * d,
    ensures
        rounded(n, d) == rounded(m, e),
{
    let a = size(n);
    let b = size(m);
    assert(a * e == b * d && (n < 0 <==> m < 0)) by (nonlinear_arith)
        requires
            d > 0,
            e > 0,
            n * e == m * d,
            a == size(n),
            b == size(m),
    ;
    let q = (2 * b + e) / (2 * e);
    let r = (2 * b + e) % (2 * e);
    vstd::arithmetic::div_mod::lemma_fundamental_div_mod(2 * b + e, 2 * e);
    vstd::arithmetic::div_mod::lemma_mod_bound(2 * b + e, 2 * e);
    let s = 2 * a + d - q * (2 * d);
    assert(s * e == d * r) by (nonlinear_arith)
        requires
            2 * b + e == 2 * e * q + r,
            s == 2 * a + d - q * (2 * d),
            a * e == b * d,
    ;
    assert(0 <= s < 2 * d) by (nonlinear_arith)
        requires
            s * e == d * r,
            0 <= r < 2 * e,
            d > 0,
            e > 0,
    ;
    vstd::arithmetic::div_mod::lemma_fundamental_div_mod_converse(2 * a + d, 2 * d, q, s);
}

proof fn lemma_rounded_size(n: int, d: int)
    requires
        d > 0,
    ensures
        size(rounded(n, d)) <= size(n),
{
    let m = size(n);
    let q = (2 * m + d) / (2 * d);
    assert(q <= m && q >= 0) by {
        vstd::arithmetic::div_mod::lemma_fundamental_div_mod(2 * m + d, 2 * d);
        vstd::arithmetic::div_mod::lemma_mod_bound(2 * m + d, 2 * d);
        vstd::arithmetic::div_mod::lemma_div_pos_is_pos(2 * m + d, 2 * d);
        assert(2 * d * q == 2 * (d * q)) by (nonlinear_arith);
        if m == 0 {
            if q >= 1 {
                assert(d * q >= d) by (nonlinear_arith)
                    requires
                        q >= 1,
                        d > 0,
                ;
            }
        } else if q > m {
            assert(d * q >= d * m + d) by (nonlinear_arith)
                requires
                    q >= m + 1,
                    d > 0,
            ;
            assert(d * m >= m) by (nonlinear_arith)
                requires
                    d >= 1,
                    m >= 0,
            ;
            assert(d * m + d >= m + d);
            assert(d * m >= m);
        }
    }
}

/// Rounding division of wide numbers.
pub fn round_div(n: i128, d: i128) -> (q: i128)
    requires
        d > 0,
        size(n as int) <= 0x3fff_ffff_ffff_ffff_ffff_ffff_ffff_ffff,
        d <= 0x1fff_ffff_ffff_ffff_ffff_ffff_ffff_ffff,
    ensures
        q == rounded(n as int, d as int),
        size(q as int) <= size(n as int),
{
    proof {
        lemma_rounded_size(n as int, d as int);
    }
    if n >= 0 {
        let q: i128 = round_div_up(n, d);
        q
    } else {
        let q: i128 = round_div_up(-n, d);
        -q
    }
}

/// Rounding division of a number that is not negative.
fn round_div_up(m: i128, d: i128) -> (q: i128)
    requires
        d > 0,
        0 <= m <= 0x3fff_ffff_ffff_ffff_ffff_ffff_ffff_ffff,
        d <= 0x1fff_ffff_ffff_ffff_ffff_ffff_ffff_ffff,
    ensures
        q == (2 * m + d) / (2 * d),
{
    let q: i128 = m / d;
    let r: i128 = m % d;
    proof {
        vstd::arithmetic::div_mod::lemma_fundamental_div_mod(m as int, d as int);
        vstd::arithmetic::div_mod::lemma_mod_bound(m as int, d as int);
        assert(m == d * q + r);
        let k = if 2 * r >= d {
            1int
        } else {
            0int
        };
        assert(2 * m + d == (q + k) * (2 * d) + (2 * r + d - 2 * k * d)) by (nonlinear_arith)
            requires
                m == d * q + r,
        ;
        assert(0 <= 2 * r + d - 2 * k * d < 2 * d) by {
            assert(2 * k * d == if k == 1 { 2 * d } else { 0 }) by (nonlinear_arith)
                requires
                    k == 0 || k == 1,
            ;
        }
        vstd::arithmetic::div_mod::lemma_fundamental_div_mod_converse(
            2 * m + d,
            2 * d,
            q + k,
            2 * r + d - 2 * k * d,
        );
        vstd::arithmetic::div_mod::lemma_div_is_ordered_by_denominator(m as int, 1, d as int);
        vstd::arithmetic::div_mod::lemma_div_pos_is_pos(m as int, d as int);
    }
    if r >= d - r {
        q + 1
    } else {
        q
    }
}

/// Division with halves rounded to the even number.
pub fn round_even(n: i128, d: i128) -> (q: i128)
    requires
        d > 0,
        size(n as int) <= 0x3fff_ffff_ffff_ffff_ffff_ffff_ffff_ffff,
        d <= 0x1fff_ffff_ffff_ffff_ffff_ffff_ffff_ffff,
    ensures
        q == even_rounded(n as int, d as int),
        size(q as int) <= size(n as int),
{
    proof {
        lemma_even_near(n as int, d as int);
    }
    let m: i128 = if n < 0 {
        -n
    } else {
        n
    };
    let whole: i128 = m / d;
    let rest: i128 = m % d;
    let up: i128 = if 2 * rest > d || (2 * rest == d && whole % 2 == 1) {
        whole + 1
    } else {
        whole
    };
    if n < 0 {
        -up
    } else {
        up
    }
}

/// Rounding division.
pub fn round_div64(n: i64, d: i64) -> (q: i64)
    requires
        d > 0,
    ensures
        q == rounded(n as int, d as int),
        size(q as int) <= size(n as int),
{
    let q: i128 = round_div(n as i128, d as i128);
    proof {
        if n < 0 {
            assert(rounded(n as int, d as int) <= 0) by {
                vstd::arithmetic::div_mod::lemma_div_pos_is_pos(2 * (-n) + d, 2 * d as int);
            }
        }
    }
    q as i64
}

/// `x`, moved into `lo..=hi`.
pub fn clamp(x: i64, lo: i64, hi: i64) -> (r: i64)
    requires
        lo <= hi,
    ensures
        r == clamped(x as int, lo as int, hi as int),
{
    if x < lo {
        lo
    } else if x > hi {
        hi
    } else {
        x
    }
}

} // verus!
