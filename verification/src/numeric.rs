//! Integer helpers shared by the geometry kernel and the search: an exact
//! integer square root and saturating cost addition.

use vstd::prelude::*;

verus! {

/// `r` is the integer square root of `n`: the largest integer whose square
/// does not exceed `n`.
pub open spec fn is_isqrt(n: int, r: int) -> bool {
    0 <= r && r * r <= n && n < (r + 1) * (r + 1)
}

/// The integer square root of `n`, as a mathematical function.
pub open spec fn isqrt_spec(n: int) -> int {
    choose|r: int| is_isqrt(n, r)
}

/// Squaring is strictly monotone on the non-negative integers.
pub proof fn lemma_square_monotone(a: int, b: int)
    requires
        0 <= a < b,
    ensures
        a * a < b * b,
{
    assert(a * a <= a * b) by (nonlinear_arith)
        requires
            0 <= a < b,
    ;
    assert(a * b < b * b) by (nonlinear_arith)
        requires
            0 <= a < b,
    ;
}

/// A number has at most one integer square root.
pub proof fn lemma_isqrt_unique(n: int, r1: int, r2: int)
    requires
        is_isqrt(n, r1),
        is_isqrt(n, r2),
    ensures
        r1 == r2,
{
    if r1 < r2 {
        if r1 + 1 < r2 {
            lemma_square_monotone(r1 + 1, r2);
        }
    } else if r2 < r1 {
        if r2 + 1 < r1 {
            lemma_square_monotone(r2 + 1, r1);
        }
    }
}

/// Computes the integer square root by bisection.
pub fn isqrt(n: u128) -> (r: u64)
    ensures
        is_isqrt(n as int, r as int),
        r as int == isqrt_spec(n as int),
{
    let mut lo: u128 = 0;
    let mut hi: u128 = 0x1_0000_0000_0000_0000;
    assert(0x1_0000_0000_0000_0000int * 0x1_0000_0000_0000_0000int == u128::MAX + 1);
    while hi - lo > 1
        invariant
            lo < hi <= 0x1_0000_0000_0000_0000,
            lo * lo <= n,
            n < hi * hi,
        decreases hi - lo,
    {
        let mid: u128 = lo + (hi - lo) / 2;
        assert(mid * mid < 0x1_0000_0000_0000_0000 * 0x1_0000_0000_0000_0000) by {
            lemma_square_monotone(mid as int, 0x1_0000_0000_0000_0000);
        }
        assert(0x1_0000_0000_0000_0000int * 0x1_0000_0000_0000_0000int == u128::MAX + 1);
        if mid * mid <= n {
            lo = mid;
        } else {
            hi = mid;
        }
    }
    proof {
        assert(hi == lo + 1);
        assert(is_isqrt(n as int, lo as int));
        lemma_isqrt_unique(n as int, lo as int, isqrt_spec(n as int));
    }
    lo as u64
}

/// The magnitude of a number.
pub open spec fn magnitude(c: int) -> int {
    if c >= 0 {
        c
    } else {
        -c
    }
}

/// The sum of two costs, capped at the largest representable cost.
pub open spec fn sat_add_spec(a: u64, b: u64) -> u64 {
    if a + b > u64::MAX {
        u64::MAX
    } else {
        (a + b) as u64
    }
}

/// Adds two costs; a sum that does not fit saturates instead of wrapping.
pub fn sat_add(a: u64, b: u64) -> (r: u64)
    ensures
        r == sat_add_spec(a, b),
{
    if a > u64::MAX - b {
        u64::MAX
    } else {
        a + b
    }
}

/// The product of two bounded factors is bounded by the product of the bounds.
pub proof fn lemma_product_bound(a: int, b: int, la: int, lb: int)
    requires
        -la <= a <= la,
        -lb <= b <= lb,
    ensures
        -(la * lb) <= a * b <= la * lb,
{
    assert(-(la * lb) <= a * b <= la * lb) by (nonlinear_arith)
        requires
            -la <= a <= la,
            -lb <= b <= lb,
    ;
}

/// Multiplies a wide factor by a narrow one without overflow.
pub fn product(a: i128, b: i128) -> (r: i128)
    requires
        -0x1_0000_0000_0000_0000_0000 <= a <= 0x1_0000_0000_0000_0000_0000,
        -0x100_0000_0000 <= b <= 0x100_0000_0000,
    ensures
        r == a * b,
{
    proof {
        lemma_product_bound(a as int, b as int, 0x1_0000_0000_0000_0000_0000, 0x100_0000_0000);
        assert(0x1_0000_0000_0000_0000_0000int * 0x100_0000_0000int
            == 0x100_0000_0000_0000_0000_0000_0000_0000int);
    }
    a * b
}

/// The quotient of `n` by a positive `d`, rounded toward negative infinity.
pub open spec fn floor_div_spec(n: int, d: int) -> int
    recommends
        d > 0,
{
    n / d
}

/// Divides rounding toward negative infinity; the divisor is positive.
pub fn floor_div(n: i128, d: i128) -> (r: i128)
    requires
        d > 0,
        -0x4000_0000_0000_0000_0000_0000_0000_0000 <= n <= 0x4000_0000_0000_0000_0000_0000_0000_0000,
        d <= 0x4000_0000_0000_0000_0000_0000_0000_0000,
    ensures
        r == floor_div_spec(n as int, d as int),
        r * d <= n < (r + 1) * d,
{
    proof {
        vstd::arithmetic::div_mod::lemma_fundamental_div_mod(n as int, d as int);
        vstd::arithmetic::div_mod::lemma_mod_bound(n as int, d as int);
        assert((n as int / d as int) * d == d * (n as int / d as int)) by (nonlinear_arith);
        assert(((n as int / d as int) + 1) * d == (n as int / d as int) * d + d) by (nonlinear_arith);
    }
    if n >= 0 {
        let un: u128 = n as u128;
        let ud: u128 = d as u128;
        let q: u128 = un / ud;
        q as i128
    } else {
        let un: u128 = (-n) as u128;
        let ud: u128 = d as u128;
        let q: u128 = (un + (ud - 1)) / ud;
        proof {
            let m = -(n as int);
            let dd = d as int;
            let e = n as int / dd;
            // e * dd <= n < (e + 1) * dd, hence (-e - 1) * dd < m <= -e * dd.
            vstd::arithmetic::div_mod::lemma_fundamental_div_mod(m + dd - 1, dd);
            vstd::arithmetic::div_mod::lemma_mod_bound(m + dd - 1, dd);
            let k = (m + dd - 1) / dd;
            assert(dd * k <= m + dd - 1 < dd * k + dd);
            assert(k == -e) by (nonlinear_arith)
                requires
                    dd > 0,
                    dd * k <= m + dd - 1 < dd * k + dd,
                    e * dd <= -m < (e + 1) * dd,
            ;
        }
        -(q as i128)
    }
}

} // verus!
