//! Fixed-point scalars: an `i32` counts millionths of a unit.

use vstd::prelude::*;

verus! {

/// One whole unit, in millionths.
pub const UNIT: i32 = 1_000_000;

/// The largest argument that [`ceil_sqrt`] takes.
pub const SQRT_LIMIT: u128 = 0x1_0000_0000_0000_0000_0000;

/// `x`, or the end of the `i32` range that lies nearest to it.
pub open spec fn clamped(x: int) -> int {
    if x < i32::MIN {
        i32::MIN as int
    } else if x > i32::MAX {
        i32::MAX as int
    } else {
        x
    }
}

/// The greatest integer that is not above the exact quotient `a / b`.
pub open spec fn floor_div(a: int, b: int) -> int
    recommends
        b != 0,
{
    if b > 0 {
        a / b
    } else {
        (-a) / (-b)
    }
}

/// Whether `r` is the least natural number whose square is at least `n`.
pub open spec fn is_ceil_sqrt(n: int, r: int) -> bool {
    &&& r >= 0
    &&& r * r >= n
    &&& r > 0 ==> (r - 1) * (r - 1) < n
}

/// A quotient rounded down is no larger in size than the dividend, give or
/// take one.
pub proof fn lemma_quotient_bound(a: int, b: int)
    requires
        b != 0,
    ensures
        a >= 0 ==> -a - 1 <= floor_div(a, b) <= a,
        a < 0 ==> a <= floor_div(a, b) <= -a,
{
    let (n, d) = if b > 0 { (a, b) } else { (-a, -b) };
    let q = n / d;
    vstd::arithmetic::div_mod::lemma_fundamental_div_mod(n, d);
    vstd::arithmetic::div_mod::lemma_mod_bound(n, d);
    assert(n >= 0 ==> 0 <= q <= n) by (nonlinear_arith)
        requires
            n == d * q + n % d,
            0 <= n % d < d,
            d >= 1,
    ;
    assert(n < 0 ==> n <= q < 0) by (nonlinear_arith)
        requires
            n == d * q + n % d,
            0 <= n % d < d,
            d >= 1,
    ;
}

/// Brings a wide value into the `i32` range, saturating at its ends.
pub fn clamp(x: i128) -> (r: i32)
    ensures
        r == clamped(x as int),
{
    if x < i32::MIN as i128 {
        i32::MIN
    } else if x > i32::MAX as i128 {
        i32::MAX
    } else {
        x as i32
    }
}

/// The exact quotient `a / b`, rounded down.
pub fn div_floor(a: i128, b: i128) -> (q: i128)
    requires
        b != 0,
        -0x4000_0000_0000_0000_0000_0000_0000_0000 < a < 0x4000_0000_0000_0000_0000_0000_0000_0000,
        -0x4000_0000_0000_0000_0000_0000_0000_0000 < b < 0x4000_0000_0000_0000_0000_0000_0000_0000,
    ensures
        q == floor_div(a as int, b as int),
        b > 0 ==> q * b <= a < q * b + b,
        b < 0 ==> q * b >= a > q * b + b,
        a >= 0 ==> -a - 1 <= q <= a,
        a < 0 ==> a <= q <= -a,
{
    let (n, d): (i128, i128) = if b > 0 { (a, b) } else { (-a, -b) };
    proof {
        lemma_quotient_bound(a as int, b as int);
        vstd::arithmetic::div_mod::lemma_fundamental_div_mod(n as int, d as int);
        vstd::arithmetic::div_mod::lemma_mod_bound(n as int, d as int);
        assert(d * (n as int / d as int) == (n as int / d as int) * d) by (nonlinear_arith);
    }
    if n >= 0 {
        let q = n / d;
        proof {
            assert(q * b == if b > 0 { (n as int / d as int) * d } else { -((n as int / d as int) * d) })
                by (nonlinear_arith)
                requires q == n as int / d as int, d == if b > 0 { b as int } else { -b };
        }
        q
    } else {
        // n < 0: floor(n / d) = -ceil(-n / d)
        let m: i128 = -n;
        let t: i128 = m / d;
        let exact: bool = m % d == 0;
        proof {
            vstd::arithmetic::div_mod::lemma_fundamental_div_mod(m as int, d as int);
            vstd::arithmetic::div_mod::lemma_mod_bound(m as int, d as int);
            assert(d * (m as int / d as int) == (m as int / d as int) * d) by (nonlinear_arith);
            let e: int = if exact { -t } else { -t - 1 };
            let rem: int = (m as int) % (d as int);
            assert(e * d <= n < e * d + d) by (nonlinear_arith)
                requires
                    m == t * d + rem,
                    0 <= rem,
                    rem < d,
                    exact == (rem == 0),
                    n == -m,
                    e == if exact { -t } else { -t - 1 },
            ;
            vstd::arithmetic::div_mod::lemma_fundamental_div_mod_converse(n as int, d as int, e, n - e * d);
            assert(e * b == if b > 0 { e * d } else { -(e * d) }) by (nonlinear_arith)
                requires d == if b > 0 { b as int } else { -b };
        }
        if exact { -t } else { -t - 1 }
    }
}

/// The least natural number whose square is at least `n`.
pub fn ceil_sqrt(n: u128) -> (r: u64)
    requires
        n <= SQRT_LIMIT,
    ensures
        is_ceil_sqrt(n as int, r as int),
        r <= 0x100_0000_0000,
{
    if n == 0 {
        return 0;
    }
    let mut lo: u128 = 0;
    let mut hi: u128 = 0x100_0000_0000;
    while hi - lo > 1
        invariant
            lo < hi <= 0x100_0000_0000,
            lo * lo < n <= hi * hi,
        decreases hi - lo,
    {
        let mid: u128 = lo + (hi - lo) / 2;
        assert(mid * mid <= 0x100_0000_0000 * 0x100_0000_0000) by (nonlinear_arith)
            requires
                0 <= mid <= 0x100_0000_0000,
        ;
        if mid * mid >= n {
            hi = mid;
        } else {
            lo = mid;
        }
    }
    hi as u64
}

} // verus!
