use vstd::prelude::*;

verus! {

/// The value 1.0 in the fixed-point representation used for every physical quantity
/// (positions, sizes, velocities, resources, durations): a quantity `q` stands for
/// `q / UNIT`.
pub const UNIT: i64 = 1_000_000;

/// Largest magnitude a quantity may take; arithmetic saturates at this bound.
pub const LIMIT: i64 = 1_000_000_000_000_000;

pub open spec fn in_range(v: int) -> bool {
    -LIMIT <= v <= LIMIT
}

/// Clamps a mathematical integer into the representable band.
pub open spec fn saturate(v: int) -> int {
    if v > LIMIT {
        LIMIT as int
    } else if v < -LIMIT {
        -LIMIT
    } else {
        v
    }
}

/// Quotient rounded toward zero (the rounding of machine division), for `d > 0`.
pub open spec fn div_trunc(n: int, d: int) -> int {
    if n >= 0 {
        n / d
    } else {
        -((-n) / d)
    }
}

pub open spec fn add_spec(a: int, b: int) -> int {
    saturate(a + b)
}

pub open spec fn mul_spec(a: int, b: int) -> int {
    saturate(div_trunc(a * b, UNIT as int))
}

/// Fixed-point quotient; a zero divisor yields zero.
pub open spec fn div_spec(a: int, b: int) -> int {
    if b == 0 {
        0
    } else if b > 0 {
        saturate(div_trunc(a * UNIT, b))
    } else {
        saturate(div_trunc(-a * UNIT, -b))
    }
}

pub open spec fn min_spec(a: int, b: int) -> int {
    if a <= b {
        a
    } else {
        b
    }
}

/// `r` is the fixed-point square root of `a`: the integer square root of `a * UNIT`.
pub open spec fn is_sqrt(a: int, r: int) -> bool {
    0 <= r && r * r <= a * UNIT && a * UNIT < (r + 1) * (r + 1)
}

pub open spec fn sqrt_spec(a: int) -> int {
    choose|r: int| is_sqrt(a, r)
}

proof fn lemma_div_trunc_bound(n: int, d: int, m: int)
    requires
        d >= 1,
        -m <= n <= m,
    ensures
        -m <= div_trunc(n, d) <= m,
{
    let k = if n >= 0 { n } else { -n };
    vstd::arithmetic::div_mod::lemma_fundamental_div_mod(k, d);
    let q = k / d;
    assert(0 <= q <= k) by (nonlinear_arith)
        requires
            k == d * q + k % d,
            0 <= k % d < d,
            d >= 1,
            k >= 0,
    ;
}

proof fn lemma_square_monotonic(a: int, b: int)
    requires
        0 <= a <= b,
    ensures
        a * a <= b * b,
{
    assert(a * a <= b * b) by (nonlinear_arith)
        requires
            0 <= a <= b,
    ;
}

/// The fixed-point square root is unique.
pub proof fn lemma_sqrt_unique(a: int, r: int)
    requires
        is_sqrt(a, r),
    ensures
        sqrt_spec(a) == r,
{
    let s = sqrt_spec(a);
    assert(is_sqrt(a, s));
    if s < r {
        lemma_square_monotonic(s + 1, r);
    } else if r < s {
        lemma_square_monotonic(r + 1, s);
    }
}

/// Saturating fixed-point addition.
pub fn fx_add(a: i64, b: i64) -> (r: i64)
    requires
        in_range(a as int),
        in_range(b as int),
    ensures
        r == add_spec(a as int, b as int),
{
    let s = a + b;
    if s > LIMIT {
        LIMIT
    } else if s < -LIMIT {
        -LIMIT
    } else {
        s
    }
}

/// Saturating fixed-point subtraction.
pub fn fx_sub(a: i64, b: i64) -> (r: i64)
    requires
        in_range(a as int),
        in_range(b as int),
    ensures
        r == add_spec(a as int, -b),
{
    fx_add(a, -b)
}

/// Saturating fixed-point product, rounded toward zero.
pub fn fx_mul(a: i64, b: i64) -> (r: i64)
    requires
        in_range(a as int),
        in_range(b as int),
    ensures
        r == mul_spec(a as int, b as int),
{
    let big: i128 = LIMIT as i128;
    proof {
        let m = (LIMIT as int) * (LIMIT as int);
        assert(-m <= (a as int) * (b as int) <= m) by (nonlinear_arith)
            requires
                -LIMIT <= a <= LIMIT,
                -LIMIT <= b <= LIMIT,
                m == (LIMIT as int) * (LIMIT as int),
        ;
    }
    let p: i128 = (a as i128) * (b as i128);
    let q: i128 = if p >= 0 {
        p / (UNIT as i128)
    } else {
        -((-p) / (UNIT as i128))
    };
    if q > big {
        LIMIT
    } else if q < -big {
        -LIMIT
    } else {
        q as i64
    }
}

/// Saturating fixed-point quotient, rounded toward zero; dividing by zero gives zero.
pub fn fx_div(a: i64, b: i64) -> (r: i64)
    requires
        in_range(a as int),
        in_range(b as int),
    ensures
        r == div_spec(a as int, b as int),
{
    if b == 0 {
        return 0;
    }
    let big: i128 = LIMIT as i128;
    let (n, d): (i128, i128) = if b > 0 {
        ((a as i128) * (UNIT as i128), b as i128)
    } else {
        (-(a as i128) * (UNIT as i128), -(b as i128))
    };
    let q: i128 = if n >= 0 {
        n / d
    } else {
        -((-n) / d)
    };
    proof {
        lemma_div_trunc_bound(n as int, d as int, (LIMIT as int) * (UNIT as int));
    }
    if q > big {
        LIMIT
    } else if q < -big {
        -LIMIT
    } else {
        q as i64
    }
}

pub fn fx_min(a: i64, b: i64) -> (r: i64)
    ensures
        r == min_spec(a as int, b as int),
{
    if a <= b {
        a
    } else {
        b
    }
}

/// Fixed-point square root: the largest `r` with `r * r <= a * UNIT`.
pub fn fx_sqrt(a: i64) -> (r: i64)
    requires
        0 <= a <= LIMIT,
    ensures
        is_sqrt(a as int, r as int),
        r == sqrt_spec(a as int),
        0 <= r <= LIMIT,
{
    let n: u128 = (a as u128) * (UNIT as u128);
    let mut lo: u128 = 0;
    let mut hi: u128 = 0x10_0000_0000;
    assert(n < hi * hi) by (nonlinear_arith)
        requires
            n == (a as int) * (UNIT as int),
            a <= LIMIT,
            hi == 0x10_0000_0000,
    ;
    while lo + 1 < hi
        invariant
            lo < hi <= 0x10_0000_0000,
            lo * lo <= n,
            n < hi * hi,
            n == (a as int) * (UNIT as int),
        decreases hi - lo,
    {
        let mid: u128 = lo + (hi - lo) / 2;
        assert(mid * mid <= 0x10_0000_0000 * 0x10_0000_0000) by (nonlinear_arith)
            requires
                mid < 0x10_0000_0000,
        ;
        if mid * mid <= n {
            lo = mid;
        } else {
            hi = mid;
        }
    }
    assert(lo < 0x10_0000_0000);
    proof {
        assert(is_sqrt(a as int, lo as int));
        lemma_sqrt_unique(a as int, lo as int);
    }
    lo as i64
}

} // verus!
