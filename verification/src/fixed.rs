//! Fixed-point scalars: the scale, floor square roots and floor division.

use vstd::prelude::*;

verus! {

/// The raw value that stands for 1.0: scalars count 1/65536ths.
pub const ONE: i64 = 65536;

/// `r` is the square root of `n`, rounded down.
pub open spec fn is_sqrt(n: int, r: int) -> bool {
    0 <= r && r * r <= n < (r + 1) * (r + 1)
}

/// The square root of `n`, rounded down (0 for a negative `n`).
pub open spec fn sqrt_floor(n: int) -> int {
    if n < 0 {
        0
    } else {
        choose|r: int| is_sqrt(n, r)
    }
}

/// Two non-negative integers whose squares are ordered strictly are ordered the same way.
pub proof fn lemma_square_lt_inv(a: int, b: int)
    by (nonlinear_arith)
    requires
        0 <= a,
        0 <= b,
        a * a < b * b,
    ensures
        a < b,
{
}

/// At most one integer is the floor square root of `n`.
pub proof fn lemma_sqrt_unique(n: int, r1: int, r2: int)
    requires
        is_sqrt(n, r1),
        is_sqrt(n, r2),
    ensures
        r1 == r2,
{
    lemma_square_lt_inv(r1, r2 + 1);
    lemma_square_lt_inv(r2, r1 + 1);
}

/// Every non-negative integer has a floor square root.
pub proof fn lemma_sqrt_exists(n: int) -> (r: int)
    requires
        0 <= n,
    ensures
        is_sqrt(n, r),
    decreases n,
{
    if n == 0 {
        assert(is_sqrt(0, 0)) by (nonlinear_arith);
        0
    } else {
        let p = lemma_sqrt_exists(n - 1);
        if (p + 1) * (p + 1) <= n {
            assert((p + 1 + 1) * (p + 1 + 1) > (p + 1) * (p + 1)) by (nonlinear_arith)
                requires
                    0 <= p,
            ;
            assert(is_sqrt(n, p + 1));
            p + 1
        } else {
            assert(is_sqrt(n, p));
            p
        }
    }
}

/// `sqrt_floor(n)` is the floor square root of a non-negative `n`.
pub proof fn lemma_sqrt_floor(n: int)
    requires
        0 <= n,
    ensures
        is_sqrt(n, sqrt_floor(n)),
{
    let r = lemma_sqrt_exists(n);
    assert(is_sqrt(n, r));
}

/// Whatever is a floor square root of `n` is `sqrt_floor(n)`.
pub proof fn lemma_sqrt_floor_is(n: int, r: int)
    requires
        is_sqrt(n, r),
    ensures
        r == sqrt_floor(n),
{
    assert(0 <= n) by (nonlinear_arith)
        requires
            r * r <= n,
    ;
    lemma_sqrt_floor(n);
    lemma_sqrt_unique(n, r, sqrt_floor(n));
}

/// The floor square root grows with its argument.
pub proof fn lemma_sqrt_floor_monotonic(a: int, b: int)
    requires
        0 <= a <= b,
    ensures
        sqrt_floor(a) <= sqrt_floor(b),
{
    lemma_sqrt_floor(a);
    lemma_sqrt_floor(b);
    lemma_square_lt_inv(sqrt_floor(a), sqrt_floor(b) + 1);
}

/// The square root of `n`, rounded down.
pub fn isqrt(n: u128) -> (r: u64)
    ensures
        r == sqrt_floor(n as int),
{
    let mut lo: u128 = 0;
    let mut hi: u128 = 0x1_0000_0000_0000_0000;
    assert(0x1_0000_0000_0000_0000int * 0x1_0000_0000_0000_0000int > u128::MAX) by (nonlinear_arith);
    while hi - lo > 1
        invariant
            lo < hi <= 0x1_0000_0000_0000_0000,
            lo * lo <= n < hi * hi,
        decreases hi - lo,
    {
        let mid: u128 = lo + (hi - lo) / 2;
        assert(mid * mid <= 0xffff_ffff_ffff_ffffint * 0xffff_ffff_ffff_ffffint) by (nonlinear_arith)
            requires
                0 <= mid <= 0xffff_ffff_ffff_ffff,
        ;
        assert(0xffff_ffff_ffff_ffffint * 0xffff_ffff_ffff_ffffint < u128::MAX) by (nonlinear_arith);
        if mid * mid <= n {
            lo = mid;
        } else {
            hi = mid;
        }
    }
    proof {
        lemma_sqrt_floor_is(n as int, lo as int);
    }
    lo as u64
}

/// A quotient by a positive divisor is the largest integer whose multiple does not exceed the dividend.
pub proof fn lemma_div_bounds(a: int, b: int)
    requires
        b > 0,
    ensures
        (a / b) * b <= a < (a / b) * b + b,
{
    vstd::arithmetic::div_mod::lemma_fundamental_div_mod(a, b);
    vstd::arithmetic::div_mod::lemma_mod_bound(a, b);
    assert(b * (a / b) == (a / b) * b) by (nonlinear_arith);
}

/// `a <= c * b` bounds the quotient `a / b` by `c`.
pub proof fn lemma_div_upper(a: int, b: int, c: int)
    requires
        b > 0,
        a <= c * b,
    ensures
        a / b <= c,
{
    lemma_div_bounds(a, b);
    let q = a / b;
    assert(q <= c) by (nonlinear_arith)
        requires
            b > 0,
            q * b <= a,
            a <= c * b,
    ;
}

/// `c * b <= a` bounds the quotient `a / b` from below by `c`.
pub proof fn lemma_div_lower(a: int, b: int, c: int)
    requires
        b > 0,
        c * b <= a,
    ensures
        c <= a / b,
{
    lemma_div_bounds(a, b);
    let q = a / b;
    assert(c <= q) by (nonlinear_arith)
        requires
            b > 0,
            a < q * b + b,
            c * b <= a,
    ;
}

/// `a < c * b` bounds the quotient `a / b` strictly by `c`.
pub proof fn lemma_div_strict_upper(a: int, b: int, c: int)
    requires
        b > 0,
        a < c * b,
    ensures
        a / b < c,
{
    lemma_div_bounds(a, b);
    let q = a / b;
    assert(q < c) by (nonlinear_arith)
        requires
            b > 0,
            q * b <= a,
            a < c * b,
    ;
}

/// `a / b` rounded down, for a positive divisor.
pub fn div_floor(a: i128, b: i128) -> (q: i128)
    requires
        b > 0,
    ensures
        q == a / b,
{
    if a >= 0 {
        a / b
    } else {
        let m: i128 = -(a + 1);
        let q: i128 = -(m / b) - 1;
        proof {
            vstd::arithmetic::div_mod::lemma_fundamental_div_mod(m as int, b as int);
            vstd::arithmetic::div_mod::lemma_mod_bound(m as int, b as int);
            let rem: int = b - 1 - (m as int) % (b as int);
            assert(b * (m / b) == (m / b) * b) by (nonlinear_arith);
            assert((-(m / b) - 1) * b == -((m / b) * b) - b) by (nonlinear_arith);
            vstd::arithmetic::div_mod::lemma_fundamental_div_mod_converse(
                a as int,
                b as int,
                q as int,
                rem,
            );
        }
        q
    }
}

} // verus!
