//! Fixed-point arithmetic: a real number `v` is held as the integer `v * ONE`.
use vstd::prelude::*;

verus! {

/// The fixed-point unit: the integer that stands for the real number 1.
pub const ONE: i64 = 65536;

/// Minimum accepted ray parameter (about 0.001), guarding against self-intersection.
pub const EPS: i64 = 66;

/// Fixed-point product, rounded toward negative infinity.
pub open spec fn fmul(a: int, b: int) -> int {
    (a * b) / (ONE as int)
}

/// Fixed-point quotient by a non-zero divisor, rounded toward negative infinity.
pub open spec fn fdiv(a: int, b: int) -> int {
    if b > 0 {
        (a * (ONE as int)) / b
    } else {
        (-a * (ONE as int)) / (-b)
    }
}

/// Whether `r` is the square root of `n` rounded down.
pub open spec fn is_sqrt(n: int, r: int) -> bool {
    0 <= r && r * r <= n < (r + 1) * (r + 1)
}

/// The square root of `n` rounded down.
pub open spec fn int_sqrt(n: int) -> int {
    choose|r: int| is_sqrt(n, r)
}

/// A non-negative integer has a single rounded-down square root.
pub proof fn lemma_sqrt_unique(n: int, r: int)
    requires
        0 <= r,
        r * r <= n < (r + 1) * (r + 1),
    ensures
        int_sqrt(n) == r,
{
    assert(is_sqrt(n, r));
    let s = int_sqrt(n);
    assert(0 <= s && s * s <= n < (s + 1) * (s + 1));
    if s < r {
        assert((s + 1) * (s + 1) <= r * r) by (nonlinear_arith)
            requires
                0 <= s < r,
        ;
    } else if r < s {
        assert((r + 1) * (r + 1) <= s * s) by (nonlinear_arith)
            requires
                0 <= r < s,
        ;
    }
}

/// Every non-negative integer has a rounded-down square root.
pub proof fn lemma_sqrt_exists(n: int)
    requires
        0 <= n,
    ensures
        is_sqrt(n, int_sqrt(n)),
    decreases n,
{
    if n == 0 {
        assert(is_sqrt(0, 0));
    } else {
        lemma_sqrt_exists(n - 1);
        let r = int_sqrt(n - 1);
        if (r + 1) * (r + 1) <= n {
            assert((r + 2) * (r + 2) > n) by (nonlinear_arith)
                requires
                    n - 1 < (r + 1) * (r + 1),
                    0 <= r,
            ;
            assert(is_sqrt(n, r + 1));
        } else {
            assert(is_sqrt(n, r));
        }
    }
}

/// The rounded-down square root never decreases.
pub proof fn lemma_sqrt_monotone(n1: int, n2: int)
    requires
        0 <= n1 <= n2,
    ensures
        int_sqrt(n1) <= int_sqrt(n2),
{
    lemma_sqrt_exists(n1);
    lemma_sqrt_exists(n2);
    let (r1, r2) = (int_sqrt(n1), int_sqrt(n2));
    if r1 > r2 {
        assert((r2 + 1) * (r2 + 1) <= r1 * r1) by (nonlinear_arith)
            requires
                0 <= r2 < r1,
        ;
    }
}

/// Whether `r` is the cube root of `n` rounded down.
pub open spec fn is_cbrt(n: int, r: int) -> bool {
    0 <= r && r * r * r <= n < (r + 1) * (r + 1) * (r + 1)
}

/// The cube root of `n` rounded down.
pub open spec fn int_cbrt(n: int) -> int {
    choose|r: int| is_cbrt(n, r)
}

/// A non-negative integer has a single rounded-down cube root.
pub proof fn lemma_cbrt_unique(n: int, r: int)
    requires
        is_cbrt(n, r),
    ensures
        int_cbrt(n) == r,
{
    let s = int_cbrt(n);
    assert(is_cbrt(n, s));
    if s < r {
        assert((s + 1) * (s + 1) * (s + 1) <= r * r * r) by (nonlinear_arith)
            requires
                0 <= s < r,
        ;
    } else if r < s {
        assert((r + 1) * (r + 1) * (r + 1) <= s * s * s) by (nonlinear_arith)
            requires
                0 <= r < s,
        ;
    }
}

/// Every non-negative integer has a rounded-down cube root.
pub proof fn lemma_cbrt_exists(n: int)
    requires
        0 <= n,
    ensures
        is_cbrt(n, int_cbrt(n)),
    decreases n,
{
    if n == 0 {
        assert(is_cbrt(0, 0));
    } else {
        lemma_cbrt_exists(n - 1);
        let r = int_cbrt(n - 1);
        if (r + 1) * (r + 1) * (r + 1) <= n {
            assert((r + 2) * (r + 2) * (r + 2) > n) by (nonlinear_arith)
                requires
                    n - 1 < (r + 1) * (r + 1) * (r + 1),
                    0 <= r,
            ;
            assert(is_cbrt(n, r + 1));
        } else {
            assert(is_cbrt(n, r));
        }
    }
}

/// The rounded-down cube root never decreases.
pub proof fn lemma_cbrt_monotone(n1: int, n2: int)
    requires
        0 <= n1 <= n2,
    ensures
        int_cbrt(n1) <= int_cbrt(n2),
{
    lemma_cbrt_exists(n1);
    lemma_cbrt_exists(n2);
    let (r1, r2) = (int_cbrt(n1), int_cbrt(n2));
    if r1 > r2 {
        assert((r2 + 1) * (r2 + 1) * (r2 + 1) <= r1 * r1 * r1) by (nonlinear_arith)
            requires
                0 <= r2 < r1,
        ;
    }
}

/// Floor division of `p` by a positive `d`.
pub fn div_floor(p: i128, d: i128) -> (r: i128)
    requires
        d > 0,
        p > i128::MIN,
    ensures
        r == p / d,
{
    if p >= 0 {
        p / d
    } else {
        let q = (-p - 1) / d;
        proof {
            let n = -p - 1;
            vstd::arithmetic::div_mod::lemma_fundamental_div_mod(n, d as int);
            let r1 = n % (d as int);
            assert(0 <= r1 < d);
            assert(p == (-q - 1) * d + (d - 1 - r1)) by (nonlinear_arith)
                requires
                    n == d * q + r1,
                    n == -p - 1,
            ;
            vstd::arithmetic::div_mod::lemma_fundamental_div_mod_converse(
                p as int,
                d as int,
                -q - 1,
                d - 1 - r1,
            );
        }
        -q - 1
    }
}

/// Relies on `num::integer::sqrt` for `u128`: the truncated principal square root,
/// the `r` with `r * r <= n < (r + 1) * (r + 1)`.
#[verifier::external_body]
pub(crate) fn isqrt(n: u128) -> (r: u128)
    ensures
        r * r <= n < (r + 1) * (r + 1),
{
    num::integer::sqrt(n)
}

/// Relies on `num::integer::cbrt` for `u128`: the truncated principal cube root,
/// the `r` with `r * r * r <= n < (r + 1) * (r + 1) * (r + 1)`.
#[verifier::external_body]
pub(crate) fn icbrt(n: u128) -> (r: u128)
    ensures
        r * r * r <= n < (r + 1) * (r + 1) * (r + 1),
{
    num::integer::cbrt(n)
}

} // verus!
