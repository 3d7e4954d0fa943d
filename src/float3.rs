//! Three-component fixed-point vectors, used for points, directions and colors.
use vstd::prelude::*;
use crate::fixed::{div_floor, fdiv, fmul, int_sqrt, isqrt, lemma_sqrt_unique, EPS, ONE};

verus! {

/// Largest magnitude of a component for which products of components are computed exactly.
pub const COMPONENT_LIMIT: i64 = 0x4000_0000_0000_0000;

/// A vector of three fixed-point numbers (`x`, `y`, `z`), or a color (`r`, `g`, `b`).
#[derive(Clone, Copy, Debug, PartialEq, Eq, Structural)]
pub struct Float3 {
    pub x: i64,
    pub y: i64,
    pub z: i64,
}

pub type Color = Float3;

pub type Vec3 = Float3;

pub type Point3 = Float3;

/// Whether an integer can be held by an `i64`.
pub open spec fn fits(v: int) -> bool {
    i64::MIN <= v <= i64::MAX
}

/// Whether every component is small enough for exact products.
pub open spec fn in_range(v: Float3) -> bool {
    -COMPONENT_LIMIT < v.x < COMPONENT_LIMIT && -COMPONENT_LIMIT < v.y < COMPONENT_LIMIT
        && -COMPONENT_LIMIT < v.z < COMPONENT_LIMIT
}

/// Whether every component lies in `[-k, k]`.
pub open spec fn bounded(v: Float3, k: int) -> bool {
    -k <= v.x <= k && -k <= v.y <= k && -k <= v.z <= k
}

pub open spec fn vec3(x: int, y: int, z: int) -> Float3 {
    Float3 { x: x as i64, y: y as i64, z: z as i64 }
}

pub open spec fn vadd(a: Float3, b: Float3) -> Float3 {
    vec3(a.x + b.x, a.y + b.y, a.z + b.z)
}

pub open spec fn add_fits(a: Float3, b: Float3) -> bool {
    fits(a.x + b.x) && fits(a.y + b.y) && fits(a.z + b.z)
}

pub open spec fn vsub(a: Float3, b: Float3) -> Float3 {
    vec3(a.x - b.x, a.y - b.y, a.z - b.z)
}

pub open spec fn sub_fits(a: Float3, b: Float3) -> bool {
    fits(a.x - b.x) && fits(a.y - b.y) && fits(a.z - b.z)
}

pub open spec fn vneg(a: Float3) -> Float3 {
    vec3(-a.x, -a.y, -a.z)
}

pub open spec fn neg_fits(a: Float3) -> bool {
    fits(-a.x) && fits(-a.y) && fits(-a.z)
}

/// Each component multiplied by the fixed-point scalar `s`.
pub open spec fn vscale(a: Float3, s: int) -> Float3 {
    vec3(fmul(a.x as int, s), fmul(a.y as int, s), fmul(a.z as int, s))
}

pub open spec fn scale_fits(a: Float3, s: int) -> bool {
    fits(fmul(a.x as int, s)) && fits(fmul(a.y as int, s)) && fits(fmul(a.z as int, s))
}

/// Each component divided by the fixed-point scalar `s`.
pub open spec fn vdiv(a: Float3, s: int) -> Float3 {
    vec3(fdiv(a.x as int, s), fdiv(a.y as int, s), fdiv(a.z as int, s))
}

pub open spec fn div_fits(a: Float3, s: int) -> bool {
    fits(fdiv(a.x as int, s)) && fits(fdiv(a.y as int, s)) && fits(fdiv(a.z as int, s))
}

/// Component-wise product, as used to filter one color by another.
pub open spec fn vmul_elem(a: Float3, b: Float3) -> Float3 {
    vec3(fmul(a.x as int, b.x as int), fmul(a.y as int, b.y as int), fmul(a.z as int, b.z as int))
}

pub open spec fn mul_elem_fits(a: Float3, b: Float3) -> bool {
    fits(fmul(a.x as int, b.x as int)) && fits(fmul(a.y as int, b.y as int)) && fits(fmul(a.z as int, b.z as int))
}

/// The exact dot product, at the square of the fixed-point scale.
pub open spec fn dot_raw(a: Float3, b: Float3) -> int {
    a.x * b.x + a.y * b.y + a.z * b.z
}

/// The dot product at the fixed-point scale.
pub open spec fn vdot(a: Float3, b: Float3) -> int {
    dot_raw(a, b) / (ONE as int)
}

pub open spec fn vcross(a: Float3, b: Float3) -> Float3 {
    vec3(
        fmul(a.y as int, b.z as int) - fmul(a.z as int, b.y as int),
        fmul(a.z as int, b.x as int) - fmul(a.x as int, b.z as int),
        fmul(a.x as int, b.y as int) - fmul(a.y as int, b.x as int),
    )
}

pub open spec fn cross_fits(a: Float3, b: Float3) -> bool {
    fits(fmul(a.y as int, b.z as int) - fmul(a.z as int, b.y as int)) && fits(fmul(a.z as int, b.x as int) - fmul(a.x as int, b.z as int)) && fits(
        fmul(a.x as int, b.y as int) - fmul(a.y as int, b.x as int),
    )
}

/// Whether `n` is the length of `a` rounded down, at the fixed-point scale.
pub open spec fn is_norm(a: Float3, n: int) -> bool {
    0 <= n && n * n <= dot_raw(a, a) < (n + 1) * (n + 1)
}

/// A vector lifted, where all its components are below one unit, by the exact factor `ONE`:
/// the same direction, at a length where rounding to the fixed-point grid is negligible.
pub open spec fn lifted(a: Float3) -> Float3 {
    if dot_raw(a, a) < ONE * ONE {
        vec3(a.x * ONE, a.y * ONE, a.z * ONE)
    } else {
        a
    }
}

/// The unit vector in the direction of a non-zero vector: its lifted form divided by its
/// length rounded down.
pub open spec fn vnormalize(a: Float3) -> Float3 {
    let l = lifted(a);
    vdiv(l, int_sqrt(dot_raw(l, l)))
}

pub open spec fn is_near_zero(a: Float3) -> bool {
    -EPS < a.x < EPS && -EPS < a.y < EPS && -EPS < a.z < EPS
}

pub open spec fn clamp01(v: int) -> int {
    if v < 0 {
        0
    } else if v > ONE {
        ONE as int
    } else {
        v
    }
}

pub open spec fn vsaturate(a: Float3) -> Float3 {
    vec3(clamp01(a.x as int), clamp01(a.y as int), clamp01(a.z as int))
}

/// Fixed-point product of two `i64` values, rounded down.
pub fn mul_fixed(a: i64, b: i64) -> (r: i64)
    requires
        fits(fmul(a as int, b as int)),
    ensures
        r == fmul(a as int, b as int),
{
    assert(-0x8000_0000_0000_0000 * 0x8000_0000_0000_0000 <= (a as int) * (b as int)
        <= 0x8000_0000_0000_0000 * 0x8000_0000_0000_0000) by (nonlinear_arith);
    let p = (a as i128) * (b as i128);
    div_floor(p, ONE as i128) as i64
}

/// Fixed-point product of two `i64` values, rounded down, without narrowing.
fn mul_fixed_wide(a: i64, b: i64) -> (r: i128)
    ensures
        r == fmul(a as int, b as int),
        -0x4_0000_0000_0000_0000_0000_0000_0000 <= r <= 0x4_0000_0000_0000_0000_0000_0000_0000,
{
    assert(-0x8000_0000_0000_0000 * 0x8000_0000_0000_0000 <= (a as int) * (b as int)
        <= 0x8000_0000_0000_0000 * 0x8000_0000_0000_0000) by (nonlinear_arith);
    let p = (a as i128) * (b as i128);
    let r = div_floor(p, ONE as i128);
    proof {
        vstd::arithmetic::div_mod::lemma_div_is_ordered(p as int, 0x4000_0000_0000_0000_0000_0000_0000_0000, ONE as int);
        vstd::arithmetic::div_mod::lemma_div_is_ordered(-0x4000_0000_0000_0000_0000_0000_0000_0000, p as int, ONE as int);
    }
    r
}

/// The exact dot product of two vectors whose components are in range.
pub fn dot_raw_exec(a: Float3, b: Float3) -> (r: i128)
    requires
        in_range(a),
        in_range(b),
    ensures
        r == dot_raw(a, b),
        -0x4000_0000_0000_0000_0000_0000_0000_0000 < r < 0x4000_0000_0000_0000_0000_0000_0000_0000,
{
    proof {
        lemma_product_in_range(a.x as int, b.x as int);
        lemma_product_in_range(a.y as int, b.y as int);
        lemma_product_in_range(a.z as int, b.z as int);
    }
    (a.x as i128) * (b.x as i128) + (a.y as i128) * (b.y as i128) + (a.z as i128) * (b.z as i128)
}

/// The dot product of a vector with itself is not negative.
pub proof fn lemma_dot_self_nonneg(a: Float3)
    ensures
        dot_raw(a, a) >= 0,
{
    assert(dot_raw(a, a) >= 0) by (nonlinear_arith)
        requires
            dot_raw(a, a) == a.x * a.x + a.y * a.y + a.z * a.z,
    ;
}

proof fn lemma_product_in_range(a: int, b: int)
    requires
        -COMPONENT_LIMIT < a < COMPONENT_LIMIT,
        -COMPONENT_LIMIT < b < COMPONENT_LIMIT,
    ensures
        -0x1000_0000_0000_0000_0000_0000_0000_0000 < a * b < 0x1000_0000_0000_0000_0000_0000_0000_0000,
{
    assert(-0x1000_0000_0000_0000_0000_0000_0000_0000 < a * b < 0x1000_0000_0000_0000_0000_0000_0000_0000)
        by (nonlinear_arith)
        requires
            -0x4000_0000_0000_0000 < a < 0x4000_0000_0000_0000,
            -0x4000_0000_0000_0000 < b < 0x4000_0000_0000_0000,
    ;
}

/// A component is no larger in magnitude than the length of its vector.
proof fn lemma_component_le_norm(c: int, q: int, n: int)
    requires
        0 <= n,
        c * c <= q < (n + 1) * (n + 1),
    ensures
        -n <= c <= n,
{
    if c > n {
        assert((n + 1) * (n + 1) <= c * c) by (nonlinear_arith)
            requires
                0 <= n < c,
        ;
    } else if c < -n {
        assert((n + 1) * (n + 1) <= c * c) by (nonlinear_arith)
            requires
                0 <= n,
                c < -n,
        ;
    }
}

/// A component divided by a length that bounds it lies in `[-ONE, ONE]`.
proof fn lemma_unit_quotient(c: int, n: int)
    requires
        0 < n,
        -n <= c <= n,
    ensures
        -ONE <= fdiv(c, n) <= ONE,
{
    let p = c * (ONE as int);
    assert(-n * ONE <= p <= n * ONE) by (nonlinear_arith)
        requires
            -n <= c <= n,
            p == c * (ONE as int),
            0 < n,
    ;
    vstd::arithmetic::div_mod::lemma_div_is_ordered(p, n * ONE, n);
    vstd::arithmetic::div_mod::lemma_div_is_ordered(-n * ONE, p, n);
    vstd::arithmetic::div_mod::lemma_div_multiples_vanish(ONE as int, n);
    vstd::arithmetic::div_mod::lemma_div_multiples_vanish(-ONE, n);
    assert(-n * ONE == n * (-ONE)) by (nonlinear_arith);
}

/// A component larger than half the length keeps a non-zero quotient by the length.
proof fn lemma_quotient_nonzero(c: int, n: int)
    requires
        0 < n,
        n < 2 * c || n < -2 * c,
    ensures
        fdiv(c, n) != 0,
{
    let p = c * (ONE as int);
    if c > 0 {
        assert(p >= n) by (nonlinear_arith)
            requires
                p == c * (ONE as int),
                n < 2 * c,
                c > 0,
        ;
        vstd::arithmetic::div_mod::lemma_div_is_ordered(n, p, n);
        vstd::arithmetic::div_mod::lemma_div_by_self(n);
    } else {
        assert(p <= -1) by (nonlinear_arith)
            requires
                p == c * (ONE as int),
                n < -2 * c,
                0 < n,
        ;
        vstd::arithmetic::div_mod::lemma_div_is_ordered(p, -1, n);
        vstd::arithmetic::div_mod::lemma_fundamental_div_mod_converse(-1, n, -1, n - 1);
    }
}

/// A non-zero vector has a component whose square exceeds a quarter of the squared length.
proof fn lemma_large_component(a: Float3, n: int)
    requires
        0 < n,
        n * n <= dot_raw(a, a),
    ensures
        n < 2 * a.x || n < -2 * a.x || n < 2 * a.y || n < -2 * a.y || n < 2 * a.z || n < -2 * a.z,
{
    let (x, y, z) = (a.x as int, a.y as int, a.z as int);
    if !(n < 2 * x || n < -2 * x || n < 2 * y || n < -2 * y || n < 2 * z || n < -2 * z) {
        assert(4 * x * x <= n * n && 4 * y * y <= n * n && 4 * z * z <= n * n) by (nonlinear_arith)
            requires
                -n <= 2 * x <= n,
                -n <= 2 * y <= n,
                -n <= 2 * z <= n,
        ;
        assert(false) by (nonlinear_arith)
            requires
                4 * x * x <= n * n,
                4 * y * y <= n * n,
                4 * z * z <= n * n,
                n * n <= x * x + y * y + z * z,
                0 < n,
        ;
    }
}

/// Fixed-point quotient of two `i64` values by a non-zero divisor, rounded down.
pub fn div_fixed(a: i64, b: i64) -> (r: i64)
    requires
        b != 0,
        fits(fdiv(a as int, b as int)),
    ensures
        r == fdiv(a as int, b as int),
{
    assert(-0x8000_0000_0000_0000 * 65536 <= a * 65536 <= 0x8000_0000_0000_0000 * 65536)
        by (nonlinear_arith)
        requires
            i64::MIN <= a <= i64::MAX,
    ;
    let p = (a as i128) * (ONE as i128);
    if b > 0 {
        div_floor(p, b as i128) as i64
    } else {
        div_floor(-p, -(b as i128)) as i64
    }
}

impl Float3 {
    pub fn new(x: i64, y: i64, z: i64) -> (r: Float3)
        ensures
            r.x == x && r.y == y && r.z == z,
    {
        Float3 { x, y, z }
    }

    pub fn zero() -> (r: Float3)
        ensures
            r.x == 0 && r.y == 0 && r.z == 0,
    {
        Float3 { x: 0, y: 0, z: 0 }
    }

    pub fn to_array(&self) -> (r: [i64; 3])
        ensures
            r@ == seq![self.x, self.y, self.z],
    {
        [self.x, self.y, self.z]
    }

    pub fn x(&self) -> (r: i64)
        ensures
            r == self.x,
    {
        self.x
    }

    pub fn y(&self) -> (r: i64)
        ensures
            r == self.y,
    {
        self.y
    }

    pub fn z(&self) -> (r: i64)
        ensures
            r == self.z,
    {
        self.z
    }

    pub fn add(self, rhs: Float3) -> (r: Float3)
        requires
            add_fits(self, rhs),
        ensures
            r == vadd(self, rhs),
    {
        Float3 { x: self.x + rhs.x, y: self.y + rhs.y, z: self.z + rhs.z }
    }

    pub fn sub(self, rhs: Float3) -> (r: Float3)
        requires
            sub_fits(self, rhs),
        ensures
            r == vsub(self, rhs),
    {
        Float3 { x: self.x - rhs.x, y: self.y - rhs.y, z: self.z - rhs.z }
    }

    pub fn neg(self) -> (r: Float3)
        requires
            neg_fits(self),
        ensures
            r == vneg(self),
    {
        Float3 { x: -self.x, y: -self.y, z: -self.z }
    }

    /// Multiplies each component by the fixed-point scalar `s`.
    pub fn mul(self, s: i64) -> (r: Float3)
        requires
            scale_fits(self, s as int),
        ensures
            r == vscale(self, s as int),
    {
        Float3 { x: mul_fixed(self.x, s), y: mul_fixed(self.y, s), z: mul_fixed(self.z, s) }
    }

    /// Divides each component by the non-zero fixed-point scalar `s`.
    pub fn div(self, s: i64) -> (r: Float3)
        requires
            s != 0,
            div_fits(self, s as int),
        ensures
            r == vdiv(self, s as int),
    {
        Float3 { x: div_fixed(self.x, s), y: div_fixed(self.y, s), z: div_fixed(self.z, s) }
    }

    /// Multiplies component by component.
    pub fn mul_elem(self, rhs: Float3) -> (r: Float3)
        requires
            mul_elem_fits(self, rhs),
        ensures
            r == vmul_elem(self, rhs),
    {
        Float3 {
            x: mul_fixed(self.x, rhs.x),
            y: mul_fixed(self.y, rhs.y),
            z: mul_fixed(self.z, rhs.z),
        }
    }

    pub fn dot(&self, rhs: Float3) -> (r: i64)
        requires
            in_range(*self),
            in_range(rhs),
            fits(vdot(*self, rhs)),
        ensures
            r == vdot(*self, rhs),
    {
        let p = dot_raw_exec(*self, rhs);
        div_floor(p, ONE as i128) as i64
    }

    pub fn cross(&self, rhs: Float3) -> (r: Float3)
        requires
            cross_fits(*self, rhs),
        ensures
            r == vcross(*self, rhs),
    {
        let x = mul_fixed_wide(self.y, rhs.z) - mul_fixed_wide(self.z, rhs.y);
        let y = mul_fixed_wide(self.z, rhs.x) - mul_fixed_wide(self.x, rhs.z);
        let z = mul_fixed_wide(self.x, rhs.y) - mul_fixed_wide(self.y, rhs.x);
        Float3 { x: x as i64, y: y as i64, z: z as i64 }
    }

    /// The squared length, at the fixed-point scale.
    pub fn norm_sq(&self) -> (r: i64)
        requires
            in_range(*self),
            fits(vdot(*self, *self)),
        ensures
            r == vdot(*self, *self),
    {
        self.dot(*self)
    }

    /// The length, rounded down.
    pub fn norm(&self) -> (r: i64)
        requires
            in_range(*self),
        ensures
            r == int_sqrt(dot_raw(*self, *self)),
            is_norm(*self, r as int),
    {
        let q = dot_raw_exec(*self, *self);
        assert(q >= 0) by (nonlinear_arith)
            requires
                q == self.x * self.x + self.y * self.y + self.z * self.z,
        ;
        let n = isqrt(q as u128);
        assert(n < 0x8000_0000_0000_0000) by (nonlinear_arith)
            requires
                n * n <= q,
                q < 0x4000_0000_0000_0000_0000_0000_0000_0000,
        ;
        proof {
            lemma_sqrt_unique(q as int, n as int);
        }
        n as i64
    }

    /// The vector scaled to unit length; the vector must not be zero.
    pub fn normalize(&self) -> (r: Float3)
        requires
            in_range(*self),
            dot_raw(*self, *self) > 0,
        ensures
            r == vnormalize(*self),
            bounded(r, ONE as int),
            dot_raw(r, r) > 0,
            ONE - 4 <= int_sqrt(dot_raw(r, r)) <= ONE + 4,
    {
        let q = dot_raw_exec(*self, *self);
        proof {
            lemma_lifted(*self);
        }
        let l = if q < (ONE as i128) * (ONE as i128) {
            Float3 { x: self.x * ONE, y: self.y * ONE, z: self.z * ONE }
        } else {
            *self
        };
        proof {
            lemma_divided_length(l);
        }
        l.divide_by_norm()
    }

    /// The vector divided by its length rounded down.
    fn divide_by_norm(&self) -> (r: Float3)
        requires
            in_range(*self),
            dot_raw(*self, *self) > 0,
        ensures
            r == vdiv(*self, int_sqrt(dot_raw(*self, *self))),
            bounded(r, ONE as int),
            dot_raw(r, r) > 0,
    {
        let n = self.norm();
        proof {
            let q = dot_raw(*self, *self);
            assert(n > 0) by (nonlinear_arith)
                requires
                    q < (n + 1) * (n + 1),
                    q > 0,
                    n >= 0,
            ;
            assert(self.x * self.x <= q && self.y * self.y <= q && self.z * self.z <= q)
                by (nonlinear_arith)
                requires
                    q == self.x * self.x + self.y * self.y + self.z * self.z,
            ;
            lemma_component_le_norm(self.x as int, q, n as int);
            lemma_component_le_norm(self.y as int, q, n as int);
            lemma_component_le_norm(self.z as int, q, n as int);
            lemma_unit_quotient(self.x as int, n as int);
            lemma_unit_quotient(self.y as int, n as int);
            lemma_unit_quotient(self.z as int, n as int);
            lemma_large_component(*self, n as int);
            let u = vdiv(*self, n as int);
            if n < 2 * self.x || n < -2 * self.x {
                lemma_quotient_nonzero(self.x as int, n as int);
                assert(u.x * u.x > 0) by (nonlinear_arith)
                    requires
                        u.x != 0,
                ;
            } else if n < 2 * self.y || n < -2 * self.y {
                lemma_quotient_nonzero(self.y as int, n as int);
                assert(u.y * u.y > 0) by (nonlinear_arith)
                    requires
                        u.y != 0,
                ;
            } else {
                lemma_quotient_nonzero(self.z as int, n as int);
                assert(u.z * u.z > 0) by (nonlinear_arith)
                    requires
                        u.z != 0,
                ;
            }
            assert(u.x * u.x >= 0 && u.y * u.y >= 0 && u.z * u.z >= 0) by (nonlinear_arith);
        }
        self.div(n)
    }

    /// The square root of each component, which must not be negative.
    pub fn sqrt(&self) -> (r: Float3)
        requires
            self.x >= 0 && self.y >= 0 && self.z >= 0,
        ensures
            r.x == int_sqrt(self.x * ONE),
            r.y == int_sqrt(self.y * ONE),
            r.z == int_sqrt(self.z * ONE),
    {
        Float3 { x: sqrt_channel(self.x), y: sqrt_channel(self.y), z: sqrt_channel(self.z) }
    }

    /// Whether every component is within `EPS` of zero.
    pub fn near_zero(&self) -> (r: bool)
        ensures
            r == is_near_zero(*self),
    {
        -EPS < self.x && self.x < EPS && -EPS < self.y && self.y < EPS && -EPS < self.z
            && self.z < EPS
    }

    /// Each component clamped to `[0, 1]`.
    pub fn saturate(&self) -> (r: Float3)
        ensures
            r == vsaturate(*self),
    {
        Float3 { x: saturate_channel(self.x), y: saturate_channel(self.y), z: saturate_channel(self.z) }
    }
}

/// The fixed-point square root of one non-negative component.
fn sqrt_channel(v: i64) -> (r: i64)
    requires
        v >= 0,
    ensures
        r == int_sqrt(v * ONE),
{
    assert(v * 65536 < 0x8000_0000_0000_0000 * 0x1_0000) by (nonlinear_arith)
        requires
            0 <= v < 0x8000_0000_0000_0000,
    ;
    let n = (v as u128) * (ONE as u128);
    let s = isqrt(n);
    assert(s < 0x1_0000_0000_0000) by (nonlinear_arith)
        requires
            s * s <= n,
            n < 0x8000_0000_0000_0000 * 0x1_0000,
    ;
    proof {
        lemma_sqrt_unique(n as int, s as int);
    }
    s as i64
}

/// One component clamped to `[0, 1]`.
pub fn saturate_channel(v: i64) -> (r: i64)
    ensures
        r == clamp01(v as int),
{
    if v < 0 {
        0
    } else if v > ONE {
        ONE
    } else {
        v
    }
}

/// Addition is commutative.
pub proof fn lemma_add_commutative(a: Float3, b: Float3)
    ensures
        vadd(a, b) == vadd(b, a),
{
}

/// Addition is associative, where the sums fit.
pub proof fn lemma_add_associative(a: Float3, b: Float3, c: Float3)
    requires
        add_fits(a, b),
        add_fits(b, c),
        add_fits(vadd(a, b), c),
    ensures
        vadd(vadd(a, b), c) == vadd(a, vadd(b, c)),
{
}

/// A vector plus its negation is zero.
pub proof fn lemma_add_negation(a: Float3)
    requires
        neg_fits(a),
    ensures
        vadd(a, vneg(a)) == vec3(0, 0, 0),
{
}

/// The dot product is symmetric.
pub proof fn lemma_dot_symmetric(a: Float3, b: Float3)
    ensures
        vdot(a, b) == vdot(b, a),
{
    assert(dot_raw(a, b) == dot_raw(b, a)) by (nonlinear_arith);
}

/// The cross product is anticommutative, where the negation fits.
pub proof fn lemma_cross_anticommutative(a: Float3, b: Float3)
    requires
        cross_fits(b, a),
        neg_fits(vcross(b, a)),
    ensures
        vcross(a, b) == vneg(vcross(b, a)),
{
    assert((a.x as int) * (b.y as int) == (b.y as int) * (a.x as int)) by (nonlinear_arith);
    assert((a.x as int) * (b.z as int) == (b.z as int) * (a.x as int)) by (nonlinear_arith);
    assert((a.y as int) * (b.x as int) == (b.x as int) * (a.y as int)) by (nonlinear_arith);
    assert((a.y as int) * (b.z as int) == (b.z as int) * (a.y as int)) by (nonlinear_arith);
    assert((a.z as int) * (b.x as int) == (b.x as int) * (a.z as int)) by (nonlinear_arith);
    assert((a.z as int) * (b.y as int) == (b.y as int) * (a.z as int)) by (nonlinear_arith);
}

proof fn lemma_normalized_component(c: int, n: int, u: int, e: int)
    requires
        n > 0,
        -n <= c <= n,
        n * u + e == c * ONE,
        0 <= e < n,
    ensures
        n * n * (u * u) == ONE * ONE * (c * c) - 2 * ONE * (c * e) + e * e,
        -(n * n) <= c * e <= n * n,
        0 <= e * e <= n * n,
{
    assert(n * n * (u * u) == (n * u) * (n * u)) by (nonlinear_arith);
    assert((n * u) * (n * u) == (c * ONE - e) * (c * ONE - e)) by (nonlinear_arith)
        requires
            n * u == c * ONE - e,
    ;
    assert((c * ONE - e) * (c * ONE - e) == ONE * ONE * (c * c) - 2 * ONE * (c * e) + e * e)
        by (nonlinear_arith);
    assert(-(n * n) <= c * e <= n * n) by (nonlinear_arith)
        requires
            -n <= c <= n,
            0 <= e < n,
    ;
    assert(0 <= e * e <= n * n) by (nonlinear_arith)
        requires
            0 <= e < n,
    ;
}

/// A vector of length at least one, divided by its length, has a length within four units of
/// the last place of one.
proof fn lemma_divided_length(a: Float3)
    requires
        in_range(a),
        dot_raw(a, a) >= ONE * ONE,
    ensures
        ONE - 4 <= int_sqrt(dot_raw(vdiv(a, int_sqrt(dot_raw(a, a))), vdiv(a, int_sqrt(dot_raw(a, a)))))
            <= ONE + 4,
{
    let q = dot_raw(a, a);
    crate::fixed::lemma_sqrt_exists(q);
    let n = int_sqrt(q);
    assert(n >= ONE) by (nonlinear_arith)
        requires
            q < (n + 1) * (n + 1),
            q >= 65536 * 65536,
            n >= 0,
    ;
    assert(a.x * a.x <= q && a.y * a.y <= q && a.z * a.z <= q) by (nonlinear_arith)
        requires
            q == a.x * a.x + a.y * a.y + a.z * a.z,
    ;
    lemma_component_le_norm(a.x as int, q, n);
    lemma_component_le_norm(a.y as int, q, n);
    lemma_component_le_norm(a.z as int, q, n);
    lemma_unit_quotient(a.x as int, n);
    lemma_unit_quotient(a.y as int, n);
    lemma_unit_quotient(a.z as int, n);
    let u = vdiv(a, n);
    vstd::arithmetic::div_mod::lemma_fundamental_div_mod(a.x * ONE, n);
    vstd::arithmetic::div_mod::lemma_fundamental_div_mod(a.y * ONE, n);
    vstd::arithmetic::div_mod::lemma_fundamental_div_mod(a.z * ONE, n);
    let (ex, ey, ez) = ((a.x * ONE) % n, (a.y * ONE) % n, (a.z * ONE) % n);
    lemma_normalized_component(a.x as int, n, u.x as int, ex);
    lemma_normalized_component(a.y as int, n, u.y as int, ey);
    lemma_normalized_component(a.z as int, n, u.z as int, ez);
    let s = dot_raw(u, u);
    let t = (a.x * ex) + (a.y * ey) + (a.z * ez);
    let f = ex * ex + ey * ey + ez * ez;
    assert(n * n * s == ONE * ONE * q - 2 * ONE * t + f) by (nonlinear_arith)
        requires
            s == u.x * u.x + u.y * u.y + u.z * u.z,
            q == a.x * a.x + a.y * a.y + a.z * a.z,
            t == (a.x * ex) + (a.y * ey) + (a.z * ez),
            f == ex * ex + ey * ey + ez * ez,
            n * n * (u.x * u.x) == ONE * ONE * (a.x * a.x) - 2 * ONE * (a.x * ex) + ex * ex,
            n * n * (u.y * u.y) == ONE * ONE * (a.y * a.y) - 2 * ONE * (a.y * ey) + ey * ey,
            n * n * (u.z * u.z) == ONE * ONE * (a.z * a.z) - 2 * ONE * (a.z * ez) + ez * ez,
    ;
    let nn = n * n;
    assert(ONE * ONE * q < ONE * ONE * (nn + 2 * n + 1)) by (nonlinear_arith)
        requires
            q < (n + 1) * (n + 1),
            nn == n * n,
    ;
    assert(ONE * ONE * q >= ONE * ONE * nn) by (nonlinear_arith)
        requires
            q >= n * n,
            nn == n * n,
    ;
    assert(ONE * ONE * (2 * n + 1) <= 2 * ONE * nn + 13 * nn) by (nonlinear_arith)
        requires
            n >= 65536,
            nn == n * n,
    ;
    assert(nn * s < nn * ((ONE + 4) * (ONE + 4))) by (nonlinear_arith)
        requires
            nn * s == ONE * ONE * q - 2 * ONE * t + f,
            ONE * ONE * q < ONE * ONE * (nn + 2 * n + 1),
            ONE * ONE * (2 * n + 1) <= 2 * ONE * nn + 13 * nn,
            -3 * nn <= t,
            f <= 3 * nn,
    ;
    assert(nn * s >= nn * ((ONE - 4) * (ONE - 4))) by (nonlinear_arith)
        requires
            nn * s == ONE * ONE * q - 2 * ONE * t + f,
            ONE * ONE * q >= ONE * ONE * nn,
            t <= 3 * nn,
            f >= 0,
            nn > 0,
    ;
    assert((ONE - 4) * (ONE - 4) <= s < (ONE + 4) * (ONE + 4)) by (nonlinear_arith)
        requires
            nn * s < nn * ((ONE + 4) * (ONE + 4)),
            nn * s >= nn * ((ONE - 4) * (ONE - 4)),
            nn > 0,
    ;
    crate::fixed::lemma_sqrt_exists(s);
    let m = int_sqrt(s);
    assert(ONE - 4 <= m <= ONE + 4) by (nonlinear_arith)
        requires
            m * m <= s < (m + 1) * (m + 1),
            (ONE - 4) * (ONE - 4) <= s < (ONE + 4) * (ONE + 4),
            m >= 0,
    ;
}

/// Where all components of a non-zero vector are below one unit, each is below `ONE` in
/// magnitude, so lifting keeps them in range, and the lifted vector has length at least one.
proof fn lemma_lifted(a: Float3)
    requires
        in_range(a),
        dot_raw(a, a) > 0,
    ensures
        in_range(lifted(a)),
        dot_raw(lifted(a), lifted(a)) >= ONE * ONE,
        dot_raw(a, a) < ONE * ONE ==> lifted(a) == vec3(a.x * ONE, a.y * ONE, a.z * ONE),
        dot_raw(a, a) < ONE * ONE ==> bounded(a, ONE - 1),
{
    let q = dot_raw(a, a);
    if q < ONE * ONE {
        let (x, y, z) = (a.x as int, a.y as int, a.z as int);
        assert(x * x <= q && y * y <= q && z * z <= q) by (nonlinear_arith)
            requires
                q == x * x + y * y + z * z,
        ;
        lemma_component_le_norm(x, q, ONE - 1);
        lemma_component_le_norm(y, q, ONE - 1);
        lemma_component_le_norm(z, q, ONE - 1);
        let l = lifted(a);
        assert(l.x == x * ONE && l.y == y * ONE && l.z == z * ONE);
        assert(dot_raw(l, l) == ONE * ONE * q) by (nonlinear_arith)
            requires
                l.x == x * ONE && l.y == y * ONE && l.z == z * ONE,
                q == x * x + y * y + z * z,
                dot_raw(l, l) == l.x * l.x + l.y * l.y + l.z * l.z,
        ;
        assert(ONE * ONE * q >= ONE * ONE) by (nonlinear_arith)
            requires
                q >= 1,
        ;
    }
}

/// A non-zero vector, normalized, has a length within four units of the last place of one.
pub proof fn lemma_normalized_length(a: Float3)
    requires
        in_range(a),
        dot_raw(a, a) > 0,
    ensures
        ONE - 4 <= int_sqrt(dot_raw(vnormalize(a), vnormalize(a))) <= ONE + 4,
{
    lemma_lifted(a);
    lemma_divided_length(lifted(a));
}

/// A positive multiple of an axis normalizes to that axis.
pub proof fn lemma_normalize_axis(r: int)
    requires
        0 < r < COMPONENT_LIMIT,
    ensures
        vnormalize(vec3(r, 0, 0)) == vec3(ONE as int, 0, 0),
        vnormalize(vec3(0, r, 0)) == vec3(0, ONE as int, 0),
        vnormalize(vec3(0, 0, r)) == vec3(0, 0, ONE as int),
{
    let m = if r * r < ONE * ONE {
        r * ONE
    } else {
        r
    };
    assert(r * r < ONE * ONE ==> r < ONE) by (nonlinear_arith)
        requires
            r > 0,
    ;
    assert(m * m > 0 && (m + 1) * (m + 1) > m * m) by (nonlinear_arith)
        requires
            m > 0,
    ;
    crate::fixed::lemma_sqrt_unique(m * m, m);
    assert(fdiv(m, m) == ONE) by {
        vstd::arithmetic::div_mod::lemma_div_multiples_vanish(ONE as int, m);
        assert(m * ONE == ONE * m) by (nonlinear_arith);
    }
    assert(fdiv(0, m) == 0);
    lemma_axis_dot(r);
    lemma_axis_dot(m);
    assert(lifted(vec3(r, 0, 0)) == vec3(m, 0, 0));
    assert(lifted(vec3(0, r, 0)) == vec3(0, m, 0));
    assert(lifted(vec3(0, 0, r)) == vec3(0, 0, m));
}

proof fn lemma_axis_dot(r: int)
    requires
        0 < r < COMPONENT_LIMIT,
    ensures
        dot_raw(vec3(r, 0, 0), vec3(r, 0, 0)) == r * r,
        dot_raw(vec3(0, r, 0), vec3(0, r, 0)) == r * r,
        dot_raw(vec3(0, 0, r), vec3(0, 0, r)) == r * r,
{
    let (a, b, c) = (vec3(r, 0, 0), vec3(0, r, 0), vec3(0, 0, r));
    assert(a.x == r && a.y == 0 && a.z == 0);
    assert(b.x == 0 && b.y == r && b.z == 0);
    assert(c.x == 0 && c.y == 0 && c.z == r);
    assert(dot_raw(a, a) == r * r) by (nonlinear_arith)
        requires
            a.x == r && a.y == 0 && a.z == 0,
            dot_raw(a, a) == a.x * a.x + a.y * a.y + a.z * a.z,
    ;
    assert(dot_raw(b, b) == r * r) by (nonlinear_arith)
        requires
            b.x == 0 && b.y == r && b.z == 0,
            dot_raw(b, b) == b.x * b.x + b.y * b.y + b.z * b.z,
    ;
    assert(dot_raw(c, c) == r * r) by (nonlinear_arith)
        requires
            c.x == 0 && c.y == 0 && c.z == r,
            dot_raw(c, c) == c.x * c.x + c.y * c.y + c.z * c.z,
    ;
}

} // verus!
