//! Colors: conversion to and from 8-bit channels, and sRGB encoding.
use vstd::prelude::*;
use crate::fixed::{
    div_floor, icbrt, int_cbrt, int_sqrt, isqrt, lemma_cbrt_monotone,
    lemma_cbrt_unique, lemma_sqrt_exists, lemma_sqrt_monotone, lemma_sqrt_unique, ONE,
};
use crate::float3::{clamp01, fits, saturate_channel, vec3, Color, Float3};

verus! {

/// A color of three 8-bit channels.
#[derive(Clone, Copy, Debug, PartialEq, Eq, Structural)]
pub struct Color8 {
    pub r: u8,
    pub g: u8,
    pub b: u8,
}

/// Linear values up to this (about 0.0031308) are encoded by the linear segment.
pub const SRGB_THRESHOLD: i64 = 205;

/// The offset of the power segment (about 0.055).
pub const SRGB_OFFSET: i64 = 3604;

/// The largest linear value the encoding takes (2^32).
pub const SRGB_LIMIT: i64 = 0x1_0000_0000_0000;

/// The 8-bit value of a channel: clamped to `[0, 1]`, times 255, rounded down.
pub open spec fn to_byte(c: int) -> int {
    clamp01(c) * 255 / (ONE as int)
}

/// The smallest channel value whose 8-bit value is `b`, that is `b / 255` rounded up.
pub open spec fn byte_channel(b: int) -> int {
    (b * ONE + 254) / 255
}

pub open spec fn color8_of(c: Color) -> Color8 {
    Color8 { r: to_byte(c.x as int) as u8, g: to_byte(c.y as int) as u8, b: to_byte(c.z as int) as u8 }
}

/// The linear segment of the sRGB encoding: `12.92 * v`.
pub open spec fn encode_linear(v: int) -> int {
    (v * 1292) / 100
}

/// The fourth root of `w` at the fixed-point scale, as two rounded-down square roots.
pub open spec fn fourth_root(w: int) -> int {
    int_sqrt(int_sqrt(w * ONE * ONE * ONE))
}

/// The power segment of the sRGB encoding: `1.055 * w^(1/2.4) - 0.055`, where `w^(1/2.4)` is
/// taken as the cube root of the fifth power of the fourth root.
pub open spec fn encode_power(w: int) -> int {
    let a = fourth_root(w);
    let y = int_cbrt((a * a * a * a * a) / (ONE * ONE));
    (1055 * y) / 1000 - SRGB_OFFSET
}

/// The sRGB encoding of one linear channel.
pub open spec fn srgb_channel_spec(v: int) -> int {
    if v <= SRGB_THRESHOLD {
        encode_linear(v)
    } else {
        encode_power(v)
    }
}

/// Whether the encoding of `v` can be computed: at most `SRGB_LIMIT`, and on the linear
/// segment a result that fits.
pub open spec fn srgb_ok(v: int) -> bool {
    v <= SRGB_LIMIT && (v <= SRGB_THRESHOLD ==> fits(encode_linear(v)))
}

/// The 8-bit value of one channel.
pub fn channel_to_byte(c: i64) -> (r: u8)
    ensures
        r == to_byte(c as int),
{
    let s = saturate_channel(c);
    assert(0 <= s * 255 / (ONE as int) <= 255) by (nonlinear_arith)
        requires
            0 <= s <= ONE,
    ;
    (s * 255 / ONE) as u8
}

/// The channel value of an 8-bit value, as `byte_channel` states.
pub fn byte_to_channel(b: u8) -> (r: i64)
    ensures
        r == byte_channel(b as int),
{
    ((b as i64) * ONE + 254) / 255
}

/// The sRGB encoding of one channel, as `srgb_channel_spec` states.
pub fn srgb_channel(v: i64) -> (r: i64)
    requires
        srgb_ok(v as int),
    ensures
        r == srgb_channel_spec(v as int),
{
    if v <= SRGB_THRESHOLD {
        assert(i64::MIN * 1292 <= (v as int) * 1292 <= 205 * 1292) by (nonlinear_arith)
            requires
                i64::MIN <= v <= 205,
        ;
        let p = (v as i128) * 1292;
        div_floor(p, 100) as i64
    } else {
        let w = v;
        let one = ONE as u128;
        assert(w * 0x1_0000_0000_0000 <= 0x1_0000_0000_0000 * 0x1_0000_0000_0000)
            by (nonlinear_arith)
            requires
                0 <= w <= 0x1_0000_0000_0000,
        ;
        let n = (w as u128) * (one * one * one);
        let s1 = isqrt(n);
        assert(s1 <= 0x1_0000_0000_0000) by (nonlinear_arith)
            requires
                s1 * s1 <= n,
                n <= 0x1_0000_0000_0000 * 0x1_0000_0000_0000,
        ;
        let a = isqrt(s1);
        assert(a <= 0x100_0000) by (nonlinear_arith)
            requires
                a * a <= s1,
                s1 <= 0x1_0000_0000_0000,
        ;
        assert(a * a <= 0x1_0000_0000_0000) by (nonlinear_arith)
            requires
                0 <= a <= 0x100_0000,
        ;
        assert(a * a * a <= 0x1_0000_0000_0000 * 0x100_0000) by (nonlinear_arith)
            requires
                0 <= a <= 0x100_0000,
                a * a <= 0x1_0000_0000_0000,
        ;
        assert(a * a * a * a <= 0x1_0000_0000_0000 * 0x1_0000_0000_0000) by (nonlinear_arith)
            requires
                0 <= a <= 0x100_0000,
                a * a * a <= 0x1_0000_0000_0000 * 0x100_0000,
        ;
        assert(a * a * a * a * a <= 0x1_0000_0000_0000 * 0x1_0000_0000_0000 * 0x100_0000)
            by (nonlinear_arith)
            requires
                0 <= a <= 0x100_0000,
                a * a * a * a <= 0x1_0000_0000_0000 * 0x1_0000_0000_0000,
        ;
        let q = (a * a * a * a * a) / (one * one);
        proof {
            vstd::arithmetic::div_mod::lemma_div_is_ordered(
                (a * a * a * a * a) as int,
                (0x1_0000_0000_0000 * 0x1_0000_0000_0000 * 0x100_0000) as int,
                (ONE * ONE) as int,
            );
            vstd::arithmetic::div_mod::lemma_div_multiples_vanish(
                (0x100_0000 * 0x1_0000_0000_0000 * 0x100_0000) as int,
                (ONE * ONE) as int,
            );
        }
        assert(q <= 0x100_0000_0000_0000_0000_0000);
        let y = icbrt(q);
        proof {
            if y > 0x4000_0000 {
                assert(y * y * y > 0x4000_0000 * 0x4000_0000 * 0x4000_0000) by (nonlinear_arith)
                    requires
                        y > 0x4000_0000,
                ;
            }
        }
        proof {
            lemma_sqrt_unique(n as int, s1 as int);
            lemma_sqrt_unique(s1 as int, a as int);
            lemma_cbrt_unique(q as int, y as int);
        }
        (1055 * y / 1000) as i64 - SRGB_OFFSET
    }
}

/// Conversion of a color to 8-bit channels.
pub trait ToColor8 {
    spec fn color8(&self) -> Color8;

    fn to_color8(&self) -> (r: Color8)
        ensures
            r == self.color8(),
    ;
}

impl ToColor8 for Color {
    open spec fn color8(&self) -> Color8 {
        color8_of(*self)
    }

    fn to_color8(&self) -> (r: Color8) {
        Color8 { r: channel_to_byte(self.x), g: channel_to_byte(self.y), b: channel_to_byte(self.z) }
    }
}

/// The sRGB encoding of a linear color.
pub trait SrgbCorrectable {
    spec fn srgb_defined(&self) -> bool;

    spec fn srgb_spec(&self) -> Color;

    fn srgb(&self) -> (r: Color)
        requires
            self.srgb_defined(),
        ensures
            r == self.srgb_spec(),
    ;
}

impl SrgbCorrectable for Color {
    open spec fn srgb_defined(&self) -> bool {
        srgb_ok(self.x as int) && srgb_ok(self.y as int) && srgb_ok(self.z as int)
    }

    open spec fn srgb_spec(&self) -> Color {
        vec3(
            srgb_channel_spec(self.x as int),
            srgb_channel_spec(self.y as int),
            srgb_channel_spec(self.z as int),
        )
    }

    fn srgb(&self) -> (r: Color) {
        Float3::new(srgb_channel(self.x), srgb_channel(self.y), srgb_channel(self.z))
    }
}

impl Color8 {
    /// The color whose channels are the smallest values that convert back to these bytes.
    pub fn to_color(&self) -> (r: Color)
        ensures
            r.x == byte_channel(self.r as int),
            r.y == byte_channel(self.g as int),
            r.z == byte_channel(self.b as int),
    {
        Float3::new(byte_to_channel(self.r), byte_to_channel(self.g), byte_to_channel(self.b))
    }
}

/// A byte converted to a channel value and back is the same byte.
pub proof fn lemma_byte_round_trip(b: int)
    requires
        0 <= b <= 255,
    ensures
        to_byte(byte_channel(b)) == b,
{
    let c = byte_channel(b);
    vstd::arithmetic::div_mod::lemma_fundamental_div_mod(b * ONE + 254, 255);
    let r = (b * ONE + 254) % 255;
    assert(0 <= r < 255);
    assert(b * ONE <= 255 * c < b * ONE + ONE);
    assert(0 <= c <= ONE);
    vstd::arithmetic::div_mod::lemma_fundamental_div_mod_converse(
        c * 255,
        ONE as int,
        b,
        c * 255 - b * ONE,
    );
}

proof fn lemma_encode_linear_monotone(v1: int, v2: int)
    requires
        v1 <= v2,
    ensures
        encode_linear(v1) <= encode_linear(v2),
{
    vstd::arithmetic::div_mod::lemma_div_is_ordered(v1 * 1292, v2 * 1292, 100);
}

proof fn lemma_fourth_root_monotone(w1: int, w2: int)
    requires
        0 <= w1 <= w2,
    ensures
        0 <= fourth_root(w1) <= fourth_root(w2),
{
    let (n1, n2) = (w1 * ONE * ONE * ONE, w2 * ONE * ONE * ONE);
    lemma_sqrt_monotone(n1, n2);
    lemma_sqrt_exists(n1);
    lemma_sqrt_monotone(int_sqrt(n1), int_sqrt(n2));
    lemma_sqrt_exists(int_sqrt(n1));
}

proof fn lemma_encode_power_monotone(w1: int, w2: int)
    requires
        0 <= w1 <= w2,
    ensures
        encode_power(w1) <= encode_power(w2),
{
    lemma_fourth_root_monotone(w1, w2);
    let (a1, a2) = (fourth_root(w1), fourth_root(w2));
    assert(0 <= a1 * a1 * a1 * a1 * a1 <= a2 * a2 * a2 * a2 * a2) by (nonlinear_arith)
        requires
            0 <= a1 <= a2,
    ;
    let (q1, q2) = ((a1 * a1 * a1 * a1 * a1) / (ONE * ONE), (a2 * a2 * a2 * a2 * a2) / (ONE * ONE));
    vstd::arithmetic::div_mod::lemma_div_is_ordered(
        a1 * a1 * a1 * a1 * a1,
        a2 * a2 * a2 * a2 * a2,
        ONE * ONE,
    );
    vstd::arithmetic::div_mod::lemma_div_is_ordered(0, a1 * a1 * a1 * a1 * a1, ONE * ONE);
    lemma_cbrt_monotone(q1, q2);
    let (y1, y2) = (int_cbrt(q1), int_cbrt(q2));
    vstd::arithmetic::div_mod::lemma_div_is_ordered(1055 * y1, 1055 * y2, 1000);
}

/// The power segment just past the threshold.
proof fn lemma_encode_power_past_threshold()
    ensures
        encode_power(SRGB_THRESHOLD + 1) == 2660,
{
    let n = 206 * ONE * ONE * ONE;
    lemma_sqrt_unique(n, 240798349);
    lemma_sqrt_unique(240798349, 15517);
    assert(15517 * 15517 * 15517 * 15517 * 15517 == 899577947871206797357);
    vstd::arithmetic::div_mod::lemma_fundamental_div_mod_converse(
        899577947871206797357,
        ONE * ONE,
        209449312619,
        2921689133,
    );
    lemma_cbrt_unique(209449312619, 5938);
}

/// The sRGB encoding of zero is zero, and that of one is one.
pub proof fn lemma_srgb_endpoints()
    ensures
        srgb_channel_spec(0) == 0,
        srgb_channel_spec(ONE as int) == ONE,
{
    lemma_sqrt_unique(ONE * ONE * ONE * ONE, ONE * ONE);
    lemma_sqrt_unique(ONE * ONE, ONE as int);
    assert(ONE * ONE * ONE * ONE * ONE / (ONE * ONE) == ONE * ONE * ONE);
    lemma_cbrt_unique(ONE * ONE * ONE, ONE as int);
}

/// The sRGB encoding never decreases as the linear value grows.
pub proof fn lemma_srgb_monotone(v1: int, v2: int)
    requires
        v1 <= v2,
    ensures
        srgb_channel_spec(v1) <= srgb_channel_spec(v2),
{
    if v2 <= SRGB_THRESHOLD {
        lemma_encode_linear_monotone(v1, v2);
    } else if v1 <= SRGB_THRESHOLD {
        lemma_encode_linear_monotone(v1, SRGB_THRESHOLD as int);
        assert(encode_linear(SRGB_THRESHOLD as int) == 2648);
        lemma_encode_power_past_threshold();
        lemma_encode_power_monotone(SRGB_THRESHOLD + 1, v2);
    } else {
        lemma_encode_power_monotone(v1, v2);
    }
}

} // verus!
