//! Camera rays, per-pixel sampling and image assembly.
use vstd::prelude::*;
use crate::color::{color8_of, Color8, SrgbCorrectable, ToColor8};
use crate::fixed::{int_sqrt, ONE};
use crate::float3::{vnormalize, bounded, dot_raw, in_range, vadd, vdiv, vec3, Color, Float3, Point3, Vec3};
use crate::ray::{ray_ok, Intersect, Ray, Scene, ORIGIN_LIMIT};
use crate::shade::{
    color_in, direct_color, light_ok, path_color, trace_direct, trace_path, Light, COLOR_LIMIT,
};

verus! {

/// The most samples a pixel may take.
pub const MAX_SAMPLES: usize = 32768;

/// One sample of a pixel: the jitter inside the pixel, each in `[0, 1)`, and the random
/// offsets for the bounces of its path, each inside the unit ball.
pub struct Sample {
    pub jx: i64,
    pub jy: i64,
    pub bounces: Vec<Vec3>,
}

/// Whether a point lies strictly inside the unit ball.
pub open spec fn inside_unit_ball(d: Vec3) -> bool {
    dot_raw(d, d) < ONE * ONE
}

pub open spec fn sample_ok(s: Sample) -> bool {
    0 <= s.jx < ONE && 0 <= s.jy < ONE && forall|i: int|
        0 <= i < s.bounces@.len() ==> bounded(#[trigger] s.bounces@[i], ONE as int)
}

/// The direction from the eye through the point `(u - 0.5, v - 0.5, -1)` of the image
/// plane, where `u` runs left to right and `v` bottom to top.
pub open spec fn pixel_direction(x: int, y: int, w: int, h: int, jx: int, jy: int) -> Vec3 {
    let u = (x * ONE + jx) / w;
    let v = ONE - (y * ONE + jy) / h;
    vec3(u - ONE / 2, v - ONE / 2, -ONE)
}

/// The camera ray through pixel `(x, y)` of a `w` by `h` image, offset by the jitter.
pub open spec fn pixel_ray(eye: Point3, x: int, y: int, w: int, h: int, jx: int, jy: int) -> Ray {
    let d = pixel_direction(x, y, w, h, jx, jy);
    Ray { origin: eye, direction: vnormalize(d) }
}

/// The path-traced color of one sample.
pub open spec fn sample_color<T: Intersect>(
    objects: Seq<T>,
    light: Light,
    eye: Point3,
    x: int,
    y: int,
    w: int,
    h: int,
    s: Sample,
) -> Color {
    path_color(objects, pixel_ray(eye, x, y, w, h, s.jx as int, s.jy as int), None, light, s.bounces@, 0)
}

/// The sum of the colors of the samples.
pub open spec fn samples_sum<T: Intersect>(
    objects: Seq<T>,
    light: Light,
    eye: Point3,
    x: int,
    y: int,
    w: int,
    h: int,
    ss: Seq<Sample>,
) -> Color
    decreases ss.len(),
{
    if ss.len() == 0 {
        vec3(0, 0, 0)
    } else {
        vadd(
            samples_sum(objects, light, eye, x, y, w, h, ss.drop_last()),
            sample_color(objects, light, eye, x, y, w, h, ss.last()),
        )
    }
}

/// The final 8-bit color of a pixel: the samples averaged, sRGB-encoded, then converted.
pub open spec fn pixel_color<T: Intersect>(
    objects: Seq<T>,
    light: Light,
    eye: Point3,
    x: int,
    y: int,
    w: int,
    h: int,
    ss: Seq<Sample>,
) -> Color8 {
    let sum = samples_sum(objects, light, eye, x, y, w, h, ss);
    let n = ss.len() as int;
    color8_of(vec3(sum.x as int / n, sum.y as int / n, sum.z as int / n).srgb_spec())
}

/// Whether a candidate offset lies strictly inside the unit ball.
pub fn in_unit_ball(d: &Vec3) -> (r: bool)
    requires
        in_range(*d),
    ensures
        r == inside_unit_ball(*d),
        r ==> bounded(*d, ONE as int),
{
    let q = crate::float3::dot_raw_exec(*d, *d);
    proof {
        if q < ONE * ONE {
            assert(bounded(*d, ONE as int)) by (nonlinear_arith)
                requires
                    d.x * d.x + d.y * d.y + d.z * d.z < 65536 * 65536,
            ;
        }
    }
    q < (ONE as i128) * (ONE as i128)
}

/// The camera ray through pixel `(x, y)`, as `pixel_ray` states.
pub fn camera_ray(eye: Point3, x: u32, y: u32, width: u32, height: u32, jx: i64, jy: i64) -> (r:
    Ray)
    requires
        x < width,
        y < height,
        0 <= jx < ONE,
        0 <= jy < ONE,
        bounded(eye, ORIGIN_LIMIT as int),
    ensures
        r == pixel_ray(eye, x as int, y as int, width as int, height as int, jx as int, jy as int),
        ray_ok(r),
        dot_raw(r.direction, r.direction) > 0,
{
    let px = (x as i64) * ONE + jx;
    let py = (y as i64) * ONE + jy;
    assert(px < (width as int) * ONE && py < (height as int) * ONE) by (nonlinear_arith)
        requires
            x < width,
            y < height,
            px == x * ONE + jx,
            py == y * ONE + jy,
            jx < ONE,
            jy < ONE,
    ;
    proof {
        vstd::arithmetic::div_mod::lemma_div_is_ordered(px as int, (width as int) * ONE, width as int);
        vstd::arithmetic::div_mod::lemma_div_is_ordered(py as int, (height as int) * ONE, height as int);
        vstd::arithmetic::div_mod::lemma_div_is_ordered(0, px as int, width as int);
        vstd::arithmetic::div_mod::lemma_div_is_ordered(0, py as int, height as int);
        vstd::arithmetic::div_mod::lemma_div_multiples_vanish(ONE as int, width as int);
        vstd::arithmetic::div_mod::lemma_div_multiples_vanish(ONE as int, height as int);
    }
    let u = px / (width as i64);
    let v = ONE - py / (height as i64);
    let d = Float3::new(u - ONE / 2, v - ONE / 2, -ONE);
    proof {
        assert(dot_raw(d, d) > 0) by (nonlinear_arith)
            requires
                d.z == -65536,
                dot_raw(d, d) == d.x * d.x + d.y * d.y + d.z * d.z,
        ;
    }
    Ray { origin: eye, direction: d.normalize() }
}

/// Renders with direct lighting only, one sample through the corner of each pixel: the
/// 8-bit colors row by row from the top left.
pub fn render_direct<T: Intersect>(scene: &Scene<T>, light: &Light, eye: Point3, width: u32, height: u32) -> (r: Vec<
    Color8,
>)
    requires
        scene.valid(),
        light_ok(*light),
        bounded(eye, ORIGIN_LIMIT as int),
        (width as int) * (height as int) <= usize::MAX,
    ensures
        r@.len() == (width as int) * (height as int),
        forall|y: int, x: int|
            0 <= y < height && 0 <= x < width ==> #[trigger] r@[y * width + x] == color8_of(
                direct_color(
                    scene.objects@,
                    pixel_ray(eye, x, y, width as int, height as int, 0, 0),
                    *light,
                ),
            ),
{
    let mut out: Vec<Color8> = Vec::new();
    let mut y: u32 = 0;
    while y < height
        invariant
            scene.valid(),
            light_ok(*light),
            bounded(eye, ORIGIN_LIMIT as int),
            (width as int) * (height as int) <= usize::MAX,
            y <= height,
            out@.len() == (y as int) * (width as int),
            forall|yy: int, xx: int|
                0 <= yy < y && 0 <= xx < width ==> #[trigger] out@[yy * width + xx] == color8_of(
                    direct_color(
                        scene.objects@,
                        pixel_ray(eye, xx, yy, width as int, height as int, 0, 0),
                        *light,
                    ),
                ),
        decreases height - y,
    {
        let mut x: u32 = 0;
        while x < width
            invariant
                scene.valid(),
                light_ok(*light),
                bounded(eye, ORIGIN_LIMIT as int),
                (width as int) * (height as int) <= usize::MAX,
                y < height,
                x <= width,
                out@.len() == (y as int) * (width as int) + x,
                forall|yy: int, xx: int|
                    (0 <= yy < y && 0 <= xx < width) || (yy == y && 0 <= xx < x)
                        ==> #[trigger] out@[yy * width + xx] == color8_of(
                        direct_color(
                            scene.objects@,
                            pixel_ray(eye, xx, yy, width as int, height as int, 0, 0),
                            *light,
                        ),
                    ),
            decreases width - x,
        {
            let ray = camera_ray(eye, x, y, width, height, 0, 0);
            let c = trace_direct(scene, &ray, light);
            proof {
                assert((y as int) * (width as int) + x < (width as int) * (height as int))
                    by (nonlinear_arith)
                    requires
                        x < width,
                        y < height,
                ;
            }
            out.push(c.to_color8());
            proof {
                assert forall|yy: int, xx: int|
                    (0 <= yy < y && 0 <= xx < width) || (yy == y && 0 <= xx < x + 1)
                        implies #[trigger] out@[yy * width + xx] == color8_of(
                        direct_color(
                            scene.objects@,
                            pixel_ray(eye, xx, yy, width as int, height as int, 0, 0),
                            *light,
                        ),
                    ) by {
                    if yy < y {
                        assert(yy * width + xx < (y as int) * (width as int)) by (nonlinear_arith)
                            requires
                                yy < y,
                                0 <= xx < width,
                        ;
                    } else if xx < x {
                    } else {
                        assert(yy * width + xx == (y as int) * (width as int) + x);
                    }
                }
            }
            x = x + 1;
        }
        proof {
            assert((y as int) * (width as int) + width == (y + 1) * (width as int))
                by (nonlinear_arith);
        }
        y = y + 1;
    }
    assert((height as int) * (width as int) == (width as int) * (height as int))
        by (nonlinear_arith);
    out
}

/// The color of pixel `(x, y)` from its samples, each path-traced: the average of their
/// colors, sRGB-encoded, converted to 8 bits.
pub fn render_pixel<T: Intersect>(
    scene: &Scene<T>,
    light: &Light,
    eye: Point3,
    x: u32,
    y: u32,
    width: u32,
    height: u32,
    samples: &Vec<Sample>,
) -> (r: Color8)
    requires
        scene.valid(),
        light_ok(*light),
        bounded(eye, ORIGIN_LIMIT as int),
        x < width,
        y < height,
        1 <= samples@.len() <= MAX_SAMPLES,
        forall|i: int| 0 <= i < samples@.len() ==> sample_ok(#[trigger] samples@[i]),
    ensures
        r == pixel_color(
            scene.objects@,
            *light,
            eye,
            x as int,
            y as int,
            width as int,
            height as int,
            samples@,
        ),
{
    let mut sum = Float3::zero();
    let mut k: usize = 0;
    while k < samples.len()
        invariant
            scene.valid(),
            light_ok(*light),
            bounded(eye, ORIGIN_LIMIT as int),
            x < width,
            y < height,
            samples@.len() <= MAX_SAMPLES,
            forall|i: int| 0 <= i < samples@.len() ==> sample_ok(#[trigger] samples@[i]),
            k <= samples@.len(),
            sum == samples_sum(
                scene.objects@,
                *light,
                eye,
                x as int,
                y as int,
                width as int,
                height as int,
                samples@.subrange(0, k as int),
            ),
            color_in(sum, k * COLOR_LIMIT),
        decreases samples@.len() - k,
    {
        let s = &samples[k];
        assert(sample_ok(samples@[k as int]));
        let ray = camera_ray(eye, x, y, width, height, s.jx, s.jy);
        let c = trace_path(scene, &ray, None, light, &s.bounces, 0);
        proof {
            let next = samples@.subrange(0, k + 1);
            assert(next.drop_last() == samples@.subrange(0, k as int));
            assert(next.last() == samples@[k as int]);
            assert(k * COLOR_LIMIT + COLOR_LIMIT == (k + 1) * COLOR_LIMIT) by (nonlinear_arith);
            assert((k + 1) * COLOR_LIMIT <= 32768 * COLOR_LIMIT) by (nonlinear_arith)
                requires
                    k < 32768,
            ;
        }
        sum = sum.add(c);
        k = k + 1;
    }
    assert(samples@.subrange(0, k as int) == samples@);
    let n = samples.len() as i64;
    let avg = Float3::new(sum.x / n, sum.y / n, sum.z / n);
    proof {
        vstd::arithmetic::div_mod::lemma_div_is_ordered(0, sum.x as int, n as int);
        vstd::arithmetic::div_mod::lemma_div_is_ordered(0, sum.y as int, n as int);
        vstd::arithmetic::div_mod::lemma_div_is_ordered(0, sum.z as int, n as int);
        let bound = n * COLOR_LIMIT;
        vstd::arithmetic::div_mod::lemma_div_is_ordered(sum.x as int, bound, n as int);
        vstd::arithmetic::div_mod::lemma_div_is_ordered(sum.y as int, bound, n as int);
        vstd::arithmetic::div_mod::lemma_div_is_ordered(sum.z as int, bound, n as int);
        vstd::arithmetic::div_mod::lemma_div_multiples_vanish(COLOR_LIMIT as int, n as int);
        assert(bound == (COLOR_LIMIT as int) * n) by (nonlinear_arith)
            requires
                bound == n * COLOR_LIMIT,
        ;
    }
    avg.srgb().to_color8()
}

} // verus!
