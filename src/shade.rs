//! Turning a ray into a color: direct lighting, and path tracing with diffuse bounces.
use vstd::prelude::*;
use crate::fixed::{fmul, int_sqrt, ONE};
use crate::float3::{
    vnormalize,
    bounded, clamp01, dot_raw, in_range, COMPONENT_LIMIT, is_near_zero, vadd, vdiv, vdot, vec3, vmul_elem, vscale, vsub,
    Color, Float3, Vec3,
};
use crate::ray::{
    closest_hit, hit_ok, lemma_div_one_bounded, lemma_mul_bounded, ray_ok, unit_color,
    Intersect, Intersection, Ray, Scene, WORLD_LIMIT,
};

verus! {

/// Share of the incoming light that a surface passes on (0.5).
pub const REFLECTION: i64 = 32768;

/// One half, for averaging the direct and the bounced light.
pub const HALF: i64 = 32768;

/// How far a shadow ray starts above the surface, along the normal (about 0.001).
pub const SHADOW_OFFSET: i64 = 66;

/// The sky color straight up: (0.5, 0.7, 1.0).
pub const SKY_R: i64 = 32768;

pub const SKY_G: i64 = 45875;

pub const SKY_B: i64 = 65536;

/// Bound on the components of a vector toward a light or a lighting hit point.
pub const REACH_LIMIT: i64 = 0x2000_0000_0000;

/// Bound on the channels of a lit color.
pub const LIT_LIMIT: i64 = 0x6000_0000_0000;

/// Bound on the channels of a traced color.
pub const COLOR_LIMIT: i64 = 0x8000_0000_0000;

/// A white directional light, given by a non-zero direction toward it, which the tracers
/// normalize.
#[derive(Clone, Copy, Debug, PartialEq, Eq, Structural)]
pub struct Light {
    pub direction: Vec3,
}

pub open spec fn light_ok(l: Light) -> bool {
    in_range(l.direction) && dot_raw(l.direction, l.direction) > 0
}

/// The unit direction toward the light.
pub open spec fn light_dir(l: Light) -> Vec3 {
    vnormalize(l.direction)
}

impl Light {
    /// Whether the direction is non-zero and its components are in range.
    pub fn is_valid(&self) -> (r: bool)
        ensures
            r == light_ok(*self),
    {
        let d = self.direction;
        if -COMPONENT_LIMIT < d.x && d.x < COMPONENT_LIMIT && -COMPONENT_LIMIT < d.y && d.y
            < COMPONENT_LIMIT && -COMPONENT_LIMIT < d.z && d.z < COMPONENT_LIMIT {
            crate::float3::dot_raw_exec(d, d) > 0
        } else {
            false
        }
    }
}

/// Whether every channel lies in `[0, k]`.
pub open spec fn color_in(c: Color, k: int) -> bool {
    0 <= c.x <= k && 0 <= c.y <= k && 0 <= c.z <= k
}

pub open spec fn max0(v: int) -> int {
    if v < 0 {
        0
    } else {
        v
    }
}

pub open spec fn black() -> Color {
    vec3(0, 0, 0)
}

/// The background: white blended toward sky blue as the direction turns upward.
pub open spec fn sky_color(d: Vec3) -> Color {
    let n = vnormalize(d);
    let t = (n.y + ONE) / 2;
    vec3(ONE + fmul(SKY_R - ONE, t), ONE + fmul(SKY_G - ONE, t), ONE + fmul(SKY_B - ONE, t))
}

/// Lambertian lighting by the directional light: the color `filter` times the cosine between
/// the unit direction toward the light and the normal, kept in `[0, 1]`.
pub open spec fn lit(filter: Color, to_light: Vec3, normal: Vec3) -> Color {
    vscale(filter, clamp01(vdot(to_light, normal)))
}

/// Lighting by a previous hit taken as a light source: the color `filter` times the dot
/// product of the vector toward that hit with the normal, never below zero.
pub open spec fn lit_from(filter: Color, to_light: Vec3, normal: Vec3) -> Color {
    vscale(filter, max0(vdot(to_light, normal)))
}

/// Direct lighting alone: the albedo of the nearest hit times the cosine between its normal
/// and the unit direction toward the light; black where nothing is hit.
pub open spec fn direct_color<T: Intersect>(objects: Seq<T>, ray: Ray, light: Light) -> Color {
    match closest_hit(objects, ray) {
        Some(h) => lit(h.material.color, light_dir(light), h.normal),
        None => black(),
    }
}

/// The bounce direction before normalization: the normal plus a random offset, or the
/// normal alone where the sum nearly vanishes.
pub open spec fn scatter_direction(normal: Vec3, offset: Vec3) -> Vec3 {
    let s = vadd(normal, offset);
    if is_near_zero(s) {
        normal
    } else {
        s
    }
}

/// Combines the direct term with the bounced light.
pub open spec fn mix(direct: Color, indirect: Color) -> Color {
    vscale(vscale(vadd(vscale(direct, REFLECTION as int), indirect), HALF as int), REFLECTION as int)
}

/// Path tracing. `prev` is the hit the ray left from, if any; `bounces[k..]` are the random
/// offsets left for further bounces, one per bounce, so that a hit with none left is not
/// followed further. A path is followed only from hits inside the world.
pub open spec fn path_color<T: Intersect>(
    objects: Seq<T>,
    ray: Ray,
    prev: Option<Intersection>,
    light: Light,
    bounces: Seq<Vec3>,
    k: int,
) -> Color
    decreases bounces.len() - k,
{
    match closest_hit(objects, ray) {
        Some(si) => {
            let direct = match prev {
                Some(pi) => lit_from(
                    vmul_elem(pi.material.color, si.material.color),
                    vsub(pi.position, si.position),
                    si.normal,
                ),
                None => lit(si.material.color, light_dir(light), si.normal),
            };
            let indirect = if 0 <= k < bounces.len() && bounded(si.position, WORLD_LIMIT as int) {
                let s = scatter_direction(si.normal, bounces[k]);
                if dot_raw(s, s) == 0 {
                    black()
                } else {
                    path_color(
                        objects,
                        Ray { origin: si.position, direction: vnormalize(s) },
                        Some(si),
                        light,
                        bounces,
                        k + 1,
                    )
                }
            } else {
                black()
            };
            mix(direct, indirect)
        },
        None => match prev {
            Some(pi) => {
                let shadow = Ray {
                    origin: vadd(pi.position, vscale(pi.normal, SHADOW_OFFSET as int)),
                    direction: light_dir(light),
                };
                if closest_hit(objects, shadow) is Some {
                    black()
                } else {
                    lit(pi.material.color, light_dir(light), pi.normal)
                }
            },
            None => sky_color(ray.direction),
        },
    }
}

proof fn lemma_fmul_range(a: int, b: int, ka: int, kb: int)
    requires
        0 <= a <= ka,
        0 <= b <= kb,
    ensures
        0 <= fmul(a, b) <= (ka * kb) / (ONE as int),
{
    assert(0 <= a * b <= ka * kb) by (nonlinear_arith)
        requires
            0 <= a <= ka,
            0 <= b <= kb,
    ;
    vstd::arithmetic::div_mod::lemma_div_is_ordered(a * b, ka * kb, ONE as int);
    vstd::arithmetic::div_mod::lemma_div_is_ordered(0, a * b, ONE as int);
}

/// The background color for a non-zero direction.
pub fn background(direction: Vec3) -> (r: Color)
    requires
        in_range(direction),
        dot_raw(direction, direction) > 0,
    ensures
        r == sky_color(direction),
        color_in(r, 2 * ONE),
{
    let n = direction.normalize();
    let t = (n.y + ONE) / 2;
    proof {
        lemma_mul_bounded((SKY_R - ONE) as int, t as int, ONE as int, ONE as int);
        lemma_mul_bounded((SKY_G - ONE) as int, t as int, ONE as int, ONE as int);
        lemma_mul_bounded((SKY_B - ONE) as int, t as int, ONE as int, ONE as int);
        lemma_div_one_bounded((SKY_R - ONE) * t, ONE as int);
        lemma_div_one_bounded((SKY_G - ONE) * t, ONE as int);
        lemma_div_one_bounded((SKY_B - ONE) * t, ONE as int);
    }
    Float3::new(
        ONE + crate::float3::mul_fixed(SKY_R - ONE, t),
        ONE + crate::float3::mul_fixed(SKY_G - ONE, t),
        ONE + crate::float3::mul_fixed(SKY_B - ONE, t),
    )
}

/// Lambertian lighting of a surface point by the directional light, as `lit` states; it
/// never exceeds the filter color.
pub fn lambert(filter: Color, to_light: Vec3, normal: Vec3) -> (r: Color)
    requires
        unit_color(filter),
        bounded(to_light, ONE as int),
        bounded(normal, ONE as int),
    ensures
        r == lit(filter, to_light, normal),
        0 <= r.x <= filter.x && 0 <= r.y <= filter.y && 0 <= r.z <= filter.z,
{
    proof {
        crate::ray::lemma_dot_bounded(to_light, normal, ONE as int, ONE as int);
        lemma_div_one_bounded(dot_raw(to_light, normal), 3 * ONE);
    }
    let d = to_light.dot(normal);
    let cos = crate::float3::saturate_channel(d);
    proof {
        lemma_fmul_range(filter.x as int, cos as int, filter.x as int, ONE as int);
        lemma_fmul_range(filter.y as int, cos as int, filter.y as int, ONE as int);
        lemma_fmul_range(filter.z as int, cos as int, filter.z as int, ONE as int);
        vstd::arithmetic::div_mod::lemma_div_multiples_vanish(filter.x as int, ONE as int);
        vstd::arithmetic::div_mod::lemma_div_multiples_vanish(filter.y as int, ONE as int);
        vstd::arithmetic::div_mod::lemma_div_multiples_vanish(filter.z as int, ONE as int);
        assert(filter.x * ONE == ONE * filter.x && filter.y * ONE == ONE * filter.y && filter.z
            * ONE == ONE * filter.z) by (nonlinear_arith);
    }
    filter.mul(cos)
}

/// Lighting of a surface point by a previous hit, as `lit_from` states.
pub fn lambert_from(filter: Color, to_light: Vec3, normal: Vec3) -> (r: Color)
    requires
        unit_color(filter),
        bounded(to_light, REACH_LIMIT as int),
        bounded(normal, ONE as int),
    ensures
        r == lit_from(filter, to_light, normal),
        color_in(r, LIT_LIMIT as int),
{
    proof {
        crate::ray::lemma_dot_bounded(to_light, normal, REACH_LIMIT as int, ONE as int);
        lemma_div_one_bounded(dot_raw(to_light, normal), LIT_LIMIT as int);
    }
    let d = to_light.dot(normal);
    let cos = if d < 0 {
        0
    } else {
        d
    };
    proof {
        lemma_fmul_range(filter.x as int, cos as int, ONE as int, LIT_LIMIT as int);
        lemma_fmul_range(filter.y as int, cos as int, ONE as int, LIT_LIMIT as int);
        lemma_fmul_range(filter.z as int, cos as int, ONE as int, LIT_LIMIT as int);
    }
    filter.mul(cos)
}

/// The product of two reflectances, itself a reflectance.
fn filter_colors(a: Color, b: Color) -> (r: Color)
    requires
        unit_color(a),
        unit_color(b),
    ensures
        r == vmul_elem(a, b),
        unit_color(r),
{
    proof {
        lemma_fmul_range(a.x as int, b.x as int, ONE as int, ONE as int);
        lemma_fmul_range(a.y as int, b.y as int, ONE as int, ONE as int);
        lemma_fmul_range(a.z as int, b.z as int, ONE as int, ONE as int);
    }
    a.mul_elem(b)
}

/// The unit direction toward the light, as `light_dir` states.
fn light_direction(light: &Light) -> (r: Vec3)
    requires
        light_ok(*light),
    ensures
        r == light_dir(*light),
        bounded(r, ONE as int),
        dot_raw(r, r) > 0,
{
    light.direction.normalize()
}

/// Direct lighting only: traces the ray once, with no bounce.
pub fn trace_direct<T: Intersect>(scene: &Scene<T>, ray: &Ray, light: &Light) -> (r: Color)
    requires
        scene.valid(),
        ray_ok(*ray),
        light_ok(*light),
    ensures
        r == direct_color(scene.objects@, *ray, *light),
        closest_hit(scene.objects@, *ray) matches Some(h) ==> 0 <= r.x <= h.material.color.x && 0
            <= r.y <= h.material.color.y && 0 <= r.z <= h.material.color.z,
        color_in(r, ONE as int),
{
    match scene.intersect(ray) {
        Some(h) => lambert(h.material.color, light_direction(light), h.normal),
        None => Float3::zero(),
    }
}

/// Combines the direct term with the bounced light, as `mix` states.
fn mix_exec(direct: Color, indirect: Color) -> (r: Color)
    requires
        color_in(direct, LIT_LIMIT as int),
        color_in(indirect, COLOR_LIMIT as int),
    ensures
        r == mix(direct, indirect),
        color_in(r, COLOR_LIMIT as int),
{
    proof {
        lemma_fmul_range(direct.x as int, REFLECTION as int, LIT_LIMIT as int, REFLECTION as int);
        lemma_fmul_range(direct.y as int, REFLECTION as int, LIT_LIMIT as int, REFLECTION as int);
        lemma_fmul_range(direct.z as int, REFLECTION as int, LIT_LIMIT as int, REFLECTION as int);
    }
    let a = direct.mul(REFLECTION).add(indirect);
    let ghost k: int = LIT_LIMIT / 2 + COLOR_LIMIT;
    proof {
        lemma_fmul_range(a.x as int, HALF as int, k, HALF as int);
        lemma_fmul_range(a.y as int, HALF as int, k, HALF as int);
        lemma_fmul_range(a.z as int, HALF as int, k, HALF as int);
    }
    let b = a.mul(HALF);
    proof {
        lemma_fmul_range(b.x as int, REFLECTION as int, k / 2, REFLECTION as int);
        lemma_fmul_range(b.y as int, REFLECTION as int, k / 2, REFLECTION as int);
        lemma_fmul_range(b.z as int, REFLECTION as int, k / 2, REFLECTION as int);
    }
    b.mul(REFLECTION)
}

/// Path tracing, as `path_color` states: each hit is lit directly (by the light, or by the
/// hit the ray left from), and followed by one bounce while random offsets are left.
pub fn trace_path<T: Intersect>(
    scene: &Scene<T>,
    ray: &Ray,
    prev: Option<Intersection>,
    light: &Light,
    bounces: &Vec<Vec3>,
    k: usize,
) -> (r: Color)
    requires
        scene.valid(),
        ray_ok(*ray),
        dot_raw(ray.direction, ray.direction) > 0,
        light_ok(*light),
        prev matches Some(p) ==> hit_ok(p) && bounded(p.position, WORLD_LIMIT as int),
        forall|i: int| 0 <= i < bounces@.len() ==> bounded(#[trigger] bounces@[i], ONE as int),
        k <= bounces@.len(),
    ensures
        r == path_color(scene.objects@, *ray, prev, *light, bounces@, k as int),
        color_in(r, COLOR_LIMIT as int),
    decreases bounces@.len() - k,
{
    let l = light_direction(light);
    match scene.intersect(ray) {
        Some(si) => {
            let direct = match prev {
                Some(pi) => lambert_from(
                    filter_colors(pi.material.color, si.material.color),
                    pi.position.sub(si.position),
                    si.normal,
                ),
                None => lambert(si.material.color, l, si.normal),
            };
            let mut indirect = Float3::zero();
            if k < bounces.len() && crate::ray::within_world(&si.position) {
                let mut s = si.normal.add(bounces[k]);
                if s.near_zero() {
                    s = si.normal;
                }
                let q = crate::float3::dot_raw_exec(s, s);
                proof {
                    crate::float3::lemma_dot_self_nonneg(s);
                }
                if q != 0 {
                    let bounce = Ray { origin: si.position, direction: s.normalize() };
                    indirect = trace_path(scene, &bounce, Some(si), light, bounces, k + 1);
                }
            }
            mix_exec(direct, indirect)
        },
        None => match prev {
            Some(pi) => {
                let shadow = Ray {
                    origin: pi.position.add(pi.normal.mul(SHADOW_OFFSET)),
                    direction: l,
                };
                match scene.intersect(&shadow) {
                    Some(_) => Float3::zero(),
                    None => lambert(pi.material.color, l, pi.normal),
                }
            },
            None => background(ray.direction),
        },
    }
}

/// With no bounce left, path tracing a ray that hits a sphere gives the direct-lighting color,
/// scaled by the reflection coefficient, halved, and scaled by the coefficient again.
pub proof fn lemma_last_bounce_is_direct<T: Intersect>(
    objects: Seq<T>,
    ray: Ray,
    light: Light,
    bounces: Seq<Vec3>,
)
    requires
        closest_hit(objects, ray) is Some,
    ensures
        path_color(objects, ray, None, light, bounces, bounces.len() as int) == vscale(
            vscale(vscale(direct_color(objects, ray, light), REFLECTION as int), HALF as int),
            REFLECTION as int,
        ),
{
    let d = direct_color(objects, ray, light);
    let a = vscale(d, REFLECTION as int);
    assert(vadd(a, black()) == a);
}

} // verus!
