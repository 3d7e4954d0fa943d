//! Rays, materials, spheres and the closest-hit search over a scene.
use vstd::prelude::*;
use crate::fixed::{fdiv, fmul, int_sqrt, isqrt, lemma_sqrt_unique, EPS, ONE};
use crate::float3::{
    vnormalize,
    bounded, dot_raw, in_range, vadd, vdiv, vdot, vec3, vscale, vsub, Color, Float3, Vec3, Point3,
};

verus! {

/// The extent of the world, 2^20 units in each coordinate: sphere centers and radii, and the
/// points from which paths bounce, lie within it.
pub const WORLD_LIMIT: i64 = 0x10_0000_0000;

/// Bound on the coordinates of a hit point, for a ray and a sphere within their bounds.
pub const HIT_LIMIT: i64 = 0x1020_0000_0000;

/// Bound on the coordinates of a ray's origin (twice the world's extent).
pub const ORIGIN_LIMIT: i64 = 0x20_0000_0000;

/// Bound on the components of a ray's direction (which is meant to be of unit length): 2.
pub const DIRECTION_LIMIT: i64 = 0x2_0000;

/// The half-line `origin + t * direction`, `t >= 0`.
#[derive(Clone, Copy, Debug, PartialEq, Eq, Structural)]
pub struct Ray {
    pub origin: Point3,
    pub direction: Vec3,
}

/// The surface of a primitive: its reflectance (albedo), and an emission kept for emissive
/// surfaces, which the shading does not read.
#[derive(Clone, Copy, Debug, PartialEq, Eq, Structural)]
pub struct Material {
    pub color: Color,
    pub emission: Vec3,
}

/// Where a ray meets a surface: the point, the outward normal, the ray parameter, and the
/// surface's material.
#[derive(Clone, Copy, Debug, PartialEq, Eq, Structural)]
pub struct Intersection {
    pub position: Point3,
    pub normal: Vec3,
    pub distance: i64,
    pub material: Material,
}

/// What every primitive has, whatever its geometry.
#[derive(Clone, Copy, Debug, PartialEq, Eq, Structural)]
pub struct Shape {
    pub material: Material,
}

/// A sphere given by its center and radius.
#[derive(Clone, Copy, Debug, PartialEq, Eq, Structural)]
pub struct Sphere {
    pub shape: Shape,
    pub position: Point3,
    pub radius: i64,
}

/// Whether a ray's origin and direction lie within the bounds the intersection math handles.
pub open spec fn ray_ok(ray: Ray) -> bool {
    bounded(ray.origin, ORIGIN_LIMIT as int) && bounded(ray.direction, DIRECTION_LIMIT as int)
}

/// Whether every channel of a color lies in `[0, 1]`.
pub open spec fn unit_color(c: Color) -> bool {
    0 <= c.x <= ONE && 0 <= c.y <= ONE && 0 <= c.z <= ONE
}

/// A sphere centered in the world, with a positive radius no larger than the world's extent
/// and a reflectance in `[0, 1]`.
pub open spec fn sphere_ok(s: Sphere) -> bool {
    bounded(s.position, WORLD_LIMIT as int) && 0 < s.radius <= WORLD_LIMIT && unit_color(
        s.shape.material.color,
    )
}

/// The ray parameter of the hit: the nearer root if it is past `EPS`, else the farther.
pub open spec fn hit_distance(t1: int, t2: int) -> int {
    if t1 > EPS {
        t1
    } else {
        t2
    }
}

/// The intersection of a ray with a sphere, by the quadratic formula on the ray parameter.
/// Roots not past `EPS` give no intersection; neither does a hit point that falls exactly on
/// the center, where the normal is undefined.
pub open spec fn sphere_hit(s: Sphere, ray: Ray) -> Option<Intersection> {
    let po = vsub(ray.origin, s.position);
    let b = vdot(ray.direction, po);
    let c = dot_raw(po, po) - s.radius * s.radius;
    let det = b * b - c;
    if det < 0 {
        None
    } else {
        let sd = int_sqrt(det);
        let t1 = -b - sd;
        let t2 = -b + sd;
        if t1 < EPS && t2 < EPS {
            None
        } else {
            let t = hit_distance(t1, t2);
            let position = vadd(ray.origin, vscale(ray.direction, t));
            let d = vsub(position, s.position);
            if dot_raw(d, d) == 0 {
                None
            } else {
                Some(
                    Intersection {
                        position,
                        normal: vnormalize(d),
                        distance: t as i64,
                        material: s.shape.material,
                    },
                )
            }
        }
    }
}

/// What every reported hit satisfies: a point within the hit bound, a normal with components
/// of at most one, and a reflectance in `[0, 1]`.
pub open spec fn hit_ok(h: Intersection) -> bool {
    bounded(h.position, HIT_LIMIT as int) && bounded(h.normal, ONE as int) && unit_color(
        h.material.color,
    )
}

/// The capability of being intersected by a ray.
pub trait Intersect {
    spec fn valid(&self) -> bool;

    spec fn hit(&self, ray: Ray) -> Option<Intersection>;

    /// Whether the primitive is within the bounds the intersection math handles.
    fn is_valid(&self) -> (r: bool)
        ensures
            r == self.valid(),
    ;

    fn intersect(&self, ray: &Ray) -> (r: Option<Intersection>)
        requires
            self.valid(),
            ray_ok(*ray),
        ensures
            r == self.hit(*ray),
            r matches Some(h) ==> hit_ok(h),
    ;
}

pub proof fn lemma_mul_bounded(a: int, b: int, ka: int, kb: int)
    requires
        -ka <= a <= ka,
        -kb <= b <= kb,
    ensures
        -(ka * kb) <= a * b <= ka * kb,
{
    assert(-(ka * kb) <= a * b <= ka * kb) by (nonlinear_arith)
        requires
            -ka <= a <= ka,
            -kb <= b <= kb,
    ;
}

pub proof fn lemma_dot_bounded(a: Float3, b: Float3, ka: int, kb: int)
    requires
        bounded(a, ka),
        bounded(b, kb),
    ensures
        -3 * (ka * kb) <= dot_raw(a, b) <= 3 * (ka * kb),
{
    lemma_mul_bounded(a.x as int, b.x as int, ka, kb);
    lemma_mul_bounded(a.y as int, b.y as int, ka, kb);
    lemma_mul_bounded(a.z as int, b.z as int, ka, kb);
}

/// Dividing by the fixed-point unit keeps a bound that is a multiple of it.
pub proof fn lemma_div_one_bounded(p: int, k: int)
    requires
        0 <= k,
        -(k * ONE) <= p <= k * ONE,
    ensures
        -k <= p / (ONE as int) <= k,
{
    vstd::arithmetic::div_mod::lemma_div_is_ordered(p, k * ONE, ONE as int);
    vstd::arithmetic::div_mod::lemma_div_is_ordered(-(k * ONE), p, ONE as int);
    vstd::arithmetic::div_mod::lemma_div_multiples_vanish(k, ONE as int);
    vstd::arithmetic::div_mod::lemma_div_multiples_vanish(-k, ONE as int);
    assert(-(k * ONE) == (-k) * ONE);
}

impl Intersect for Sphere {
    open spec fn valid(&self) -> bool {
        sphere_ok(*self)
    }

    open spec fn hit(&self, ray: Ray) -> Option<Intersection> {
        sphere_hit(*self, ray)
    }

    fn is_valid(&self) -> (r: bool) {
        let c = self.shape.material.color;
        within_world(&self.position) && 0 < self.radius && self.radius <= WORLD_LIMIT && 0 <= c.x
            && c.x <= ONE && 0 <= c.y && c.y <= ONE && 0 <= c.z && c.z <= ONE
    }

    fn intersect(&self, ray: &Ray) -> (r: Option<Intersection>) {
        let po = ray.origin.sub(self.position);
        proof {
            lemma_dot_bounded(ray.direction, po, DIRECTION_LIMIT as int, 0x30_0000_0000);
            lemma_div_one_bounded(dot_raw(ray.direction, po), 0x120_0000_0000 as int);
        }
        let b = ray.direction.dot(po);
        proof {
            lemma_dot_bounded(po, po, 0x30_0000_0000, 0x30_0000_0000);
            lemma_mul_bounded(b as int, b as int, 0x120_0000_0000, 0x120_0000_0000);
            lemma_mul_bounded(self.radius as int, self.radius as int, WORLD_LIMIT as int, WORLD_LIMIT as int);
        }
        let c = crate::float3::dot_raw_exec(po, po) - (self.radius as i128) * (self.radius as i128);
        let det = (b as i128) * (b as i128) - c;
        if det < 0 {
            return None;
        }
        let sd = isqrt(det as u128);
        assert(sd < 0x200_0000_0000) by (nonlinear_arith)
            requires
                sd * sd <= det,
                det < 0x4_0000_0000_0000_0000_0000,
        ;
        proof {
            lemma_sqrt_unique(det as int, sd as int);
        }
        let sd = sd as i64;
        let t1 = -b - sd;
        let t2 = -b + sd;
        if t1 < EPS && t2 < EPS {
            return None;
        }
        let t = if t1 > EPS {
            t1
        } else {
            t2
        };
        proof {
            lemma_mul_bounded(ray.direction.x as int, t as int, DIRECTION_LIMIT as int, 0x800_0000_0000);
            lemma_mul_bounded(ray.direction.y as int, t as int, DIRECTION_LIMIT as int, 0x800_0000_0000);
            lemma_mul_bounded(ray.direction.z as int, t as int, DIRECTION_LIMIT as int, 0x800_0000_0000);
            lemma_div_one_bounded(ray.direction.x * t, 0x1000_0000_0000 as int);
            lemma_div_one_bounded(ray.direction.y * t, 0x1000_0000_0000 as int);
            lemma_div_one_bounded(ray.direction.z * t, 0x1000_0000_0000 as int);
        }
        let position = ray.origin.add(ray.direction.mul(t));
        let d = position.sub(self.position);
        let q = crate::float3::dot_raw_exec(d, d);
        if q == 0 {
            return None;
        }
        proof {
            crate::float3::lemma_dot_self_nonneg(d);
        }
        Some(
            Intersection {
                position,
                normal: d.normalize(),
                distance: t,
                material: self.shape.material,
            },
        )
    }
}

/// Whether every coordinate of a point lies within the world bound.
pub fn within_world(p: &Point3) -> (r: bool)
    ensures
        r == bounded(*p, WORLD_LIMIT as int),
{
    -WORLD_LIMIT <= p.x && p.x <= WORLD_LIMIT && -WORLD_LIMIT <= p.y && p.y <= WORLD_LIMIT
        && -WORLD_LIMIT <= p.z && p.z <= WORLD_LIMIT
}

/// An ordered collection of primitives of one kind.
pub struct Scene<T> {
    pub objects: Vec<T>,
}

/// Of two optional hits, the current best `m` and a new one `i`: `i` replaces `m` only if it
/// is strictly nearer.
pub open spec fn nearer(m: Option<Intersection>, i: Option<Intersection>) -> Option<Intersection> {
    match (m, i) {
        (Some(m), Some(i)) => if m.distance > i.distance {
            Some(i)
        } else {
            Some(m)
        },
        (None, Some(i)) => Some(i),
        _ => m,
    }
}

/// The nearest hit among the primitives, the first one winning a tie.
pub open spec fn closest_hit<T: Intersect>(objects: Seq<T>, ray: Ray) -> Option<Intersection>
    decreases objects.len(),
{
    if objects.len() == 0 {
        None
    } else {
        nearer(closest_hit(objects.drop_last(), ray), objects.last().hit(ray))
    }
}

pub open spec fn scene_ok<T: Intersect>(objects: Seq<T>) -> bool {
    forall|i: int| 0 <= i < objects.len() ==> #[trigger] objects[i].valid()
}

/// The closest hit is a hit of one of the primitives, none is hit strictly nearer, and
/// there is none exactly when none is hit.
pub proof fn lemma_closest_hit<T: Intersect>(objects: Seq<T>, ray: Ray)
    ensures
        closest_hit(objects, ray) is None <==> forall|j: int|
            0 <= j < objects.len() ==> (#[trigger] objects[j].hit(ray)) is None,
        closest_hit(objects, ray) matches Some(h) ==> (exists|i: int|
            0 <= i < objects.len() && #[trigger] objects[i].hit(ray) == Some(h)),
        closest_hit(objects, ray) matches Some(h) ==> (forall|j: int|
            0 <= j < objects.len() && (#[trigger] objects[j].hit(ray)) is Some
                ==> h.distance <= objects[j].hit(ray)->0.distance),
    decreases objects.len(),
{
    if objects.len() > 0 {
        let rest = objects.drop_last();
        lemma_closest_hit(rest, ray);
        assert(forall|j: int| 0 <= j < rest.len() ==> rest[j] == objects[j]);
        let n = objects.len() - 1;
        assert(objects.last() == objects[n]);
        if closest_hit(objects, ray) is None {
            assert forall|j: int| 0 <= j < objects.len() implies (#[trigger] objects[j].hit(ray)) is None by {
                if j < n {
                    assert(rest[j] == objects[j]);
                }
            }
        }
        if let Some(h) = closest_hit(objects, ray) {
            if closest_hit(rest, ray) == Some(h) {
                let i = choose|i: int|
                    0 <= i < rest.len() && #[trigger] rest[i].hit(ray) == Some(h);
                assert(objects[i].hit(ray) == Some(h));
            } else {
                assert(objects[n].hit(ray) == Some(h));
            }
            assert forall|j: int|
                0 <= j < objects.len() && (#[trigger] objects[j].hit(ray)) is Some implies h.distance
                <= objects[j].hit(ray)->0.distance by {
                if j < n {
                    assert(rest[j] == objects[j]);
                    assert(rest[j].hit(ray) is Some);
                }
            }
        }
    }
}

impl<T: Intersect> Scene<T> {
    pub fn new() -> (r: Scene<T>)
        ensures
            r.objects@.len() == 0,
    {
        Scene { objects: Vec::new() }
    }

    pub fn push(&mut self, object: T)
        ensures
            final(self).objects@ == old(self).objects@.push(object),
    {
        self.objects.push(object);
    }
}

impl<T: Intersect> Intersect for Scene<T> {
    open spec fn valid(&self) -> bool {
        scene_ok(self.objects@)
    }

    open spec fn hit(&self, ray: Ray) -> Option<Intersection> {
        closest_hit(self.objects@, ray)
    }

    fn is_valid(&self) -> (r: bool)
    {
        let mut k: usize = 0;
        while k < self.objects.len()
            invariant
                k <= self.objects@.len(),
                forall|i: int| 0 <= i < k ==> #[trigger] self.objects@[i].valid(),
            decreases self.objects@.len() - k,
        {
            if !self.objects[k].is_valid() {
                return false;
            }
            k = k + 1;
        }
        true
    }


    fn intersect(&self, ray: &Ray) -> (r: Option<Intersection>) {
        let mut min: Option<Intersection> = None;
        let mut k: usize = 0;
        while k < self.objects.len()
            invariant
                scene_ok(self.objects@),
                ray_ok(*ray),
                k <= self.objects@.len(),
                min == closest_hit(self.objects@.subrange(0, k as int), *ray),
                min matches Some(h) ==> hit_ok(h),
            decreases self.objects@.len() - k,
        {
            let intersection = self.objects[k].intersect(ray);
            proof {
                let next = self.objects@.subrange(0, k + 1);
                assert(next.drop_last() == self.objects@.subrange(0, k as int));
                assert(next.last() == self.objects@[k as int]);
            }
            min = match (min, intersection) {
                (Some(m), Some(i)) => {
                    if m.distance > i.distance {
                        Some(i)
                    } else {
                        min
                    }
                },
                (None, Some(i)) => Some(i),
                _ => min,
            };
            k = k + 1;
        }
        assert(self.objects@.subrange(0, k as int) == self.objects@);
        min
    }
}

/// A ray along the z axis toward the center of a sphere at the origin, starting outside it,
/// hits it at the distance from its origin less the radius, at the pole facing it, with the
/// normal pointing outward along the axis.
pub proof fn lemma_axis_ray_hits(s: Sphere, d: int)
    requires
        s.position == vec3(0, 0, 0),
        0 < s.radius,
        s.radius + EPS < d <= WORLD_LIMIT,
    ensures
        sphere_hit(s, Ray { origin: vec3(0, 0, d), direction: vec3(0, 0, -ONE) }) == Some(
            Intersection {
                position: vec3(0, 0, s.radius as int),
                normal: vec3(0, 0, ONE as int),
                distance: (d - s.radius) as i64,
                material: s.shape.material,
            },
        ),
{
    let r = s.radius as int;
    let ray = Ray { origin: vec3(0, 0, d), direction: vec3(0, 0, -ONE) };
    let po = vsub(ray.origin, s.position);
    assert(po == vec3(0, 0, d));
    assert(dot_raw(ray.direction, po) == -ONE * d);
    vstd::arithmetic::div_mod::lemma_div_multiples_vanish(-d, ONE as int);
    assert(-ONE * d == (-d) * ONE) by (nonlinear_arith);
    let b = vdot(ray.direction, po);
    assert(b == -d);
    assert(dot_raw(po, po) == d * d);
    let det = b * b - (dot_raw(po, po) - r * r);
    assert(det == r * r) by (nonlinear_arith)
        requires
            det == b * b - (d * d - r * r),
            b == -d,
    ;
    assert((r + 1) * (r + 1) > r * r) by (nonlinear_arith)
        requires
            r > 0,
    ;
    crate::fixed::lemma_sqrt_unique(r * r, r);
    let t = d - r;
    assert(fmul(-ONE, t) == -t) by {
        vstd::arithmetic::div_mod::lemma_div_multiples_vanish(-t, ONE as int);
        assert(-ONE * t == (-t) * ONE) by (nonlinear_arith);
    }
    let position = vadd(ray.origin, vscale(ray.direction, t));
    assert(fmul(0, t) == 0);
    assert(position == vec3(0, 0, r));
    let q = vsub(position, s.position);
    assert(q == vec3(0, 0, r));
    crate::float3::lemma_normalize_axis(r);
    assert(dot_raw(q, q) == r * r);
    assert(r * r > 0) by (nonlinear_arith)
        requires
            r > 0,
    ;
}

/// A ray parallel to the z axis, passing a sphere at the origin farther from its center than
/// the radius, misses it.
pub proof fn lemma_offset_ray_misses(s: Sphere, p: int, d: int)
    requires
        s.position == vec3(0, 0, 0),
        0 < s.radius < p <= WORLD_LIMIT,
        -WORLD_LIMIT <= d <= WORLD_LIMIT,
    ensures
        sphere_hit(s, Ray { origin: vec3(0, p, d), direction: vec3(0, 0, -ONE) }) is None,
{
    let r = s.radius as int;
    let ray = Ray { origin: vec3(0, p, d), direction: vec3(0, 0, -ONE) };
    let po = vsub(ray.origin, s.position);
    assert(po == vec3(0, p, d));
    assert(po.x == 0 && po.y == p && po.z == d);
    let e = ray.direction;
    assert(e.x == 0 && e.y == 0 && e.z == -ONE);
    assert(dot_raw(e, po) == -ONE * d) by (nonlinear_arith)
        requires
            po.x == 0 && po.y == p && po.z == d,
            e.x == 0 && e.y == 0 && e.z == -ONE,
            dot_raw(e, po) == e.x * po.x + e.y * po.y + e.z * po.z,
    ;
    vstd::arithmetic::div_mod::lemma_div_multiples_vanish(-d, ONE as int);
    assert(-ONE * d == (-d) * ONE) by (nonlinear_arith);
    let b = vdot(ray.direction, po);
    assert(b == -d);
    assert(dot_raw(po, po) == p * p + d * d);
    let det = b * b - (dot_raw(po, po) - r * r);
    assert(det < 0) by (nonlinear_arith)
        requires
            det == b * b - (p * p + d * d - r * r),
            b == -d,
            0 < r < p,
    ;
}

/// The normal of a hit has a length within four units of the last place of one.
pub proof fn lemma_hit_normal_length(s: Sphere, ray: Ray)
    requires
        sphere_hit(s, ray) is Some,
        in_range(vsub(sphere_hit(s, ray)->0.position, s.position)),
    ensures
        ONE - 4 <= int_sqrt(dot_raw(sphere_hit(s, ray)->0.normal, sphere_hit(s, ray)->0.normal))
            <= ONE + 4,
{
    let h = sphere_hit(s, ray)->0;
    let d = vsub(h.position, s.position);
    assert(h.normal == vnormalize(d));
    crate::float3::lemma_dot_self_nonneg(d);
    crate::float3::lemma_normalized_length(d);
}

/// A ray parallel to the z axis that grazes a sphere at the origin touches it once, at the
/// tangent point, with the normal pointing from the center to that point.
pub proof fn lemma_tangent_ray_touches(s: Sphere, d: int)
    requires
        s.position == vec3(0, 0, 0),
        0 < s.radius <= WORLD_LIMIT,
        EPS < d <= WORLD_LIMIT,
    ensures
        sphere_hit(s, Ray { origin: vec3(0, s.radius as int, d), direction: vec3(0, 0, -ONE) })
            == Some(
            Intersection {
                position: vec3(0, s.radius as int, 0),
                normal: vec3(0, ONE as int, 0),
                distance: d as i64,
                material: s.shape.material,
            },
        ),
{
    let r = s.radius as int;
    let ray = Ray { origin: vec3(0, r, d), direction: vec3(0, 0, -ONE) };
    let po = vsub(ray.origin, s.position);
    assert(po.x == 0 && po.y == r && po.z == d);
    let e = ray.direction;
    assert(e.x == 0 && e.y == 0 && e.z == -ONE);
    assert(dot_raw(e, po) == -ONE * d) by (nonlinear_arith)
        requires
            po.x == 0 && po.y == r && po.z == d,
            e.x == 0 && e.y == 0 && e.z == -ONE,
            dot_raw(e, po) == e.x * po.x + e.y * po.y + e.z * po.z,
    ;
    vstd::arithmetic::div_mod::lemma_div_multiples_vanish(-d, ONE as int);
    assert(-ONE * d == (-d) * ONE) by (nonlinear_arith);
    let b = vdot(e, po);
    assert(b == -d);
    assert(dot_raw(po, po) == r * r + d * d);
    let det = b * b - (dot_raw(po, po) - r * r);
    assert(det == 0) by (nonlinear_arith)
        requires
            det == b * b - (r * r + d * d - r * r),
            b == -d,
    ;
    crate::fixed::lemma_sqrt_unique(0, 0);
    assert(fmul(-ONE, d) == -d) by {
        assert(-ONE * d == (-d) * ONE) by (nonlinear_arith);
    }
    assert(fmul(0, d) == 0);
    let position = vadd(ray.origin, vscale(e, d));
    assert(position == vec3(0, r, 0));
    let q = vsub(position, s.position);
    assert(q == vec3(0, r, 0));
    crate::float3::lemma_normalize_axis(r);
    assert(dot_raw(q, q) == r * r);
    assert(r * r > 0) by (nonlinear_arith)
        requires
            r > 0,
    ;
}

/// From an origin strictly inside a sphere, the near root is never past `EPS`, so a hit, if
/// reported, is at the far root `-b + sqrt(det)` (as an `i64`); and it is reported whenever that root is
/// past `EPS` and the hit point is not the center.
pub proof fn lemma_inside_hits_far_root(s: Sphere, ray: Ray)
    requires
        dot_raw(vsub(ray.origin, s.position), vsub(ray.origin, s.position)) < s.radius * s.radius,
    ensures
        ({
            let po = vsub(ray.origin, s.position);
            let b = vdot(ray.direction, po);
            let det = b * b - (dot_raw(po, po) - s.radius * s.radius);
            let t2 = -b + int_sqrt(det);
            let position = vadd(ray.origin, vscale(ray.direction, t2));
            let d = vsub(position, s.position);
            &&& det > 0
            &&& -b - int_sqrt(det) <= 0
            &&& sphere_hit(s, ray) matches Some(h) ==> h.distance == t2 as i64
            &&& (t2 >= EPS && dot_raw(d, d) != 0) ==> sphere_hit(s, ray) is Some
        }),
{
    let po = vsub(ray.origin, s.position);
    let b = vdot(ray.direction, po);
    let det = b * b - (dot_raw(po, po) - s.radius * s.radius);
    assert(b * b >= 0) by (nonlinear_arith);
    crate::fixed::lemma_sqrt_exists(det);
    let sd = int_sqrt(det);
    assert(sd >= b && sd >= -b) by (nonlinear_arith)
        requires
            det < (sd + 1) * (sd + 1),
            det > b * b,
            sd >= 0,
    ;
}

} // verus!
