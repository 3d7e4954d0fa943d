use raytrace::fixed::ONE;
use raytrace::float3::Float3;
use raytrace::ray::{Intersect, Material, Ray, Scene, Shape, Sphere};

fn v(x: i64, y: i64, z: i64) -> Float3 {
    Float3::new(x * ONE, y * ONE, z * ONE)
}

fn sphere(center: Float3, radius: i64, color: Float3) -> Sphere {
    Sphere {
        shape: Shape { material: Material { color, emission: Float3::zero() } },
        position: center,
        radius,
    }
}

#[test]
fn ray_toward_center_hits_at_distance_minus_radius() {
    let s = sphere(v(0, 0, 0), 2 * ONE, v(1, 0, 0));
    let ray = Ray { origin: v(0, 0, 7), direction: v(0, 0, -1) };
    let h = s.intersect(&ray).expect("hit");
    assert_eq!(h.distance, 5 * ONE);
    assert_eq!(h.position, v(0, 0, 2));
    assert_eq!(h.normal, v(0, 0, 1));
    assert_eq!(h.material.color, v(1, 0, 0));
}

#[test]
fn ray_off_to_the_side_misses() {
    let s = sphere(v(0, 0, 0), ONE, v(1, 0, 0));
    let ray = Ray { origin: Float3::new(0, ONE + ONE / 10, 5 * ONE), direction: v(0, 0, -1) };
    assert!(s.intersect(&ray).is_none());
}

#[test]
fn tangent_ray_touches_once() {
    let s = sphere(v(0, 0, 0), ONE, v(1, 0, 0));
    let ray = Ray { origin: v(0, 1, 5), direction: v(0, 0, -1) };
    let h = s.intersect(&ray).expect("touch");
    assert_eq!(h.distance, 5 * ONE);
    assert_eq!(h.position, v(0, 1, 0));
    assert_eq!(h.normal, v(0, 1, 0));
}

#[test]
fn sphere_behind_the_ray_is_not_hit() {
    let s = sphere(v(0, 0, 10), ONE, v(1, 0, 0));
    let ray = Ray { origin: v(0, 0, 0), direction: v(0, 0, -1) };
    assert!(s.intersect(&ray).is_none());
}

#[test]
fn ray_from_inside_hits_the_far_side() {
    let s = sphere(v(0, 0, 0), 3 * ONE, v(1, 0, 0));
    let ray = Ray { origin: v(0, 0, 0), direction: v(1, 0, 0) };
    let h = s.intersect(&ray).expect("hit");
    assert_eq!(h.distance, 3 * ONE);
    assert_eq!(h.normal, v(1, 0, 0));
}

#[test]
fn scene_returns_the_nearer_of_overlapping_spheres() {
    let mut scene = Scene::new();
    scene.push(sphere(v(0, 0, -2), 2 * ONE, v(0, 1, 0)));
    scene.push(sphere(v(0, 0, 0), ONE, v(1, 0, 0)));
    let ray = Ray { origin: v(0, 0, 10), direction: v(0, 0, -1) };
    let h = scene.intersect(&ray).expect("hit");
    assert_eq!(h.distance, 9 * ONE);
    assert_eq!(h.material.color, v(1, 0, 0));
    let mut reversed = Scene::new();
    reversed.push(sphere(v(0, 0, 0), ONE, v(1, 0, 0)));
    reversed.push(sphere(v(0, 0, -2), 2 * ONE, v(0, 1, 0)));
    assert_eq!(reversed.intersect(&ray), Some(h));
}

#[test]
fn scene_tie_goes_to_the_first_sphere() {
    let mut scene = Scene::new();
    scene.push(sphere(v(0, 0, 0), ONE, v(1, 0, 0)));
    scene.push(sphere(v(0, 0, 0), ONE, v(0, 0, 1)));
    let ray = Ray { origin: v(0, 0, 5), direction: v(0, 0, -1) };
    assert_eq!(scene.intersect(&ray).expect("hit").material.color, v(1, 0, 0));
}

#[test]
fn empty_scene_is_never_hit() {
    let scene = Scene::<Sphere>::new();
    for d in [v(0, 0, -1), v(1, 0, 0), v(0, -1, 0)] {
        assert!(scene.intersect(&Ray { origin: v(0, 0, 5), direction: d }).is_none());
    }
}

#[test]
fn validity_checks_reject_degenerate_spheres() {
    assert!(sphere(v(0, 0, 0), ONE, v(1, 0, 0)).is_valid());
    assert!(!sphere(v(0, 0, 0), 0, v(1, 0, 0)).is_valid());
    assert!(!sphere(v(0, 0, 0), -ONE, v(1, 0, 0)).is_valid());
    assert!(!sphere(v(0, 0, 0), ONE, v(2, 0, 0)).is_valid());
    let mut scene = Scene::<Sphere>::new();
    assert!(scene.is_valid());
    scene.push(sphere(v(0, 0, 0), ONE, v(1, 0, 0)));
    assert!(scene.is_valid());
    scene.push(sphere(v(0, 0, 0), 0, v(1, 0, 0)));
    assert!(!scene.is_valid());
}

#[test]
fn sphere_reaching_past_the_world_is_hit_from_inside() {
    let s = sphere(Float3::new(1 << 36, 0, 0), 1 << 36, v(1, 0, 0));
    assert!(s.is_valid());
    let ray = Ray { origin: Float3::new(1 << 36, 0, 0), direction: v(1, 0, 0) };
    let h = s.intersect(&ray).expect("hit");
    assert_eq!(h.distance, 1 << 36);
    assert_eq!(h.position, Float3::new(1 << 37, 0, 0));
    assert_eq!(h.normal, v(1, 0, 0));
}

#[test]
fn scenes_of_scenes_find_the_nearest_hit() {
    let mut near = Scene::new();
    near.push(sphere(v(0, 0, 0), ONE, v(1, 0, 0)));
    let mut far = Scene::new();
    far.push(sphere(v(0, 0, -5), ONE, v(0, 0, 1)));
    let mut world = Scene::new();
    world.push(far);
    world.push(near);
    assert!(world.is_valid());
    let ray = Ray { origin: v(0, 0, 5), direction: v(0, 0, -1) };
    let h = world.intersect(&ray).expect("hit");
    assert_eq!(h.distance, 4 * ONE);
    assert_eq!(h.material.color, v(1, 0, 0));
}
