use raytrace::color::{Color8, ToColor8};
use raytrace::fixed::ONE;
use raytrace::float3::Float3;
use raytrace::ray::{Material, Ray, Scene, Shape, Sphere};
use raytrace::render::{camera_ray, in_unit_ball, render_direct, render_pixel, Sample};
use raytrace::shade::{background, trace_direct, trace_path, Light, HALF, REFLECTION};

fn v(x: i64, y: i64, z: i64) -> Float3 {
    Float3::new(x * ONE, y * ONE, z * ONE)
}

fn sphere(center: Float3, radius: i64, color: Float3) -> Sphere {
    Sphere {
        shape: Shape { material: Material { color, emission: Float3::zero() } },
        position: center,
        radius,
    }
}

fn red_ball_scene() -> Scene<Sphere> {
    let mut scene = Scene::new();
    scene.push(sphere(v(0, 0, 0), ONE, v(1, 0, 0)));
    scene.push(sphere(v(0, -1001, 0), 1000 * ONE, v(1, 1, 1)));
    scene
}

fn light() -> Light {
    Light { direction: v(2, 5, 2) }
}

#[test]
fn red_ball_center_is_red_and_corner_is_black() {
    let (w, h) = (500u32, 500u32);
    let image = render_direct(&red_ball_scene(), &light(), v(0, 0, 5), w, h);
    assert_eq!(image.len(), 250000);
    let center = image[(250 * w + 250) as usize];
    assert!(center.r > center.g && center.r > center.b);
    assert_eq!(center.g, center.b);
    assert_eq!(center, Color8 { r: 88, g: 0, b: 0 });
    assert_eq!(image[0], Color8 { r: 0, g: 0, b: 0 });
    assert_eq!(image[(w - 1) as usize], Color8 { r: 0, g: 0, b: 0 });
}

#[test]
fn ground_below_the_ball_is_lit_white() {
    let image = render_direct(&red_ball_scene(), &light(), v(0, 0, 5), 100, 100);
    let p = image[(95 * 100 + 50) as usize];
    assert!(p.r > 0 && p.r == p.g && p.g == p.b);
}

#[test]
fn camera_ray_through_the_center_looks_down_the_axis() {
    let r = camera_ray(v(0, 0, 5), 250, 250, 500, 500, 0, 0);
    assert_eq!(r.origin, v(0, 0, 5));
    assert_eq!(r.direction, v(0, 0, -1));
    let corner = camera_ray(v(0, 0, 5), 0, 0, 500, 500, 0, 0);
    assert!(corner.direction.x < 0 && corner.direction.y > 0 && corner.direction.z < 0);
}

#[test]
fn last_bounce_reduces_to_direct_lighting() {
    let scene = red_ball_scene();
    let l = light();
    let ray = Ray { origin: v(0, 0, 5), direction: v(0, 0, -1) };
    let direct = trace_direct(&scene, &ray, &l);
    let path = trace_path(&scene, &ray, None, &l, &Vec::new(), 0);
    assert_eq!(path, direct.mul(REFLECTION).mul(HALF).mul(REFLECTION));
    assert_eq!(direct, Float3::new(22816, 0, 0));
    assert_eq!(path, Float3::new(2852, 0, 0));
}

#[test]
fn escaped_primary_ray_shows_the_sky() {
    assert_eq!(background(v(0, 1, 0)), Float3::new(ONE / 2, 45875, ONE));
    assert_eq!(background(v(0, -1, 0)), v(1, 1, 1));
    assert_eq!(background(v(0, 0, -1)), Float3::new(49152, 55705, ONE));
    let scene = Scene::<Sphere>::new();
    let ray = Ray { origin: v(0, 0, 5), direction: v(0, 1, 0) };
    assert_eq!(trace_path(&scene, &ray, None, &light(), &Vec::new(), 0), Float3::new(ONE / 2, 45875, ONE));
    assert_eq!(trace_direct(&scene, &ray, &light()), Float3::zero());
}

#[test]
fn bounce_toward_the_sky_picks_up_the_light() {
    let scene = red_ball_scene();
    let l = light();
    let ray = Ray { origin: v(0, 0, 5), direction: v(0, 0, -1) };
    let one_bounce = trace_path(&scene, &ray, None, &l, &vec![Float3::zero()], 0);
    let no_bounce = trace_path(&scene, &ray, None, &l, &Vec::new(), 0);
    assert!(one_bounce.x > no_bounce.x);
    assert_eq!((one_bounce.y, one_bounce.z), (0, 0));
}

#[test]
fn path_traced_pixel_averages_its_samples() {
    let scene = red_ball_scene();
    let l = light();
    let one = vec![Sample { jx: 0, jy: 0, bounces: Vec::new() }];
    let two = vec![
        Sample { jx: 0, jy: 0, bounces: Vec::new() },
        Sample { jx: 0, jy: 0, bounces: Vec::new() },
    ];
    let a = render_pixel(&scene, &l, v(0, 0, 5), 250, 250, 500, 500, &one);
    let b = render_pixel(&scene, &l, v(0, 0, 5), 250, 250, 500, 500, &two);
    assert_eq!(a, b);
    let path = trace_path(&scene, &camera_ray(v(0, 0, 5), 250, 250, 500, 500, 0, 0), None, &l, &Vec::new(), 0);
    assert_eq!(a, raytrace::color::SrgbCorrectable::srgb(&path).to_color8());
    assert!(a.r > a.g && a.g == a.b);
}

#[test]
fn unit_ball_membership() {
    assert!(in_unit_ball(&Float3::new(ONE / 2, ONE / 2, ONE / 2)));
    assert!(!in_unit_ball(&v(1, 0, 0)));
    assert!(!in_unit_ball(&Float3::new(ONE / 2, ONE / 2, ONE / 2 + ONE / 4)));
}

#[test]
fn light_validity() {
    assert!(light().is_valid());
    assert!(Light { direction: v(3, 0, 0) }.is_valid());
    assert!(Light { direction: Float3::new(1, 1, 1) }.is_valid());
    assert!(!Light { direction: Float3::new(1 << 62, 0, 0) }.is_valid());
    assert!(Light { direction: Float3::new(ONE, 2 * ONE, -ONE) }.is_valid());
    assert!(!Light { direction: Float3::zero() }.is_valid());
}

#[test]
fn light_direction_is_normalized_by_the_tracer() {
    let scene = red_ball_scene();
    let ray = Ray { origin: v(0, 0, 5), direction: v(0, 0, -1) };
    let short = Light { direction: Float3::new(0, 0, ONE / 2) };
    let long = Light { direction: v(0, 0, 2) };
    assert_eq!(trace_direct(&scene, &ray, &short), v(1, 0, 0));
    assert_eq!(trace_direct(&scene, &ray, &long), v(1, 0, 0));
}

#[test]
fn direct_lighting_never_exceeds_the_albedo() {
    let mut scene = Scene::new();
    scene.push(sphere(v(0, 0, 0), ONE, v(1, 1, 1)));
    let toward = v(1, 1, 1).normalize();
    let ray = Ray { origin: Float3::new(4 * toward.x, 4 * toward.y, 4 * toward.z), direction: toward.neg() };
    for l in [Float3::new(1, 1, 1), v(1, 1, 1), v(100, 100, 100)] {
        let c = trace_direct(&scene, &ray, &Light { direction: l });
        assert!(c.x <= ONE && c.y <= ONE && c.z <= ONE);
        assert!(c.x >= ONE - 8, "{:?}", c);
    }
}
