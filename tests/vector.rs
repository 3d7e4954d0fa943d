use raytrace::fixed::ONE;
use raytrace::float3::Float3;

fn v(x: i64, y: i64, z: i64) -> Float3 {
    Float3::new(x * ONE, y * ONE, z * ONE)
}

#[test]
fn add_is_commutative_and_associative() {
    let a = Float3::new(3, -7, 11);
    let b = Float3::new(-100, 42, 5);
    let c = Float3::new(9, 9, -9);
    assert_eq!(a.add(b), b.add(a));
    assert_eq!(a.add(b).add(c), a.add(b.add(c)));
    assert_eq!(a.add(b), Float3::new(-97, 35, 16));
}

#[test]
fn add_negation_is_zero() {
    let a = Float3::new(123456, -654321, 7);
    assert_eq!(a.add(a.neg()), Float3::zero());
    assert_eq!(a.sub(a), Float3::zero());
}

#[test]
fn dot_is_symmetric_with_exact_value() {
    let a = v(1, 2, 3);
    let b = v(4, 5, 6);
    assert_eq!(a.dot(b), b.dot(a));
    assert_eq!(a.dot(b), 32 * ONE);
}

#[test]
fn cross_is_anticommutative_with_exact_value() {
    let a = v(1, 2, 3);
    let b = v(4, 5, 6);
    assert_eq!(a.cross(b), b.cross(a).neg());
    assert_eq!(a.cross(b), v(-3, 6, -3));
    let p = Float3::new(12345, -6789, 1011);
    let q = Float3::new(-2021, 3141, 5926);
    assert_eq!(p.cross(q), q.cross(p).neg());
}

#[test]
fn norm_and_normalize() {
    assert_eq!(v(3, 4, 0).norm(), 5 * ONE);
    assert_eq!(v(1, 2, 2).norm_sq(), 9 * ONE);
    assert_eq!(v(1, 2, 2).normalize(), Float3::new(21845, 43690, 43690));
    let n = v(0, 0, -7).normalize();
    assert_eq!(n, v(0, 0, -1));
    assert_eq!(n.norm(), ONE);
}

#[test]
fn normalized_length_is_close_to_one() {
    for a in [v(1, 2, 3), v(-5, 1, 9), Float3::new(70000, -3, 123456), v(100, -200, 300)] {
        let len = a.normalize().norm();
        assert!((len - ONE).abs() <= 3, "length {}", len);
    }
}

#[test]
fn scalar_multiply_and_divide() {
    assert_eq!(v(1, -2, 3).mul(ONE / 2), Float3::new(ONE / 2, -ONE, 3 * ONE / 2));
    assert_eq!(v(1, -2, 3).div(2 * ONE), Float3::new(ONE / 2, -ONE, 3 * ONE / 2));
    assert_eq!(Float3::new(1, -1, 0).mul(ONE / 2), Float3::new(0, -1, 0));
    assert_eq!(v(1, -2, 3).div(-2 * ONE), Float3::new(-ONE / 2, ONE, -3 * ONE / 2));
    assert_eq!(Float3::new(1, -1, 0).div(-2 * ONE), Float3::new(-1, 0, 0));
    assert_eq!(v(1, 1, 1).mul_elem(Float3::new(ONE / 2, ONE / 4, 0)), Float3::new(ONE / 2, ONE / 4, 0));
}

#[test]
fn near_zero_and_saturate() {
    assert!(Float3::new(65, -65, 0).near_zero());
    assert!(!Float3::new(66, 0, 0).near_zero());
    assert_eq!(Float3::new(-5, ONE / 2, 3 * ONE).saturate(), Float3::new(0, ONE / 2, ONE));
}

#[test]
fn component_square_root() {
    assert_eq!(v(4, 9, 0).sqrt(), v(2, 3, 0));
    assert_eq!(Float3::new(ONE / 4, ONE, 2 * ONE).sqrt(), Float3::new(ONE / 2, ONE, 92681));
}

#[test]
fn accessors() {
    let a = Float3::new(1, 2, 3);
    assert_eq!((a.x(), a.y(), a.z()), (1, 2, 3));
    assert_eq!(a.to_array(), [1, 2, 3]);
}

#[test]
fn short_vectors_normalize_to_unit_length() {
    let u = Float3::new(1, 1, 1).normalize();
    assert!((u.norm() - ONE).abs() <= 4, "{:?}", u);
    assert_eq!(u, Float3::new(37837, 37837, 37837));
    assert_eq!(Float3::new(0, 0, -3).normalize(), v(0, 0, -1));
    assert_eq!(Float3::new(3, 4, 0).normalize(), Float3::new(39321, 52428, 0));
    for a in [Float3::new(1, 0, 0), Float3::new(-7, 2, 1), Float3::new(65535, 0, 1)] {
        assert!((a.normalize().norm() - ONE).abs() <= 4);
    }
}
