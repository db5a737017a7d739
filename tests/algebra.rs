use raycaster::algebra::quadratic::compute_quadratic;
use raycaster::algebra::vec3::Vec3;
use raycaster::fixed::{isqrt, mul_fixed, SCALE};

const K: i64 = SCALE;

fn residual(a: i64, b: i64, c: i64, t: i128) -> i128 {
    let (a, b, c, k) = (a as i128, b as i128, c as i128, K as i128);
    a * t * t + b * k * t + c * k * k
}

#[test]
fn negative_discriminant_has_no_roots() {
    assert_eq!(compute_quadratic(K, 0, K), None);
    assert_eq!(compute_quadratic(2 * K, K, 3 * K), None);
    assert_eq!(compute_quadratic(-K, 0, -K), None);
}

#[test]
fn zero_leading_coefficient_has_no_roots() {
    assert_eq!(compute_quadratic(0, K, K), None);
    assert_eq!(compute_quadratic(0, 0, 0), None);
}

#[test]
fn scaling_all_coefficients_keeps_the_roots() {
    let exact = (2.0f64).sqrt() * K as f64;
    let base = compute_quadratic(1, 0, -2).unwrap();
    for f in [2i64, 4, 8, 1024, K] {
        let (t1, t2) = compute_quadratic(f, 0, -2 * f).unwrap();
        assert!((t1 - base.0).abs() <= 1 && (t2 - base.1).abs() <= 1, "factor {}", f);
        assert!((t1 as f64 - exact).abs() < 1.0, "factor {}", f);
    }
    assert_eq!(compute_quadratic(1, 0, -2), compute_quadratic(2, 0, -4));
}

#[test]
fn integer_roots_are_exact() {
    // t² − 5t + 6 = 0 has roots 3 and 2.
    assert_eq!(compute_quadratic(K, -5 * K, 6 * K), Some((3 * K as i128, 2 * K as i128)));
}

#[test]
fn tangent_gives_equal_roots() {
    // t² − 2t + 1 = 0 touches at t = 1.
    assert_eq!(compute_quadratic(K, -2 * K, K), Some((K as i128, K as i128)));
}

#[test]
fn irrational_roots_nearly_solve() {
    // t² − 2 = 0: roots ±√2.
    let (t1, t2) = compute_quadratic(K, 0, -2 * K).unwrap();
    assert_eq!(t1, 92681);
    assert_eq!(t2, -92681);
    let exact = (2.0f64).sqrt() * K as f64;
    assert!((t1 as f64 - exact).abs() < 1.0);
    for t in [t1, t2] {
        let r = residual(K, 0, -2 * K, t) as f64;
        // Within one unit of last place of the root.
        assert!(r.abs() / (K as f64).powi(3) < 4.0 / K as f64);
    }
}

#[test]
fn roots_ordered_for_positive_leading_coefficient() {
    let (t1, t2) = compute_quadratic(3 * K, 7 * K, -K).unwrap();
    assert!(t1 >= t2);
    // With a negative leading coefficient the order flips.
    let (u1, u2) = compute_quadratic(-K, 0, K).unwrap();
    assert_eq!((u1, u2), (-(K as i128), K as i128));
}

#[test]
fn add_sub_neg_are_componentwise() {
    let a = Vec3::new(1, -2, 3);
    let b = Vec3::new(10, 20, -30);
    assert_eq!(a.add(b), Vec3::new(11, 18, -27));
    assert_eq!(a.sub(b), Vec3::new(-9, -22, 33));
    assert_eq!(a.neg(), Vec3::new(-1, 2, -3));
}

#[test]
fn scale_and_divide_use_fixed_point() {
    let v = Vec3::new(2 * K, -3 * K, K / 2);
    assert_eq!(v.scale(K / 2), Vec3::new(K, -3 * K / 2, K / 4));
    assert_eq!(v.divide(2 * K), Vec3::new(K, -3 * K / 2, K / 4));
    // Rounding is toward zero on both sides.
    assert_eq!(Vec3::new(1, -1, 3).scale(K / 2), Vec3::new(0, 0, 1));
    assert_eq!(mul_fixed(3, -K / 2), -1);
}

#[test]
fn dot_product_is_symmetric() {
    let a = Vec3::new(K, 2 * K, 3 * K);
    let b = Vec3::new(4 * K, -5 * K, 6 * K);
    assert_eq!(a.dot(b), 12 * K);
    assert_eq!(a.dot(b), b.dot(a));
    let c = Vec3::new(3, 7, -11);
    let d = Vec3::new(-5, 13, 2);
    assert_eq!(c.dot(d), d.dot(c));
}

#[test]
fn cross_product_is_antisymmetric() {
    let x = Vec3::new(K, 0, 0);
    let y = Vec3::new(0, K, 0);
    assert_eq!(x.cross_product(y), Vec3::new(0, 0, K));
    assert_eq!(y.cross_product(x), Vec3::new(0, 0, -K));
    let a = Vec3::new(12345, -678, 9012);
    let b = Vec3::new(-3456, 789, 101112);
    assert_eq!(a.cross_product(b), b.cross_product(a).neg());
}

#[test]
fn magnitude_of_three_four_five() {
    assert_eq!(Vec3::new(3 * K, 4 * K, 0).magnitude(), 5 * K);
    assert_eq!(Vec3::new(0, 0, 0).magnitude(), 0);
    assert_eq!(Vec3::new(1, 1, 1).magnitude(), 1);
}

#[test]
fn normalize_has_unit_length() {
    let n = Vec3::new(3 * K, 4 * K, 0).normalize();
    assert_eq!(n, Vec3::new(39321, 52428, 0));
    let m = n.magnitude();
    assert!(m <= K && m >= K - 4);
    for v in [
        Vec3::new(1, 1, 1),
        Vec3::new(1, 1, 0),
        Vec3::new(7, -1, 2),
        Vec3::new(K * 100, 1, -K),
        Vec3::new(-5, -5, -5),
        Vec3::new(0, 0, 1),
        Vec3::new(0x4000_0000_0000, -0x4000_0000_0000, 0x4000_0000_0000),
    ] {
        let m = v.normalize().magnitude();
        assert!(m >= K - 4 && m <= K, "{:?} -> {}", v, m);
    }
    assert_eq!(Vec3::new(0, 0, 1).normalize(), Vec3::new(0, 0, K));
    assert_eq!(Vec3::new(-3, 0, 0).normalize(), Vec3::new(-K, 0, 0));
}

#[test]
fn integer_square_root_rounds_down() {
    assert_eq!(isqrt(0), 0);
    assert_eq!(isqrt(10), 3);
    assert_eq!(isqrt(16), 4);
    assert_eq!(isqrt(i128::MAX), 13043817825332782212);
}
