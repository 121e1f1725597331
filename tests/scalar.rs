use raytracing_rs::interval::Interval;
use raytracing_rs::scalar::{div_fx, isqrt, mul_fx, sqrt_fx, LIMIT, ONE};
use raytracing_rs::utils::{random_double, random_double_range};
use raytracing_rs::vec3::{dot, reflect, refract, Vec3};

#[test]
fn fixed_point_arithmetic() {
    assert_eq!(mul_fx(3 * ONE, ONE / 2), 3 * ONE / 2);
    assert_eq!(mul_fx(-3, ONE / 2), -2);
    assert_eq!(div_fx(ONE, 4 * ONE), ONE / 4);
    assert_eq!(div_fx(-ONE, 3 * ONE), -21846);
    assert_eq!(div_fx(ONE, -2 * ONE), -ONE / 2);
    assert_eq!(mul_fx(LIMIT, LIMIT), LIMIT);
    assert_eq!(mul_fx(-LIMIT, LIMIT), -LIMIT);
}

#[test]
fn integer_and_fixed_point_square_roots() {
    assert_eq!(isqrt(0), 0);
    assert_eq!(isqrt(15), 3);
    assert_eq!(isqrt(16), 4);
    assert_eq!(isqrt(1 << 80), 1 << 40);
    assert_eq!(sqrt_fx(4 * ONE), 2 * ONE);
    assert_eq!(sqrt_fx(ONE / 4), ONE / 2);
    assert_eq!(sqrt_fx(-ONE), 0);
}

#[test]
fn interval_operations() {
    let i = Interval::new(-ONE, 2 * ONE);
    assert_eq!(i.size(), 3 * ONE);
    assert!(i.contains(-ONE) && i.contains(2 * ONE));
    assert!(!i.surrounds(-ONE) && !i.surrounds(2 * ONE) && i.surrounds(0));
    assert_eq!(i.clamp(-5 * ONE), -ONE);
    assert_eq!(i.clamp(5 * ONE), 2 * ONE);
    assert_eq!(i.clamp(ONE), ONE);
    let e = Interval::empty();
    assert!(!e.contains(0) && !e.contains(LIMIT) && !e.contains(-LIMIT));
    let u = Interval::universe();
    assert!(u.contains(LIMIT) && u.contains(-LIMIT));
    let j = Interval::enclosing_interval(Interval::new(0, ONE), Interval::new(3 * ONE, 4 * ONE));
    assert_eq!((j.min, j.max), (0, 4 * ONE));
}

#[test]
fn vector_operations() {
    let a = Vec3::new(ONE, 2 * ONE, 3 * ONE);
    let b = Vec3::new(-ONE, ONE / 2, 0);
    assert_eq!(dot(a, b), 0);
    let s = a.add(b);
    assert_eq!((s.x, s.y, s.z), (0, 5 * ONE / 2, 3 * ONE));
    let d = a.sub(b);
    assert_eq!((d.x, d.y, d.z), (2 * ONE, 3 * ONE / 2, 3 * ONE));
    assert_eq!(a.length_squared(), 14 * ONE);
    let l = Vec3::new(3 * ONE, 0, 4 * ONE);
    assert_eq!(l.length(), 5 * ONE);
    let u = l.unit_vector();
    assert_eq!((u.x, u.y, u.z), (3 * ONE / 5, 0, 4 * ONE / 5));
    assert_eq!(a.index(0), ONE);
    assert_eq!(a.index(2), 3 * ONE);
    assert!(Vec3::new(0, 0, 0).near_zero());
    assert!(!Vec3::new(0, 1, 0).near_zero());
    let sat = Vec3::new(i64::MAX, i64::MIN, 0);
    assert_eq!((sat.x, sat.y), (LIMIT, -LIMIT));
}

#[test]
fn reflection_and_refraction() {
    let v = Vec3::new(ONE, -ONE, 0);
    let n = Vec3::new(0, ONE, 0);
    let r = reflect(v, n);
    assert_eq!((r.x, r.y, r.z), (ONE, ONE, 0));
    // straight through at equal indices
    let down = Vec3::new(0, -ONE, 0);
    let t = refract(down, n, ONE);
    assert_eq!((t.x, t.y, t.z), (0, -ONE, 0));
}

#[test]
fn random_draws_stay_in_range_and_vary() {
    let mut seen = std::collections::BTreeSet::new();
    for _ in 0..200 {
        let x = random_double_range(-7, 1000);
        assert!((-7..1000).contains(&x));
        seen.insert(x);
        let y = random_double();
        assert!((0..ONE).contains(&y));
    }
    assert!(seen.len() > 1);
}

#[test]
fn random_vectors_are_unit_and_in_range() {
    for _ in 0..100 {
        let v = Vec3::random_range(-ONE, ONE);
        assert!(v.x >= -ONE && v.x < ONE && v.y >= -ONE && v.y < ONE && v.z >= -ONE && v.z < ONE);
        let r = Vec3::random();
        assert!(r.x >= 0 && r.x < ONE);
        let u = Vec3::random_unit_vector();
        let len = u.length();
        assert!((len - ONE).abs() < 16, "length {}", len);
        let n = Vec3::new(0, ONE, 0);
        let h = Vec3::random_on_hemisphere(n);
        assert!(dot(h, n) >= -1);
    }
}
