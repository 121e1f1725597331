use raytracing_rs::aabb::AABB;
use raytracing_rs::interval::Interval;
use raytracing_rs::ray::Ray;
use raytracing_rs::scalar::ONE;
use raytracing_rs::vec3::Vec3;

fn assert_interval(interval: Interval, min: i64, max: i64) {
    assert_eq!(interval.min, min, "expected min {}, got {}", min, interval.min);
    assert_eq!(interval.max, max, "expected max {}, got {}", max, interval.max);
}

fn v(x: i64, y: i64, z: i64) -> Vec3 {
    Vec3::new(x, y, z)
}

#[test]
fn new_from_extrema_orders_axes() {
    let a = v(ONE, 2 * ONE, 3 * ONE);
    let b = v(-ONE, 0, 5 * ONE);
    let bbox = AABB::new_from_extrema(a, b);

    assert_interval(bbox.x, -ONE, ONE);
    assert_interval(bbox.y, 0, 2 * ONE);
    assert_interval(bbox.z, 3 * ONE, 5 * ONE);
}

#[test]
fn axis_interval_returns_correct_axis() {
    let bbox = AABB::new(
        Interval { min: -ONE, max: 2 * ONE },
        Interval { min: ONE / 2, max: 7 * ONE / 2 },
        Interval { min: -2 * ONE, max: -ONE },
    );

    assert_interval(bbox.axis_interval(0), -ONE, 2 * ONE);
    assert_interval(bbox.axis_interval(1), ONE / 2, 7 * ONE / 2);
    assert_interval(bbox.axis_interval(2), -2 * ONE, -ONE);
}

#[test]
fn hit_returns_true_for_ray_passing_through() {
    let bbox = AABB::new_from_extrema(v(-ONE, -ONE, -ONE), v(ONE, ONE, ONE));
    let ray = Ray { origin: v(-2 * ONE, -2 * ONE, -2 * ONE), dir: v(ONE, ONE, ONE), time: 0 };

    assert!(bbox.hit(&ray, Interval::universe()));
}

#[test]
fn hit_returns_false_for_ray_missing_box() {
    let bbox = AABB::new_from_extrema(v(-ONE, -ONE, -ONE), v(ONE, ONE, ONE));
    let ray = Ray { origin: v(2 * ONE, 0, 0), dir: v(ONE, ONE, ONE), time: 0 };

    assert!(!bbox.hit(&ray, Interval::universe()));
}

#[test]
fn union_contains_both_boxes_and_has_tight_size() {
    let a = AABB::new_from_extrema(v(0, 0, 0), v(ONE, ONE, ONE));
    let b = AABB::new_from_extrema(v(3 * ONE, -2 * ONE, ONE / 2), v(4 * ONE, -ONE, 2 * ONE));
    let u = AABB::new_from_bbox(a, b);
    assert_interval(u.x, 0, 4 * ONE);
    assert_interval(u.y, -2 * ONE, ONE);
    assert_interval(u.z, 0, 2 * ONE);
    assert_eq!(u.x.size(), 4 * ONE);
    assert_eq!(u.y.size(), 3 * ONE);
    assert_eq!(u.z.size(), 2 * ONE);
    for p in [v(ONE / 2, ONE / 2, ONE / 2), v(3 * ONE, -ONE, 2 * ONE), v(0, 0, 0)] {
        assert!(u.x.contains(p.x) && u.y.contains(p.y) && u.z.contains(p.z));
    }
}

#[test]
fn union_with_empty_box_is_identity() {
    let a = AABB::new_from_extrema(v(-ONE, 2 * ONE, 0), v(ONE, 3 * ONE, ONE));
    let u = AABB::new_from_bbox(AABB::empty(), a);
    assert_interval(u.x, -ONE, ONE);
    assert_interval(u.y, 2 * ONE, 3 * ONE);
    assert_interval(u.z, 0, ONE);
}

#[test]
fn longest_axis_prefers_lower_index_on_ties() {
    let cube = AABB::new_from_extrema(v(0, 0, 0), v(ONE, ONE, ONE));
    assert_eq!(cube.longest_axis(), 0);
    let yz = AABB::new_from_extrema(v(0, 0, 0), v(ONE, 2 * ONE, 2 * ONE));
    assert_eq!(yz.longest_axis(), 1);
    let z = AABB::new_from_extrema(v(0, 0, 0), v(ONE, ONE, 3 * ONE));
    assert_eq!(z.longest_axis(), 2);
}

#[test]
fn slab_test_from_inside_hits_for_windows_around_zero() {
    let bbox = AABB::new_from_extrema(v(-ONE, -ONE, -ONE), v(ONE, ONE, ONE));
    let dirs = [v(ONE, 0, 0), v(0, -ONE, 0), v(ONE, 2 * ONE, -3 * ONE), v(0, 0, 0)];
    let windows = [
        Interval { min: 0, max: 5 * ONE },
        Interval { min: -3 * ONE, max: 0 },
        Interval { min: -1, max: 1 },
    ];
    for d in dirs {
        let ray = Ray { origin: v(ONE / 4, -ONE / 3, ONE / 2), dir: d, time: 0 };
        for w in windows {
            assert!(bbox.hit(&ray, w));
        }
    }
}

#[test]
fn slab_test_parallel_ray_outside_slab_misses() {
    let bbox = AABB::new_from_extrema(v(-ONE, -ONE, -ONE), v(ONE, ONE, ONE));
    let ray = Ray { origin: v(-5 * ONE, 2 * ONE, 0), dir: v(ONE, 0, 0), time: 0 };
    assert!(!bbox.hit(&ray, Interval::universe()));
    let inside = Ray { origin: v(-5 * ONE, ONE / 2, 0), dir: v(ONE, 0, 0), time: 0 };
    assert!(inside.origin.x < 0);
    assert!(bbox.hit(&inside, Interval::universe()));
}

#[test]
fn slab_test_respects_window() {
    let bbox = AABB::new_from_extrema(v(-ONE, -ONE, -ONE), v(ONE, ONE, ONE));
    let ray = Ray { origin: v(-5 * ONE, 0, 0), dir: v(ONE, 0, 0), time: 0 };
    // the ray is inside the box for parameters 4 to 6
    assert!(!bbox.hit(&ray, Interval { min: 0, max: 3 * ONE }));
    assert!(bbox.hit(&ray, Interval { min: 0, max: 5 * ONE }));
    assert!(!bbox.hit(&ray, Interval { min: 7 * ONE, max: 9 * ONE }));
    assert!(!bbox.hit(&ray, Interval { min: 0, max: 4 * ONE }));
}
