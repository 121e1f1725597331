use raytracing_rs::bvh::{BVH_Node, Child};
use raytracing_rs::hittable::{Hit_Record, Hittable, Hittable_List, Sphere, BOX_PAD};
use raytracing_rs::interval::Interval;
use raytracing_rs::material::{Lambertian, Material};
use raytracing_rs::ray::Ray;
use raytracing_rs::scalar::{LIMIT, ONE};
use raytracing_rs::vec3::Vec3;

fn v(x: i64, y: i64, z: i64) -> Vec3 {
    Vec3::new(x, y, z)
}

fn grey() -> Material {
    Material::Lambertian(Lambertian { albedo: v(ONE / 2, ONE / 2, ONE / 2) })
}

/// A small deterministic generator, so that the scenes are reproducible.
struct Lcg(u64);

impl Lcg {
    fn next(&mut self) -> u64 {
        self.0 = self.0.wrapping_mul(6364136223846793005).wrapping_add(1442695040888963407);
        self.0 >> 33
    }

    fn range(&mut self, lo: i64, hi: i64) -> i64 {
        lo + (self.next() % ((hi - lo) as u64)) as i64
    }
}

#[test]
fn sphere_root_selection() {
    let s = Sphere::new(v(0, 0, -5 * ONE), ONE, grey());
    let ray = Ray { origin: v(0, 0, 0), dir: v(0, 0, -ONE), time: 0 };
    let first = s.hit(&ray, Interval { min: 0, max: LIMIT }).expect("near root");
    assert_eq!(first.t, 4 * ONE);
    assert!(first.front_face);
    assert_eq!((first.normal.x, first.normal.y, first.normal.z), (0, 0, ONE));
    assert_eq!((first.p.x, first.p.y, first.p.z), (0, 0, -4 * ONE));
    let second = s.hit(&ray, Interval { min: 4 * ONE, max: LIMIT }).expect("far root");
    assert_eq!(second.t, 6 * ONE);
    assert!(!second.front_face);
    assert_eq!((second.normal.x, second.normal.y, second.normal.z), (0, 0, ONE));
    assert!(s.hit(&ray, Interval { min: 6 * ONE, max: LIMIT }).is_none());
    assert!(s.hit(&ray, Interval { min: 0, max: 4 * ONE }).is_none());
}

#[test]
fn sphere_miss_and_moving_center() {
    let s = Sphere::new(v(0, 0, -5 * ONE), ONE, grey());
    let ray = Ray { origin: v(0, 3 * ONE, 0), dir: v(0, 0, -ONE), time: 0 };
    assert!(s.hit(&ray, Interval::universe()).is_none());
    let m = Sphere::new_moving(v(0, 0, -5 * ONE), v(0, 2 * ONE, -5 * ONE), ONE, grey());
    let c = m.center_at(ONE / 2);
    assert_eq!((c.x, c.y, c.z), (0, ONE, -5 * ONE));
    let late = Ray { origin: v(0, 2 * ONE, 0), dir: v(0, 0, -ONE), time: ONE };
    assert_eq!(m.hit(&late, Interval { min: 0, max: LIMIT }).map(|h| h.t), Some(4 * ONE));
    let early = Ray { origin: v(0, 2 * ONE, 0), dir: v(0, 0, -ONE), time: 0 };
    assert!(m.hit(&early, Interval { min: 0, max: LIMIT }).is_none());
    let b = m.bounding_box();
    assert!(b.y.min < -ONE && b.y.max > 3 * ONE);
}

#[test]
fn face_normal_points_against_the_ray() {
    let mut rec = Hit_Record { p: v(0, 0, 0), normal: v(0, 0, 0), t: 0, front_face: false, mat: grey() };
    let ray = Ray { origin: v(0, 0, 0), dir: v(0, 0, -ONE), time: 0 };
    rec.set_face_normal(&ray, v(0, 0, ONE));
    assert!(rec.front_face);
    assert_eq!(rec.normal.z, ONE);
    rec.set_face_normal(&ray, v(0, 0, -ONE));
    assert!(!rec.front_face);
    assert_eq!(rec.normal.z, ONE);
}

#[test]
fn list_keeps_nearest_hit_and_union_box() {
    let mut list = Hittable_List::new();
    list.add(Sphere::new(v(0, 0, -10 * ONE), ONE, grey()));
    list.add(Sphere::new(v(0, 0, -5 * ONE), ONE, grey()));
    list.add(Sphere::new(v(0, 0, -20 * ONE), 2 * ONE, grey()));
    let ray = Ray { origin: v(0, 0, 0), dir: v(0, 0, -ONE), time: 0 };
    let h = list.hit(&ray, Interval { min: 0, max: LIMIT }).unwrap();
    assert_eq!(h.t, 4 * ONE);
    let b = list.bounding_box();
    assert!(b.z.min <= -22 * ONE && b.z.max >= -4 * ONE);
    list.clear();
    assert!(list.hit(&ray, Interval { min: 0, max: LIMIT }).is_none());
}

fn random_scene(rng: &mut Lcg, n: usize) -> Hittable_List {
    let mut list = Hittable_List::new();
    for _ in 0..n {
        let c = v(rng.range(-20 * ONE, 20 * ONE), rng.range(-20 * ONE, 20 * ONE), rng.range(-40 * ONE, -5 * ONE));
        let r = rng.range(ONE / 4, 3 * ONE);
        list.add(Sphere::new(c, r, grey()));
    }
    list
}

fn check_equivalence(seed: u64, n: usize) {
    let mut rng = Lcg(seed);
    let mut list = random_scene(&mut rng, n);
    let bvh = BVH_Node::new(&mut list);
    let window = Interval { min: ONE / 1000, max: LIMIT };
    let mut hits = 0;
    for k in 0..300 {
        let origin = v(rng.range(-ONE, ONE), rng.range(-ONE, ONE), rng.range(-ONE, ONE));
        let dir = if k % 2 == 0 {
            let target = list.objects[rng.range(0, n as i64) as usize].center.origin;
            target.sub(origin)
        } else {
            v(rng.range(-ONE, ONE), rng.range(-ONE, ONE), rng.range(-2 * ONE, ONE / 4))
        };
        let ray = Ray { origin, dir, time: 0 };
        let a = bvh.hit(&ray, window).map(|h| h.t);
        let b = list.hit(&ray, window).map(|h| h.t);
        assert_eq!(a, b, "scene of {} spheres, seed {}", n, seed);
        if a.is_some() {
            hits += 1;
        }
    }
    assert!(hits > 0);
}

#[test]
fn bvh_matches_list_on_random_scenes() {
    for n in [1usize, 2, 3, 100] {
        for seed in 1..4u64 {
            check_equivalence(seed * 7919 + n as u64, n);
        }
    }
}

#[test]
fn bvh_shape_for_small_counts() {
    let mut one = Hittable_List::new();
    one.add(Sphere::new(v(0, 0, -5 * ONE), ONE, grey()));
    let b1 = BVH_Node::new(&mut one);
    let root = b1.nodes[b1.root];
    assert_eq!(root.left, Child::Leaf(0));
    assert_eq!(root.right, Child::Leaf(0));
    let ray = Ray { origin: v(0, 0, 0), dir: v(0, 0, -ONE), time: 0 };
    assert_eq!(b1.hit(&ray, Interval { min: 0, max: LIMIT }).map(|h| h.t), Some(4 * ONE));

    let mut five = Hittable_List::new();
    for k in 0..5 {
        five.add(Sphere::new(v((4 - k) * 3 * ONE, 0, -5 * ONE), ONE, grey()));
    }
    let b5 = BVH_Node::new(&mut five);
    assert_eq!(b5.nodes.len(), 5);
    let root = b5.nodes[b5.root];
    assert_eq!((root.start, root.end), (0, 5));
    // sorted along x, the longest axis, and split 2 / 3
    for k in 0..4 {
        assert!(five.objects[k].center.origin.x < five.objects[k + 1].center.origin.x);
    }
    match root.left {
        Child::Node(j) => assert_eq!((b5.nodes[j].start, b5.nodes[j].end), (0, 2)),
        Child::Leaf(_) => panic!("left child should be a branch"),
    }
    let bb = b5.bounding_box();
    assert!(bb.x.min < -ONE && bb.x.max > 13 * ONE);
}

#[test]
fn bvh_keeps_small_ranges_in_place_and_duplicates() {
    let mut two = Hittable_List::new();
    two.add(Sphere::new(v(9 * ONE, 0, -5 * ONE), ONE, grey()));
    two.add(Sphere::new(v(0, 0, -5 * ONE), ONE, grey()));
    let b2 = BVH_Node::new(&mut two);
    assert_eq!(two.objects[0].center.origin.x, 9 * ONE);
    assert_eq!(two.objects[1].center.origin.x, 0);
    let bb = b2.bounding_box();
    let lb = two.bounding_box();
    assert_eq!((bb.x.min, bb.x.max, bb.y.min, bb.y.max, bb.z.min, bb.z.max), (lb.x.min, lb.x.max, lb.y.min, lb.y.max, lb.z.min, lb.z.max));

    let mut dup = Hittable_List::new();
    for x in [4, 1, 4, 4, 2] {
        dup.add(Sphere::new(v(x * ONE, 0, -5 * ONE), ONE, grey()));
    }
    let before = dup.bounding_box();
    let bd = BVH_Node::new(&mut dup);
    let mut xs: Vec<i64> = dup.objects.iter().map(|s| s.center.origin.x / ONE).collect();
    assert_eq!(xs, vec![1, 2, 4, 4, 4]);
    xs.dedup();
    assert_eq!(xs, vec![1, 2, 4]);
    let after = bd.bounding_box();
    assert_eq!((after.x.min, after.x.max), (before.x.min, before.x.max));
    assert_eq!(before.x.min, 0 - BOX_PAD);
    assert_eq!(before.x.max, 5 * ONE + BOX_PAD);
}
