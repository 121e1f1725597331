use raytracing_rs::bvh::BVH_Node;
use raytracing_rs::camera::{background, ray_color};
use raytracing_rs::hittable::{Hit_Record, Hittable, Hittable_List, Sphere};
use raytracing_rs::interval::Interval;
use raytracing_rs::material::{pow5, reflectance, Dielectric, Lambertian, Material, Metal};
use raytracing_rs::ray::Ray;
use raytracing_rs::scalar::{LIMIT, ONE};
use raytracing_rs::vec3::{reflect, Vec3};

fn v(x: i64, y: i64, z: i64) -> Vec3 {
    Vec3::new(x, y, z)
}

fn record(normal: Vec3, front_face: bool, mat: Material) -> Hit_Record {
    Hit_Record { p: v(0, 0, 0), normal, t: ONE, front_face, mat }
}

#[test]
fn lambertian_adds_unit_draw_to_normal() {
    let m = Lambertian { albedo: v(ONE / 2, ONE / 4, ONE) };
    let rec = record(v(0, ONE, 0), true, Material::Lambertian(m));
    let ray = Ray { origin: v(0, ONE, 0), dir: v(0, -ONE, 0), time: 7 };
    let (att, sc) = m.scatter_with(&ray, &rec, v(ONE, 0, 0));
    assert_eq!((att.x, att.y, att.z), (ONE / 2, ONE / 4, ONE));
    let s = sc.unwrap();
    assert_eq!((s.dir.x, s.dir.y, s.dir.z), (ONE, ONE, 0));
    assert_eq!(s.time, 7);
}

#[test]
fn lambertian_falls_back_to_normal() {
    let m = Lambertian { albedo: v(ONE, ONE, ONE) };
    let rec = record(v(0, ONE, 0), true, Material::Lambertian(m));
    let ray = Ray { origin: v(0, ONE, 0), dir: v(0, -ONE, 0), time: 0 };
    let (_, sc) = m.scatter_with(&ray, &rec, v(0, -ONE, 0));
    let s = sc.unwrap();
    assert_eq!((s.dir.x, s.dir.y, s.dir.z), (0, ONE, 0));
    for _ in 0..100 {
        let (_, sc) = m.scatter(&ray, &rec);
        assert!(!sc.unwrap().dir.near_zero());
    }
}

#[test]
fn metal_without_fuzz_is_a_mirror() {
    let m = Metal { albedo: v(ONE, ONE, ONE), fuzz: 0 };
    let rec = record(v(0, ONE, 0), true, Material::Metal(m));
    let ray = Ray { origin: v(-ONE, ONE, 0), dir: v(3 * ONE, -4 * ONE, 0), time: 0 };
    for draw in [v(ONE, 0, 0), v(0, -ONE, 0), v(0, 0, ONE)] {
        let (_, sc) = m.scatter_with(&ray, &rec, draw);
        let s = sc.unwrap();
        assert_eq!((s.dir.x, s.dir.y, s.dir.z), (3 * ONE / 5, 4 * ONE / 5, 0));
    }
    let expected = reflect(ray.dir, rec.normal).unit_vector();
    for _ in 0..20 {
        let s = m.scatter(&ray, &rec).1.unwrap();
        assert_eq!((s.dir.x, s.dir.y, s.dir.z), (expected.x, expected.y, expected.z));
    }
}

#[test]
fn metal_with_fuzz_can_absorb() {
    let m = Metal { albedo: v(ONE, ONE, ONE), fuzz: ONE };
    let rec = record(v(0, ONE, 0), true, Material::Metal(m));
    let ray = Ray { origin: v(-ONE, ONE, 0), dir: v(ONE, -ONE / 100, 0), time: 0 };
    let (att, sc) = m.scatter_with(&ray, &rec, v(0, -ONE, 0));
    assert!(sc.is_none());
    assert_eq!(att.x, ONE);
}

#[test]
fn reflectance_at_normal_incidence_is_r0() {
    assert_eq!(pow5(0), 0);
    assert_eq!(pow5(ONE / 2), ONE / 32);
    // r0 for an index ratio of 1.5 is 0.04
    let r = reflectance(ONE, 3 * ONE / 2);
    assert_eq!(r, 2621);
    assert_eq!(reflectance(ONE, ONE), 0);
    assert!(reflectance(0, 3 * ONE / 2) > ONE * 9 / 10);
}

#[test]
fn dielectric_total_internal_reflection() {
    let m = Dielectric { refraction_index: 3 * ONE / 2 };
    // leaving the glass at a grazing angle: 1.5 * sin > 1
    let rec = record(v(0, ONE, 0), false, Material::Dielectric(m));
    let ray = Ray { origin: v(-ONE, ONE, 0), dir: v(4 * ONE, -ONE, 0), time: 0 };
    let unit = ray.dir.unit_vector();
    let mirror = reflect(unit, rec.normal);
    for u in [0, ONE / 2, ONE - 1] {
        let (att, sc) = m.scatter_with(&ray, &rec, u);
        assert_eq!((att.x, att.y, att.z), (ONE, ONE, ONE));
        let s = sc.unwrap();
        assert_eq!((s.dir.x, s.dir.y, s.dir.z), (mirror.x, mirror.y, mirror.z));
    }
}

#[test]
fn dielectric_refracts_at_normal_incidence_above_r0() {
    let m = Dielectric { refraction_index: 3 * ONE / 2 };
    let rec = record(v(0, ONE, 0), true, Material::Dielectric(m));
    let ray = Ray { origin: v(0, ONE, 0), dir: v(0, -ONE, 0), time: 0 };
    let s = m.scatter_with(&ray, &rec, ONE / 2).1.unwrap();
    assert_eq!((s.dir.x, s.dir.y, s.dir.z), (0, -ONE, 0));
    let s = m.scatter_with(&ray, &rec, 0).1.unwrap();
    assert_eq!((s.dir.x, s.dir.y, s.dir.z), (0, ONE, 0));
}

fn two_sphere_world() -> BVH_Node {
    let ground = Material::Lambertian(Lambertian { albedo: v(ONE / 2, ONE / 2, ONE / 2) });
    let center = Material::Lambertian(Lambertian { albedo: v(ONE / 2, ONE / 2, ONE / 2) });
    let mut world = Hittable_List::new();
    world.add(Sphere::new(v(0, 0, -ONE), ONE / 2, center));
    world.add(Sphere::new(v(0, -100 * ONE - ONE / 2, -ONE), 100 * ONE, ground));
    BVH_Node::new(&mut world)
}

#[test]
fn list_and_hierarchy_worlds_agree_on_misses() {
    let ground = Material::Lambertian(Lambertian { albedo: v(ONE / 2, ONE / 2, ONE / 2) });
    let mut list = Hittable_List::new();
    list.add(Sphere::new(v(0, 0, -ONE), ONE / 2, ground));
    let up = Ray { origin: v(0, 0, 0), dir: v(ONE, ONE, 0), time: 0 };
    let from_list = ray_color(&up, &list, 10);
    let bvh = BVH_Node::new(&mut list);
    let from_bvh = ray_color(&up, &bvh, 10);
    assert_eq!((from_list.x, from_list.y, from_list.z), (from_bvh.x, from_bvh.y, from_bvh.z));
    let c = ray_color(&up, &list, 0);
    assert_eq!((c.x, c.y, c.z), (0, 0, 0));
}

#[test]
fn depth_zero_is_black() {
    let world = two_sphere_world();
    for dir in [v(0, 0, -ONE), v(0, ONE, 0), v(ONE, -ONE, -ONE)] {
        let ray = Ray { origin: v(0, 0, 0), dir, time: 0 };
        let c = ray_color(&ray, &world, 0);
        assert_eq!((c.x, c.y, c.z), (0, 0, 0));
        let c = ray_color(&ray, &world, -3);
        assert_eq!((c.x, c.y, c.z), (0, 0, 0));
    }
}

#[test]
fn miss_shows_the_sky_gradient() {
    let world = two_sphere_world();
    let up = Ray { origin: v(0, 0, 0), dir: v(0, ONE, 0), time: 0 };
    let c = ray_color(&up, &world, 5);
    assert_eq!((c.x, c.y, c.z), (32768, 45875, ONE));
    let b = background(&up);
    assert_eq!((b.x, b.y, b.z), (c.x, c.y, c.z));
    let level = Ray { origin: v(0, 0, 0), dir: v(0, 0, ONE), time: 0 };
    let c = background(&level);
    assert_eq!((c.x, c.y, c.z), (49152, 55705, ONE));
}

#[test]
fn end_to_end_center_pixel() {
    let world = two_sphere_world();
    let ray = Ray { origin: v(0, 0, 0), dir: v(0, 0, -ONE), time: 0 };
    let rec = world.hit(&ray, Interval { min: 65, max: LIMIT }).unwrap();
    assert!(rec.front_face);
    assert_eq!(rec.t, ONE / 2);
    assert_eq!((rec.normal.x, rec.normal.y, rec.normal.z), (0, 0, ONE));
    let c = ray_color(&ray, &world, 1);
    assert_eq!((c.x, c.y, c.z), (0, 0, 0));
    let sky = background(&ray);
    assert_ne!((c.x, c.y, c.z), (sky.x, sky.y, sky.z));
    for _ in 0..10 {
        let c = ray_color(&ray, &world, 3);
        assert!(c.x >= 0 && c.x <= ONE / 2 && c.y >= 0 && c.z >= 0);
    }
}
