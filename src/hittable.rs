use vstd::prelude::*;
use crate::aabb::{slab_hit, AABB};
use crate::interval::Interval;
use crate::material::Material;
use crate::ray::Ray;
use crate::scalar::{clip, div_spec, lemma_isqrt_exists, mul_spec, sqrt_spec, clip_wide, div_fx, mul_fx, sqrt_fx, LIMIT, ONE};
use crate::vec3::{dot, dot_spec, lemma_length_squared_nonneg, vadd, vdiv, vneg, vscale, vsub, Point3, Vec3};

verus! {

/// What a ray meets: the point, the normal facing the ray, the parameter,
/// whether the ray arrived from outside, and the material there.
#[derive(Clone, Copy, Debug)]
pub struct Hit_Record {
    pub p: Point3,
    pub normal: Vec3,
    pub t: i64,
    pub front_face: bool,
    pub mat: Material,
}

/// Extra width on each side of a sphere's box, so that the box still holds
/// the rounded hit points of the sphere.
pub const BOX_PAD: i64 = 64;

/// A sphere whose center moves along `center` over the shutter interval.
#[derive(Clone, Copy, Debug)]
pub struct Sphere {
    pub center: Ray,
    pub radius: i64,
    pub mat: Material,
    pub bbox: AABB,
}

/// The box of a sphere at rest at `c`: the center give or take the radius and
/// the padding, on every axis.
pub open spec fn padded_box(c: Point3, radius: int) -> AABB {
    let rv = Vec3::of(radius + BOX_PAD, radius + BOX_PAD, radius + BOX_PAD);
    let lo = vsub(c, rv);
    let hi = vadd(c, rv);
    AABB {
        x: Interval { min: lo.x, max: hi.x },
        y: Interval { min: lo.y, max: hi.y },
        z: Interval { min: lo.z, max: hi.z },
    }
}

/// The front face flag and the normal turned to face the ray.
pub open spec fn face_normal(r: Ray, outward: Vec3) -> (bool, Vec3) {
    if dot_spec(r.dir, outward) < 0 {
        (true, outward)
    } else {
        (false, vneg(outward))
    }
}

impl Sphere {
    /// The box that the sphere's box must be: the padded boxes at both ends
    /// of its motion.
    #[verifier::opaque]
    pub open spec fn motion_box(self) -> AABB {
        AABB::union_spec(
            padded_box(self.center.origin, self.radius as int),
            padded_box(self.center.at_spec(ONE as int), self.radius as int),
        )
    }

    pub open spec fn wf(self) -> bool {
        &&& self.center.wf()
        &&& self.mat.wf()
        &&& 0 < self.radius <= LIMIT
        &&& self.bbox == self.motion_box()
        &&& self.bbox.wf()
        &&& self.bbox.valid()
    }

    pub open spec fn center_spec(self, time: int) -> Point3 {
        self.center.at_spec(time)
    }

    /// The two roots of the sphere's quadratic along the ray, smaller first,
    /// or nothing when the discriminant is negative or the direction is zero.
    pub open spec fn roots(self, r: Ray) -> Option<(int, int)> {
        let oc = vsub(self.center_spec(r.time as int), r.origin);
        let a = dot_spec(r.dir, r.dir);
        let h = dot_spec(r.dir, oc);
        let c = clip(dot_spec(oc, oc) - mul_spec(self.radius as int, self.radius as int));
        let disc = clip(mul_spec(h, h) - mul_spec(a, c));
        if disc < 0 || a == 0 {
            None
        } else {
            let sq = sqrt_spec(disc);
            Some((div_spec(clip(h - sq), a), div_spec(clip(h + sq), a)))
        }
    }

    /// The parameter of the nearest hit strictly inside `(lo, hi)`: the
    /// smaller root if it lies there, else the larger one. A root counts only
    /// if the ray meets the sphere's own padded box within `(lo, t + 1)`:
    /// the roots are rounded (and saturate for far-off values), and this is
    /// the numerical policy that keeps every reported hit inside the box
    /// that a hierarchy culls by, so that culling never loses a hit.
    pub open spec fn hit_t(self, r: Ray, lo: int, hi: int) -> Option<int> {
        match self.roots(r) {
            None => None,
            Some(rs) => {
                let t = if lo < rs.0 < hi {
                    rs.0
                } else {
                    rs.1
                };
                if lo < t < hi && slab_hit(self.bbox, r, Interval { min: lo as i64, max: (t + 1) as i64 }) {
                    Some(t)
                } else {
                    None
                }
            },
        }
    }

    /// The record of a hit at parameter `t`.
    pub open spec fn record(self, r: Ray, t: int) -> Hit_Record {
        let p = r.at_spec(t);
        let outward = vdiv(vsub(p, self.center_spec(r.time as int)), self.radius as int);
        let (front, n) = face_normal(r, outward);
        Hit_Record { p, normal: n, t: t as i64, front_face: front, mat: self.mat }
    }
}

impl Hit_Record {
    /// Records whether the ray arrived from outside and turns the normal to
    /// face it.
    pub fn set_face_normal(&mut self, r: &Ray, outward_normal: Vec3)
        requires
            r.wf(),
            outward_normal.wf(),
        ensures
            (final(self).front_face, final(self).normal) == face_normal(*r, outward_normal),
            final(self).p == old(self).p,
            final(self).t == old(self).t,
            final(self).mat == old(self).mat,
    {
        self.front_face = dot(r.dir, outward_normal) < 0;
        self.normal = if self.front_face {
            outward_normal
        } else {
            outward_normal.neg()
        };
    }
}

/// The box of a sphere at rest at `center`.
fn padded(center: Point3, radius: i64) -> (b: AABB)
    requires
        center.wf(),
        0 < radius <= LIMIT,
    ensures
        b == padded_box(center, radius as int),
        b.wf(),
        b.valid(),
{
    let rvec = Vec3::new(radius + BOX_PAD, radius + BOX_PAD, radius + BOX_PAD);
    AABB::new_from_extrema(center.sub(rvec), center.add(rvec))
}

impl Sphere {
    /// A sphere at rest.
    pub fn new(center: Point3, radius: i64, mat: Material) -> (s: Sphere)
        requires
            center.wf(),
            mat.wf(),
            0 < radius <= LIMIT,
        ensures
            s.wf(),
            s.center.origin == center,
            s.center.dir == (Vec3 { x: 0, y: 0, z: 0 }),
            s.radius == radius,
            s.mat == mat,
            s.bbox == padded_box(center, radius as int),
    {
        let bbox = padded(center, radius);
        let s = Sphere { center: Ray { origin: center, dir: Vec3 { x: 0, y: 0, z: 0 }, time: 0 }, radius, mat, bbox };
        assert(vscale(ONE as int, Vec3 { x: 0, y: 0, z: 0 }) == Vec3 { x: 0, y: 0, z: 0 });
        assert(s.center.at_spec(ONE as int) == center);
        assert(AABB::union_spec(bbox, bbox) == bbox);
        proof {
            reveal(Sphere::motion_box);
        }
        s
    }

    /// A sphere whose center moves from `center1` at time zero to `center2`
    /// at time one.
    pub fn new_moving(center1: Point3, center2: Point3, radius: i64, mat: Material) -> (s: Sphere)
        requires
            center1.wf(),
            center2.wf(),
            mat.wf(),
            0 < radius <= LIMIT,
        ensures
            s.wf(),
            s.center.origin == center1,
            s.center.dir == vsub(center2, center1),
            s.radius == radius,
            s.mat == mat,
            s.bbox == AABB::union_spec(padded_box(center1, radius as int), padded_box(s.center.at_spec(ONE as int), radius as int)),
    {
        let motion = Ray { origin: center1, dir: center2.sub(center1), time: 0 };
        let end = motion.at(ONE);
        let box1 = padded(center1, radius);
        let box2 = padded(end, radius);
        let bbox = AABB::new_from_bbox(box1, box2);
        let s = Sphere { center: motion, radius, mat, bbox };
        assert(bbox.wf() && bbox.valid());
        proof {
            reveal(Sphere::motion_box);
        }
        assert(s.bbox == s.motion_box());
        s
    }

    pub fn center_at(&self, time: i64) -> (c: Point3)
        ensures
            c == self.center_spec(time as int),
            c.wf(),
    {
        self.center.at(time)
    }

}

/// The parameter of a reported hit.
pub open spec fn param_of(res: Option<Hit_Record>) -> Option<int> {
    match res {
        Some(rec) => Some(rec.t as int),
        None => None,
    }
}

/// A surface that rays can be intersected with: it reports the nearest hit
/// within a window and a box that holds all of it.
pub trait Hittable {
    spec fn well_formed(&self) -> bool;

    /// The hit that `hit` reports within `(lo, hi)`.
    spec fn hit_spec(&self, r: Ray, lo: int, hi: int) -> Option<Hit_Record>;

    spec fn box_spec(&self) -> AABB;

    /// `t` is the parameter of the nearest hit on the surface within
    /// `(lo, hi)`, or nothing where the surface has no hit there.
    spec fn nearest_spec(&self, r: Ray, lo: int, hi: int, t: Option<int>) -> bool;

    fn hit(&self, r: &Ray, ray_t: Interval) -> (res: Option<Hit_Record>)
        requires
            self.well_formed(),
            r.wf(),
            ray_t.wf(),
        ensures
            res == self.hit_spec(*r, ray_t.min as int, ray_t.max as int),
            self.nearest_spec(*r, ray_t.min as int, ray_t.max as int, param_of(res)),
            res matches Some(rec) ==> rec.p.wf() && rec.normal.wf() && rec.mat.wf(),
    ;

    fn bounding_box(&self) -> (b: AABB)
        requires
            self.well_formed(),
        ensures
            b == self.box_spec(),
    ;
}

impl Hittable for Sphere {
    open spec fn well_formed(&self) -> bool {
        self.wf()
    }

    open spec fn nearest_spec(&self, r: Ray, lo: int, hi: int, t: Option<int>) -> bool {
        is_nearest(seq![*self], r, lo, hi, 0, 1, t)
    }

    /// The record of the hit at `hit_t`, if any.
    open spec fn hit_spec(&self, r: Ray, lo: int, hi: int) -> Option<Hit_Record> {
        match self.hit_t(r, lo, hi) {
            None => None,
            Some(t) => Some(self.record(r, t)),
        }
    }

    open spec fn box_spec(&self) -> AABB {
        self.bbox
    }

    fn bounding_box(&self) -> (b: AABB)
    {
        self.bbox
    }

    /// The nearest intersection with a parameter strictly inside `ray_t`.
    fn hit(&self, r: &Ray, ray_t: Interval) -> (res: Option<Hit_Record>)
    {
        proof {
            lemma_nearest_single(seq![*self], *r, ray_t.min as int, ray_t.max as int, 0);
            assert(seq![*self][0] == *self);
        }
        let center = self.center_at(r.time);
        let oc = center.sub(r.origin);
        let a = dot(r.dir, r.dir);
        let h = dot(r.dir, oc);
        let c = clip_wide(dot(oc, oc) as i128 - mul_fx(self.radius, self.radius) as i128);
        let discriminant = clip_wide(mul_fx(h, h) as i128 - mul_fx(a, c) as i128);
        if discriminant < 0 || a == 0 {
            return None;
        }
        let sqrtd = sqrt_fx(discriminant);
        let mut root = div_fx(clip_wide(h as i128 - sqrtd as i128), a);
        if !ray_t.surrounds(root) {
            root = div_fx(clip_wide(h as i128 + sqrtd as i128), a);
            if !ray_t.surrounds(root) {
                return None;
            }
        }
        if !self.bbox.hit(r, Interval { min: ray_t.min, max: root + 1 }) {
            return None;
        }
        let p = r.at(root);
        let outward_normal = p.sub(center).div(self.radius);
        let mut rec = Hit_Record { p, normal: outward_normal, t: root, front_face: true, mat: self.mat };
        rec.set_face_normal(r, outward_normal);
        Some(rec)
    }
}

impl Hittable for Hittable_List {
    open spec fn well_formed(&self) -> bool {
        self.objects_wf()
    }

    open spec fn nearest_spec(&self, r: Ray, lo: int, hi: int, t: Option<int>) -> bool {
        is_nearest(self.objects@, r, lo, hi, 0, self.objects@.len() as int, t)
    }

    /// The record of the hit that the linear scan keeps last.
    open spec fn hit_spec(&self, r: Ray, lo: int, hi: int) -> Option<Hit_Record> {
        scan_record(self.objects@, r, scan(self.objects@, r, lo, hi, self.objects@.len() as int))
    }

    open spec fn box_spec(&self) -> AABB {
        self.bbox
    }

    fn bounding_box(&self) -> (b: AABB)
    {
        self.bbox
    }

    /// The nearest hit over all spheres within `ray_t`.
    fn hit(&self, r: &Ray, ray_t: Interval) -> (res: Option<Hit_Record>)
    {
        let ghost objs = self.objects@;
        let ghost lo = ray_t.min as int;
        let ghost hi = ray_t.max as int;
        let mut closest_so_far: i64 = ray_t.max;
        let mut rec: Option<Hit_Record> = None;
        let mut i: usize = 0;
        while i < self.objects.len()
            invariant
                self.objects_wf(),
                r.wf(),
                ray_t.wf(),
                objs == self.objects@,
                lo == ray_t.min,
                hi == ray_t.max,
                0 <= i <= objs.len(),
                closest_so_far == match scan(objs, *r, lo, hi, i as int) {
                    Some(p) => p.0,
                    None => hi,
                },
                rec == scan_record(objs, *r, scan(objs, *r, lo, hi, i as int)),
            decreases objs.len() - i,
        {
            proof {
                lemma_scan_bounds(objs, *r, lo, hi, i as int);
            }
            let object = &self.objects[i];
            let found = object.hit(r, Interval { min: ray_t.min, max: closest_so_far });
            match found {
                Some(tmp) => {
                    closest_so_far = tmp.t;
                    rec = Some(tmp);
                },
                None => {},
            }
            i = i + 1;
        }
        proof {
            lemma_scan_bounds(objs, *r, lo, hi, objs.len() as int);
            let found = scan(objs, *r, lo, hi, objs.len() as int);
            if found is Some {
                assert(objs[found->Some_0.1].wf());
            }
            lemma_scan_nearest(objs, *r, lo, hi, objs.len() as int);
            assert(param_of(rec) == first(found));
        }
        rec
    }
}

/// The box that contains nothing.
pub open spec fn empty_box() -> AABB {
    AABB {
        x: Interval { min: LIMIT, max: (-LIMIT) as i64 },
        y: Interval { min: LIMIT, max: (-LIMIT) as i64 },
        z: Interval { min: LIMIT, max: (-LIMIT) as i64 },
    }
}

/// The union of the boxes of the spheres.
pub open spec fn union_all(objs: Seq<Sphere>) -> AABB
    decreases objs.len(),
{
    if objs.len() == 0 {
        empty_box()
    } else {
        AABB::union_spec(union_all(objs.drop_last()), objs.last().bbox)
    }
}

/// The linear scan over the first `n` spheres: the parameter of the hit kept
/// so far and the index of its sphere. Each sphere is searched only closer
/// than the hit kept before it.
pub open spec fn scan(objs: Seq<Sphere>, r: Ray, lo: int, hi: int, n: int) -> Option<(int, int)>
    decreases n,
{
    if n <= 0 {
        None
    } else {
        let prev = scan(objs, r, lo, hi, n - 1);
        let closest = match prev {
            Some(p) => p.0,
            None => hi,
        };
        match objs[n - 1].hit_t(r, lo, closest) {
            Some(t) => Some((t, n - 1)),
            None => prev,
        }
    }
}

/// The record that a scan result stands for.
pub open spec fn scan_record(objs: Seq<Sphere>, r: Ray, found: Option<(int, int)>) -> Option<Hit_Record> {
    match found {
        Some(p) => Some(objs[p.1].record(r, p.0)),
        None => None,
    }
}

/// An ordered collection of spheres, searched one by one, with the union of
/// their boxes.
pub struct Hittable_List {
    pub objects: Vec<Sphere>,
    pub bbox: AABB,
}

proof fn lemma_scan_bounds(objs: Seq<Sphere>, r: Ray, lo: int, hi: int, n: int)
    requires
        0 <= n <= objs.len(),
    ensures
        match scan(objs, r, lo, hi, n) {
            Some(p) => lo < p.0 < hi && 0 <= p.1 < n,
            None => true,
        },
    decreases n,
{
    if n > 0 {
        lemma_scan_bounds(objs, r, lo, hi, n - 1);
    }
}

impl Hittable_List {
    pub open spec fn objects_wf(self) -> bool {
        forall|i: int| 0 <= i < self.objects@.len() ==> (#[trigger] self.objects@[i]).wf()
    }

    /// Every sphere is well formed and the box is the union of theirs.
    pub open spec fn wf(self) -> bool {
        &&& self.objects_wf()
        &&& self.bbox == union_all(self.objects@)
    }

    pub fn new() -> (l: Hittable_List)
        ensures
            l.wf(),
            l.objects@.len() == 0,
    {
        Hittable_List { objects: Vec::new(), bbox: AABB::empty() }
    }

    /// Appends a sphere and widens the box to hold it.
    pub fn add(&mut self, object: Sphere)
        requires
            old(self).wf(),
            object.wf(),
        ensures
            final(self).wf(),
            final(self).objects@ == old(self).objects@.push(object),
    {
        self.objects.push(object);
        self.bbox = AABB::new_from_bbox(self.bbox, object.bbox);
        assert(self.objects@.drop_last() == old(self).objects@);
    }

    pub fn clear(&mut self)
        ensures
            final(self).wf(),
            final(self).objects@.len() == 0,
    {
        self.objects.clear();
        self.bbox = AABB::empty();
    }

}

/// The smaller root comes first.
pub proof fn lemma_roots_ordered(s: Sphere, r: Ray)
    ensures
        s.roots(r) matches Some(rs) ==> rs.0 <= rs.1,
{
    if s.roots(r) is Some {
        let oc = vsub(s.center_spec(r.time as int), r.origin);
        let a = dot_spec(r.dir, r.dir);
        let h = dot_spec(r.dir, oc);
        let c = clip(dot_spec(oc, oc) - mul_spec(s.radius as int, s.radius as int));
        let disc = clip(mul_spec(h, h) - mul_spec(a, c));
        lemma_length_squared_nonneg(r.dir);
        assert(disc * ONE >= 0) by (nonlinear_arith)
            requires disc >= 0;
        lemma_isqrt_exists(disc * ONE);
        let sq = sqrt_spec(disc);
        assert(sq >= 0);
        assert(clip(h - sq) <= clip(h + sq));
        assert(clip(h - sq) * ONE <= clip(h + sq) * ONE) by (nonlinear_arith)
            requires clip(h - sq) <= clip(h + sq);
        vstd::arithmetic::div_mod::lemma_div_is_ordered(clip(h - sq) * ONE, clip(h + sq) * ONE, a);
    }
}

/// Searching a sphere below a smaller upper bound finds the hit found below
/// the larger one if it lies below the smaller, and nothing otherwise.
pub proof fn lemma_hit_t_shrink(s: Sphere, r: Ray, lo: int, c: int, hi: int)
    requires
        c <= hi,
    ensures
        s.hit_t(r, lo, c) == (match s.hit_t(r, lo, hi) {
            Some(t) => if t < c {
                Some(t)
            } else {
                None
            },
            None => None,
        }),
{
    lemma_roots_ordered(s, r);
}

/// The parameter of a found hit.
pub open spec fn first(found: Option<(int, int)>) -> Option<int> {
    match found {
        Some(p) => Some(p.0),
        None => None,
    }
}

/// The upper bound left after a hit: its parameter, or `hi` if none.
pub open spec fn closer(found: Option<int>, hi: int) -> int {
    match found {
        Some(t) => t,
        None => hi,
    }
}

/// `res` is the parameter of the nearest hit within `(lo, hi)` over the
/// spheres `objs[a..b]`, or nothing if none of them is hit there.
pub open spec fn is_nearest(objs: Seq<Sphere>, r: Ray, lo: int, hi: int, a: int, b: int, res: Option<int>) -> bool {
    match res {
        None => forall|k: int| a <= k < b ==> (#[trigger] objs[k].hit_t(r, lo, hi)) is None,
        Some(t) => {
            &&& exists|k: int| a <= k < b && #[trigger] objs[k].hit_t(r, lo, hi) == Some(t)
            &&& forall|k: int|
                a <= k < b && (#[trigger] objs[k].hit_t(r, lo, hi)) is Some ==> t <= objs[k].hit_t(
                    r,
                    lo,
                    hi,
                )->Some_0
        },
    }
}

pub proof fn lemma_nearest_single(objs: Seq<Sphere>, r: Ray, lo: int, hi: int, k: int)
    ensures
        is_nearest(objs, r, lo, hi, k, k + 1, objs[k].hit_t(r, lo, hi)),
{
    if objs[k].hit_t(r, lo, hi) is Some {
        assert(objs[k].hit_t(r, lo, hi) == Some(objs[k].hit_t(r, lo, hi)->Some_0));
    }
}

/// The nearest hit over two adjacent runs of spheres, the second searched
/// only closer than the first run's hit: the second run's hit if it has
/// one, else the first's.
pub proof fn lemma_nearest_combine(
    objs: Seq<Sphere>,
    r: Ray,
    lo: int,
    hi: int,
    a: int,
    b: int,
    e: int,
    res_l: Option<int>,
    res_r: Option<int>,
)
    requires
        a <= b <= e,
        is_nearest(objs, r, lo, hi, a, b, res_l),
        is_nearest(objs, r, lo, closer(res_l, hi), b, e, res_r),
    ensures
        is_nearest(
            objs,
            r,
            lo,
            hi,
            a,
            e,
            match res_r {
                Some(t) => Some(t),
                None => res_l,
            },
        ),
{
    let c = closer(res_l, hi);
    if res_l is Some {
        let k = choose|k: int| a <= k < b && #[trigger] objs[k].hit_t(r, lo, hi) == res_l;
        assert(c < hi);
    }
    assert forall|k: int| b <= k < e implies objs[k].hit_t(r, lo, c) == (match objs[k].hit_t(r, lo, hi) {
        Some(t) => if t < c {
            Some(t)
        } else {
            None
        },
        None => None,
    }) by {
        lemma_hit_t_shrink(objs[k], r, lo, c, hi);
    }
    match res_r {
        Some(tr) => {
            let k = choose|k: int| b <= k < e && #[trigger] objs[k].hit_t(r, lo, c) == Some(tr);
            assert(objs[k].hit_t(r, lo, hi) == Some(tr));
            assert(tr < c);
            assert forall|k2: int| a <= k2 < e && (#[trigger] objs[k2].hit_t(r, lo, hi)) is Some implies tr
                <= objs[k2].hit_t(r, lo, hi)->Some_0 by {
                if k2 >= b {
                    let t2 = objs[k2].hit_t(r, lo, hi)->Some_0;
                    if t2 < c {
                        assert(objs[k2].hit_t(r, lo, c) == Some(t2));
                    }
                }
            }
        },
        None => {
            match res_l {
                Some(tl) => {
                    let k = choose|k: int| a <= k < b && #[trigger] objs[k].hit_t(r, lo, hi) == Some(tl);
                    assert forall|k2: int| a <= k2 < e && (#[trigger] objs[k2].hit_t(r, lo, hi)) is Some implies tl
                        <= objs[k2].hit_t(r, lo, hi)->Some_0 by {
                        if k2 >= b {
                            assert(objs[k2].hit_t(r, lo, c) is None);
                        }
                    }
                },
                None => {
                    assert forall|k2: int| a <= k2 < e implies (#[trigger] objs[k2].hit_t(r, lo, hi)) is None by {
                        if k2 >= b {
                            assert(objs[k2].hit_t(r, lo, c) is None);
                        }
                    }
                },
            }
        },
    }
}

/// The linear scan finds the nearest hit over all the spheres it has seen.
pub proof fn lemma_scan_nearest(objs: Seq<Sphere>, r: Ray, lo: int, hi: int, n: int)
    requires
        0 <= n <= objs.len(),
    ensures
        is_nearest(objs, r, lo, hi, 0, n, first(scan(objs, r, lo, hi, n))),
    decreases n,
{
    if n > 0 {
        lemma_scan_nearest(objs, r, lo, hi, n - 1);
        let prev = first(scan(objs, r, lo, hi, n - 1));
        lemma_nearest_single(objs, r, lo, closer(prev, hi), n - 1);
        lemma_nearest_combine(objs, r, lo, hi, 0, n - 1, n, prev, objs[n - 1].hit_t(r, lo, closer(prev, hi)));
    }
}

/// There is only one nearest hit parameter.
pub proof fn lemma_nearest_unique(objs: Seq<Sphere>, r: Ray, lo: int, hi: int, a: int, b: int, x: Option<int>, y: Option<int>)
    requires
        is_nearest(objs, r, lo, hi, a, b, x),
        is_nearest(objs, r, lo, hi, a, b, y),
    ensures
        x == y,
{
    if x is Some {
        let k = choose|k: int| a <= k < b && #[trigger] objs[k].hit_t(r, lo, hi) == x;
        if y is Some {
            let k2 = choose|k: int| a <= k < b && #[trigger] objs[k].hit_t(r, lo, hi) == y;
        }
    } else if y is Some {
        let k2 = choose|k: int| a <= k < b && #[trigger] objs[k].hit_t(r, lo, hi) == y;
    }
}

/// Of two roots inside the window, a search from the window's start returns
/// the smaller, and a search from the smaller root returns the larger (where
/// the sphere's box is met up to each root).
pub proof fn lemma_root_selection(s: Sphere, r: Ray, lo: int, hi: int)
    requires
        s.roots(r) matches Some(rs) && lo < rs.0 < rs.1 < hi,
        slab_hit(s.bbox, r, Interval { min: lo as i64, max: (s.roots(r)->Some_0.0 + 1) as i64 }),
        slab_hit(
            s.bbox,
            r,
            Interval { min: s.roots(r)->Some_0.0 as i64, max: (s.roots(r)->Some_0.1 + 1) as i64 },
        ),
    ensures
        s.hit_t(r, lo, hi) == Some(s.roots(r)->Some_0.0),
        s.hit_t(r, s.roots(r)->Some_0.0, hi) == Some(s.roots(r)->Some_0.1),
{
}

} // verus!
