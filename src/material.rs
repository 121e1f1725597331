use vstd::prelude::*;
use crate::hittable::Hit_Record;
use crate::ray::Ray;
use crate::scalar::{clip, clip_wide, div_fx, div_spec, mul_fx, mul_spec, sqrt_fx, sqrt_spec, LIMIT, ONE};
use crate::utils::random_double;
use crate::vec3::{
    dot, dot_spec, is_unit_draw, lemma_unit_wf, lemma_unit_x_is_draw, min_int, near_zero_spec, reflect, reflect_spec, refract, refract_spec, unit_spec,
    vadd, vneg, vscale, Color, Vec3,
};

verus! {

/// Diffuse surface: scatters around the normal, tinted by `albedo`.
#[derive(Clone, Copy, Debug)]
pub struct Lambertian {
    pub albedo: Color,
}

/// Reflective surface; `fuzz` in `[0, ONE]` blurs the mirror image.
#[derive(Clone, Copy, Debug)]
pub struct Metal {
    pub albedo: Color,
    pub fuzz: i64,
}

/// Largest index of refraction a dielectric may have.
pub const MAX_IOR: i64 = 4294967296;

/// Clear refractive surface with the given index of refraction.
#[derive(Clone, Copy, Debug)]
pub struct Dielectric {
    pub refraction_index: i64,
}

/// The surface response attached to a primitive.
#[derive(Clone, Copy, Debug)]
pub enum Material {
    Lambertian(Lambertian),
    Metal(Metal),
    Dielectric(Dielectric),
}

/// The diffuse direction: the normal plus a unit draw, or the normal alone
/// where that sum all but vanishes.
pub open spec fn lambertian_dir(normal: Vec3, unit: Vec3) -> Vec3 {
    if near_zero_spec(vadd(normal, unit)) {
        normal
    } else {
        vadd(normal, unit)
    }
}

/// The metal direction: the unit mirror direction, pushed by `fuzz` times a
/// unit draw.
pub open spec fn metal_dir(dir: Vec3, normal: Vec3, fuzz: int, unit: Vec3) -> Vec3 {
    vadd(unit_spec(reflect_spec(dir, normal)), vscale(fuzz, unit))
}

/// `x^5` in fixed point.
pub open spec fn pow5_spec(x: int) -> int {
    mul_spec(mul_spec(mul_spec(mul_spec(x, x), x), x), x)
}

/// Reflectance at normal incidence for the index ratio `ior`.
pub open spec fn r0_spec(ior: int) -> int {
    let q = div_spec(ONE - ior, ONE + ior);
    mul_spec(q, q)
}

/// Schlick's approximation of the reflectance.
pub open spec fn reflectance_spec(cosine: int, ior: int) -> int {
    let r0 = r0_spec(ior);
    clip(r0 + mul_spec(ONE - r0, pow5_spec(clip(ONE - cosine))))
}

/// The ratio of refraction indices across the boundary the ray crosses.
pub open spec fn relative_ior(front_face: bool, ior: int) -> int {
    if front_face {
        div_spec(ONE as int, ior)
    } else {
        ior
    }
}

pub open spec fn cos_theta_spec(unit_dir: Vec3, normal: Vec3) -> int {
    min_int(dot_spec(vneg(unit_dir), normal), ONE as int)
}

pub open spec fn sin_theta_spec(cos_theta: int) -> int {
    let s2 = clip(ONE - mul_spec(cos_theta, cos_theta));
    if s2 < 0 {
        0
    } else {
        sqrt_spec(s2)
    }
}

/// Snell's law has no solution: the ray must reflect.
pub open spec fn cannot_refract(ri: int, sin_theta: int) -> bool {
    mul_spec(ri, sin_theta) > ONE
}

/// The dielectric direction for a uniform draw `u` in `[0, ONE)`.
pub open spec fn dielectric_dir(dir: Vec3, front_face: bool, normal: Vec3, ior: int, u: int) -> Vec3 {
    let ri = relative_ior(front_face, ior);
    let unit_dir = unit_spec(dir);
    let cos_theta = cos_theta_spec(unit_dir, normal);
    let sin_theta = sin_theta_spec(cos_theta);
    if cannot_refract(ri, sin_theta) || reflectance_spec(cos_theta, ri) > u {
        reflect_spec(unit_dir, normal)
    } else {
        refract_spec(unit_dir, normal, ri)
    }
}

proof fn lemma_relative_ior_range(front_face: bool, ior: int)
    requires
        0 < ior <= MAX_IOR,
    ensures
        0 < relative_ior(front_face, ior) <= LIMIT,
{
    vstd::arithmetic::div_mod::lemma_div_is_ordered(ior, ONE * ONE, ior);
    vstd::arithmetic::div_mod::lemma_div_by_self(ior);
}

/// `x^5` in fixed point.
pub fn pow5(x: i64) -> (r: i64)
    ensures
        r == pow5_spec(x as int),
{
    let x2 = mul_fx(x, x);
    let x3 = mul_fx(x2, x);
    let x4 = mul_fx(x3, x);
    mul_fx(x4, x)
}

/// Schlick's approximation of the reflectance at the given cosine.
pub fn reflectance(cosine: i64, refraction_index: i64) -> (r: i64)
    requires
        0 < refraction_index <= LIMIT,
    ensures
        r == reflectance_spec(cosine as int, refraction_index as int),
{
    let q = div_fx(ONE - refraction_index, ONE + refraction_index);
    let r0 = mul_fx(q, q);
    let c = clip_wide(ONE as i128 - cosine as i128);
    clip_wide(r0 as i128 + mul_fx(ONE - r0, pow5(c)) as i128)
}

impl Lambertian {
    /// Scattering for a given unit draw.
    pub fn scatter_with(&self, ray_in: &Ray, rec: &Hit_Record, unit: Vec3) -> (res: (Color, Option<Ray>))
        requires
            rec.p.wf(),
        ensures
            res.0 == self.albedo,
            res.1 == Some(Ray { origin: rec.p, dir: lambertian_dir(rec.normal, unit), time: ray_in.time }),
    {
        let mut scatter_direction = rec.normal.add(unit);
        if scatter_direction.near_zero() {
            scatter_direction = rec.normal;
        }
        (self.albedo, Some(Ray { origin: rec.p, dir: scatter_direction, time: ray_in.time }))
    }

    pub fn scatter(&self, ray_in: &Ray, rec: &Hit_Record) -> (res: (Color, Option<Ray>))
        requires
            rec.p.wf(),
        ensures
            exists|u: Vec3| is_unit_draw(u) && res == self.scatter_with_spec(ray_in, rec, u),
    {
        let u = Vec3::random_unit_vector();
        self.scatter_with(ray_in, rec, u)
    }

    pub open spec fn scatter_with_spec(self, ray_in: &Ray, rec: &Hit_Record, unit: Vec3) -> (Color, Option<Ray>) {
        (self.albedo, Some(Ray { origin: rec.p, dir: lambertian_dir(rec.normal, unit), time: ray_in.time }))
    }
}

impl Metal {
    pub open spec fn scatter_with_spec(self, ray_in: &Ray, rec: &Hit_Record, unit: Vec3) -> (Color, Option<Ray>) {
        let d = metal_dir(ray_in.dir, rec.normal, self.fuzz as int, unit);
        if dot_spec(d, rec.normal) > 0 {
            (self.albedo, Some(Ray { origin: rec.p, dir: d, time: ray_in.time }))
        } else {
            (self.albedo, None)
        }
    }

    /// Scattering for a given unit draw; a direction that ends up below the
    /// surface is absorbed.
    pub fn scatter_with(&self, ray_in: &Ray, rec: &Hit_Record, unit: Vec3) -> (res: (Color, Option<Ray>))
        requires
            ray_in.wf(),
            rec.normal.wf(),
        ensures
            res == self.scatter_with_spec(ray_in, rec, unit),
    {
        let reflected = reflect(ray_in.dir, rec.normal).unit_vector().add(unit.scale(self.fuzz));
        if dot(reflected, rec.normal) > 0 {
            (self.albedo, Some(Ray { origin: rec.p, dir: reflected, time: ray_in.time }))
        } else {
            (self.albedo, None)
        }
    }

    pub fn scatter(&self, ray_in: &Ray, rec: &Hit_Record) -> (res: (Color, Option<Ray>))
        requires
            ray_in.wf(),
            rec.normal.wf(),
        ensures
            exists|u: Vec3| is_unit_draw(u) && res == self.scatter_with_spec(ray_in, rec, u),
    {
        let u = Vec3::random_unit_vector();
        self.scatter_with(ray_in, rec, u)
    }
}

impl Dielectric {
    pub open spec fn scatter_with_spec(self, ray_in: &Ray, rec: &Hit_Record, u: int) -> (Color, Option<Ray>) {
        (
            Vec3 { x: ONE, y: ONE, z: ONE },
            Some(
                Ray {
                    origin: rec.p,
                    dir: dielectric_dir(ray_in.dir, rec.front_face, rec.normal, self.refraction_index as int, u),
                    time: ray_in.time,
                },
            ),
        )
    }

    /// Scattering for a uniform draw `u` in `[0, ONE)`: reflect where
    /// refraction is impossible or where the draw falls under the
    /// reflectance, else refract.
    pub fn scatter_with(&self, ray_in: &Ray, rec: &Hit_Record, u: i64) -> (res: (Color, Option<Ray>))
        requires
            0 < self.refraction_index <= MAX_IOR,
            ray_in.wf(),
            rec.normal.wf(),
        ensures
            res == self.scatter_with_spec(ray_in, rec, u as int),
    {
        let attenuation = Vec3 { x: ONE, y: ONE, z: ONE };
        let ri = if rec.front_face {
            div_fx(ONE, self.refraction_index)
        } else {
            self.refraction_index
        };
        let unit_direction = ray_in.dir.unit_vector();
        let d = dot(unit_direction.neg(), rec.normal);
        let cos_theta = if d <= ONE {
            d
        } else {
            ONE
        };
        let sin_theta = sqrt_fx(clip_wide(ONE as i128 - mul_fx(cos_theta, cos_theta) as i128));
        let cannot = mul_fx(ri, sin_theta) > ONE;
        proof {
            lemma_relative_ior_range(rec.front_face, self.refraction_index as int);
        }
        let direction = if cannot || reflectance(cos_theta, ri) > u {
            reflect(unit_direction, rec.normal)
        } else {
            refract(unit_direction, rec.normal, ri)
        };
        (attenuation, Some(Ray { origin: rec.p, dir: direction, time: ray_in.time }))
    }

    pub fn scatter(&self, ray_in: &Ray, rec: &Hit_Record) -> (res: (Color, Option<Ray>))
        requires
            0 < self.refraction_index <= MAX_IOR,
            ray_in.wf(),
            rec.normal.wf(),
        ensures
            exists|u: int| 0 <= u < ONE && res == self.scatter_with_spec(ray_in, rec, u),
    {
        let u = random_double();
        self.scatter_with(ray_in, rec, u)
    }
}

impl Material {
    pub open spec fn wf(self) -> bool {
        match self {
            Material::Dielectric(d) => 0 < d.refraction_index <= MAX_IOR,
            _ => true,
        }
    }

    /// The outcome of a scatter for a unit draw (diffuse and metal) and a
    /// uniform draw in `[0, ONE)` (dielectric).
    #[verifier::opaque]
    pub open spec fn scatter_with_spec(self, ray_in: &Ray, rec: &Hit_Record, unit: Vec3, u: int) -> (Color, Option<Ray>) {
        match self {
            Material::Lambertian(m) => m.scatter_with_spec(ray_in, rec, unit),
            Material::Metal(m) => m.scatter_with_spec(ray_in, rec, unit),
            Material::Dielectric(m) => m.scatter_with_spec(ray_in, rec, u),
        }
    }

    pub fn scatter_with(&self, ray_in: &Ray, rec: &Hit_Record, unit: Vec3, u: i64) -> (res: (Color, Option<Ray>))
        requires
            self.wf(),
            ray_in.wf(),
            rec.p.wf(),
            rec.normal.wf(),
        ensures
            res == self.scatter_with_spec(ray_in, rec, unit, u as int),
            res.1 matches Some(s) ==> s.wf(),
    {
        proof {
            reveal(Material::scatter_with_spec);
        }
        match self {
            Material::Lambertian(m) => m.scatter_with(ray_in, rec, unit),
            Material::Metal(m) => m.scatter_with(ray_in, rec, unit),
            Material::Dielectric(m) => m.scatter_with(ray_in, rec, u),
        }
    }

    /// The attenuation and, unless the path is absorbed, the scattered ray.
    pub fn scatter(&self, ray_in: &Ray, rec: &Hit_Record) -> (res: (Color, Option<Ray>))
        requires
            self.wf(),
            ray_in.wf(),
            rec.p.wf(),
            rec.normal.wf(),
        ensures
            exists|unit: Vec3, u: int|
                is_unit_draw(unit) && 0 <= u < ONE && res == self.scatter_with_spec(ray_in, rec, unit, u),
            res.1 matches Some(s) ==> s.wf(),
    {
        proof {
            reveal(Material::scatter_with_spec);
        }
        match self {
            Material::Dielectric(m) => {
                let res = m.scatter(ray_in, rec);
                proof {
                    lemma_unit_x_is_draw();
                    let u = choose|u: int| 0 <= u < ONE && res == m.scatter_with_spec(ray_in, rec, u);
                    assert(self.scatter_with_spec(ray_in, rec, Vec3 { x: ONE, y: 0, z: 0 }, u) == res);
                }
                res
            },
            Material::Lambertian(m) => {
                let res = m.scatter(ray_in, rec);
                proof {
                    let unit = choose|unit: Vec3| is_unit_draw(unit) && res == m.scatter_with_spec(ray_in, rec, unit);
                    assert(self.scatter_with_spec(ray_in, rec, unit, 0) == res);
                }
                res
            },
            Material::Metal(m) => {
                let res = m.scatter(ray_in, rec);
                proof {
                    let unit = choose|unit: Vec3| is_unit_draw(unit) && res == m.scatter_with_spec(ray_in, rec, unit);
                    assert(self.scatter_with_spec(ray_in, rec, unit, 0) == res);
                }
                res
            },
        }
    }
}

/// A diffuse bounce never leaves along the zero vector when the normal is
/// not zero, and where the normal plus the draw all but vanishes the bounce
/// leaves along the normal itself.
pub proof fn lemma_lambertian_direction(m: Lambertian, ray_in: &Ray, rec: &Hit_Record, unit: Vec3)
    requires
        !near_zero_spec(rec.normal),
    ensures
        m.scatter_with_spec(ray_in, rec, unit).1 matches Some(s) && !near_zero_spec(s.dir),
        near_zero_spec(vadd(rec.normal, unit)) ==> (m.scatter_with_spec(ray_in, rec, unit).1 matches Some(s)
            && s.dir == rec.normal),
{
}

/// With no fuzz a metal leaves along the exact unit mirror direction,
/// whatever the draw.
pub proof fn lemma_metal_no_fuzz(m: Metal, ray_in: &Ray, rec: &Hit_Record, unit: Vec3)
    requires
        m.fuzz == 0,
        ray_in.wf(),
        rec.normal.wf(),
    ensures
        metal_dir(ray_in.dir, rec.normal, 0, unit) == unit_spec(reflect_spec(ray_in.dir, rec.normal)),
        m.scatter_with_spec(ray_in, rec, unit) == m.scatter_with_spec(ray_in, rec, Vec3 { x: 0, y: 0, z: 0 }),
{
    let d = unit_spec(reflect_spec(ray_in.dir, rec.normal));
    lemma_unit_wf(reflect_spec(ray_in.dir, rec.normal));
    assert(vscale(0, unit) == Vec3 { x: 0, y: 0, z: 0 });
    assert(vscale(0, Vec3 { x: 0, y: 0, z: 0 }) == Vec3 { x: 0, y: 0, z: 0 });
    assert(vadd(d, Vec3 { x: 0, y: 0, z: 0 }) == d);
}

/// At normal incidence the reflectance is exactly the reflectance at normal
/// incidence `r0`.
pub proof fn lemma_reflectance_normal_incidence(ior: int)
    ensures
        reflectance_spec(ONE as int, ior) == r0_spec(ior),
{
    assert(pow5_spec(0) == 0);
    let r0 = r0_spec(ior);
    assert(mul_spec(ONE - r0, 0) == 0);
}

/// Where Snell's law has no solution a dielectric reflects, whatever the draw.
pub proof fn lemma_total_internal_reflection(m: Dielectric, ray_in: &Ray, rec: &Hit_Record, u: int)
    requires
        cannot_refract(
            relative_ior(rec.front_face, m.refraction_index as int),
            sin_theta_spec(cos_theta_spec(unit_spec(ray_in.dir), rec.normal)),
        ),
    ensures
        m.scatter_with_spec(ray_in, rec, u).1 matches Some(s) && s.dir == reflect_spec(unit_spec(ray_in.dir), rec.normal),
{
}

} // verus!
