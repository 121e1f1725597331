use vstd::prelude::*;
use crate::scalar::{clip, clip_wide, div_fx, div_spec, floor_div_pos, in_range, is_isqrt, isqrt, isqrt_spec, lemma_isqrt_unique, lemma_mul_abs_bound, mul_fx, mul_spec, sqrt_fx, sqrt_spec, LIMIT, ONE};
use crate::utils::random_double_range;

verus! {

/// A vector, point or color with fixed-point components.
#[derive(Clone, Copy, Debug)]
pub struct Vec3 {
    pub x: i64,
    pub y: i64,
    pub z: i64,
}

pub type Color = Vec3;

pub type Point3 = Vec3;

/// Below this magnitude a component counts as zero.
pub const NEAR_ZERO_EPS: i64 = 1;

/// How many rejection-sampling rounds `random_unit_vector` makes before it
/// settles for a fixed axis.
pub const UNIT_SAMPLE_TRIES: u32 = 64;

impl Vec3 {
    /// Every component lies within the saturation range.
    pub open spec fn wf(self) -> bool {
        in_range(self.x as int) && in_range(self.y as int) && in_range(self.z as int)
    }

    /// Component `n` (0 is x, 1 is y, anything else z).
    pub open spec fn comp(self, n: int) -> int {
        if n == 0 {
            self.x as int
        } else if n == 1 {
            self.y as int
        } else {
            self.z as int
        }
    }

    /// The vector of the given exact components, each saturated.
    pub open spec fn of(x: int, y: int, z: int) -> Vec3 {
        Vec3 { x: clip(x) as i64, y: clip(y) as i64, z: clip(z) as i64 }
    }
}

pub open spec fn vadd(a: Vec3, b: Vec3) -> Vec3 {
    Vec3::of(a.x + b.x, a.y + b.y, a.z + b.z)
}

pub open spec fn vsub(a: Vec3, b: Vec3) -> Vec3 {
    Vec3::of(a.x - b.x, a.y - b.y, a.z - b.z)
}

pub open spec fn vneg(a: Vec3) -> Vec3 {
    Vec3::of(-a.x, -a.y, -a.z)
}

/// Componentwise product (used on colors).
pub open spec fn vmul(a: Vec3, b: Vec3) -> Vec3 {
    Vec3::of(mul_spec(a.x as int, b.x as int), mul_spec(a.y as int, b.y as int), mul_spec(a.z as int, b.z as int))
}

/// Scalar multiple `t * v`.
pub open spec fn vscale(t: int, v: Vec3) -> Vec3 {
    Vec3::of(mul_spec(t, v.x as int), mul_spec(t, v.y as int), mul_spec(t, v.z as int))
}

/// Scalar quotient `v / t`.
pub open spec fn vdiv(v: Vec3, t: int) -> Vec3 {
    Vec3::of(div_spec(v.x as int, t), div_spec(v.y as int, t), div_spec(v.z as int, t))
}

pub open spec fn dot_spec(a: Vec3, b: Vec3) -> int {
    clip((a.x * b.x + a.y * b.y + a.z * b.z) / (ONE as int))
}

pub open spec fn length_squared_spec(v: Vec3) -> int {
    dot_spec(v, v)
}

/// The length: the integer square root of the exact sum of squares, which
/// is already in fixed point.
pub open spec fn length_spec(v: Vec3) -> int {
    clip(isqrt_spec(v.x * v.x + v.y * v.y + v.z * v.z))
}

/// `v` scaled to unit length; a vector of length zero is left as it is.
pub open spec fn unit_spec(v: Vec3) -> Vec3 {
    if length_spec(v) == 0 {
        v
    } else {
        vdiv(v, length_spec(v))
    }
}

pub open spec fn near_zero_spec(v: Vec3) -> bool {
    -NEAR_ZERO_EPS < v.x < NEAR_ZERO_EPS && -NEAR_ZERO_EPS < v.y < NEAR_ZERO_EPS
        && -NEAR_ZERO_EPS < v.z < NEAR_ZERO_EPS
}

/// Mirror image of `v` about the plane with normal `n`: `v - 2 (v . n) n`.
pub open spec fn reflect_spec(v: Vec3, n: Vec3) -> Vec3 {
    vsub(v, vscale(clip(2 * dot_spec(v, n)), n))
}

pub open spec fn min_int(a: int, b: int) -> int {
    if a <= b {
        a
    } else {
        b
    }
}

pub open spec fn abs_int(a: int) -> int {
    if a < 0 {
        -a
    } else {
        a
    }
}

/// Snell refraction of the unit vector `uv` through the surface with normal
/// `n`, with `eta` the ratio of the refraction indices.
pub open spec fn refract_spec(uv: Vec3, n: Vec3, eta: int) -> Vec3 {
    let cos_theta = min_int(dot_spec(vneg(uv), n), ONE as int);
    let r_out_perp = vscale(eta, vadd(uv, vscale(cos_theta, n)));
    let k = sqrt_spec(abs_int(ONE - length_squared_spec(r_out_perp)));
    let r_out_parallel = vscale(clip(-k), n);
    vadd(r_out_perp, r_out_parallel)
}

/// A possible outcome of `random_unit_vector`: the normalisation of a nonzero
/// draw from the unit ball.
pub open spec fn is_unit_draw(u: Vec3) -> bool {
    exists|v: Vec3| v.wf() && 0 < length_squared_spec(v) <= ONE && u == unit_spec(v)
}

pub open spec fn on_side_of(u: Vec3, normal: Vec3) -> Vec3 {
    if dot_spec(u, normal) > 0 {
        u
    } else {
        vneg(u)
    }
}

pub proof fn lemma_length_squared_nonneg(v: Vec3)
    ensures
        length_squared_spec(v) >= 0,
{
    assert(v.x * v.x + v.y * v.y + v.z * v.z >= 0) by (nonlinear_arith);
}

pub proof fn lemma_unit_x_is_draw()
    ensures
        is_unit_draw(Vec3 { x: ONE, y: 0, z: 0 }),
{
    let v = Vec3 { x: ONE, y: 0, z: 0 };
    assert(length_squared_spec(v) == ONE);
    assert(is_isqrt(ONE as int, ONE * ONE));
    lemma_isqrt_unique(ONE as int, isqrt_spec(ONE * ONE), ONE * ONE);
    assert(length_spec(v) == ONE);
    assert(unit_spec(v) == v);
}

pub proof fn lemma_unit_wf(v: Vec3)
    requires
        v.wf(),
    ensures
        unit_spec(v).wf(),
{
}

fn sat(x: i128) -> (r: i64)
    ensures
        r == clip(x as int),
{
    clip_wide(x)
}

impl Vec3 {
    pub fn new(x: i64, y: i64, z: i64) -> (r: Vec3)
        ensures
            r == Vec3::of(x as int, y as int, z as int),
            r.wf(),
    {
        Vec3 { x: sat(x as i128), y: sat(y as i128), z: sat(z as i128) }
    }

    /// Component `n`: 0 is x, 1 is y, 2 is z.
    pub fn index(&self, n: usize) -> (r: i64)
        requires
            n < 3,
        ensures
            r == self.comp(n as int),
    {
        if n == 0 {
            self.x
        } else if n == 1 {
            self.y
        } else {
            self.z
        }
    }

    pub fn add(self, o: Vec3) -> (r: Vec3)
        ensures
            r == vadd(self, o),
            r.wf(),
    {
        Vec3 {
            x: sat(self.x as i128 + o.x as i128),
            y: sat(self.y as i128 + o.y as i128),
            z: sat(self.z as i128 + o.z as i128),
        }
    }

    pub fn sub(self, o: Vec3) -> (r: Vec3)
        ensures
            r == vsub(self, o),
            r.wf(),
    {
        Vec3 {
            x: sat(self.x as i128 - o.x as i128),
            y: sat(self.y as i128 - o.y as i128),
            z: sat(self.z as i128 - o.z as i128),
        }
    }

    pub fn neg(self) -> (r: Vec3)
        ensures
            r == vneg(self),
            r.wf(),
    {
        Vec3 { x: sat(-(self.x as i128)), y: sat(-(self.y as i128)), z: sat(-(self.z as i128)) }
    }

    /// Componentwise product.
    pub fn mul(self, o: Vec3) -> (r: Vec3)
        ensures
            r == vmul(self, o),
            r.wf(),
    {
        Vec3 { x: mul_fx(self.x, o.x), y: mul_fx(self.y, o.y), z: mul_fx(self.z, o.z) }
    }

    /// Scalar multiple `t * self`.
    pub fn scale(self, t: i64) -> (r: Vec3)
        ensures
            r == vscale(t as int, self),
            r.wf(),
    {
        Vec3 { x: mul_fx(t, self.x), y: mul_fx(t, self.y), z: mul_fx(t, self.z) }
    }

    /// Scalar quotient `self / t`.
    pub fn div(self, t: i64) -> (r: Vec3)
        requires
            t != 0,
        ensures
            r == vdiv(self, t as int),
            r.wf(),
    {
        Vec3 { x: div_fx(self.x, t), y: div_fx(self.y, t), z: div_fx(self.z, t) }
    }

    pub fn length_squared(self) -> (r: i64)
        requires
            self.wf(),
        ensures
            r == length_squared_spec(self),
            r >= 0,
    {
        proof {
            lemma_length_squared_nonneg(self);
        }
        dot(self, self)
    }

    pub fn length(self) -> (r: i64)
        requires
            self.wf(),
        ensures
            r == length_spec(self),
            r >= 0,
    {
        proof {
            lemma_mul_abs_bound(self.x as int, self.x as int, LIMIT as int, LIMIT as int);
            lemma_mul_abs_bound(self.y as int, self.y as int, LIMIT as int, LIMIT as int);
            lemma_mul_abs_bound(self.z as int, self.z as int, LIMIT as int, LIMIT as int);
            assert(self.x * self.x >= 0 && self.y * self.y >= 0 && self.z * self.z >= 0) by (nonlinear_arith);
        }
        let s = (self.x as i128) * (self.x as i128) + (self.y as i128) * (self.y as i128) + (self.z as i128)
            * (self.z as i128);
        sat(isqrt(s))
    }

    pub fn unit_vector(self) -> (r: Vec3)
        requires
            self.wf(),
        ensures
            r == unit_spec(self),
            r.wf(),
    {
        let len = self.length();
        if len == 0 {
            self
        } else {
            self.div(len)
        }
    }

    pub fn near_zero(self) -> (r: bool)
        ensures
            r == near_zero_spec(self),
    {
        -NEAR_ZERO_EPS < self.x && self.x < NEAR_ZERO_EPS && -NEAR_ZERO_EPS < self.y && self.y
            < NEAR_ZERO_EPS && -NEAR_ZERO_EPS < self.z && self.z < NEAR_ZERO_EPS
    }

    /// A vector of three independent draws from `[0, 1)`.
    pub fn random() -> (r: Vec3)
        ensures
            0 <= r.x < ONE && 0 <= r.y < ONE && 0 <= r.z < ONE,
    {
        Vec3 { x: random_double_range(0, ONE), y: random_double_range(0, ONE), z: random_double_range(0, ONE) }
    }

    /// A vector of three independent draws from `[min, max)`.
    pub fn random_range(min: i64, max: i64) -> (r: Vec3)
        requires
            min < max,
        ensures
            min <= r.x < max && min <= r.y < max && min <= r.z < max,
    {
        Vec3 {
            x: random_double_range(min, max),
            y: random_double_range(min, max),
            z: random_double_range(min, max),
        }
    }

    /// A unit vector by rejection sampling from the unit ball.
    pub fn random_unit_vector() -> (r: Vec3)
        ensures
            is_unit_draw(r),
            r.wf(),
    {
        let mut tries: u32 = 0;
        while tries < UNIT_SAMPLE_TRIES
            decreases UNIT_SAMPLE_TRIES - tries,
        {
            let v = Vec3::random_range(-ONE, ONE);
            assert(v.wf());
            let lensq = v.length_squared();
            if 0 < lensq && lensq <= ONE {
                let u = v.unit_vector();
                assert(is_unit_draw(u));
                return u;
            }
            tries = tries + 1;
        }
        proof {
            lemma_unit_x_is_draw();
        }
        Vec3 { x: ONE, y: 0, z: 0 }
    }

    /// A unit vector on the same side of the surface as `normal`.
    pub fn random_on_hemisphere(normal: Vec3) -> (r: Vec3)
        requires
            normal.wf(),
        ensures
            exists|u: Vec3| is_unit_draw(u) && r == on_side_of(u, normal),
    {
        let v = Vec3::random_unit_vector();
        if dot(v, normal) > 0 {
            v
        } else {
            v.neg()
        }
    }
}

pub fn dot(a: Vec3, b: Vec3) -> (r: i64)
    requires
        a.wf(),
        b.wf(),
    ensures
        r == dot_spec(a, b),
{
    proof {
        assert(-0x1_0000_0000_0000_0000_0000 <= a.x * b.x <= 0x1_0000_0000_0000_0000_0000) by (nonlinear_arith)
            requires in_range(a.x as int), in_range(b.x as int);
        assert(-0x1_0000_0000_0000_0000_0000 <= a.y * b.y <= 0x1_0000_0000_0000_0000_0000) by (nonlinear_arith)
            requires in_range(a.y as int), in_range(b.y as int);
        assert(-0x1_0000_0000_0000_0000_0000 <= a.z * b.z <= 0x1_0000_0000_0000_0000_0000) by (nonlinear_arith)
            requires in_range(a.z as int), in_range(b.z as int);
    }
    let s = (a.x as i128) * (b.x as i128) + (a.y as i128) * (b.y as i128) + (a.z as i128) * (b.z as i128);
    sat(floor_div_pos(s, ONE as i128))
}

pub fn reflect(v: Vec3, normal: Vec3) -> (r: Vec3)
    requires
        v.wf(),
        normal.wf(),
    ensures
        r == reflect_spec(v, normal),
        r.wf(),
{
    let d = dot(v, normal) as i128;
    v.sub(normal.scale(sat(2 * d)))
}

pub fn refract(uv: Vec3, normal: Vec3, eta_over_etap: i64) -> (r: Vec3)
    requires
        uv.wf(),
        normal.wf(),
    ensures
        r == refract_spec(uv, normal, eta_over_etap as int),
        r.wf(),
{
    let d = dot(uv.neg(), normal);
    let cos_theta = if d <= ONE {
        d
    } else {
        ONE
    };
    let r_out_perp = uv.add(normal.scale(cos_theta)).scale(eta_over_etap);
    let q = ONE as i128 - r_out_perp.length_squared() as i128;
    let q_abs = if q < 0 {
        -q
    } else {
        q
    };
    let k = sqrt_fx(sat(q_abs));
    let r_out_parallel = normal.scale(sat(-(k as i128)));
    r_out_perp.add(r_out_parallel)
}

} // verus!
