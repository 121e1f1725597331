use vstd::prelude::*;
use crate::hittable::{Hit_Record, Hittable};
use crate::interval::Interval;
use crate::ray::Ray;
use crate::scalar::{clip, clip_wide, mul_fx, mul_spec, LIMIT, ONE};
use crate::vec3::{is_unit_draw, unit_spec, vadd, vmul, vscale, Color, Vec3};

verus! {

/// Smallest parameter at which a hit counts (about 0.001), so that a
/// scattered ray does not meet the surface it leaves.
pub const SHADOW_EPS: i64 = 65;

/// The sky color at the zenith: (0.5, 0.7, 1.0).
pub const SKY_R: i64 = 32768;

pub const SKY_G: i64 = 45875;

pub const SKY_B: i64 = 65536;

pub open spec fn black() -> Color {
    Vec3 { x: 0, y: 0, z: 0 }
}

/// The background: white at the horizon below, blending to sky blue at the
/// zenith, by the height of the unit direction.
pub open spec fn background_spec(r: Ray) -> Color {
    let unit = unit_spec(r.dir);
    let a = mul_spec(ONE / 2, clip(unit.y + ONE));
    vadd(
        vscale(clip(ONE - a), Vec3 { x: ONE, y: ONE, z: ONE }),
        vscale(a, Vec3 { x: SKY_R, y: SKY_G, z: SKY_B }),
    )
}

/// The hit of the ray in the scene, as the integrator sees it.
pub open spec fn scene_hit<W: Hittable>(world: &W, r: Ray) -> Option<Hit_Record> {
    world.hit_spec(r, SHADOW_EPS as int, LIMIT as int)
}

/// `c` is what a bounce with this outcome returns, given the color `rest`
/// that the scattered ray brings: the attenuation where the path is
/// absorbed, else the attenuation times `rest`.
pub open spec fn bounce_gives(outcome: (Color, Option<Ray>), rest: Color, c: Color) -> bool {
    match outcome.1 {
        None => c == outcome.0,
        Some(_) => c == vmul(outcome.0, rest),
    }
}

/// `c` is a color that the integrator can return for the ray with `depth`
/// bounces left, for some run of draws: black once no bounce is left, the
/// background on a miss, and otherwise what a bounce off the hit returns for
/// some unit draw and uniform draw, with a color that the scattered ray can
/// return with one bounce less.
pub open spec fn possible_color<W: Hittable>(world: &W, r: Ray, depth: int, c: Color) -> bool
    decreases depth,
{
    if depth <= 0 {
        c == black()
    } else {
        match scene_hit(world, r) {
            None => c == background_spec(r),
            Some(rec) => exists|unit: Vec3, u: int, rest: Color|
                {
                    &&& is_unit_draw(unit)
                    &&& 0 <= u < ONE
                    &&& #[trigger] bounce_gives(rec.mat.scatter_with_spec(&r, &rec, unit, u), rest, c)
                    &&& rec.mat.scatter_with_spec(&r, &rec, unit, u).1 matches Some(s) ==> possible_color(
                        world,
                        s,
                        depth - 1,
                        rest,
                    )
                },
        }
    }
}

pub fn background(r: &Ray) -> (c: Color)
    requires
        r.wf(),
    ensures
        c == background_spec(*r),
{
    let unit = r.dir.unit_vector();
    let a = mul_fx(ONE / 2, clip_wide(unit.y as i128 + ONE as i128));
    let white = Vec3 { x: ONE, y: ONE, z: ONE };
    let sky = Vec3 { x: SKY_R, y: SKY_G, z: SKY_B };
    white.scale(clip_wide(ONE as i128 - a as i128)).add(sky.scale(a))
}

/// The radiance along the ray: black once the bounce budget is spent, the
/// background on a miss, and otherwise the material's attenuation times the
/// radiance along the scattered ray (or the attenuation alone if the path is
/// absorbed).
pub fn ray_color<W: Hittable>(r: &Ray, world: &W, depth: i64) -> (c: Color)
    requires
        r.wf(),
        world.well_formed(),
    ensures
        depth <= 0 ==> c == black(),
        depth > 0 && scene_hit(world, *r) is None ==> c == background_spec(*r),
        possible_color(world, *r, depth as int, c),
    decreases depth,
{
    if depth <= 0 {
        return Vec3 { x: 0, y: 0, z: 0 };
    }
    let found = world.hit(r, Interval { min: SHADOW_EPS, max: LIMIT });
    match found {
        Some(rec) => {
            let (attenuation, scattered) = rec.mat.scatter(r, &rec);
            let ghost outcome = (attenuation, scattered);
            let ghost rest_color = black();
            let c = match scattered {
                Some(s) => {
                    let rest = ray_color(&s, world, depth - 1);
                    proof {
                        rest_color = rest;
                    }
                    attenuation.mul(rest)
                },
                None => attenuation,
            };
            proof {
                let (unit, u) = choose|unit: Vec3, u: int|
                    is_unit_draw(unit) && 0 <= u < ONE && outcome == rec.mat.scatter_with_spec(r, &rec, unit, u);
                assert(rec.mat.scatter_with_spec(r, &rec, unit, u) == outcome);
                assert(scene_hit(world, *r) == Some(rec));
                if scattered is Some {
                    assert(possible_color(world, scattered->Some_0, depth - 1, rest_color));
                    assert(c == vmul(attenuation, rest_color));
                } else {
                    assert(c == attenuation);
                }
                assert(is_unit_draw(unit) && 0 <= u < ONE);
                assert(bounce_gives(rec.mat.scatter_with_spec(r, &rec, unit, u), rest_color, c));
                assert(possible_color(world, *r, depth as int, c));
            }
            c
        },
        None => background(r),
    }
}

} // verus!
