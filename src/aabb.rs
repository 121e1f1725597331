use vstd::prelude::*;
use crate::interval::{Interval, max_i, min_i};
use crate::ray::Ray;
use crate::scalar::{clip, in_range, lemma_mul_abs_bound, LIMIT, ONE};
use crate::vec3::Point3;

verus! {

/// An axis-aligned box: one closed interval per axis.
#[derive(Clone, Copy, Debug)]
pub struct AABB {
    pub x: Interval,
    pub y: Interval,
    pub z: Interval,
}

/// A rational `num / den` with `den > 0`, as used by the slab test.
pub type Frac = (int, int);

/// `a < b` for rationals with positive denominators.
pub open spec fn frac_lt(a: Frac, b: Frac) -> bool {
    a.0 * b.1 < b.0 * a.1
}

pub open spec fn frac_le(a: Frac, b: Frac) -> bool {
    a.0 * b.1 <= b.0 * a.1
}

impl AABB {
    pub open spec fn wf(self) -> bool {
        self.x.wf() && self.y.wf() && self.z.wf()
    }

    /// No axis is inverted.
    pub open spec fn valid(self) -> bool {
        self.x.min <= self.x.max && self.y.min <= self.y.max && self.z.min <= self.z.max
    }

    pub open spec fn axis_spec(self, n: int) -> Interval {
        if n == 0 {
            self.x
        } else if n == 1 {
            self.y
        } else {
            self.z
        }
    }

    /// The point lies in the box.
    pub open spec fn contains_point(self, p: Point3) -> bool {
        self.x.contains_spec(p.x as int) && self.y.contains_spec(p.y as int) && self.z.contains_spec(
            p.z as int,
        )
    }

    /// The point lies strictly inside the box.
    pub open spec fn interior_point(self, p: Point3) -> bool {
        self.x.surrounds_spec(p.x as int) && self.y.surrounds_spec(p.y as int)
            && self.z.surrounds_spec(p.z as int)
    }

    /// `self` lies within `o` on every axis.
    pub open spec fn within(self, o: AABB) -> bool {
        forall|k: int|
            0 <= k < 3 ==> o.axis_spec(k).min <= self.axis_spec(k).min && self.axis_spec(k).max
                <= o.axis_spec(k).max
    }

    pub open spec fn union_spec(a: AABB, b: AABB) -> AABB {
        AABB {
            x: Interval::enclosing_spec(a.x, b.x),
            y: Interval::enclosing_spec(a.y, b.y),
            z: Interval::enclosing_spec(a.z, b.z),
        }
    }
}

/// The entry and exit parameters of the ray on the slab of axis `k`, in
/// increasing order (only meaningful where the direction is nonzero there).
pub open spec fn slab_bounds(b: AABB, r: Ray, k: int) -> (Frac, Frac) {
    let iv = b.axis_spec(k);
    let o = r.origin.comp(k);
    let d = r.dir.comp(k);
    let t0: Frac = if d > 0 {
        (ONE * (iv.min - o), d)
    } else {
        (ONE * (o - iv.min), -d)
    };
    let t1: Frac = if d > 0 {
        (ONE * (iv.max - o), d)
    } else {
        (ONE * (o - iv.max), -d)
    };
    if frac_lt(t1, t0) {
        (t1, t0)
    } else {
        (t0, t1)
    }
}

/// A ray parallel to the slab of axis `k` and outside it never enters the box.
pub open spec fn axis_blocked(b: AABB, r: Ray, k: int) -> bool {
    r.dir.comp(k) == 0 && !b.axis_spec(k).contains_spec(r.origin.comp(k))
}

/// Lower bounds on the parameter: those of the three slabs and, at index 3,
/// the search window's own (a slab that the ray runs parallel to sets none).
pub open spec fn low_of(b: AABB, r: Ray, w: Interval, k: int) -> Frac {
    if k == 3 || r.dir.comp(k) == 0 {
        (w.min as int, 1)
    } else {
        slab_bounds(b, r, k).0
    }
}

pub open spec fn high_of(b: AABB, r: Ray, w: Interval, k: int) -> Frac {
    if k == 3 || r.dir.comp(k) == 0 {
        (w.max as int, 1)
    } else {
        slab_bounds(b, r, k).1
    }
}

/// The slab test: the ray meets no blocking slab and every lower bound lies
/// strictly below every upper bound, so that the clipped window is nonempty.
pub open spec fn slab_hit(b: AABB, r: Ray, w: Interval) -> bool {
    &&& forall|k: int| 0 <= k < 3 ==> !axis_blocked(b, r, k)
    &&& forall|i: int, j: int|
        0 <= i < 4 && 0 <= j < 4 ==> #[trigger] frac_lt(low_of(b, r, w, i), high_of(b, r, w, j))
}

pub proof fn lemma_frac_le_lt(a: Frac, b: Frac, c: Frac)
    requires
        a.1 > 0,
        b.1 > 0,
        c.1 > 0,
        frac_le(a, b),
        frac_lt(b, c),
    ensures
        frac_lt(a, c),
{
    assert(a.0 * c.1 < c.0 * a.1) by (nonlinear_arith)
        requires a.0 * b.1 <= b.0 * a.1, b.0 * c.1 < c.0 * b.1, a.1 > 0, b.1 > 0, c.1 > 0;
}

pub proof fn lemma_frac_lt_le(a: Frac, b: Frac, c: Frac)
    requires
        a.1 > 0,
        b.1 > 0,
        c.1 > 0,
        frac_lt(a, b),
        frac_le(b, c),
    ensures
        frac_lt(a, c),
{
    assert(a.0 * c.1 < c.0 * a.1) by (nonlinear_arith)
        requires a.0 * b.1 < b.0 * a.1, b.0 * c.1 <= c.0 * b.1, a.1 > 0, b.1 > 0, c.1 > 0;
}

/// Bound on the numerators that the slab test forms.
pub const SLAB_NUM_MAX: i128 = 0x200_0000_0000_0000;

pub open spec fn frac_small(a: Frac) -> bool {
    0 < a.1 <= LIMIT && -SLAB_NUM_MAX <= a.0 <= SLAB_NUM_MAX
}

proof fn lemma_frac_cmp_fits(a: Frac, b: Frac)
    requires
        frac_small(a),
        frac_small(b),
    ensures
        -0x10_0000_0000_0000_0000_0000_0000 <= a.0 * b.1 <= 0x10_0000_0000_0000_0000_0000_0000,
        -0x10_0000_0000_0000_0000_0000_0000 <= b.0 * a.1 <= 0x10_0000_0000_0000_0000_0000_0000,
{
    lemma_mul_abs_bound(a.0, b.1, SLAB_NUM_MAX as int, LIMIT as int);
    lemma_mul_abs_bound(b.0, a.1, SLAB_NUM_MAX as int, LIMIT as int);
    assert((SLAB_NUM_MAX as int) * (LIMIT as int) == 0x2_0000_0000_0000_0000_0000_0000);
}

proof fn lemma_bounds_small(b: AABB, r: Ray, w: Interval, k: int)
    requires
        b.wf(),
        r.wf(),
        w.wf(),
        0 <= k < 4,
    ensures
        frac_small(low_of(b, r, w, k)),
        frac_small(high_of(b, r, w, k)),
{
    if k < 3 && r.dir.comp(k) != 0 {
        let iv = b.axis_spec(k);
        let o = r.origin.comp(k);
        lemma_mul_abs_bound(ONE as int, iv.min - o, ONE as int, 2 * LIMIT);
        lemma_mul_abs_bound(ONE as int, iv.max - o, ONE as int, 2 * LIMIT);
    }
}

/// `a < b` on rationals held in machine integers.
fn lt_frac(an: i128, ad: i128, bn: i128, bd: i128) -> (r: bool)
    requires
        frac_small((an as int, ad as int)),
        frac_small((bn as int, bd as int)),
    ensures
        r == frac_lt((an as int, ad as int), (bn as int, bd as int)),
{
    proof {
        lemma_frac_cmp_fits((an as int, ad as int), (bn as int, bd as int));
    }
    an * bd < bn * ad
}

impl AABB {
    pub fn new(x: Interval, y: Interval, z: Interval) -> (r: AABB)
        ensures
            r.x == x && r.y == y && r.z == z,
    {
        AABB { x, y, z }
    }

    /// The box that contains nothing: it seeds unions.
    pub fn empty() -> (r: AABB)
        ensures
            r.x.min == LIMIT && r.x.max == -LIMIT && r.y.min == LIMIT && r.y.max == -LIMIT,
            r.z.min == LIMIT && r.z.max == -LIMIT,
            r.wf(),
    {
        AABB { x: Interval::empty(), y: Interval::empty(), z: Interval::empty() }
    }

    /// The box with the two points as opposite corners, in either order.
    pub fn new_from_extrema(a: Point3, b: Point3) -> (r: AABB)
        ensures
            r.x.min == min_i(a.x as int, b.x as int) && r.x.max == max_i(a.x as int, b.x as int),
            r.y.min == min_i(a.y as int, b.y as int) && r.y.max == max_i(a.y as int, b.y as int),
            r.z.min == min_i(a.z as int, b.z as int) && r.z.max == max_i(a.z as int, b.z as int),
            r.valid(),
    {
        let x = Interval {
            min: if a.x <= b.x { a.x } else { b.x },
            max: if a.x >= b.x { a.x } else { b.x },
        };
        let y = Interval {
            min: if a.y <= b.y { a.y } else { b.y },
            max: if a.y >= b.y { a.y } else { b.y },
        };
        let z = Interval {
            min: if a.z <= b.z { a.z } else { b.z },
            max: if a.z >= b.z { a.z } else { b.z },
        };
        AABB { x, y, z }
    }

    /// The smallest box enclosing both.
    pub fn new_from_bbox(a: AABB, b: AABB) -> (r: AABB)
        ensures
            r == AABB::union_spec(a, b),
    {
        AABB {
            x: Interval::enclosing_interval(a.x, b.x),
            y: Interval::enclosing_interval(a.y, b.y),
            z: Interval::enclosing_interval(a.z, b.z),
        }
    }

    /// The interval of axis `n`: 0 is x, 1 is y, 2 is z.
    pub fn axis_interval(&self, n: usize) -> (r: Interval)
        requires
            n < 3,
        ensures
            r == self.axis_spec(n as int),
    {
        if n == 0 {
            self.x
        } else if n == 1 {
            self.y
        } else {
            self.z
        }
    }

    /// The axis along which the box is largest, the lower index on a tie.
    pub fn longest_axis(&self) -> (r: usize)
        ensures
            r < 3,
            forall|k: int| 0 <= k < 3 ==> self.axis_spec(k).size_spec() <= self.axis_spec(r as int).size_spec(),
            forall|k: int| 0 <= k < r ==> self.axis_spec(k).size_spec() < self.axis_spec(r as int).size_spec(),
    {
        let sx = self.x.size();
        let sy = self.y.size();
        let sz = self.z.size();
        if sx >= sy && sx >= sz {
            0
        } else if sy >= sz {
            1
        } else {
            2
        }
    }

    /// The slab test of the ray against the box, within the window `ray_t`.
    pub fn hit(&self, r: &Ray, ray_t: Interval) -> (res: bool)
        requires
            self.wf(),
            r.wf(),
            ray_t.wf(),
        ensures
            res == slab_hit(*self, *r, ray_t),
    {
        let mut lo_n: i128 = ray_t.min as i128;
        let mut lo_d: i128 = 1;
        let mut hi_n: i128 = ray_t.max as i128;
        let mut hi_d: i128 = 1;
        let ghost mut lo_k: int = 3;
        let ghost mut hi_k: int = 3;
        let mut axis: usize = 0;
        while axis < 3
            invariant
                0 <= axis <= 3,
                self.wf(),
                r.wf(),
                ray_t.wf(),
                frac_small((lo_n as int, lo_d as int)),
                frac_small((hi_n as int, hi_d as int)),
                lo_k == 3 || 0 <= lo_k < axis,
                hi_k == 3 || 0 <= hi_k < axis,
                (lo_n as int, lo_d as int) == low_of(*self, *r, ray_t, lo_k),
                (hi_n as int, hi_d as int) == high_of(*self, *r, ray_t, hi_k),
                forall|i: int|
                    (0 <= i < axis || i == 3) ==> frac_le(
                        #[trigger] low_of(*self, *r, ray_t, i),
                        (lo_n as int, lo_d as int),
                    ),
                forall|j: int|
                    (0 <= j < axis || j == 3) ==> frac_le(
                        (hi_n as int, hi_d as int),
                        #[trigger] high_of(*self, *r, ray_t, j),
                    ),
                forall|k: int| 0 <= k < axis ==> !axis_blocked(*self, *r, k),
                axis > 0 ==> frac_lt((lo_n as int, lo_d as int), (hi_n as int, hi_d as int)),
            decreases 3 - axis,
        {
            let iv = self.axis_interval(axis);
            let o = r.origin.index(axis);
            let d = r.dir.index(axis);
            proof {
                lemma_bounds_small(*self, *r, ray_t, axis as int);
                lemma_bounds_small(*self, *r, ray_t, 3);
            }
            let ghost old_lo: Frac = (lo_n as int, lo_d as int);
            let ghost old_hi: Frac = (hi_n as int, hi_d as int);
            if d == 0 {
                if !(iv.min <= o && o <= iv.max) {
                    assert(axis_blocked(*self, *r, axis as int));
                    return false;
                }
            } else {
                assert(in_range(iv.min as int) && in_range(iv.max as int) && in_range(o as int));
                proof {
                    lemma_mul_abs_bound(ONE as int, iv.min - o, ONE as int, 2 * LIMIT);
                    lemma_mul_abs_bound(ONE as int, iv.max - o, ONE as int, 2 * LIMIT);
                }
                let (n0, n1, den) = if d > 0 {
                    (
                        (ONE as i128) * (iv.min as i128 - o as i128),
                        (ONE as i128) * (iv.max as i128 - o as i128),
                        d as i128,
                    )
                } else {
                    (
                        (ONE as i128) * (o as i128 - iv.min as i128),
                        (ONE as i128) * (o as i128 - iv.max as i128),
                        -(d as i128),
                    )
                };
                let (t0, t1) = if lt_frac(n1, den, n0, den) {
                    (n1, n0)
                } else {
                    (n0, n1)
                };
                assert((t0 as int, den as int) == low_of(*self, *r, ray_t, axis as int));
                assert((t1 as int, den as int) == high_of(*self, *r, ray_t, axis as int));
                if lt_frac(lo_n, lo_d, t0, den) {
                    lo_n = t0;
                    lo_d = den;
                    proof {
                        lo_k = axis as int;
                    }
                }
                if lt_frac(t1, den, hi_n, hi_d) {
                    hi_n = t1;
                    hi_d = den;
                    proof {
                        hi_k = axis as int;
                    }
                }
            }
            proof {
                let lo: Frac = (lo_n as int, lo_d as int);
                let hi: Frac = (hi_n as int, hi_d as int);
                assert forall|i: int| (0 <= i < axis + 1 || i == 3) implies frac_le(
                    #[trigger] low_of(*self, *r, ray_t, i),
                    lo,
                ) by {
                    lemma_bounds_small(*self, *r, ray_t, i);
                    if i != axis && lo != old_lo {
                        lemma_frac_le_lt(low_of(*self, *r, ray_t, i), old_lo, lo);
                    }
                }
                assert forall|j: int| (0 <= j < axis + 1 || j == 3) implies frac_le(
                    hi,
                    #[trigger] high_of(*self, *r, ray_t, j),
                ) by {
                    lemma_bounds_small(*self, *r, ray_t, j);
                    if j != axis && hi != old_hi {
                        lemma_frac_lt_le(hi, old_hi, high_of(*self, *r, ray_t, j));
                    }
                }
            }
            if !lt_frac(lo_n, lo_d, hi_n, hi_d) {
                proof {
                    assert(!frac_lt(low_of(*self, *r, ray_t, lo_k), high_of(*self, *r, ray_t, hi_k)));
                }
                return false;
            }
            axis = axis + 1;
        }
        proof {
            let lo: Frac = (lo_n as int, lo_d as int);
            let hi: Frac = (hi_n as int, hi_d as int);
            assert forall|i: int, j: int| 0 <= i < 4 && 0 <= j < 4 implies #[trigger] frac_lt(
                low_of(*self, *r, ray_t, i),
                high_of(*self, *r, ray_t, j),
            ) by {
                lemma_bounds_small(*self, *r, ray_t, i);
                lemma_bounds_small(*self, *r, ray_t, j);
                assert(frac_le(low_of(*self, *r, ray_t, i), lo));
                assert(frac_le(hi, high_of(*self, *r, ray_t, j)));
                lemma_frac_le_lt(low_of(*self, *r, ray_t, i), lo, hi);
                lemma_frac_lt_le(low_of(*self, *r, ray_t, i), hi, high_of(*self, *r, ray_t, j));
            }
        }
        true
    }
}

proof fn lemma_sign_lt(a: Frac, b: Frac)
    requires
        a.1 > 0,
        b.1 > 0,
        a.0 <= 0 <= b.0,
        a.0 < 0 || b.0 > 0,
    ensures
        frac_lt(a, b),
{
    assert(a.0 * b.1 < b.0 * a.1) by (nonlinear_arith)
        requires a.1 > 0, b.1 > 0, a.0 <= 0 <= b.0, a.0 < 0 || b.0 > 0;
}

proof fn lemma_slab_signs(b: AABB, r: Ray, w: Interval, k: int)
    requires
        b.wf(),
        r.wf(),
        w.wf(),
        b.interior_point(r.origin),
        w.min <= 0 <= w.max,
        0 <= k < 4,
    ensures
        low_of(b, r, w, k).0 <= 0,
        high_of(b, r, w, k).0 >= 0,
        low_of(b, r, w, k).1 > 0,
        high_of(b, r, w, k).1 > 0,
        k < 3 && r.dir.comp(k) != 0 ==> low_of(b, r, w, k).0 < 0 && high_of(b, r, w, k).0 > 0,
{
    if k < 3 && r.dir.comp(k) != 0 {
        let iv = b.axis_spec(k);
        let o = r.origin.comp(k);
        assert(iv.min < o < iv.max);
        assert(ONE * (iv.min - o) < 0 && ONE * (iv.max - o) > 0) by (nonlinear_arith)
            requires iv.min < o < iv.max;
        assert(ONE * (o - iv.min) > 0 && ONE * (o - iv.max) < 0) by (nonlinear_arith)
            requires iv.min < o < iv.max;
        let (t0, t1) = if r.dir.comp(k) > 0 {
            ((ONE * (iv.min - o), r.dir.comp(k)), (ONE * (iv.max - o), r.dir.comp(k)))
        } else {
            ((ONE * (o - iv.min), -r.dir.comp(k)), (ONE * (o - iv.max), -r.dir.comp(k)))
        };
        if r.dir.comp(k) > 0 {
            lemma_sign_lt(t0, t1);
        } else {
            lemma_sign_lt(t1, t0);
            assert(!frac_lt(t0, t1)) by (nonlinear_arith)
                requires t0.0 > 0, t1.0 < 0, t0.1 > 0, t1.1 > 0;
        }
    }
}

/// The union of two boxes holds every point of either, its extent on each
/// axis runs from the lower of the two minima to the higher of the two maxima,
/// and it lies within every box that holds both.
pub proof fn lemma_union_encloses(a: AABB, b: AABB)
    ensures
        forall|p: Point3| a.contains_point(p) ==> AABB::union_spec(a, b).contains_point(p),
        forall|p: Point3| b.contains_point(p) ==> AABB::union_spec(a, b).contains_point(p),
        forall|k: int|
            0 <= k < 3 ==> #[trigger] AABB::union_spec(a, b).axis_spec(k).size_spec() == clip(
                max_i(a.axis_spec(k).max as int, b.axis_spec(k).max as int) - min_i(
                    a.axis_spec(k).min as int,
                    b.axis_spec(k).min as int,
                ),
            ),
        forall|c: AABB| a.within(c) && b.within(c) ==> AABB::union_spec(a, b).within(c),
{
    let u = AABB::union_spec(a, b);
    assert forall|c: AABB| a.within(c) && b.within(c) implies u.within(c) by {
        assert forall|k: int| 0 <= k < 3 implies c.axis_spec(k).min <= u.axis_spec(k).min
            && u.axis_spec(k).max <= c.axis_spec(k).max by {
            assert(c.axis_spec(k).min <= a.axis_spec(k).min);
            assert(c.axis_spec(k).min <= b.axis_spec(k).min);
            assert(a.axis_spec(k).max <= c.axis_spec(k).max);
            assert(b.axis_spec(k).max <= c.axis_spec(k).max);
        }
    }
}

/// A ray that starts strictly inside a box hits it, for every nonempty search
/// window that holds the parameter zero.
pub proof fn lemma_slab_hit_from_inside(b: AABB, r: Ray, w: Interval)
    requires
        b.wf(),
        r.wf(),
        w.wf(),
        b.interior_point(r.origin),
        w.min <= 0 <= w.max,
        w.min < w.max,
    ensures
        slab_hit(b, r, w),
{
    assert forall|k: int| 0 <= k < 3 implies !axis_blocked(b, r, k) by {
        assert(b.axis_spec(k).contains_spec(r.origin.comp(k)));
    }
    assert forall|i: int, j: int| 0 <= i < 4 && 0 <= j < 4 implies #[trigger] frac_lt(
        low_of(b, r, w, i),
        high_of(b, r, w, j),
    ) by {
        lemma_slab_signs(b, r, w, i);
        lemma_slab_signs(b, r, w, j);
        if (i == 3 || r.dir.comp(i) == 0) && (j == 3 || r.dir.comp(j) == 0) {
            assert(low_of(b, r, w, i) == (w.min as int, 1int));
            assert(high_of(b, r, w, j) == (w.max as int, 1int));
            assert((w.min as int) * 1 < (w.max as int) * 1);
        } else {
            lemma_sign_lt(low_of(b, r, w, i), high_of(b, r, w, j));
        }
    }
}

proof fn lemma_same_den_le(x: int, y: int, d: int)
    requires
        x <= y,
        d > 0,
    ensures
        x * d <= y * d,
{
    assert(x * d <= y * d) by (nonlinear_arith)
        requires x <= y, d > 0;
}

/// On a box with no inverted axis the entry and exit parameters of a slab
/// need no reordering to be told apart.
proof fn lemma_slab_bounds_valid(b: AABB, r: Ray, k: int)
    requires
        b.valid(),
        0 <= k < 3,
        r.dir.comp(k) != 0,
    ensures
        slab_bounds(b, r, k) == (if r.dir.comp(k) > 0 {
            (
                (ONE * (b.axis_spec(k).min - r.origin.comp(k)), r.dir.comp(k)),
                (ONE * (b.axis_spec(k).max - r.origin.comp(k)), r.dir.comp(k)),
            )
        } else {
            (
                (ONE * (r.origin.comp(k) - b.axis_spec(k).max), -r.dir.comp(k)),
                (ONE * (r.origin.comp(k) - b.axis_spec(k).min), -r.dir.comp(k)),
            )
        }),
{
    let iv = b.axis_spec(k);
    let o = r.origin.comp(k);
    let d = r.dir.comp(k);
    assert(iv.min <= iv.max);
    if d > 0 {
        assert(ONE * (iv.min - o) <= ONE * (iv.max - o));
        lemma_same_den_le(ONE * (iv.min - o), ONE * (iv.max - o), d);
    } else {
        if iv.min < iv.max {
            lemma_same_den_lt(ONE * (o - iv.max), ONE * (o - iv.min), -d);
        } else {
            assert(iv.max == iv.min);
        }
    }
}

proof fn lemma_same_den_lt(x: int, y: int, d: int)
    requires
        x < y,
        d > 0,
    ensures
        x * d < y * d,
{
    assert(x * d < y * d) by (nonlinear_arith)
        requires x < y, d > 0;
}

/// The slab test passes on any box that holds one on which it passes, for
/// any window that holds the first one's window.
pub proof fn lemma_slab_hit_mono(b: AABB, big: AABB, r: Ray, w: Interval, wide: Interval)
    requires
        b.valid(),
        b.within(big),
        wide.min <= w.min,
        w.max <= wide.max,
        slab_hit(b, r, w),
    ensures
        slab_hit(big, r, wide),
{
    assert(big.valid()) by {
        assert(b.within(big));
        assert(big.axis_spec(0).min <= b.axis_spec(0).min && b.axis_spec(0).max <= big.axis_spec(0).max);
        assert(big.axis_spec(1).min <= b.axis_spec(1).min && b.axis_spec(1).max <= big.axis_spec(1).max);
        assert(big.axis_spec(2).min <= b.axis_spec(2).min && b.axis_spec(2).max <= big.axis_spec(2).max);
    }
    assert forall|k: int| 0 <= k < 3 implies !axis_blocked(big, r, k) by {
        assert(!axis_blocked(b, r, k));
        assert(big.axis_spec(k).min <= b.axis_spec(k).min && b.axis_spec(k).max <= big.axis_spec(k).max);
    }
    assert forall|i: int| 0 <= i < 4 implies frac_le(#[trigger] low_of(big, r, wide, i), low_of(b, r, w, i))
        && frac_le(high_of(b, r, w, i), high_of(big, r, wide, i)) && low_of(big, r, wide, i).1 > 0
        && low_of(b, r, w, i).1 > 0 && high_of(big, r, wide, i).1 > 0 && high_of(b, r, w, i).1 > 0 by {
        if i < 3 && r.dir.comp(i) != 0 {
            lemma_slab_bounds_valid(b, r, i);
            lemma_slab_bounds_valid(big, r, i);
            let o = r.origin.comp(i);
            let d = r.dir.comp(i);
            let lo_b = b.axis_spec(i).min;
            let hi_b = b.axis_spec(i).max;
            let lo_g = big.axis_spec(i).min;
            let hi_g = big.axis_spec(i).max;
            assert(lo_g <= lo_b && hi_b <= hi_g);
            if d > 0 {
                lemma_same_den_le(ONE * (lo_g - o), ONE * (lo_b - o), d);
                lemma_same_den_le(ONE * (hi_b - o), ONE * (hi_g - o), d);
            } else {
                lemma_same_den_le(ONE * (o - hi_g), ONE * (o - hi_b), -d);
                lemma_same_den_le(ONE * (o - lo_b), ONE * (o - lo_g), -d);
            }
        } else {
            assert(low_of(big, r, wide, i) == (wide.min as int, 1int));
            assert(low_of(b, r, w, i) == (w.min as int, 1int));
            assert(high_of(big, r, wide, i) == (wide.max as int, 1int));
            assert(high_of(b, r, w, i) == (w.max as int, 1int));
            assert((wide.min as int) * 1 <= (w.min as int) * 1);
            assert((w.max as int) * 1 <= (wide.max as int) * 1);
        }
    }
    assert forall|i: int, j: int| 0 <= i < 4 && 0 <= j < 4 implies #[trigger] frac_lt(
        low_of(big, r, wide, i),
        high_of(big, r, wide, j),
    ) by {
        assert(low_of(big, r, wide, j).1 > 0);
        assert(frac_lt(low_of(b, r, w, i), high_of(b, r, w, j)));
        assert(frac_le(low_of(big, r, wide, i), low_of(b, r, w, i)));
        assert(frac_le(high_of(b, r, w, j), high_of(big, r, wide, j)));
        assert(low_of(big, r, wide, j).1 > 0);
        lemma_frac_le_lt(low_of(big, r, wide, i), low_of(b, r, w, i), high_of(b, r, w, j));
        lemma_frac_lt_le(low_of(big, r, wide, i), high_of(b, r, w, j), high_of(big, r, wide, j));
    }
}

} // verus!
