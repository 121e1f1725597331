use vstd::prelude::*;
use crate::scalar::{clip, clip_wide, in_range, LIMIT};

verus! {

/// A closed range `[min, max]` of fixed-point values.
#[derive(Clone, Copy, Debug)]
pub struct Interval {
    pub min: i64,
    pub max: i64,
}

pub open spec fn min_i(a: int, b: int) -> int {
    if a <= b {
        a
    } else {
        b
    }
}

pub open spec fn max_i(a: int, b: int) -> int {
    if a >= b {
        a
    } else {
        b
    }
}

impl Interval {
    pub open spec fn wf(self) -> bool {
        in_range(self.min as int) && in_range(self.max as int)
    }

    pub open spec fn contains_spec(self, x: int) -> bool {
        self.min <= x <= self.max
    }

    pub open spec fn surrounds_spec(self, x: int) -> bool {
        self.min < x < self.max
    }

    pub open spec fn size_spec(self) -> int {
        clip(self.max - self.min)
    }

    /// The smallest interval holding both.
    pub open spec fn enclosing_spec(a: Interval, b: Interval) -> Interval {
        Interval { min: min_i(a.min as int, b.min as int) as i64, max: max_i(a.max as int, b.max as int) as i64 }
    }

    pub fn new(min: i64, max: i64) -> (r: Interval)
        ensures
            r.min == min && r.max == max,
    {
        Interval { min, max }
    }

    /// The interval that contains nothing: it seeds unions.
    pub fn empty() -> (r: Interval)
        ensures
            r.min == LIMIT && r.max == -LIMIT,
            r.wf(),
            forall|x: int| !r.contains_spec(x),
    {
        Interval { min: LIMIT, max: -LIMIT }
    }

    /// The interval that contains every representable value.
    pub fn universe() -> (r: Interval)
        ensures
            r.min == -LIMIT && r.max == LIMIT,
            r.wf(),
            forall|x: int| in_range(x) ==> r.contains_spec(x),
    {
        Interval { min: -LIMIT, max: LIMIT }
    }

    pub fn size(&self) -> (r: i64)
        ensures
            r == self.size_spec(),
    {
        clip_wide(self.max as i128 - self.min as i128)
    }

    pub fn contains(&self, x: i64) -> (r: bool)
        ensures
            r == self.contains_spec(x as int),
    {
        self.min <= x && x <= self.max
    }

    pub fn surrounds(&self, x: i64) -> (r: bool)
        ensures
            r == self.surrounds_spec(x as int),
    {
        self.min < x && x < self.max
    }

    pub fn clamp(&self, x: i64) -> (r: i64)
        ensures
            x < self.min ==> r == self.min,
            self.min <= x && x > self.max ==> r == self.max,
            self.min <= x <= self.max ==> r == x,
    {
        if x < self.min {
            return self.min;
        }
        if x > self.max {
            return self.max;
        }
        x
    }

    pub fn enclosing_interval(a: Interval, b: Interval) -> (r: Interval)
        ensures
            r == Interval::enclosing_spec(a, b),
    {
        Interval {
            min: if a.min <= b.min {
                a.min
            } else {
                b.min
            },
            max: if a.max >= b.max {
                a.max
            } else {
                b.max
            },
        }
    }
}

} // verus!
