use vstd::prelude::*;
use crate::vec3::{vadd, vscale, Point3, Vec3};

verus! {

/// A ray `origin + t * dir` at a moment `time` of the shutter interval.
#[derive(Clone, Copy, Debug)]
pub struct Ray {
    pub origin: Point3,
    pub dir: Vec3,
    pub time: i64,
}

impl Ray {
    pub open spec fn wf(self) -> bool {
        self.origin.wf() && self.dir.wf()
    }

    pub open spec fn at_spec(self, t: int) -> Point3 {
        vadd(self.origin, vscale(t, self.dir))
    }

    pub fn new(origin: Point3, dir: Vec3, time: i64) -> (r: Ray)
        ensures
            r.origin == origin && r.dir == dir && r.time == time,
    {
        Ray { origin, dir, time }
    }

    /// The point at parameter `t`.
    pub fn at(&self, t: i64) -> (r: Point3)
        ensures
            r == self.at_spec(t as int),
            r.wf(),
    {
        self.origin.add(self.dir.scale(t))
    }
}

} // verus!
