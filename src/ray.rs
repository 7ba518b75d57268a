use vstd::prelude::*;
use crate::vector_3d::{Vector3D, fits, within, COORD_LIMIT};

verus! {

/// A half-line `origin + t * direction`, tagged with the shutter time at
/// which it was emitted.
#[derive(Clone, Copy, Debug, PartialEq, Eq, Structural)]
pub struct Ray {
    pub origin: Vector3D,
    pub direction: Vector3D,
    pub time: i64,
}

/// Origin, direction and time within the coordinate bound.
pub open spec fn ray_wf(r: Ray) -> bool {
    &&& within(r.origin, COORD_LIMIT as int)
    &&& within(r.direction, COORD_LIMIT as int)
    &&& -COORD_LIMIT <= r.time <= COORD_LIMIT
}

impl Ray {
    /// A ray; without a time it is emitted at time zero.
    pub fn new(origin: Vector3D, direction: Vector3D, time: Option<i64>) -> (r: Ray)
        ensures
            r.origin == origin,
            r.direction == direction,
            r.time == match time {
                Some(t) => t,
                None => 0,
            },
    {
        let time = match time {
            Some(t) => t,
            None => 0,
        };
        Ray { origin, direction, time }
    }

    /// The point at whole parameter `t`.
    pub fn at(&self, t: i64) -> (r: Vector3D)
        requires
            fits(t * self.direction.x, t * self.direction.y, t * self.direction.z),
            fits(
                self.origin.x + t * self.direction.x,
                self.origin.y + t * self.direction.y,
                self.origin.z + t * self.direction.z,
            ),
        ensures
            r.x == self.origin.x + t * self.direction.x,
            r.y == self.origin.y + t * self.direction.y,
            r.z == self.origin.z + t * self.direction.z,
    {
        let step = self.direction.scale(t);
        self.origin.add(&step)
    }
}

} // verus!
