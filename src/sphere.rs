use vstd::prelude::*;
use crate::bounding_box::{AxisAlignedBoundingBox, box_wf, surrounding_spec};
use crate::fraction::{Fraction, frac_wf};
use crate::hit_record::HitRecord;
use crate::moving_sphere::{
    MovingSphere,
    ball_box,
    center_at,
    center_comp,
    center_in_range,
    sphere_hit,
    sphere_wf,
    swept_box,
};
use crate::ray::{Ray, ray_wf};
use crate::vector_3d::{Vector3D, component, within, COORD_LIMIT};

verus! {

/// A sphere that does not move: a moving sphere whose two end centers are
/// the same, over the time window `[0, 1]`.
#[derive(Clone, Copy, Debug, PartialEq, Eq, Structural)]
pub struct Sphere {
    pub sphere: MovingSphere,
}

/// The moving sphere that stands for a sphere at rest at `center`.
pub open spec fn resting(center: Vector3D, radius: i64, material: usize) -> MovingSphere {
    MovingSphere {
        start_center: center,
        end_center: center,
        radius,
        material,
        start_time: 0,
        end_time: 1,
    }
}

/// A sphere at rest has the same center at every time.
pub proof fn lemma_resting_center(s: MovingSphere, time: int)
    requires
        s.start_center == s.end_center,
        s.start_time < s.end_time,
    ensures
        center_at(s, time) == s.start_center,
        forall|k: int| 0 <= k < 3 ==> #[trigger] center_comp(s, k, time) == component(s.start_center, k),
{
    assert forall|k: int| 0 <= k < 3 implies #[trigger] center_comp(s, k, time) == component(s.start_center, k) by {
        assert((time - s.start_time) * 0 == 0);
        vstd::arithmetic::div_mod::lemma_div_basics((s.end_time - s.start_time) as int);
    }
    assert(center_comp(s, 0, time) == s.start_center.x);
    assert(center_comp(s, 1, time) == s.start_center.y);
    assert(center_comp(s, 2, time) == s.start_center.z);
}

/// The box of a moving sphere over the single instant `time` is the box of a
/// sphere at rest at the moving sphere's center at that time, over any
/// window.
pub proof fn lemma_fixed_time_box(m: MovingSphere, time: int, time_0: int, time_1: int)
    requires
        sphere_wf(m),
    ensures
        swept_box(m, time, time) == ball_box(center_at(m, time), m.radius as int),
        swept_box(resting(center_at(m, time), m.radius, m.material), time_0, time_1) == ball_box(
            center_at(m, time),
            m.radius as int,
        ),
{
    let b = ball_box(center_at(m, time), m.radius as int);
    assert(surrounding_spec(b, b) =~= b);
    let s = resting(center_at(m, time), m.radius, m.material);
    lemma_resting_center(s, time_0);
    lemma_resting_center(s, time_1);
}

impl Sphere {
    pub fn new(center: Vector3D, radius: i64, material: usize) -> (r: Sphere)
        ensures
            r.sphere == resting(center, radius, material),
    {
        Sphere { sphere: MovingSphere::new(center, center, radius, material, 0, 1) }
    }

    /// The nearest place in `[t_min, t_max]` where the ray meets the sphere.
    pub fn hit(&self, ray: &Ray, t_min: Fraction, t_max: Fraction) -> (r: Option<HitRecord>)
        requires
            sphere_wf(self.sphere),
            self.sphere.start_center == self.sphere.end_center,
            ray_wf(*ray),
            frac_wf(t_min),
            frac_wf(t_max),
        ensures
            r == sphere_hit(self.sphere, *ray, t_min, t_max),
    {
        proof {
            lemma_resting_center(self.sphere, ray.time as int);
        }
        self.sphere.hit(ray, t_min, t_max)
    }

    /// The box `[center - radius, center + radius]`, whatever the window.
    pub fn bounding_box(&self, time_0: i64, time_1: i64) -> (r: AxisAlignedBoundingBox)
        requires
            sphere_wf(self.sphere),
            self.sphere.start_center == self.sphere.end_center,
            -COORD_LIMIT <= time_0 <= COORD_LIMIT,
            -COORD_LIMIT <= time_1 <= COORD_LIMIT,
        ensures
            r == swept_box(self.sphere, time_0 as int, time_1 as int),
            r == ball_box(self.sphere.start_center, self.sphere.radius as int),
            box_wf(r),
    {
        proof {
            lemma_resting_center(self.sphere, time_0 as int);
            lemma_resting_center(self.sphere, time_1 as int);
            let b = ball_box(self.sphere.start_center, self.sphere.radius as int);
            assert(surrounding_spec(b, b) =~= b);
        }
        self.sphere.bounding_box(time_0, time_1)
    }
}

} // verus!
