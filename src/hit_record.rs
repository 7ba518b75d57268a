use vstd::prelude::*;
use crate::fraction::Fraction;
use crate::ray::Ray;
use crate::vector_3d::{Vector3D, dot_spec, within, WIDE_LIMIT};

verus! {

/// What a ray learns where it meets a sphere.
///
/// The hit point and normal follow from the ray and these fields: the point
/// is `origin + t * direction`, and the outward normal points from `center`
/// to it, scaled by `1 / radius`.
#[derive(Clone, Copy, Debug, PartialEq, Eq, Structural)]
pub struct HitRecord {
    /// The ray parameter of the hit.
    pub t: Fraction,
    /// The ray arrives from outside, against the outward normal.
    pub front_face: bool,
    /// The index of the surface's material in the scene's material table.
    pub material: usize,
    /// The sphere's center at the ray's time.
    pub center: Vector3D,
    pub radius: i64,
}

impl HitRecord {
    pub fn new(t: Fraction, front_face: bool, material: usize, center: Vector3D, radius: i64) -> (r: HitRecord)
        ensures
            r == (HitRecord { t, front_face, material, center, radius }),
    {
        HitRecord { t, front_face, material, center, radius }
    }

    /// Records whether the ray meets the surface from the side that
    /// `outward_normal` points to: the front face is the one whose outward
    /// normal opposes the ray's direction.
    pub fn set_face_normal(&mut self, ray: &Ray, outward_normal: &Vector3D)
        requires
            within(ray.direction, WIDE_LIMIT as int),
            within(*outward_normal, WIDE_LIMIT as int),
        ensures
            final(self).front_face == (dot_spec(ray.direction, *outward_normal) < 0),
            final(self).t == old(self).t,
            final(self).material == old(self).material,
            final(self).center == old(self).center,
            final(self).radius == old(self).radius,
    {
        self.front_face = ray.direction.dot(outward_normal) < 0;
    }
}

} // verus!
