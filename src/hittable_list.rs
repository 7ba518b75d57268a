use vstd::prelude::*;
use crate::bounding_box::{AxisAlignedBoundingBox, box_wf};
use crate::fraction::{Fraction, frac_le, frac_wf, lemma_le_total, lemma_le_trans};
use crate::hit_record::HitRecord;
use crate::moving_sphere::{
    MovingSphere,
    center_in_range,
    lemma_hit_is_nearest,
    lemma_hit_narrow,
    lemma_hit_widen,
    sphere_hit,
    sphere_hit_t,
    sphere_wf,
    swept_box,
};
use crate::ray::{Ray, ray_wf};

verus! {

/// Every sphere is well formed and has its center within the coordinate
/// bound at `time`.
pub open spec fn objects_ready(objs: Seq<MovingSphere>, time: int) -> bool {
    forall|i: int| 0 <= i < objs.len() ==> sphere_wf(#[trigger] objs[i]) && center_in_range(objs[i], time)
}

/// `res` is the closest hit in `[t_min, t_max]` among the first `n` spheres:
/// none when none of them is hit; otherwise the record of one of them whose
/// parameter is at most that of every hit among them.
pub open spec fn closest_in_prefix(
    objs: Seq<MovingSphere>,
    n: int,
    r: Ray,
    t_min: Fraction,
    t_max: Fraction,
    res: Option<HitRecord>,
) -> bool {
    match res {
        None => forall|i: int| 0 <= i < n ==> #[trigger] sphere_hit_t(objs[i], r, t_min, t_max) is None,
        Some(h) => {
            &&& exists|i: int| 0 <= i < n && #[trigger] sphere_hit(objs[i], r, t_min, t_max) == Some(h)
            &&& forall|i: int|
                0 <= i < n && (#[trigger] sphere_hit_t(objs[i], r, t_min, t_max)) is Some ==> frac_le(
                    h.t,
                    sphere_hit_t(objs[i], r, t_min, t_max)->0,
                )
        },
    }
}

/// `res` is the closest hit in `[t_min, t_max]` among all of `objs`.
pub open spec fn is_closest_hit(
    objs: Seq<MovingSphere>,
    r: Ray,
    t_min: Fraction,
    t_max: Fraction,
    res: Option<HitRecord>,
) -> bool {
    closest_in_prefix(objs, objs.len() as int, r, t_min, t_max, res)
}

/// Two closest hits over the same spheres agree: both are absent, or their
/// parameters denote the same number.
pub proof fn lemma_closest_hit_unique(
    objs: Seq<MovingSphere>,
    r: Ray,
    t_min: Fraction,
    t_max: Fraction,
    a: Option<HitRecord>,
    b: Option<HitRecord>,
)
    requires
        is_closest_hit(objs, r, t_min, t_max, a),
        is_closest_hit(objs, r, t_min, t_max, b),
    ensures
        a is None <==> b is None,
        a is Some ==> crate::fraction::frac_eq(a->0.t, b->0.t),
{
    if a is Some {
        let i = choose|i: int| 0 <= i < objs.len() && #[trigger] sphere_hit(objs[i], r, t_min, t_max) == a;
        assert(sphere_hit_t(objs[i], r, t_min, t_max) is Some);
        if b is Some {
            let j = choose|j: int| 0 <= j < objs.len() && #[trigger] sphere_hit(objs[j], r, t_min, t_max) == b;
            assert(sphere_hit_t(objs[j], r, t_min, t_max) is Some);
            crate::fraction::lemma_le_antisym(a->0.t, b->0.t);
        }
    }
    if b is Some {
        let j = choose|j: int| 0 <= j < objs.len() && #[trigger] sphere_hit(objs[j], r, t_min, t_max) == b;
        assert(sphere_hit_t(objs[j], r, t_min, t_max) is Some);
    }
}

/// A list of spheres searched one after another.
pub struct HittableList {
    pub objects: Vec<MovingSphere>,
}

impl HittableList {
    pub fn empty() -> (r: HittableList)
        ensures
            r.objects@ == Seq::<MovingSphere>::empty(),
    {
        HittableList { objects: Vec::new() }
    }

    pub fn new(object: MovingSphere) -> (r: HittableList)
        ensures
            r.objects@ == seq![object],
    {
        HittableList { objects: vec![object] }
    }

    pub fn add(&mut self, object: MovingSphere)
        ensures
            final(self).objects@ == old(self).objects@.push(object),
    {
        self.objects.push(object);
    }

    pub fn clear(&mut self)
        ensures
            final(self).objects@ == Seq::<MovingSphere>::empty(),
    {
        self.objects.clear();
    }

    /// The closest hit in `[t_min, t_max]` among all the spheres: each sphere
    /// is asked in turn, with the range cut down to the closest hit so far.
    pub fn hit(&self, ray: &Ray, t_min: Fraction, t_max: Fraction) -> (r: Option<HitRecord>)
        requires
            objects_ready(self.objects@, ray.time as int),
            ray_wf(*ray),
            frac_wf(t_min),
            frac_wf(t_max),
        ensures
            is_closest_hit(self.objects@, *ray, t_min, t_max, r),
    {
        let ghost objs = self.objects@;
        let mut closest = t_max;
        let mut result: Option<HitRecord> = None;
        let mut i: usize = 0;
        assert(frac_le(t_max, t_max));
        while i < self.objects.len()
            invariant
                objs == self.objects@,
                objects_ready(objs, ray.time as int),
                ray_wf(*ray),
                frac_wf(t_min),
                frac_wf(t_max),
                0 <= i <= objs.len(),
                frac_wf(closest),
                frac_le(closest, t_max),
                result is None ==> closest == t_max,
                result is Some ==> closest == result->0.t,
                closest_in_prefix(objs, i as int, *ray, t_min, t_max, result),
            decreases objs.len() - i,
        {
            let s = &self.objects[i];
            assert(sphere_wf(objs[i as int]) && center_in_range(objs[i as int], ray.time as int));
            match s.hit(ray, t_min, closest) {
                Some(rec) => {
                    proof {
                        lemma_hit_is_nearest(*s, *ray, t_min, closest);
                        lemma_hit_widen(*s, *ray, t_min, closest, t_max);
                        assert(sphere_hit(objs[i as int], *ray, t_min, t_max) == Some(rec));
                        assert forall|j: int|
                            0 <= j < i + 1 && (#[trigger] sphere_hit_t(objs[j], *ray, t_min, t_max)) is Some implies frac_le(
                            rec.t,
                            sphere_hit_t(objs[j], *ray, t_min, t_max)->0,
                        ) by {
                            lemma_hit_is_nearest(objs[j], *ray, t_min, t_max);
                            if j < i {
                                lemma_le_trans(rec.t, closest, sphere_hit_t(objs[j], *ray, t_min, t_max)->0);
                            }
                        }
                        lemma_le_trans(rec.t, closest, t_max);
                    }
                    closest = rec.t;
                    result = Some(rec);
                },
                None => {
                    proof {
                        let x = sphere_hit_t(*s, *ray, t_min, t_max);
                        if x is Some {
                            lemma_hit_is_nearest(*s, *ray, t_min, t_max);
                            lemma_le_total(x->0, closest);
                            if frac_le(x->0, closest) {
                                lemma_hit_narrow(*s, *ray, t_min, closest, t_max);
                            }
                        }
                        assert(result is None ==> x is None);
                    }
                },
            }
            i += 1;
        }
        result
    }

    /// The union of the spheres' boxes over `[time_0, time_1]`; none for an
    /// empty list.
    pub fn bounding_box(&self, time_0: i64, time_1: i64) -> (r: Option<AxisAlignedBoundingBox>)
        requires
            objects_ready(self.objects@, time_0 as int),
            objects_ready(self.objects@, time_1 as int),
            -crate::vector_3d::COORD_LIMIT <= time_0 <= crate::vector_3d::COORD_LIMIT,
            -crate::vector_3d::COORD_LIMIT <= time_1 <= crate::vector_3d::COORD_LIMIT,
        ensures
            r is None <==> self.objects@.len() == 0,
            r matches Some(b) ==> box_wf(b) && r == Some(union_of_boxes(self.objects@, time_0 as int, time_1 as int)),
    {
        let ghost objs = self.objects@;
        if self.objects.len() == 0 {
            return None;
        }
        let mut acc = self.objects[0].bounding_box(time_0, time_1);
        let mut i: usize = 1;
        while i < self.objects.len()
            invariant
                objs == self.objects@,
                objects_ready(objs, time_0 as int),
                objects_ready(objs, time_1 as int),
                -crate::vector_3d::COORD_LIMIT <= time_0 <= crate::vector_3d::COORD_LIMIT,
                -crate::vector_3d::COORD_LIMIT <= time_1 <= crate::vector_3d::COORD_LIMIT,
                1 <= i <= objs.len(),
                box_wf(acc),
                acc == union_of_boxes(objs.subrange(0, i as int), time_0 as int, time_1 as int),
            decreases objs.len() - i,
        {
            assert(sphere_wf(objs[i as int]) && center_in_range(objs[i as int], time_0 as int)
                && center_in_range(objs[i as int], time_1 as int));
            let b = self.objects[i].bounding_box(time_0, time_1);
            proof {
                crate::bounding_box::lemma_surrounding_box_tightest(acc, b, acc);
                assert(objs.subrange(0, i as int + 1).drop_last() =~= objs.subrange(0, i as int));
            }
            acc = AxisAlignedBoundingBox::surrounding_box(&acc, &b);
            i += 1;
        }
        assert(objs.subrange(0, objs.len() as int) =~= objs);
        Some(acc)
    }
}

/// The union of the swept boxes of a nonempty sequence of spheres, folded
/// from the front.
pub open spec fn union_of_boxes(objs: Seq<MovingSphere>, time_0: int, time_1: int) -> AxisAlignedBoundingBox
    decreases objs.len(),
{
    if objs.len() <= 1 {
        swept_box(objs[0], time_0, time_1)
    } else {
        crate::bounding_box::surrounding_spec(
            union_of_boxes(objs.drop_last(), time_0, time_1),
            swept_box(objs.last(), time_0, time_1),
        )
    }
}

} // verus!
