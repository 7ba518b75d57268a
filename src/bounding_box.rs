use vstd::prelude::*;
use crate::fraction::{Fraction, frac_le, frac_lt, frac_wf, lemma_le_trans, PARAM_LIMIT};
use crate::ray::{Ray, ray_wf};
use crate::vector_3d::{Vector3D, component, within, COORD_LIMIT};

verus! {

/// The largest absolute coordinate of a bounding box corner.
pub const BOX_LIMIT: i64 = 1073741824;

/// An axis-aligned box between two corners.
#[derive(Clone, Copy, Debug, PartialEq, Eq, Structural)]
pub struct AxisAlignedBoundingBox {
    pub minimum: Vector3D,
    pub maximum: Vector3D,
}

/// Corners within `BOX_LIMIT`, the minimum below the maximum on every axis.
pub open spec fn box_wf(b: AxisAlignedBoundingBox) -> bool {
    &&& within(b.minimum, BOX_LIMIT as int)
    &&& within(b.maximum, BOX_LIMIT as int)
    &&& b.minimum.x <= b.maximum.x
    &&& b.minimum.y <= b.maximum.y
    &&& b.minimum.z <= b.maximum.z
}

/// `outer` contains `inner` on every axis.
pub open spec fn box_contains(outer: AxisAlignedBoundingBox, inner: AxisAlignedBoundingBox) -> bool {
    forall|k: int|
        0 <= k < 3 ==> component(outer.minimum, k) <= component(inner.minimum, k) && component(
            inner.maximum,
            k,
        ) <= component(outer.maximum, k)
}

pub open spec fn min_int(a: int, b: int) -> int {
    if a <= b {
        a
    } else {
        b
    }
}

pub open spec fn max_int(a: int, b: int) -> int {
    if a >= b {
        a
    } else {
        b
    }
}

/// The union of two boxes: component-wise minimum of the minimums and
/// maximum of the maximums.
pub open spec fn surrounding_spec(a: AxisAlignedBoundingBox, b: AxisAlignedBoundingBox) -> AxisAlignedBoundingBox {
    AxisAlignedBoundingBox {
        minimum: Vector3D {
            x: min_int(a.minimum.x as int, b.minimum.x as int) as i64,
            y: min_int(a.minimum.y as int, b.minimum.y as int) as i64,
            z: min_int(a.minimum.z as int, b.minimum.z as int) as i64,
        },
        maximum: Vector3D {
            x: max_int(a.maximum.x as int, b.maximum.x as int) as i64,
            y: max_int(a.maximum.y as int, b.maximum.y as int) as i64,
            z: max_int(a.maximum.z as int, b.maximum.z as int) as i64,
        },
    }
}

/// The parameter at which the ray crosses the plane `bound` on an axis where
/// it starts at `origin` and moves by `dir` (nonzero), with a positive
/// denominator.
pub open spec fn crossing(bound: int, origin: int, dir: int) -> Fraction {
    if dir > 0 {
        Fraction { num: (bound - origin) as i64, den: dir as i64 }
    } else {
        Fraction { num: (origin - bound) as i64, den: (-dir) as i64 }
    }
}

/// Where the ray enters the slab of `b` along `axis`.
pub open spec fn entry(b: AxisAlignedBoundingBox, r: Ray, axis: int) -> Fraction {
    let d = component(r.direction, axis);
    let o = component(r.origin, axis);
    if d > 0 {
        crossing(component(b.minimum, axis), o, d)
    } else {
        crossing(component(b.maximum, axis), o, d)
    }
}

/// Where the ray leaves the slab of `b` along `axis`.
pub open spec fn exit(b: AxisAlignedBoundingBox, r: Ray, axis: int) -> Fraction {
    let d = component(r.direction, axis);
    let o = component(r.origin, axis);
    if d > 0 {
        crossing(component(b.maximum, axis), o, d)
    } else {
        crossing(component(b.minimum, axis), o, d)
    }
}

/// A ray parallel to an axis stays inside that slab for every parameter
/// exactly when its origin lies in the slab.
pub open spec fn axis_open(b: AxisAlignedBoundingBox, r: Ray, axis: int) -> bool {
    component(r.direction, axis) == 0 ==> component(b.minimum, axis) <= component(r.origin, axis)
        <= component(b.maximum, axis)
}

/// Index 3 stands for the queried parameter range, 0 to 2 for the slabs.
pub open spec fn bounds_param(r: Ray, k: int) -> bool {
    k == 3 || component(r.direction, k) != 0
}

pub open spec fn lower_bound(b: AxisAlignedBoundingBox, r: Ray, t_min: Fraction, k: int) -> Fraction {
    if k == 3 {
        t_min
    } else {
        entry(b, r, k)
    }
}

pub open spec fn upper_bound(b: AxisAlignedBoundingBox, r: Ray, t_max: Fraction, k: int) -> Fraction {
    if k == 3 {
        t_max
    } else {
        exit(b, r, k)
    }
}

/// Some parameter in `[t_min, t_max]` puts the ray inside the box: every
/// lower bound of the parameter is at most every upper bound, and no slab
/// that the ray runs parallel to excludes it.
pub open spec fn slab_hit(b: AxisAlignedBoundingBox, r: Ray, t_min: Fraction, t_max: Fraction) -> bool {
    &&& forall|k: int| 0 <= k < 3 ==> #[trigger] axis_open(b, r, k)
    &&& forall|i: int, j: int|
        0 <= i < 4 && 0 <= j < 4 && bounds_param(r, i) && bounds_param(r, j) ==> frac_le(
            #[trigger] lower_bound(b, r, t_min, i),
            #[trigger] upper_bound(b, r, t_max, j),
        )
}

proof fn lemma_crossing_wf(bound: int, origin: int, dir: int)
    requires
        -BOX_LIMIT <= bound <= BOX_LIMIT,
        -COORD_LIMIT <= origin <= COORD_LIMIT,
        -COORD_LIMIT <= dir <= COORD_LIMIT,
        dir != 0,
    ensures
        frac_wf(crossing(bound, origin, dir)),
        crossing(bound, origin, dir).num == (if dir > 0 { bound - origin } else { origin - bound }),
        crossing(bound, origin, dir).den == (if dir > 0 { dir } else { -dir }),
{
}

/// On an axis that bounds the parameter, the entry is at most the exit.
proof fn lemma_entry_before_exit(b: AxisAlignedBoundingBox, r: Ray, axis: int)
    requires
        box_wf(b),
        ray_wf(r),
        0 <= axis < 3,
        component(r.direction, axis) != 0,
    ensures
        frac_wf(entry(b, r, axis)),
        frac_wf(exit(b, r, axis)),
        frac_le(entry(b, r, axis), exit(b, r, axis)),
        entry(b, r, axis).den == exit(b, r, axis).den,
{
    let d = component(r.direction, axis);
    let o = component(r.origin, axis);
    let lo = component(b.minimum, axis);
    let hi = component(b.maximum, axis);
    lemma_crossing_wf(lo, o, d);
    lemma_crossing_wf(hi, o, d);
    let e = entry(b, r, axis);
    let x = exit(b, r, axis);
    assert(e.num <= x.num);
    assert(e.num * x.den <= x.num * e.den) by (nonlinear_arith)
        requires
            e.num <= x.num,
            e.den == x.den,
            e.den > 0,
    ;
}

/// Crossing parameters of one axis, with a positive denominator.
fn crossing_exec(bound: i64, origin: i64, dir: i64) -> (r: Fraction)
    requires
        -BOX_LIMIT <= bound <= BOX_LIMIT,
        -COORD_LIMIT <= origin <= COORD_LIMIT,
        -COORD_LIMIT <= dir <= COORD_LIMIT,
        dir != 0,
    ensures
        r == crossing(bound as int, origin as int, dir as int),
        frac_wf(r),
{
    proof {
        lemma_crossing_wf(bound as int, origin as int, dir as int);
    }
    if dir > 0 {
        Fraction { num: bound - origin, den: dir }
    } else {
        Fraction { num: origin - bound, den: -dir }
    }
}

proof fn lemma_same_den_le(a: Fraction, b: Fraction)
    requires
        a.den == b.den,
        a.den > 0,
    ensures
        frac_le(a, b) == (a.num <= b.num),
{
    if a.num <= b.num {
        assert(a.num * b.den <= b.num * a.den) by (nonlinear_arith)
            requires
                a.num <= b.num,
                a.den == b.den,
                a.den > 0,
        ;
    } else {
        assert(a.num * b.den > b.num * a.den) by (nonlinear_arith)
            requires
                a.num > b.num,
                a.den == b.den,
                a.den > 0,
        ;
    }
}

/// Two fractions over one positive denominator are ordered by numerator.
pub proof fn lemma_same_den(a: Fraction, b: Fraction)
    requires
        a.den == b.den,
        a.den > 0,
    ensures
        frac_le(a, b) == (a.num <= b.num),
        frac_le(a, b) && frac_le(b, a) ==> a == b,
{
    lemma_same_den_le(a, b);
    lemma_same_den_le(b, a);
}

/// What the slab scan knows after the axes below `axis`: `lo` is the
/// largest lower bound seen (the one at index `lo_k`), `hi` the smallest
/// upper bound seen, and no slab seen so far rules the ray out.
spec fn scan_state(
    b: AxisAlignedBoundingBox,
    r: Ray,
    t_min: Fraction,
    t_max: Fraction,
    axis: int,
    lo: Fraction,
    hi: Fraction,
    lo_k: int,
    hi_k: int,
) -> bool {
    &&& 0 <= axis <= 3
    &&& frac_wf(lo)
    &&& frac_wf(hi)
    &&& 0 <= lo_k < 4
    &&& 0 <= hi_k < 4
    &&& (lo_k == 3 || lo_k < axis)
    &&& (hi_k == 3 || hi_k < axis)
    &&& bounds_param(r, lo_k)
    &&& bounds_param(r, hi_k)
    &&& lo == lower_bound(b, r, t_min, lo_k)
    &&& hi == upper_bound(b, r, t_max, hi_k)
    &&& forall|k: int| 0 <= k < axis ==> #[trigger] axis_open(b, r, k)
    &&& forall|i: int|
        (i == 3 || 0 <= i < axis) && bounds_param(r, i) ==> frac_le(
            #[trigger] lower_bound(b, r, t_min, i),
            lo,
        )
    &&& forall|j: int|
        (j == 3 || 0 <= j < axis) && bounds_param(r, j) ==> frac_le(
            hi,
            #[trigger] upper_bound(b, r, t_max, j),
        )
}

/// Every bound that the scan takes into account is a well-formed fraction.
proof fn lemma_bounds_wf(b: AxisAlignedBoundingBox, r: Ray, t_min: Fraction, t_max: Fraction, k: int)
    requires
        box_wf(b),
        ray_wf(r),
        frac_wf(t_min),
        frac_wf(t_max),
        0 <= k < 4,
        bounds_param(r, k),
    ensures
        frac_wf(lower_bound(b, r, t_min, k)),
        frac_wf(upper_bound(b, r, t_max, k)),
{
    if k < 3 {
        lemma_entry_before_exit(b, r, k);
    }
}

/// A scan that reached the last axis with `lo <= hi` has found a hit.
proof fn lemma_scan_complete(
    b: AxisAlignedBoundingBox,
    r: Ray,
    t_min: Fraction,
    t_max: Fraction,
    lo: Fraction,
    hi: Fraction,
    lo_k: int,
    hi_k: int,
)
    requires
        box_wf(b),
        ray_wf(r),
        frac_wf(t_min),
        frac_wf(t_max),
        scan_state(b, r, t_min, t_max, 3, lo, hi, lo_k, hi_k),
        frac_le(lo, hi),
    ensures
        slab_hit(b, r, t_min, t_max),
{
    assert forall|i: int, j: int|
        0 <= i < 4 && 0 <= j < 4 && bounds_param(r, i) && bounds_param(r, j) implies frac_le(
        #[trigger] lower_bound(b, r, t_min, i),
        #[trigger] upper_bound(b, r, t_max, j),
    ) by {
        lemma_bounds_wf(b, r, t_min, t_max, i);
        lemma_bounds_wf(b, r, t_min, t_max, j);
        lemma_le_trans(lower_bound(b, r, t_min, i), lo, hi);
        lemma_le_trans(lower_bound(b, r, t_min, i), hi, upper_bound(b, r, t_max, j));
    }
}

/// A scan that found `hi < lo` has shown that the ray misses.
proof fn lemma_scan_miss(
    b: AxisAlignedBoundingBox,
    r: Ray,
    t_min: Fraction,
    t_max: Fraction,
    axis: int,
    lo: Fraction,
    hi: Fraction,
    lo_k: int,
    hi_k: int,
)
    requires
        scan_state(b, r, t_min, t_max, axis, lo, hi, lo_k, hi_k),
        frac_lt(hi, lo),
    ensures
        !slab_hit(b, r, t_min, t_max),
{
    assert(!frac_le(lower_bound(b, r, t_min, lo_k), upper_bound(b, r, t_max, hi_k)));
}

/// Folds one more axis into the scan, given that axis's entry and exit.
proof fn lemma_scan_step(
    b: AxisAlignedBoundingBox,
    r: Ray,
    t_min: Fraction,
    t_max: Fraction,
    axis: int,
    lo: Fraction,
    hi: Fraction,
    lo_k: int,
    hi_k: int,
    new_lo: Fraction,
    new_hi: Fraction,
    new_lo_k: int,
    new_hi_k: int,
)
    requires
        box_wf(b),
        ray_wf(r),
        frac_wf(t_min),
        frac_wf(t_max),
        0 <= axis < 3,
        scan_state(b, r, t_min, t_max, axis, lo, hi, lo_k, hi_k),
        component(r.direction, axis) != 0,
        frac_lt(lo, entry(b, r, axis)) ==> new_lo == entry(b, r, axis) && new_lo_k == axis,
        !frac_lt(lo, entry(b, r, axis)) ==> new_lo == lo && new_lo_k == lo_k,
        frac_lt(exit(b, r, axis), hi) ==> new_hi == exit(b, r, axis) && new_hi_k == axis,
        !frac_lt(exit(b, r, axis), hi) ==> new_hi == hi && new_hi_k == hi_k,
    ensures
        scan_state(b, r, t_min, t_max, axis + 1, new_lo, new_hi, new_lo_k, new_hi_k),
{
    lemma_entry_before_exit(b, r, axis);
    let e = entry(b, r, axis);
    let x = exit(b, r, axis);
    assert(lower_bound(b, r, t_min, axis) == e);
    assert(upper_bound(b, r, t_max, axis) == x);
    assert forall|i: int|
        (i == 3 || 0 <= i < axis + 1) && bounds_param(r, i) implies frac_le(
        #[trigger] lower_bound(b, r, t_min, i),
        new_lo,
    ) by {
        lemma_bounds_wf(b, r, t_min, t_max, i);
        if i != axis && frac_lt(lo, e) {
            lemma_le_trans(lower_bound(b, r, t_min, i), lo, e);
        }
    }
    assert forall|j: int|
        (j == 3 || 0 <= j < axis + 1) && bounds_param(r, j) implies frac_le(
        new_hi,
        #[trigger] upper_bound(b, r, t_max, j),
    ) by {
        lemma_bounds_wf(b, r, t_min, t_max, j);
        if j != axis && frac_lt(x, hi) {
            lemma_le_trans(x, hi, upper_bound(b, r, t_max, j));
        }
    }
}

impl AxisAlignedBoundingBox {
    pub fn new(minimum: Vector3D, maximum: Vector3D) -> (r: AxisAlignedBoundingBox)
        ensures
            r.minimum == minimum,
            r.maximum == maximum,
    {
        AxisAlignedBoundingBox { minimum, maximum }
    }

    /// The smallest box that contains both boxes.
    pub fn surrounding_box(first_box: &AxisAlignedBoundingBox, second_box: &AxisAlignedBoundingBox) -> (r:
        AxisAlignedBoundingBox)
        ensures
            r == surrounding_spec(*first_box, *second_box),
    {
        let a = first_box;
        let b = second_box;
        let small = Vector3D {
            x: if a.minimum.x <= b.minimum.x { a.minimum.x } else { b.minimum.x },
            y: if a.minimum.y <= b.minimum.y { a.minimum.y } else { b.minimum.y },
            z: if a.minimum.z <= b.minimum.z { a.minimum.z } else { b.minimum.z },
        };
        let big = Vector3D {
            x: if a.maximum.x >= b.maximum.x { a.maximum.x } else { b.maximum.x },
            y: if a.maximum.y >= b.maximum.y { a.maximum.y } else { b.maximum.y },
            z: if a.maximum.z >= b.maximum.z { a.maximum.z } else { b.maximum.z },
        };
        AxisAlignedBoundingBox { minimum: small, maximum: big }
    }

    /// Whether the ray passes through the box at some parameter in
    /// `[t_min, t_max]`.
    ///
    /// Each axis's two plane crossings are ordered by comparing them, and the
    /// running parameter interval is narrowed axis by axis; an empty interval
    /// is a miss. A ray parallel to an axis misses unless its origin lies in
    /// that axis's slab.
    pub fn hit(&self, ray: &Ray, t_min: Fraction, t_max: Fraction) -> (r: bool)
        requires
            box_wf(*self),
            ray_wf(*ray),
            frac_wf(t_min),
            frac_wf(t_max),
        ensures
            r == slab_hit(*self, *ray, t_min, t_max),
    {
        let mut lo = t_min;
        let mut hi = t_max;
        let ghost mut lo_k: int = 3;
        let ghost mut hi_k: int = 3;
        let mut axis: usize = 0;
        while axis < 3
            invariant
                box_wf(*self),
                ray_wf(*ray),
                frac_wf(t_min),
                frac_wf(t_max),
                scan_state(*self, *ray, t_min, t_max, axis as int, lo, hi, lo_k, hi_k),
                axis > 0 ==> frac_le(lo, hi),
            decreases 3 - axis,
        {
            let d = ray.direction.index(axis);
            let o = ray.origin.index(axis);
            let bmin = self.minimum.index(axis);
            let bmax = self.maximum.index(axis);
            if d == 0 {
                if o < bmin || o > bmax {
                    assert(!axis_open(*self, *ray, axis as int));
                    return false;
                }
                assert(axis_open(*self, *ray, axis as int));
            } else {
                proof {
                    lemma_crossing_order_agrees(*self, *ray, axis as int);
                }
                let c0 = crossing_exec(bmin, o, d);
                let c1 = crossing_exec(bmax, o, d);
                let (t0, t1) = if c0.at_most(&c1) {
                    (c0, c1)
                } else {
                    (c1, c0)
                };
                assert(t0 == entry(*self, *ray, axis as int));
                assert(t1 == exit(*self, *ray, axis as int));
                let ghost (old_lo, old_hi, old_lo_k, old_hi_k) = (lo, hi, lo_k, hi_k);
                if lo.less_than(&t0) {
                    lo = t0;
                    proof {
                        lo_k = axis as int;
                    }
                }
                if t1.less_than(&hi) {
                    hi = t1;
                    proof {
                        hi_k = axis as int;
                    }
                }
                proof {
                    lemma_scan_step(
                        *self,
                        *ray,
                        t_min,
                        t_max,
                        axis as int,
                        old_lo,
                        old_hi,
                        old_lo_k,
                        old_hi_k,
                        lo,
                        hi,
                        lo_k,
                        hi_k,
                    );
                }
            }
            if hi.less_than(&lo) {
                proof {
                    lemma_scan_miss(*self, *ray, t_min, t_max, axis as int + 1, lo, hi, lo_k, hi_k);
                }
                return false;
            }
            axis += 1;
        }
        proof {
            lemma_scan_complete(*self, *ray, t_min, t_max, lo, hi, lo_k, hi_k);
        }
        true
    }

    /// The same test as `hit`, with the two crossings of an axis put in order
    /// by the sign of the direction rather than by comparing them: a negative
    /// direction swaps them.
    pub fn optimized_hit(&self, ray: &Ray, t_min: Fraction, t_max: Fraction) -> (r: bool)
        requires
            box_wf(*self),
            ray_wf(*ray),
            frac_wf(t_min),
            frac_wf(t_max),
        ensures
            r == slab_hit(*self, *ray, t_min, t_max),
    {
        let mut lo = t_min;
        let mut hi = t_max;
        let ghost mut lo_k: int = 3;
        let ghost mut hi_k: int = 3;
        let mut axis: usize = 0;
        while axis < 3
            invariant
                box_wf(*self),
                ray_wf(*ray),
                frac_wf(t_min),
                frac_wf(t_max),
                scan_state(*self, *ray, t_min, t_max, axis as int, lo, hi, lo_k, hi_k),
                axis > 0 ==> frac_le(lo, hi),
            decreases 3 - axis,
        {
            let d = ray.direction.index(axis);
            let o = ray.origin.index(axis);
            let bmin = self.minimum.index(axis);
            let bmax = self.maximum.index(axis);
            if d == 0 {
                if o < bmin || o > bmax {
                    assert(!axis_open(*self, *ray, axis as int));
                    return false;
                }
                assert(axis_open(*self, *ray, axis as int));
            } else {
                let mut t0 = crossing_exec(bmin, o, d);
                let mut t1 = crossing_exec(bmax, o, d);
                if d < 0 {
                    let swap = t0;
                    t0 = t1;
                    t1 = swap;
                }
                proof {
                    lemma_crossing_order_agrees(*self, *ray, axis as int);
                }
                let ghost (old_lo, old_hi, old_lo_k, old_hi_k) = (lo, hi, lo_k, hi_k);
                if lo.less_than(&t0) {
                    lo = t0;
                    proof {
                        lo_k = axis as int;
                    }
                }
                if t1.less_than(&hi) {
                    hi = t1;
                    proof {
                        hi_k = axis as int;
                    }
                }
                proof {
                    lemma_scan_step(
                        *self,
                        *ray,
                        t_min,
                        t_max,
                        axis as int,
                        old_lo,
                        old_hi,
                        old_lo_k,
                        old_hi_k,
                        lo,
                        hi,
                        lo_k,
                        hi_k,
                    );
                }
            }
            if hi.less_than(&lo) {
                proof {
                    lemma_scan_miss(*self, *ray, t_min, t_max, axis as int + 1, lo, hi, lo_k, hi_k);
                }
                return false;
            }
            axis += 1;
        }
        proof {
            lemma_scan_complete(*self, *ray, t_min, t_max, lo, hi, lo_k, hi_k);
        }
        true
    }
}

/// The two formulations of the slab test order an axis's crossings alike:
/// taking the smaller and the larger of the two, as `hit` does, gives the
/// same entry and exit as swapping them when the direction is negative, as
/// `optimized_hit` does. Both tests therefore decide `slab_hit`.
pub proof fn lemma_crossing_order_agrees(b: AxisAlignedBoundingBox, r: Ray, axis: int)
    requires
        box_wf(b),
        ray_wf(r),
        0 <= axis < 3,
        component(r.direction, axis) != 0,
    ensures
        ({
            let d = component(r.direction, axis);
            let o = component(r.origin, axis);
            let c0 = crossing(component(b.minimum, axis), o, d);
            let c1 = crossing(component(b.maximum, axis), o, d);
            &&& (if frac_le(c0, c1) { c0 } else { c1 }) == (if d < 0 { c1 } else { c0 })
            &&& (if frac_le(c0, c1) { c1 } else { c0 }) == (if d < 0 { c0 } else { c1 })
            &&& (if d < 0 { c1 } else { c0 }) == entry(b, r, axis)
            &&& (if d < 0 { c0 } else { c1 }) == exit(b, r, axis)
        }),
{
    let d = component(r.direction, axis);
    let o = component(r.origin, axis);
    lemma_crossing_wf(component(b.minimum, axis), o, d);
    lemma_crossing_wf(component(b.maximum, axis), o, d);
    lemma_entry_before_exit(b, r, axis);
    lemma_same_den(
        crossing(component(b.minimum, axis), o, d),
        crossing(component(b.maximum, axis), o, d),
    );
}

/// If the point at parameter `t` lies in the box on an axis, `t` lies
/// between that axis's entry and exit (or the axis is open, for a direction
/// parallel to it).
proof fn lemma_point_in_slab(b: AxisAlignedBoundingBox, r: Ray, t: Fraction, k: int)
    requires
        box_wf(b),
        ray_wf(r),
        0 <= k < 3,
        t.den > 0,
        t.den * component(b.minimum, k) <= t.den * component(r.origin, k) + t.num * component(
            r.direction,
            k,
        ) <= t.den * component(b.maximum, k),
    ensures
        axis_open(b, r, k),
        component(r.direction, k) != 0 ==> frac_le(entry(b, r, k), t) && frac_le(t, exit(b, r, k)),
{
    let m = t.den as int;
    let n = t.num as int;
    let o = component(r.origin, k);
    let d = component(r.direction, k);
    let lo = component(b.minimum, k);
    let hi = component(b.maximum, k);
    if d == 0 {
        assert(lo <= o <= hi) by (nonlinear_arith)
            requires
                m * lo <= m * o + n * d <= m * hi,
                d == 0,
                m > 0,
        ;
    } else {
        lemma_crossing_wf(lo, o, d);
        lemma_crossing_wf(hi, o, d);
        if d > 0 {
            assert((lo - o) * m <= n * d && n * d <= (hi - o) * m) by (nonlinear_arith)
                requires
                    m * lo <= m * o + n * d <= m * hi,
            ;
        } else {
            assert((o - hi) * m <= n * (-d) && n * (-d) <= (o - lo) * m) by (nonlinear_arith)
                requires
                    m * lo <= m * o + n * d <= m * hi,
            ;
        }
    }
}

/// A parameter in `[t_min, t_max]` at which the ray is inside the box shows
/// that the slab test passes.
pub proof fn lemma_point_inside_box_hits(
    b: AxisAlignedBoundingBox,
    r: Ray,
    t_min: Fraction,
    t_max: Fraction,
    t: Fraction,
)
    requires
        box_wf(b),
        ray_wf(r),
        frac_wf(t_min),
        frac_wf(t_max),
        t.den > 0,
        frac_le(t_min, t),
        frac_le(t, t_max),
        forall|k: int|
            0 <= k < 3 ==> t.den * component(b.minimum, k) <= #[trigger] (t.den * component(r.origin, k)
                + t.num * component(r.direction, k)) <= t.den * component(b.maximum, k),
    ensures
        slab_hit(b, r, t_min, t_max),
{
    assert forall|k: int| 0 <= k < 3 implies axis_open(b, r, k) && (component(r.direction, k) != 0
        ==> frac_le(entry(b, r, k), t) && frac_le(t, exit(b, r, k))) by {
        assert(t.den * component(b.minimum, k) <= (t.den * component(r.origin, k) + t.num * component(
            r.direction,
            k,
        )) <= t.den * component(b.maximum, k));
        lemma_point_in_slab(b, r, t, k);
    }
    assert forall|i: int, j: int|
        0 <= i < 4 && 0 <= j < 4 && bounds_param(r, i) && bounds_param(r, j) implies frac_le(
        #[trigger] lower_bound(b, r, t_min, i),
        #[trigger] upper_bound(b, r, t_max, j),
    ) by {
        lemma_bounds_wf(b, r, t_min, t_max, i);
        lemma_bounds_wf(b, r, t_min, t_max, j);
        lemma_le_trans(lower_bound(b, r, t_min, i), t, upper_bound(b, r, t_max, j));
    }
}

/// Containment of boxes is reflexive and transitive.
pub proof fn lemma_contains_trans(a: AxisAlignedBoundingBox, b: AxisAlignedBoundingBox, c: AxisAlignedBoundingBox)
    ensures
        box_contains(a, a),
        box_contains(a, b) && box_contains(b, c) ==> box_contains(a, c),
{
    if box_contains(a, b) && box_contains(b, c) {
        assert forall|k: int| 0 <= k < 3 implies component(a.minimum, k) <= component(c.minimum, k)
            && component(c.maximum, k) <= component(a.maximum, k) by {
            assert(component(a.minimum, k) <= component(b.minimum, k) && component(b.maximum, k)
                <= component(a.maximum, k));
        }
    }
}

/// The union of two boxes contains both, and lies inside every box that
/// contains both: it is the tightest such box along each axis.
pub proof fn lemma_surrounding_box_tightest(
    a: AxisAlignedBoundingBox,
    b: AxisAlignedBoundingBox,
    c: AxisAlignedBoundingBox,
)
    ensures
        box_contains(surrounding_spec(a, b), a),
        box_contains(surrounding_spec(a, b), b),
        box_contains(c, a) && box_contains(c, b) ==> box_contains(c, surrounding_spec(a, b)),
        box_wf(a) && box_wf(b) ==> box_wf(surrounding_spec(a, b)),
{
    let s = surrounding_spec(a, b);
    assert forall|k: int| 0 <= k < 3 implies component(s.minimum, k) == min_int(
        component(a.minimum, k),
        component(b.minimum, k),
    ) && component(s.maximum, k) == max_int(component(a.maximum, k), component(b.maximum, k)) by {}
    if box_contains(c, a) && box_contains(c, b) {
        assert forall|k: int| 0 <= k < 3 implies component(c.minimum, k) <= component(s.minimum, k)
            && component(s.maximum, k) <= component(c.maximum, k) by {
            assert(component(c.minimum, k) <= component(a.minimum, k));
            assert(component(c.minimum, k) <= component(b.minimum, k));
            assert(component(a.maximum, k) <= component(c.maximum, k));
            assert(component(b.maximum, k) <= component(c.maximum, k));
        }
    }
}

} // verus!
