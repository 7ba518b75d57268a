use vstd::prelude::*;
use crate::bounding_box::{AxisAlignedBoundingBox, box_contains, box_wf, slab_hit, surrounding_spec, BOX_LIMIT};
use crate::fraction::{Fraction, frac_le, frac_wf, lemma_le_trans};
use crate::hit_record::HitRecord;
use crate::ray::{Ray, ray_wf};
use crate::vector_3d::{Vector3D, component, lemma_product_bound, within, COORD_LIMIT};

verus! {

/// A sphere whose center moves in a straight line from `start_center` at
/// `start_time` to `end_center` at `end_time`.
#[derive(Clone, Copy, Debug, PartialEq, Eq, Structural)]
pub struct MovingSphere {
    pub start_center: Vector3D,
    pub end_center: Vector3D,
    pub radius: i64,
    /// The index of the sphere's material in the scene's material table.
    pub material: usize,
    pub start_time: i64,
    pub end_time: i64,
}

/// Centers and radius within the coordinate bound, and a time window of
/// positive length.
pub open spec fn sphere_wf(s: MovingSphere) -> bool {
    &&& within(s.start_center, COORD_LIMIT as int)
    &&& within(s.end_center, COORD_LIMIT as int)
    &&& 0 <= s.radius <= COORD_LIMIT
    &&& -COORD_LIMIT <= s.start_time
    &&& s.start_time < s.end_time
    &&& s.end_time <= COORD_LIMIT
}

/// Linear interpolation from `a` at `t0` to `b` at `t1`, rounded down to the
/// grid.
pub open spec fn interpolate(a: int, b: int, time: int, t0: int, t1: int) -> int {
    a + ((time - t0) * (b - a)) / (t1 - t0)
}

/// The center's component along `axis` at `time`.
pub open spec fn center_comp(s: MovingSphere, axis: int, time: int) -> int {
    interpolate(
        component(s.start_center, axis),
        component(s.end_center, axis),
        time,
        s.start_time as int,
        s.end_time as int,
    )
}

/// The center at `time` lies within the coordinate bound.
pub open spec fn center_in_range(s: MovingSphere, time: int) -> bool {
    forall|k: int| 0 <= k < 3 ==> -COORD_LIMIT <= #[trigger] center_comp(s, k, time) <= COORD_LIMIT
}

pub open spec fn center_at(s: MovingSphere, time: int) -> Vector3D {
    Vector3D {
        x: center_comp(s, 0, time) as i64,
        y: center_comp(s, 1, time) as i64,
        z: center_comp(s, 2, time) as i64,
    }
}

/// The box `[c - r, c + r]` around a sphere of radius `r` centered at `c`.
pub open spec fn ball_box(c: Vector3D, r: int) -> AxisAlignedBoundingBox {
    AxisAlignedBoundingBox {
        minimum: Vector3D { x: (c.x - r) as i64, y: (c.y - r) as i64, z: (c.z - r) as i64 },
        maximum: Vector3D { x: (c.x + r) as i64, y: (c.y + r) as i64, z: (c.z + r) as i64 },
    }
}

/// The box swept over `[time_0, time_1]`: the union of the boxes around the
/// centers at both ends.
pub open spec fn swept_box(s: MovingSphere, time_0: int, time_1: int) -> AxisAlignedBoundingBox {
    surrounding_spec(
        ball_box(center_at(s, time_0), s.radius as int),
        ball_box(center_at(s, time_1), s.radius as int),
    )
}

/// The offset from the center at the ray's time to the ray's origin.
pub open spec fn oc_comp(s: MovingSphere, r: Ray, k: int) -> int {
    component(r.origin, k) - center_comp(s, k, r.time as int)
}

/// `a` in `a t^2 + 2 half_b t + c = 0`, whose roots are where the ray meets
/// the sphere.
pub open spec fn quad_a(r: Ray) -> int {
    r.direction.x * r.direction.x + r.direction.y * r.direction.y + r.direction.z * r.direction.z
}

pub open spec fn quad_half_b(s: MovingSphere, r: Ray) -> int {
    oc_comp(s, r, 0) * r.direction.x + oc_comp(s, r, 1) * r.direction.y + oc_comp(s, r, 2)
        * r.direction.z
}

pub open spec fn quad_c(s: MovingSphere, r: Ray) -> int {
    oc_comp(s, r, 0) * oc_comp(s, r, 0) + oc_comp(s, r, 1) * oc_comp(s, r, 1) + oc_comp(s, r, 2)
        * oc_comp(s, r, 2) - s.radius * s.radius
}

pub open spec fn discriminant(s: MovingSphere, r: Ray) -> int {
    quad_half_b(s, r) * quad_half_b(s, r) - quad_a(r) * quad_c(s, r)
}

/// `q` is the square root of `n` rounded down.
pub open spec fn is_floor_sqrt(n: int, q: int) -> bool {
    0 <= q && q * q <= n && n < (q + 1) * (q + 1)
}

pub open spec fn floor_sqrt(n: int) -> int {
    choose|q: int| is_floor_sqrt(n, q)
}

/// The smaller root, with the discriminant's square root rounded down.
pub open spec fn near_root(s: MovingSphere, r: Ray) -> Fraction {
    Fraction {
        num: (-quad_half_b(s, r) - floor_sqrt(discriminant(s, r))) as i64,
        den: quad_a(r) as i64,
    }
}

/// The larger root, with the discriminant's square root rounded down.
pub open spec fn far_root(s: MovingSphere, r: Ray) -> Fraction {
    Fraction {
        num: (-quad_half_b(s, r) + floor_sqrt(discriminant(s, r))) as i64,
        den: quad_a(r) as i64,
    }
}

pub open spec fn in_range(t: Fraction, t_min: Fraction, t_max: Fraction) -> bool {
    frac_le(t_min, t) && frac_le(t, t_max)
}

/// The nearest root in `[t_min, t_max]`: the smaller root if it is in range,
/// else the larger one if it is; none for a zero direction or a negative
/// discriminant.
pub open spec fn sphere_hit_t(s: MovingSphere, r: Ray, t_min: Fraction, t_max: Fraction) -> Option<Fraction> {
    if quad_a(r) == 0 || discriminant(s, r) < 0 {
        None
    } else if in_range(near_root(s, r), t_min, t_max) {
        Some(near_root(s, r))
    } else if in_range(far_root(s, r), t_min, t_max) {
        Some(far_root(s, r))
    } else {
        None
    }
}

/// At parameter `t` the ray moves against the outward normal: the sign of
/// `direction . (point(t) - center)`, times `t.den > 0`.
pub open spec fn faces_ray(s: MovingSphere, r: Ray, t: Fraction) -> bool {
    quad_half_b(s, r) * t.den + t.num * quad_a(r) < 0
}

pub open spec fn record_at(s: MovingSphere, r: Ray, t: Fraction) -> HitRecord {
    HitRecord {
        t,
        front_face: faces_ray(s, r, t),
        material: s.material,
        center: center_at(s, r.time as int),
        radius: s.radius,
    }
}

/// The record of the nearest hit in `[t_min, t_max]`, if any.
pub open spec fn sphere_hit(s: MovingSphere, r: Ray, t_min: Fraction, t_max: Fraction) -> Option<HitRecord> {
    match sphere_hit_t(s, r, t_min, t_max) {
        Some(t) => Some(record_at(s, r, t)),
        None => None,
    }
}

/// The square root rounded down is unique.
pub proof fn lemma_floor_sqrt_unique(n: int, q: int)
    requires
        is_floor_sqrt(n, q),
    ensures
        floor_sqrt(n) == q,
{
    let p = floor_sqrt(n);
    assert(is_floor_sqrt(n, p));
    if p < q {
        assert((p + 1) * (p + 1) <= q * q) by (nonlinear_arith)
            requires
                0 <= p < q,
        ;
    } else if q < p {
        assert((q + 1) * (q + 1) <= p * p) by (nonlinear_arith)
            requires
                0 <= q < p,
        ;
    }
}

/// Every natural number has a square root rounded down.
pub proof fn lemma_floor_sqrt_exists(n: int)
    requires
        n >= 0,
    ensures
        is_floor_sqrt(n, floor_sqrt(n)),
    decreases n,
{
    if n == 0 {
        assert(is_floor_sqrt(0, 0));
    } else {
        lemma_floor_sqrt_exists(n - 1);
        let q = floor_sqrt(n - 1);
        if n < (q + 1) * (q + 1) {
            assert(is_floor_sqrt(n, q));
        } else {
            assert(is_floor_sqrt(n, q + 1)) by (nonlinear_arith)
                requires
                    0 <= q,
                    n - 1 < (q + 1) * (q + 1),
                    n >= (q + 1) * (q + 1),
            ;
        }
    }
}

/// For a well-formed sphere and ray with a nonnegative discriminant, both
/// roots are well-formed fractions over the denominator `a`, the smaller
/// root first.
pub proof fn lemma_roots_wf(s: MovingSphere, r: Ray)
    requires
        sphere_wf(s),
        ray_wf(r),
        center_in_range(s, r.time as int),
        quad_a(r) > 0,
        discriminant(s, r) >= 0,
    ensures
        frac_wf(near_root(s, r)),
        frac_wf(far_root(s, r)),
        near_root(s, r).den == quad_a(r),
        far_root(s, r).den == quad_a(r),
        near_root(s, r).num == -quad_half_b(s, r) - floor_sqrt(discriminant(s, r)),
        far_root(s, r).num == -quad_half_b(s, r) + floor_sqrt(discriminant(s, r)),
        frac_le(near_root(s, r), far_root(s, r)),
{
    lemma_quadratic_bounds(s, r);
    let l = COORD_LIMIT as int;
    assert(l * l == 0x100_0000_0000_0000) by (nonlinear_arith)
        requires
            l == 268435456,
    ;
    let ll = l * l;
    assert(ll * ll == 0x1_0000_0000_0000_0000_0000_0000_0000) by (nonlinear_arith)
        requires
            ll == 0x100_0000_0000_0000,
    ;
    let disc = discriminant(s, r);
    lemma_floor_sqrt_exists(disc);
    let q = floor_sqrt(disc);
    assert(quad_half_b(s, r) * quad_half_b(s, r) >= 0) by (nonlinear_arith);
    assert(disc < 0x80_0000_0000_0000_0000_0000_0000_0000);
    assert(q < 0x1000_0000_0000_0000) by (nonlinear_arith)
        requires
            0 <= q,
            q * q <= disc,
            disc < 0x80_0000_0000_0000_0000_0000_0000_0000,
    ;
    crate::bounding_box::lemma_same_den(near_root(s, r), far_root(s, r));
}

/// The parameter of a hit is in range, has a positive denominator, and is
/// at most any root in range.
pub proof fn lemma_hit_is_nearest(s: MovingSphere, r: Ray, t_min: Fraction, t_max: Fraction)
    requires
        sphere_wf(s),
        ray_wf(r),
        center_in_range(s, r.time as int),
        sphere_hit_t(s, r, t_min, t_max) is Some,
    ensures
        frac_wf(sphere_hit_t(s, r, t_min, t_max)->0),
        in_range(sphere_hit_t(s, r, t_min, t_max)->0, t_min, t_max),
        in_range(far_root(s, r), t_min, t_max) ==> frac_le(sphere_hit_t(s, r, t_min, t_max)->0, far_root(s, r)),
        sphere_hit_t(s, r, t_min, t_max)->0 == near_root(s, r) || (sphere_hit_t(s, r, t_min, t_max)->0
            == far_root(s, r) && !in_range(near_root(s, r), t_min, t_max)),
{
    lemma_quadratic_bounds(s, r);
    lemma_roots_wf(s, r);
}

/// A hit found in a narrower range `[t_min, t_mid]` is also the hit in
/// `[t_min, t_max]`.
pub proof fn lemma_hit_widen(s: MovingSphere, r: Ray, t_min: Fraction, t_mid: Fraction, t_max: Fraction)
    requires
        sphere_wf(s),
        ray_wf(r),
        center_in_range(s, r.time as int),
        frac_wf(t_min),
        frac_wf(t_mid),
        frac_wf(t_max),
        frac_le(t_mid, t_max),
        sphere_hit_t(s, r, t_min, t_mid) is Some,
    ensures
        sphere_hit_t(s, r, t_min, t_max) == sphere_hit_t(s, r, t_min, t_mid),
{
    lemma_quadratic_bounds(s, r);
    lemma_roots_wf(s, r);
    let near = near_root(s, r);
    let far = far_root(s, r);
    if in_range(near, t_min, t_mid) {
        lemma_le_trans(near, t_mid, t_max);
    } else {
        lemma_le_trans(far, t_mid, t_max);
        if frac_le(t_min, near) {
            lemma_le_trans(near, far, t_mid);
        }
    }
}

/// A hit in `[t_min, t_max]` at most `t_mid <= t_max` is also the hit in
/// `[t_min, t_mid]`.
pub proof fn lemma_hit_narrow(s: MovingSphere, r: Ray, t_min: Fraction, t_mid: Fraction, t_max: Fraction)
    requires
        sphere_wf(s),
        ray_wf(r),
        center_in_range(s, r.time as int),
        frac_wf(t_min),
        frac_wf(t_mid),
        frac_wf(t_max),
        frac_le(t_mid, t_max),
        sphere_hit_t(s, r, t_min, t_max) is Some,
        frac_le(sphere_hit_t(s, r, t_min, t_max)->0, t_mid),
    ensures
        sphere_hit_t(s, r, t_min, t_mid) == sphere_hit_t(s, r, t_min, t_max),
{
    lemma_quadratic_bounds(s, r);
    lemma_roots_wf(s, r);
    let near = near_root(s, r);
    let far = far_root(s, r);
    if in_range(near, t_min, t_max) {
    } else {
        if frac_le(t_min, near) {
            assert(!frac_le(near, t_max));
            if frac_le(near, t_mid) {
                lemma_le_trans(near, t_mid, t_max);
            }
        }
    }
}

proof fn lemma_interpolate_monotone(a: int, b: int, t0: int, t1: int, u: int, v: int)
    requires
        t0 < t1,
        u <= v,
    ensures
        a <= b ==> interpolate(a, b, u, t0, t1) <= interpolate(a, b, v, t0, t1),
        b <= a ==> interpolate(a, b, v, t0, t1) <= interpolate(a, b, u, t0, t1),
{
    let d = t1 - t0;
    if a <= b {
        assert((u - t0) * (b - a) <= (v - t0) * (b - a)) by (nonlinear_arith)
            requires
                u <= v,
                a <= b,
        ;
        vstd::arithmetic::div_mod::lemma_div_is_ordered((u - t0) * (b - a), (v - t0) * (b - a), d);
    }
    if b <= a {
        assert((v - t0) * (b - a) <= (u - t0) * (b - a)) by (nonlinear_arith)
            requires
                u <= v,
                b <= a,
        ;
        vstd::arithmetic::div_mod::lemma_div_is_ordered((v - t0) * (b - a), (u - t0) * (b - a), d);
    }
}

/// Between two times the center lies between the centers at those times, so
/// the box swept over them holds the ball at every time in between.
pub proof fn lemma_center_between(s: MovingSphere, u0: int, u1: int, time: int)
    requires
        sphere_wf(s),
        center_in_range(s, u0),
        center_in_range(s, u1),
        u0 <= time <= u1,
    ensures
        center_in_range(s, time),
        forall|k: int|
            0 <= k < 3 ==> {
                let c = #[trigger] center_comp(s, k, time);
                &&& (center_comp(s, k, u0) <= c || center_comp(s, k, u1) <= c)
                &&& (c <= center_comp(s, k, u0) || c <= center_comp(s, k, u1))
            },
{
    assert forall|k: int| 0 <= k < 3 implies {
        let c = #[trigger] center_comp(s, k, time);
        &&& (center_comp(s, k, u0) <= c || center_comp(s, k, u1) <= c)
        &&& (c <= center_comp(s, k, u0) || c <= center_comp(s, k, u1))
    } by {
        let a = component(s.start_center, k);
        let b = component(s.end_center, k);
        lemma_interpolate_monotone(a, b, s.start_time as int, s.end_time as int, u0, time);
        lemma_interpolate_monotone(a, b, s.start_time as int, s.end_time as int, time, u1);
    }
    assert forall|k: int| 0 <= k < 3 implies -COORD_LIMIT <= #[trigger] center_comp(s, k, time)
        <= COORD_LIMIT by {
        assert(-COORD_LIMIT <= center_comp(s, k, u0) <= COORD_LIMIT);
        assert(-COORD_LIMIT <= center_comp(s, k, u1) <= COORD_LIMIT);
    }
}

proof fn lemma_square_bound(x: int, y: int)
    requires
        x * x <= y * y,
        y >= 0,
    ensures
        -y <= x <= y,
{
    if x > y {
        assert(x * x > y * y) by (nonlinear_arith)
            requires
                x > y,
                y >= 0,
        ;
    }
    if x < -y {
        assert(x * x > y * y) by (nonlinear_arith)
            requires
                x < -y,
                y >= 0,
        ;
    }
}

/// At the parameter `n / m` of a hit, the point lies in the ball: scaled by
/// `m`, each coordinate is within `m * radius` of the center's.
proof fn lemma_hit_point_in_ball(s: MovingSphere, r: Ray, t_min: Fraction, t_max: Fraction)
    requires
        sphere_wf(s),
        ray_wf(r),
        center_in_range(s, r.time as int),
        sphere_hit_t(s, r, t_min, t_max) is Some,
    ensures
        ({
            let t = sphere_hit_t(s, r, t_min, t_max)->0;
            forall|k: int|
                0 <= k < 3 ==> -(t.den * s.radius) <= #[trigger] (t.den * oc_comp(s, r, k) + t.num
                    * component(r.direction, k)) <= t.den * s.radius
        }),
        sphere_hit_t(s, r, t_min, t_max)->0.den > 0,
{
    lemma_quadratic_bounds(s, r);
    lemma_roots_wf(s, r);
    let t = sphere_hit_t(s, r, t_min, t_max)->0;
    let m = t.den as int;
    let n = t.num as int;
    let a = quad_a(r);
    let hb = quad_half_b(s, r);
    let disc = discriminant(s, r);
    let q = floor_sqrt(disc);
    lemma_floor_sqrt_exists(disc);
    assert(m == a);
    assert(n + hb == q || n + hb == -q);
    lemma_completed_square(s, r, n, m);
    let x0 = m * oc_comp(s, r, 0) + n * r.direction.x;
    let x1 = m * oc_comp(s, r, 1) + n * r.direction.y;
    let x2 = m * oc_comp(s, r, 2) + n * r.direction.z;
    let rr = s.radius * s.radius;
    let big_q = x0 * x0 + x1 * x1 + x2 * x2 - m * m * rr;
    let e = a * n + hb * m;
    assert(a * big_q == e * e - disc * (m * m));
    assert(e == a * (n + hb)) by (nonlinear_arith)
        requires
            e == a * n + hb * m,
            m == a,
    ;
    assert(e * e == (a * a) * (q * q)) by (nonlinear_arith)
        requires
            e == a * (n + hb),
            n + hb == q || n + hb == -q,
    ;
    assert(big_q <= 0) by (nonlinear_arith)
        requires
            a * big_q == (a * a) * (q * q) - disc * (m * m),
            m == a,
            a > 0,
            q * q <= disc,
    ;
    assert(x0 * x0 >= 0 && x1 * x1 >= 0 && x2 * x2 >= 0) by (nonlinear_arith);
    let y = m * s.radius;
    assert(y >= 0) by (nonlinear_arith)
        requires
            m > 0,
            s.radius >= 0,
            y == m * s.radius,
    ;
    assert(m * m * rr == y * y) by (nonlinear_arith)
        requires
            y == m * s.radius,
            rr == s.radius * s.radius,
    ;
    lemma_square_bound(x0, y);
    lemma_square_bound(x1, y);
    lemma_square_bound(x2, y);
    assert forall|k: int| 0 <= k < 3 implies -(t.den * s.radius) <= #[trigger] (t.den * oc_comp(s, r, k)
        + t.num * component(r.direction, k)) <= t.den * s.radius by {
        if k == 0 {
            assert(x0 == t.den * oc_comp(s, r, k) + t.num * component(r.direction, k));
        } else if k == 1 {
            assert(x1 == t.den * oc_comp(s, r, k) + t.num * component(r.direction, k));
        } else {
            assert(x2 == t.den * oc_comp(s, r, k) + t.num * component(r.direction, k));
        }
    }
}

/// A sphere hit in `[t_min, t_max]` by a ray whose time lies in
/// `[u0, u1]` passes the slab test of every box that holds the sphere's box
/// swept over `[u0, u1]`.
pub proof fn lemma_hit_in_box(
    s: MovingSphere,
    r: Ray,
    t_min: Fraction,
    t_max: Fraction,
    b: AxisAlignedBoundingBox,
    u0: int,
    u1: int,
)
    requires
        sphere_wf(s),
        ray_wf(r),
        frac_wf(t_min),
        frac_wf(t_max),
        center_in_range(s, u0),
        center_in_range(s, u1),
        u0 <= r.time <= u1,
        box_wf(b),
        box_contains(b, swept_box(s, u0, u1)),
        sphere_hit_t(s, r, t_min, t_max) is Some,
    ensures
        slab_hit(b, r, t_min, t_max),
{
    lemma_center_between(s, u0, u1, r.time as int);
    lemma_hit_point_in_ball(s, r, t_min, t_max);
    lemma_hit_is_nearest(s, r, t_min, t_max);
    let t = sphere_hit_t(s, r, t_min, t_max)->0;
    let m = t.den as int;
    let n = t.num as int;
    let sw = swept_box(s, u0, u1);
    assert forall|k: int| 0 <= k < 3 implies t.den * component(b.minimum, k) <= #[trigger] (t.den
        * component(r.origin, k) + t.num * component(r.direction, k)) <= t.den * component(
        b.maximum,
        k,
    ) by {
        let c = center_comp(s, k, r.time as int);
        let c0 = center_comp(s, k, u0);
        let c1 = center_comp(s, k, u1);
        let rad = s.radius as int;
        assert(-COORD_LIMIT <= c0 <= COORD_LIMIT && -COORD_LIMIT <= c1 <= COORD_LIMIT);
        assert(component(sw.minimum, k) <= c - rad && c + rad <= component(sw.maximum, k)) by {
            if k == 0 {
            } else if k == 1 {
            } else {
            }
        }
        let lo = component(b.minimum, k);
        let hi = component(b.maximum, k);
        assert(lo <= c - rad && c + rad <= hi);
        let o = component(r.origin, k);
        let d = component(r.direction, k);
        assert(-(m * rad) <= m * (o - c) + n * d <= m * rad);
        assert(m * lo <= m * o + n * d <= m * hi) by (nonlinear_arith)
            requires
                -(m * rad) <= m * (o - c) + n * d <= m * rad,
                lo <= c - rad,
                c + rad <= hi,
                m > 0,
        ;
    }
    crate::bounding_box::lemma_point_inside_box_hits(b, r, t_min, t_max, t);
}

/// Relies on num's `Roots::sqrt` for `u128`, documented to return the
/// truncated square root `r` with `r² ≤ x < (r+1)²`.
#[verifier::external_body]
pub(crate) fn isqrt(n: u128) -> (r: u128)
    ensures
        r * r <= n,
        n < (r + 1) * (r + 1),
{
    num::integer::Roots::sqrt(&n)
}

/// Bounds on the quadratic's coefficients, with `L = COORD_LIMIT`.
proof fn lemma_quadratic_bounds(s: MovingSphere, r: Ray)
    requires
        sphere_wf(s),
        ray_wf(r),
        center_in_range(s, r.time as int),
    ensures
        0 <= quad_a(r) <= 3 * COORD_LIMIT * COORD_LIMIT,
        -6 * COORD_LIMIT * COORD_LIMIT <= quad_half_b(s, r) <= 6 * COORD_LIMIT * COORD_LIMIT,
        -COORD_LIMIT * COORD_LIMIT <= quad_c(s, r) <= 12 * COORD_LIMIT * COORD_LIMIT,
        quad_half_b(s, r) * quad_half_b(s, r) <= 36 * (COORD_LIMIT * COORD_LIMIT) * (COORD_LIMIT
            * COORD_LIMIT),
        -36 * (COORD_LIMIT * COORD_LIMIT) * (COORD_LIMIT * COORD_LIMIT) <= quad_a(r) * quad_c(s, r)
            <= 36 * (COORD_LIMIT * COORD_LIMIT) * (COORD_LIMIT * COORD_LIMIT),
{
    let l = COORD_LIMIT as int;
    let d = r.direction;
    assert(-l <= center_comp(s, 0, r.time as int) <= l);
    assert(-l <= center_comp(s, 1, r.time as int) <= l);
    assert(-l <= center_comp(s, 2, r.time as int) <= l);
    let (ox, oy, oz) = (oc_comp(s, r, 0), oc_comp(s, r, 1), oc_comp(s, r, 2));
    assert(-2 * l <= ox <= 2 * l);
    assert(-2 * l <= oy <= 2 * l);
    assert(-2 * l <= oz <= 2 * l);
    lemma_product_bound(d.x as int, d.x as int, l, l);
    lemma_product_bound(d.y as int, d.y as int, l, l);
    lemma_product_bound(d.z as int, d.z as int, l, l);
    assert(0 <= d.x * d.x && 0 <= d.y * d.y && 0 <= d.z * d.z) by (nonlinear_arith);
    lemma_product_bound(ox, d.x as int, 2 * l, l);
    lemma_product_bound(oy, d.y as int, 2 * l, l);
    lemma_product_bound(oz, d.z as int, 2 * l, l);
    lemma_product_bound(ox, ox, 2 * l, 2 * l);
    lemma_product_bound(oy, oy, 2 * l, 2 * l);
    lemma_product_bound(oz, oz, 2 * l, 2 * l);
    assert(0 <= ox * ox && 0 <= oy * oy && 0 <= oz * oz) by (nonlinear_arith);
    lemma_product_bound(s.radius as int, s.radius as int, l, l);
    assert(0 <= s.radius * s.radius) by (nonlinear_arith);
    assert((2 * l) * l == 2 * (l * l));
    assert((2 * l) * (2 * l) == 4 * (l * l));
    let hb = quad_half_b(s, r);
    let a = quad_a(r);
    let c = quad_c(s, r);
    let ll = l * l;
    lemma_product_bound(hb, hb, 6 * ll, 6 * ll);
    lemma_product_bound(a, c, 12 * ll, 12 * ll);
    assert((6 * ll) * (6 * ll) == 36 * ll * ll) by (nonlinear_arith);
    assert(-(3 * ll) * (12 * ll) <= a * c <= (3 * ll) * (12 * ll)) by (nonlinear_arith)
        requires
            0 <= a <= 3 * ll,
            -ll <= c <= 12 * ll,
            0 <= ll,
    ;
    assert((3 * ll) * (12 * ll) == 36 * ll * ll) by (nonlinear_arith);
}

/// The point at parameter `n / m` (`m > 0`) lies on the sphere at the ray's
/// time, scaled by `m²`: `|m (origin - center) + n direction|² = m² radius²`.
pub open spec fn on_sphere_at(s: MovingSphere, r: Ray, n: int, m: int) -> bool {
    (m * oc_comp(s, r, 0) + n * r.direction.x) * (m * oc_comp(s, r, 0) + n * r.direction.x) + (m
        * oc_comp(s, r, 1) + n * r.direction.y) * (m * oc_comp(s, r, 1) + n * r.direction.y) + (m
        * oc_comp(s, r, 2) + n * r.direction.z) * (m * oc_comp(s, r, 2) + n * r.direction.z) == m
        * m * (s.radius * s.radius)
}

proof fn lemma_binomial(p: int, x: int, q: int, y: int)
    ensures
        (p * x + q * y) * (p * x + q * y) == (p * p) * (x * x) + 2 * ((p * q) * (x * y)) + (q * q) * (y
            * y),
{
    let u = p * x;
    let v = q * y;
    assert((u + v) * (u + v) == u * u + 2 * (u * v) + v * v) by (nonlinear_arith);
    assert(u * u == (p * p) * (x * x)) by (nonlinear_arith)
        requires
            u == p * x,
    ;
    assert(v * v == (q * q) * (y * y)) by (nonlinear_arith)
        requires
            v == q * y,
    ;
    assert(u * v == (p * q) * (x * y)) by (nonlinear_arith)
        requires
            u == p * x,
            v == q * y,
    ;
}

proof fn lemma_distribute3(k: int, x: int, y: int, z: int)
    ensures
        k * x + k * y + k * z == k * (x + y + z),
{
    assert(k * x + k * y + k * z == k * (x + y + z)) by (nonlinear_arith);
}

/// The scaled quadratic at `n / m`, times `a`, completes to a square:
/// `a (|m oc + n d|² - m² r²) = (a n + half_b m)² - discriminant m²`.
proof fn lemma_completed_square(s: MovingSphere, r: Ray, n: int, m: int)
    ensures
        quad_a(r) * ((m * oc_comp(s, r, 0) + n * r.direction.x) * (m * oc_comp(s, r, 0) + n
            * r.direction.x) + (m * oc_comp(s, r, 1) + n * r.direction.y) * (m * oc_comp(s, r, 1) + n
            * r.direction.y) + (m * oc_comp(s, r, 2) + n * r.direction.z) * (m * oc_comp(s, r, 2) + n
            * r.direction.z) - m * m * (s.radius * s.radius)) == (quad_a(r) * n + quad_half_b(s, r)
            * m) * (quad_a(r) * n + quad_half_b(s, r) * m) - discriminant(s, r) * (m * m),
{
    let (ox, oy, oz) = (oc_comp(s, r, 0), oc_comp(s, r, 1), oc_comp(s, r, 2));
    let (dx, dy, dz) = (r.direction.x as int, r.direction.y as int, r.direction.z as int);
    let rr = s.radius * s.radius;
    let a = quad_a(r);
    let hb = quad_half_b(s, r);
    let c = quad_c(s, r);
    let w = ox * ox + oy * oy + oz * oz;
    let (mm, mn, nn) = (m * m, m * n, n * n);
    lemma_binomial(m, ox, n, dx);
    lemma_binomial(m, oy, n, dy);
    lemma_binomial(m, oz, n, dz);
    lemma_distribute3(mm, ox * ox, oy * oy, oz * oz);
    lemma_distribute3(mn, ox * dx, oy * dy, oz * dz);
    lemma_distribute3(nn, dx * dx, dy * dy, dz * dz);
    let q = (m * ox + n * dx) * (m * ox + n * dx) + (m * oy + n * dy) * (m * oy + n * dy) + (m * oz
        + n * dz) * (m * oz + n * dz) - mm * rr;
    assert(q == mm * w + 2 * (mn * hb) + nn * a - mm * rr);
    assert(c == w - rr);
    assert(mm * w - mm * rr == mm * c) by (nonlinear_arith)
        requires
            c == w - rr,
    ;
    assert(q == nn * a + 2 * (mn * hb) + mm * c);
    let e = a * n + hb * m;
    lemma_binomial(a, n, hb, m);
    assert(e * e == (a * a) * nn + 2 * ((a * hb) * mn) + (hb * hb) * mm);
    assert(a * q == (a * a) * nn + 2 * ((a * hb) * mn) + a * (mm * c)) by (nonlinear_arith)
        requires
            q == nn * a + 2 * (mn * hb) + mm * c,
    ;
    assert(a * (mm * c) == (hb * hb) * mm - (hb * hb - a * c) * mm) by (nonlinear_arith);
}

/// With a negative discriminant the ray's line never meets the sphere, and
/// no hit is reported.
pub proof fn lemma_negative_discriminant_misses(
    s: MovingSphere,
    r: Ray,
    n: int,
    m: int,
    t_min: Fraction,
    t_max: Fraction,
)
    requires
        discriminant(s, r) < 0,
        m > 0,
    ensures
        !on_sphere_at(s, r, n, m),
        sphere_hit(s, r, t_min, t_max) is None,
{
    lemma_completed_square(s, r, n, m);
    let a = quad_a(r);
    let hb = quad_half_b(s, r);
    let c = quad_c(s, r);
    let e = a * n + hb * m;
    assert(a > 0) by (nonlinear_arith)
        requires
            hb * hb - a * c < 0,
            a == r.direction.x * r.direction.x + r.direction.y * r.direction.y + r.direction.z
                * r.direction.z,
    ;
    assert(e * e - discriminant(s, r) * (m * m) > 0) by (nonlinear_arith)
        requires
            discriminant(s, r) < 0,
            m > 0,
    ;
}

/// With a zero discriminant the ray's line touches the sphere at a single
/// parameter, the repeated root `-half_b / a`.
pub proof fn lemma_tangent_repeated_root(s: MovingSphere, r: Ray, n: int, m: int)
    requires
        discriminant(s, r) == 0,
        quad_a(r) > 0,
        m > 0,
    ensures
        on_sphere_at(s, r, n, m) <==> quad_a(r) * n + quad_half_b(s, r) * m == 0,
        on_sphere_at(s, r, -quad_half_b(s, r), quad_a(r)),
{
    lemma_completed_square(s, r, n, m);
    lemma_completed_square(s, r, -quad_half_b(s, r), quad_a(r));
    let a = quad_a(r);
    let e = a * n + quad_half_b(s, r) * m;
    let q = (m * oc_comp(s, r, 0) + n * r.direction.x) * (m * oc_comp(s, r, 0) + n * r.direction.x)
        + (m * oc_comp(s, r, 1) + n * r.direction.y) * (m * oc_comp(s, r, 1) + n * r.direction.y) + (
    m * oc_comp(s, r, 2) + n * r.direction.z) * (m * oc_comp(s, r, 2) + n * r.direction.z) - m * m
        * (s.radius * s.radius);
    assert(a * q == e * e);
    assert(q == 0 <==> e == 0) by (nonlinear_arith)
        requires
            a * q == e * e,
            a > 0,
    ;
    let hb = quad_half_b(s, r);
    assert(a * (-hb) + hb * a == 0) by (nonlinear_arith);
    let n2 = -hb;
    let q2 = (a * oc_comp(s, r, 0) + n2 * r.direction.x) * (a * oc_comp(s, r, 0) + n2
        * r.direction.x) + (a * oc_comp(s, r, 1) + n2 * r.direction.y) * (a * oc_comp(s, r, 1) + n2
        * r.direction.y) + (a * oc_comp(s, r, 2) + n2 * r.direction.z) * (a * oc_comp(s, r, 2) + n2
        * r.direction.z) - a * a * (s.radius * s.radius);
    assert(a * q2 == 0);
    assert(q2 == 0) by (nonlinear_arith)
        requires
            a * q2 == 0,
            a > 0,
    ;
}

/// A ray aimed at the center of a sphere from outside it meets the sphere
/// twice: the discriminant is positive.
pub proof fn lemma_aimed_at_center_two_roots(s: MovingSphere, r: Ray, k: int)
    requires
        k > 0,
        r.direction.x == k * (center_comp(s, 0, r.time as int) - r.origin.x),
        r.direction.y == k * (center_comp(s, 1, r.time as int) - r.origin.y),
        r.direction.z == k * (center_comp(s, 2, r.time as int) - r.origin.z),
        s.radius > 0,
        quad_c(s, r) > 0,
    ensures
        discriminant(s, r) > 0,
        quad_a(r) > 0,
{
    let (ox, oy, oz) = (oc_comp(s, r, 0), oc_comp(s, r, 1), oc_comp(s, r, 2));
    let w = ox * ox + oy * oy + oz * oz;
    let rr = s.radius * s.radius;
    assert(rr > 0) by (nonlinear_arith)
        requires
            s.radius > 0,
            rr == s.radius * s.radius,
    ;
    assert(w > 0);
    let a = quad_a(r);
    let hb = quad_half_b(s, r);
    assert(r.direction.x == -k * ox) by (nonlinear_arith)
        requires
            r.direction.x == k * (center_comp(s, 0, r.time as int) - r.origin.x),
            ox == r.origin.x - center_comp(s, 0, r.time as int),
    ;
    assert(r.direction.y == -k * oy) by (nonlinear_arith)
        requires
            r.direction.y == k * (center_comp(s, 1, r.time as int) - r.origin.y),
            oy == r.origin.y - center_comp(s, 1, r.time as int),
    ;
    assert(r.direction.z == -k * oz) by (nonlinear_arith)
        requires
            r.direction.z == k * (center_comp(s, 2, r.time as int) - r.origin.z),
            oz == r.origin.z - center_comp(s, 2, r.time as int),
    ;
    assert(r.direction.x * r.direction.x == (k * k) * (ox * ox)) by (nonlinear_arith)
        requires
            r.direction.x == -k * ox,
    ;
    assert(r.direction.y * r.direction.y == (k * k) * (oy * oy)) by (nonlinear_arith)
        requires
            r.direction.y == -k * oy,
    ;
    assert(r.direction.z * r.direction.z == (k * k) * (oz * oz)) by (nonlinear_arith)
        requires
            r.direction.z == -k * oz,
    ;
    lemma_distribute3(k * k, ox * ox, oy * oy, oz * oz);
    assert(a == k * k * w);
    assert(hb == -k * w) by (nonlinear_arith)
        requires
            hb == ox * r.direction.x + oy * r.direction.y + oz * r.direction.z,
            r.direction.x == -k * ox,
            r.direction.y == -k * oy,
            r.direction.z == -k * oz,
            w == ox * ox + oy * oy + oz * oz,
    ;
    assert(discriminant(s, r) == k * k * w * rr) by (nonlinear_arith)
        requires
            discriminant(s, r) == hb * hb - a * quad_c(s, r),
            quad_c(s, r) == w - rr,
            a == k * k * w,
            hb == -k * w,
    ;
    assert(k * k * w * rr > 0 && k * k * w > 0) by (nonlinear_arith)
        requires
            k > 0,
            w > 0,
            rr > 0,
    ;
}

impl MovingSphere {
    pub fn new(
        start_center: Vector3D,
        end_center: Vector3D,
        radius: i64,
        material: usize,
        start_time: i64,
        end_time: i64,
    ) -> (r: MovingSphere)
        ensures
            r == (MovingSphere { start_center, end_center, radius, material, start_time, end_time }),
    {
        MovingSphere { start_center, end_center, radius, material, start_time, end_time }
    }

    /// The center at `time`, interpolated between the two end centers and
    /// rounded down to the grid.
    pub fn center(&self, time: i64) -> (r: Vector3D)
        requires
            sphere_wf(*self),
            -COORD_LIMIT <= time <= COORD_LIMIT,
            center_in_range(*self, time as int),
        ensures
            r == center_at(*self, time as int),
            r.x == center_comp(*self, 0, time as int),
            r.y == center_comp(*self, 1, time as int),
            r.z == center_comp(*self, 2, time as int),
            within(r, COORD_LIMIT as int),
    {
        assert(-COORD_LIMIT <= center_comp(*self, 0, time as int) <= COORD_LIMIT);
        assert(-COORD_LIMIT <= center_comp(*self, 1, time as int) <= COORD_LIMIT);
        assert(-COORD_LIMIT <= center_comp(*self, 2, time as int) <= COORD_LIMIT);
        let x = interpolate_exec(self.start_center.x, self.end_center.x, time, self.start_time, self.end_time);
        let y = interpolate_exec(self.start_center.y, self.end_center.y, time, self.start_time, self.end_time);
        let z = interpolate_exec(self.start_center.z, self.end_center.z, time, self.start_time, self.end_time);
        Vector3D { x, y, z }
    }
}

impl MovingSphere {
    /// The nearest place in `[t_min, t_max]` where the ray meets the sphere
    /// at the ray's time.
    ///
    /// Solves `|origin + t direction - center|² = radius²`: no hit for a
    /// zero direction or a negative discriminant; otherwise the smaller root
    /// if it is in range, else the larger one if it is.
    pub fn hit(&self, ray: &Ray, t_min: Fraction, t_max: Fraction) -> (r: Option<HitRecord>)
        requires
            sphere_wf(*self),
            ray_wf(*ray),
            center_in_range(*self, ray.time as int),
            frac_wf(t_min),
            frac_wf(t_max),
        ensures
            r == sphere_hit(*self, *ray, t_min, t_max),
    {
        proof {
            lemma_quadratic_bounds(*self, *ray);
        }
        let ghost l = COORD_LIMIT as int;
        let center = self.center(ray.time);
        let oc = ray.origin.sub(&center);
        assert(oc.x == oc_comp(*self, *ray, 0));
        assert(oc.y == oc_comp(*self, *ray, 1));
        assert(oc.z == oc_comp(*self, *ray, 2));
        let a = ray.direction.length_squared();
        let half_b = oc.dot(&ray.direction);
        let radius = self.radius as i128;
        proof {
            lemma_product_bound(radius as int, radius as int, l, l);
        }
        let c = oc.length_squared() - radius * radius;
        assert(a == quad_a(*ray));
        assert(half_b == quad_half_b(*self, *ray));
        assert(c == quad_c(*self, *ray));
        if a == 0 {
            return None;
        }
        proof {
            assert(l * l == 0x100_0000_0000_0000) by (nonlinear_arith)
                requires
                    l == 268435456,
            ;
            let ll = l * l;
            assert(ll * ll == 0x1_0000_0000_0000_0000_0000_0000_0000) by (nonlinear_arith)
                requires
                    ll == 0x100_0000_0000_0000,
            ;
            assert(COORD_LIMIT * COORD_LIMIT == ll);
            assert(0 <= half_b * half_b <= 36 * 0x1_0000_0000_0000_0000_0000_0000_0000) by (nonlinear_arith)
                requires
                    half_b * half_b <= 36 * 0x1_0000_0000_0000_0000_0000_0000_0000,
            ;
            assert(-36 * 0x1_0000_0000_0000_0000_0000_0000_0000 <= a * c <= 36 * 0x1_0000_0000_0000_0000_0000_0000_0000);
        }
        let disc = half_b * half_b - a * c;
        assert(disc == discriminant(*self, *ray));
        if disc < 0 {
            return None;
        }
        let root = isqrt(disc as u128);
        proof {
            assert(root < 0x1000_0000_0000_0000) by (nonlinear_arith)
                requires
                    root * root <= disc,
                    disc < 0x80_0000_0000_0000_0000_0000_0000_0000,
            ;
            lemma_floor_sqrt_unique(disc as int, root as int);
        }
        let root = root as i128;
        let near = Fraction { num: (-half_b - root) as i64, den: a as i64 };
        assert(near == near_root(*self, *ray));
        if t_min.at_most(&near) && near.at_most(&t_max) {
            return Some(self.record(ray, near, half_b, a, center));
        }
        let far = Fraction { num: (-half_b + root) as i64, den: a as i64 };
        assert(far == far_root(*self, *ray));
        if t_min.at_most(&far) && far.at_most(&t_max) {
            return Some(self.record(ray, far, half_b, a, center));
        }
        None
    }

    fn record(&self, ray: &Ray, t: Fraction, half_b: i128, a: i128, center: Vector3D) -> (r: HitRecord)
        requires
            half_b == quad_half_b(*self, *ray),
            a == quad_a(*ray),
            0 < a <= 3 * COORD_LIMIT * COORD_LIMIT,
            -6 * COORD_LIMIT * COORD_LIMIT <= half_b <= 6 * COORD_LIMIT * COORD_LIMIT,
            frac_wf(t),
            center == center_at(*self, ray.time as int),
        ensures
            r == record_at(*self, *ray, t),
    {
        let ghost l = COORD_LIMIT as int;
        proof {
            assert(l * l == 0x100_0000_0000_0000) by (nonlinear_arith)
                requires
                    l == 268435456,
            ;
            lemma_product_bound(half_b as int, t.den as int, 6 * l * l, 0x4000_0000_0000_0000);
            lemma_product_bound(t.num as int, a as int, 0x4000_0000_0000_0000, 3 * l * l);
        }
        let facing = half_b * (t.den as i128) + (t.num as i128) * a;
        HitRecord { t, front_face: facing < 0, material: self.material, center, radius: self.radius }
    }

    /// The box that holds the sphere throughout `[time_0, time_1]`.
    pub fn bounding_box(&self, time_0: i64, time_1: i64) -> (r: AxisAlignedBoundingBox)
        requires
            sphere_wf(*self),
            -COORD_LIMIT <= time_0 <= COORD_LIMIT,
            -COORD_LIMIT <= time_1 <= COORD_LIMIT,
            center_in_range(*self, time_0 as int),
            center_in_range(*self, time_1 as int),
        ensures
            r == swept_box(*self, time_0 as int, time_1 as int),
            box_wf(r),
    {
        let start = self.center(time_0);
        let end = self.center(time_1);
        let start_box = ball_box_exec(start, self.radius);
        let end_box = ball_box_exec(end, self.radius);
        proof {
            crate::bounding_box::lemma_surrounding_box_tightest(start_box, end_box, start_box);
        }
        AxisAlignedBoundingBox::surrounding_box(&start_box, &end_box)
    }
}

fn ball_box_exec(c: Vector3D, radius: i64) -> (r: AxisAlignedBoundingBox)
    requires
        within(c, COORD_LIMIT as int),
        0 <= radius <= COORD_LIMIT,
    ensures
        r == ball_box(c, radius as int),
        box_wf(r),
{
    let minimum = Vector3D { x: c.x - radius, y: c.y - radius, z: c.z - radius };
    let maximum = Vector3D { x: c.x + radius, y: c.y + radius, z: c.z + radius };
    AxisAlignedBoundingBox { minimum, maximum }
}

fn interpolate_exec(a: i64, b: i64, time: i64, t0: i64, t1: i64) -> (r: i64)
    requires
        -COORD_LIMIT <= a <= COORD_LIMIT,
        -COORD_LIMIT <= b <= COORD_LIMIT,
        -COORD_LIMIT <= time <= COORD_LIMIT,
        -COORD_LIMIT <= t0 < t1 <= COORD_LIMIT,
        -COORD_LIMIT <= interpolate(a as int, b as int, time as int, t0 as int, t1 as int) <= COORD_LIMIT,
    ensures
        r == interpolate(a as int, b as int, time as int, t0 as int, t1 as int),
{
    proof {
        let l = COORD_LIMIT as int;
        assert(l == 268435456);
        lemma_product_bound(time - t0, b - a, 2 * l, 2 * l);
        assert((2 * l) * (2 * l) == 0x400_0000_0000_0000) by (nonlinear_arith)
            requires
                l == 268435456,
        ;
    }
    let n = (time as i128 - t0 as i128) * (b as i128 - a as i128);
    let d = t1 as i128 - t0 as i128;
    let q = match n.checked_div_euclid(d) {
        Some(q) => q,
        None => 0,
    };
    (a as i128 + q) as i64
}

} // verus!
