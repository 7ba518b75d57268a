use vstd::prelude::*;
use crate::bounding_box::{AxisAlignedBoundingBox, box_contains, box_wf, slab_hit};
use crate::fraction::{Fraction, frac_le, frac_wf, lemma_le_total, lemma_le_trans};
use crate::hit_record::HitRecord;
use crate::hittable_list::{closest_in_prefix, is_closest_hit, objects_ready};
use crate::moving_sphere::{
    MovingSphere,
    center_in_range,
    lemma_center_between,
    lemma_hit_in_box,
    lemma_hit_is_nearest,
    lemma_hit_narrow,
    lemma_hit_widen,
    sphere_hit,
    sphere_hit_t,
    sphere_wf,
    swept_box,
};
use crate::ray::{Ray, ray_wf};
use crate::vector_3d::COORD_LIMIT;

verus! {

/// A binary tree of boxes over spheres.
///
/// A node holds a box that covers every sphere below it over the time
/// window the tree was built for; a node built from a single sphere has no
/// right child.
pub enum BvhTree {
    Object(MovingSphere),
    Node { left: Box<BvhTree>, right: Option<Box<BvhTree>>, bounding_box: AxisAlignedBoundingBox },
}

/// The spheres of a tree, left to right.
pub open spec fn tree_objects(t: BvhTree) -> Seq<MovingSphere>
    decreases t,
{
    match t {
        BvhTree::Object(s) => seq![s],
        BvhTree::Node { left, right, bounding_box: _ } => tree_objects(*left) + match right {
            Some(rt) => tree_objects(*rt),
            None => Seq::<MovingSphere>::empty(),
        },
    }
}

/// Every sphere is well formed with its centers at `u0` and `u1` in range,
/// and every node's box is well formed and covers the box that each sphere
/// below it sweeps over `[u0, u1]`.
pub open spec fn tree_wf(t: BvhTree, u0: int, u1: int) -> bool
    decreases t,
{
    match t {
        BvhTree::Object(s) => sphere_wf(s) && center_in_range(s, u0) && center_in_range(s, u1),
        BvhTree::Node { left, right, bounding_box } => {
            &&& tree_wf(*left, u0, u1)
            &&& match right {
                Some(rt) => tree_wf(*rt, u0, u1),
                None => true,
            }
            &&& box_wf(bounding_box)
            &&& forall|i: int|
                0 <= i < tree_objects(t).len() ==> box_contains(
                    bounding_box,
                    #[trigger] swept_box(tree_objects(t)[i], u0, u1),
                )
        },
    }
}

/// The spheres of a well-formed tree are ready for rays at any time in
/// `[u0, u1]`.
proof fn lemma_tree_objects_ready(t: BvhTree, u0: int, u1: int, time: int)
    requires
        tree_wf(t, u0, u1),
        u0 <= time <= u1,
    ensures
        objects_ready(tree_objects(t), time),
        forall|i: int|
            0 <= i < tree_objects(t).len() ==> center_in_range(#[trigger] tree_objects(t)[i], u0)
                && center_in_range(tree_objects(t)[i], u1),
    decreases t,
{
    match t {
        BvhTree::Object(s) => {
            lemma_center_between(s, u0, u1, time);
        },
        BvhTree::Node { left, right, bounding_box: _ } => {
            lemma_tree_objects_ready(*left, u0, u1, time);
            let lo = tree_objects(*left);
            let ro = match right {
                Some(rt) => tree_objects(*rt),
                None => Seq::<MovingSphere>::empty(),
            };
            match right {
                Some(rt) => {
                    lemma_tree_objects_ready(*rt, u0, u1, time);
                },
                None => {},
            }
            assert(tree_objects(t) == lo + ro);
            assert forall|i: int| 0 <= i < tree_objects(t).len() implies sphere_wf(
                #[trigger] tree_objects(t)[i],
            ) && center_in_range(tree_objects(t)[i], time) && center_in_range(tree_objects(t)[i], u0)
                && center_in_range(tree_objects(t)[i], u1) by {
                if i < lo.len() {
                    assert(tree_objects(t)[i] == lo[i]);
                } else {
                    assert(tree_objects(t)[i] == ro[i - lo.len()]);
                }
            }
        },
    }
}

/// The closest hit over two groups of spheres: the left group's closest hit
/// in `[t_min, t_max]`, then the right group's in `[t_min, t_mid]`, where
/// `t_mid` is the left hit's parameter (or `t_max` without one); the right
/// hit wins when there is one.
proof fn lemma_combine_closest(
    lo: Seq<MovingSphere>,
    ro: Seq<MovingSphere>,
    r: Ray,
    t_min: Fraction,
    t_mid: Fraction,
    t_max: Fraction,
    left: Option<HitRecord>,
    right: Option<HitRecord>,
)
    requires
        objects_ready(lo + ro, r.time as int),
        ray_wf(r),
        frac_wf(t_min),
        frac_wf(t_mid),
        frac_wf(t_max),
        frac_le(t_mid, t_max),
        left is None ==> t_mid == t_max,
        left is Some ==> t_mid == left->0.t,
        is_closest_hit(lo, r, t_min, t_max, left),
        is_closest_hit(ro, r, t_min, t_mid, right),
    ensures
        is_closest_hit(lo + ro, r, t_min, t_max, if right is Some { right } else { left }),
{
    let all = lo + ro;
    let res = if right is Some { right } else { left };
    assert forall|i: int| 0 <= i < ro.len() implies #[trigger] all[lo.len() + i] == ro[i] by {}
    assert forall|i: int| 0 <= i < lo.len() implies #[trigger] all[i] == lo[i] by {}
    assert forall|i: int| 0 <= i < ro.len() implies sphere_wf(#[trigger] ro[i]) && center_in_range(
        ro[i],
        r.time as int,
    ) by {
        assert(all[lo.len() + i] == ro[i]);
    }
    // Each right sphere hit in [t_min, t_max] either is hit in [t_min, t_mid] or lies past t_mid.
    assert forall|i: int|
        0 <= i < ro.len() && (#[trigger] sphere_hit_t(ro[i], r, t_min, t_max)) is Some implies (
    sphere_hit_t(ro[i], r, t_min, t_mid) == sphere_hit_t(ro[i], r, t_min, t_max) || !frac_le(
        sphere_hit_t(ro[i], r, t_min, t_max)->0,
        t_mid,
    )) by {
        assert(sphere_wf(ro[i]) && center_in_range(ro[i], r.time as int));
        if frac_le(sphere_hit_t(ro[i], r, t_min, t_max)->0, t_mid) {
            lemma_hit_narrow(ro[i], r, t_min, t_mid, t_max);
        }
    }
    match right {
        Some(h) => {
            let j = choose|j: int| 0 <= j < ro.len() && #[trigger] sphere_hit(ro[j], r, t_min, t_mid) == Some(h);
            assert(sphere_hit_t(ro[j], r, t_min, t_mid) is Some);
            lemma_hit_is_nearest(ro[j], r, t_min, t_mid);
            lemma_hit_widen(ro[j], r, t_min, t_mid, t_max);
            assert(sphere_hit(all[lo.len() + j], r, t_min, t_max) == Some(h));
            assert forall|i: int|
                0 <= i < all.len() && (#[trigger] sphere_hit_t(all[i], r, t_min, t_max)) is Some implies frac_le(
                h.t,
                sphere_hit_t(all[i], r, t_min, t_max)->0,
            ) by {
                let x = sphere_hit_t(all[i], r, t_min, t_max)->0;
                lemma_hit_is_nearest(all[i], r, t_min, t_max);
                if i < lo.len() {
                    assert(all[i] == lo[i]);
                    assert(sphere_hit_t(lo[i], r, t_min, t_max) is Some);
                    lemma_le_trans(h.t, t_mid, x);
                } else {
                    let k = i - lo.len();
                    assert(all[i] == ro[k]);
                    assert(sphere_hit_t(ro[k], r, t_min, t_max) is Some);
                    if frac_le(x, t_mid) {
                        assert(sphere_hit_t(ro[k], r, t_min, t_mid) is Some);
                    } else {
                        lemma_le_total(x, t_mid);
                        lemma_le_trans(h.t, t_mid, x);
                    }
                }
            }
        },
        None => {
            assert forall|i: int|
                0 <= i < ro.len() && (#[trigger] sphere_hit_t(ro[i], r, t_min, t_max)) is Some implies !frac_le(
                sphere_hit_t(ro[i], r, t_min, t_max)->0,
                t_mid,
            ) by {
                assert(sphere_hit_t(ro[i], r, t_min, t_mid) is None);
            }
            match left {
                None => {
                    assert forall|i: int| 0 <= i < all.len() implies #[trigger] sphere_hit_t(
                        all[i],
                        r,
                        t_min,
                        t_max,
                    ) is None by {
                        if i < lo.len() {
                            assert(all[i] == lo[i]);
                            assert(sphere_hit_t(lo[i], r, t_min, t_max) is None);
                        } else {
                            let k = i - lo.len();
                            assert(all[i] == ro[k]);
                            if sphere_hit_t(ro[k], r, t_min, t_max) is Some {
                                lemma_hit_is_nearest(ro[k], r, t_min, t_max);
                            }
                        }
                    }
                },
                Some(h) => {
                    let j = choose|j: int| 0 <= j < lo.len() && #[trigger] sphere_hit(lo[j], r, t_min, t_max) == Some(h);
                    assert(sphere_hit(all[j], r, t_min, t_max) == Some(h));
                    assert forall|i: int|
                        0 <= i < all.len() && (#[trigger] sphere_hit_t(all[i], r, t_min, t_max)) is Some implies frac_le(
                        h.t,
                        sphere_hit_t(all[i], r, t_min, t_max)->0,
                    ) by {
                        let x = sphere_hit_t(all[i], r, t_min, t_max)->0;
                        if i < lo.len() {
                            assert(all[i] == lo[i]);
                            assert(sphere_hit_t(lo[i], r, t_min, t_max) is Some);
                        } else {
                            let k = i - lo.len();
                            assert(all[i] == ro[k]);
                            assert(sphere_hit_t(ro[k], r, t_min, t_max) is Some);
                            lemma_le_total(x, t_mid);
                        }
                    }
                },
            }
        },
    }
}

/// The closest hit below `t`, pruning every subtree whose box the ray
/// misses.
fn hit_tree(
    t: &BvhTree,
    ray: &Ray,
    t_min: Fraction,
    t_max: Fraction,
    Ghost(u0): Ghost<int>,
    Ghost(u1): Ghost<int>,
) -> (r: Option<HitRecord>)
    requires
        tree_wf(*t, u0, u1),
        u0 <= ray.time <= u1,
        ray_wf(*ray),
        frac_wf(t_min),
        frac_wf(t_max),
    ensures
        is_closest_hit(tree_objects(*t), *ray, t_min, t_max, r),
    decreases t,
{
    proof {
        lemma_tree_objects_ready(*t, u0, u1, ray.time as int);
    }
    match t {
        BvhTree::Object(s) => {
            proof {
                lemma_center_between(*s, u0, u1, ray.time as int);
            }
            let r = s.hit(ray, t_min, t_max);
            proof {
                assert(tree_objects(*t)[0] == *s);
                if r is Some {
                    lemma_hit_is_nearest(*s, *ray, t_min, t_max);
                }
            }
            r
        },
        BvhTree::Node { left, right, bounding_box } => {
            let ghost objs = tree_objects(*t);
            if !bounding_box.hit(ray, t_min, t_max) {
                proof {
                    assert forall|i: int| 0 <= i < objs.len() implies #[trigger] sphere_hit_t(
                        objs[i],
                        *ray,
                        t_min,
                        t_max,
                    ) is None by {
                        assert(box_contains(*bounding_box, swept_box(objs[i], u0, u1)));
                        if sphere_hit_t(objs[i], *ray, t_min, t_max) is Some {
                            lemma_hit_in_box(objs[i], *ray, t_min, t_max, *bounding_box, u0, u1);
                        }
                    }
                }
                return None;
            }
            let left_hit = hit_tree(left, ray, t_min, t_max, Ghost(u0), Ghost(u1));
            proof {
                lemma_tree_objects_ready(**left, u0, u1, ray.time as int);
                assert(frac_le(t_max, t_max));
            }
            let left_time = match left_hit {
                Some(rec) => {
                    proof {
                        let lo = tree_objects(**left);
                        let j = choose|j: int|
                            0 <= j < lo.len() && #[trigger] sphere_hit(lo[j], *ray, t_min, t_max) == Some(rec);
                        assert(sphere_wf(lo[j]) && center_in_range(lo[j], ray.time as int));
                        lemma_hit_is_nearest(lo[j], *ray, t_min, t_max);
                    }
                    rec.t
                },
                None => t_max,
            };
            let right_hit = match right {
                Some(rt) => hit_tree(rt, ray, t_min, left_time, Ghost(u0), Ghost(u1)),
                None => None,
            };
            proof {
                let ro = match right {
                    Some(rt) => tree_objects(**rt),
                    None => Seq::<MovingSphere>::empty(),
                };
                assert(objs == tree_objects(**left) + ro);
                lemma_combine_closest(
                    tree_objects(**left),
                    ro,
                    *ray,
                    t_min,
                    left_time,
                    t_max,
                    left_hit,
                    right_hit,
                );
            }
            if right_hit.is_some() {
                right_hit
            } else {
                left_hit
            }
        },
    }
}

/// The box a tree reports for itself: a sphere's swept box, or a node's
/// stored box.
pub open spec fn tree_box(t: BvhTree, u0: int, u1: int) -> AxisAlignedBoundingBox {
    match t {
        BvhTree::Object(s) => swept_box(s, u0, u1),
        BvhTree::Node { left: _, right: _, bounding_box } => bounding_box,
    }
}

/// A well-formed tree's box is well formed and covers every sphere in it.
proof fn lemma_tree_box_covers(t: BvhTree, u0: int, u1: int)
    requires
        tree_wf(t, u0, u1),
        -COORD_LIMIT <= u0 <= COORD_LIMIT,
        -COORD_LIMIT <= u1 <= COORD_LIMIT,
    ensures
        box_wf(tree_box(t, u0, u1)),
        forall|i: int|
            0 <= i < tree_objects(t).len() ==> box_contains(
                tree_box(t, u0, u1),
                #[trigger] swept_box(tree_objects(t)[i], u0, u1),
            ),
{
    match t {
        BvhTree::Object(s) => {
            swept_box_wf(s, u0, u1);
            assert(tree_objects(t)[0] == s);
            crate::bounding_box::lemma_contains_trans(swept_box(s, u0, u1), swept_box(s, u0, u1), swept_box(s, u0, u1));
        },
        BvhTree::Node { left: _, right: _, bounding_box: _ } => {},
    }
}

/// The swept box of a sphere whose centers at both ends are in range is
/// well formed.
proof fn swept_box_wf(s: MovingSphere, u0: int, u1: int)
    requires
        sphere_wf(s),
        center_in_range(s, u0),
        center_in_range(s, u1),
    ensures
        box_wf(swept_box(s, u0, u1)),
{
    let b0 = crate::moving_sphere::ball_box(crate::moving_sphere::center_at(s, u0), s.radius as int);
    let b1 = crate::moving_sphere::ball_box(crate::moving_sphere::center_at(s, u1), s.radius as int);
    assert(-COORD_LIMIT <= crate::moving_sphere::center_comp(s, 0, u0) <= COORD_LIMIT);
    assert(-COORD_LIMIT <= crate::moving_sphere::center_comp(s, 1, u0) <= COORD_LIMIT);
    assert(-COORD_LIMIT <= crate::moving_sphere::center_comp(s, 2, u0) <= COORD_LIMIT);
    assert(-COORD_LIMIT <= crate::moving_sphere::center_comp(s, 0, u1) <= COORD_LIMIT);
    assert(-COORD_LIMIT <= crate::moving_sphere::center_comp(s, 1, u1) <= COORD_LIMIT);
    assert(-COORD_LIMIT <= crate::moving_sphere::center_comp(s, 2, u1) <= COORD_LIMIT);
    assert(box_wf(b0));
    assert(box_wf(b1));
    crate::bounding_box::lemma_surrounding_box_tightest(b0, b1, b0);
}

/// The spheres are well formed with their centers at `u0` and `u1` in range.
pub open spec fn objects_ready_over(objs: Seq<MovingSphere>, u0: int, u1: int) -> bool {
    forall|i: int|
        0 <= i < objs.len() ==> sphere_wf(#[trigger] objs[i]) && center_in_range(objs[i], u0)
            && center_in_range(objs[i], u1)
}

/// The key by which spheres are ordered along `axis`: the minimum corner of
/// their swept box.
pub open spec fn box_key(o: MovingSphere, axis: int, u0: int, u1: int) -> int {
    crate::vector_3d::component(swept_box(o, u0, u1).minimum, axis)
}

/// Relies on rand's `Rng::gen_range` over `thread_rng`, which returns a
/// value in the half-open range it is given (here `0..2`, never empty).
#[verifier::external_body]
fn random_axis() -> (r: usize)
    ensures
        r < 2,
{
    rand::Rng::gen_range(&mut rand::thread_rng(), 0..2)
}

/// Relies on std's `slice::sort_by_key`: it reorders the elements so that
/// their keys are ascending, and keeps every element.
#[verifier::external_body]
fn sort_by_box(objects: &mut Vec<MovingSphere>, axis: usize, time_0: i64, time_1: i64)
    requires
        axis < 3,
        objects_ready_over(old(objects)@, time_0 as int, time_1 as int),
        -COORD_LIMIT <= time_0 <= COORD_LIMIT,
        -COORD_LIMIT <= time_1 <= COORD_LIMIT,
    ensures
        final(objects)@.to_multiset() == old(objects)@.to_multiset(),
        forall|i: int, j: int|
            0 <= i < j < final(objects)@.len() ==> box_key(#[trigger] final(objects)@[i], axis as int, time_0 as int, time_1 as int)
                <= box_key(#[trigger] final(objects)@[j], axis as int, time_0 as int, time_1 as int),
{
    objects.sort_by_key(|o| sort_key(o, axis, time_0, time_1));
}

/// The key of `o` along `axis`.
fn sort_key(o: &MovingSphere, axis: usize, time_0: i64, time_1: i64) -> (r: i64)
    requires
        axis < 3,
        sphere_wf(*o),
        center_in_range(*o, time_0 as int),
        center_in_range(*o, time_1 as int),
        -COORD_LIMIT <= time_0 <= COORD_LIMIT,
        -COORD_LIMIT <= time_1 <= COORD_LIMIT,
    ensures
        r == box_key(*o, axis as int, time_0 as int, time_1 as int),
{
    o.bounding_box(time_0, time_1).minimum.index(axis)
}

impl BvhNode {
    /// Orders two spheres along `axis` by the minimum corners of their boxes.
    pub fn box_compare(a: &MovingSphere, b: &MovingSphere, axis: usize, time_0: i64, time_1: i64) -> (r: core::cmp::Ordering)
        requires
            axis < 3,
            sphere_wf(*a),
            sphere_wf(*b),
            center_in_range(*a, time_0 as int),
            center_in_range(*a, time_1 as int),
            center_in_range(*b, time_0 as int),
            center_in_range(*b, time_1 as int),
            -COORD_LIMIT <= time_0 <= COORD_LIMIT,
            -COORD_LIMIT <= time_1 <= COORD_LIMIT,
        ensures
            r == (if box_key(*a, axis as int, time_0 as int, time_1 as int) < box_key(*b, axis as int, time_0 as int, time_1 as int) {
                core::cmp::Ordering::Less
            } else if box_key(*a, axis as int, time_0 as int, time_1 as int) > box_key(*b, axis as int, time_0 as int, time_1 as int) {
                core::cmp::Ordering::Greater
            } else {
                core::cmp::Ordering::Equal
            }),
    {
        let ka = sort_key(a, axis, time_0, time_1);
        let kb = sort_key(b, axis, time_0, time_1);
        if ka < kb {
            core::cmp::Ordering::Less
        } else if ka > kb {
            core::cmp::Ordering::Greater
        } else {
            core::cmp::Ordering::Equal
        }
    }
}

/// A node over two subtrees, boxed by the union of their boxes.
fn join(left: BvhTree, right: BvhTree, Ghost(u0): Ghost<int>, Ghost(u1): Ghost<int>, left_box: AxisAlignedBoundingBox, right_box: AxisAlignedBoundingBox) -> (r: BvhTree)
    requires
        tree_wf(left, u0, u1),
        tree_wf(right, u0, u1),
        -COORD_LIMIT <= u0 <= COORD_LIMIT,
        -COORD_LIMIT <= u1 <= COORD_LIMIT,
        left_box == tree_box(left, u0, u1),
        right_box == tree_box(right, u0, u1),
    ensures
        tree_wf(r, u0, u1),
        tree_objects(r) == tree_objects(left) + tree_objects(right),
{
    proof {
        lemma_tree_box_covers(left, u0, u1);
        lemma_tree_box_covers(right, u0, u1);
        crate::bounding_box::lemma_surrounding_box_tightest(left_box, right_box, left_box);
    }
    let bounding_box = AxisAlignedBoundingBox::surrounding_box(&left_box, &right_box);
    let r = BvhTree::Node { left: Box::new(left), right: Some(Box::new(right)), bounding_box };
    proof {
        let lo = tree_objects(left);
        let ro = tree_objects(right);
        assert(tree_objects(r) == lo + ro);
        assert forall|i: int| 0 <= i < tree_objects(r).len() implies box_contains(
            bounding_box,
            #[trigger] swept_box(tree_objects(r)[i], u0, u1),
        ) by {
            if i < lo.len() {
                assert(tree_objects(r)[i] == lo[i]);
                crate::bounding_box::lemma_contains_trans(bounding_box, left_box, swept_box(lo[i], u0, u1));
            } else {
                assert(tree_objects(r)[i] == ro[i - lo.len()]);
                crate::bounding_box::lemma_contains_trans(bounding_box, right_box, swept_box(ro[i - lo.len()], u0, u1));
            }
        }
    }
    r
}

/// The box of a well-formed tree.
fn tree_bounding_box(t: &BvhTree, time_0: i64, time_1: i64) -> (r: AxisAlignedBoundingBox)
    requires
        tree_wf(*t, time_0 as int, time_1 as int),
        -COORD_LIMIT <= time_0 <= COORD_LIMIT,
        -COORD_LIMIT <= time_1 <= COORD_LIMIT,
    ensures
        r == tree_box(*t, time_0 as int, time_1 as int),
{
    match t {
        BvhTree::Object(s) => s.bounding_box(time_0, time_1),
        BvhTree::Node { left: _, right: _, bounding_box } => *bounding_box,
    }
}

/// Builds a tree over `objects`: one sphere becomes a node with only a left
/// child; two are put in order along a random axis; more are sorted along
/// it, split in half and built recursively.
fn build(objects: Vec<MovingSphere>, time_0: i64, time_1: i64) -> (r: BvhTree)
    requires
        objects@.len() > 0,
        objects_ready_over(objects@, time_0 as int, time_1 as int),
        -COORD_LIMIT <= time_0 <= COORD_LIMIT,
        -COORD_LIMIT <= time_1 <= COORD_LIMIT,
    ensures
        tree_wf(r, time_0 as int, time_1 as int),
        tree_objects(r).to_multiset() == objects@.to_multiset(),
    decreases objects@.len(),
{
    let ghost u0 = time_0 as int;
    let ghost u1 = time_1 as int;
    let mut objects = objects;
    let ghost given = objects@;
    let axis = random_axis();
    let n = objects.len();
    if n == 1 {
        let only = objects[0];
        assert(sphere_wf(given[0]) && center_in_range(given[0], u0) && center_in_range(given[0], u1));
        let leaf = BvhTree::Object(only);
        let bounding_box = only.bounding_box(time_0, time_1);
        let r = BvhTree::Node { left: Box::new(leaf), right: None, bounding_box };
        proof {
            assert(tree_objects(leaf) == seq![only]);
            assert(tree_objects(r) == tree_objects(leaf) + Seq::<MovingSphere>::empty());
            assert(tree_objects(r) =~= seq![only]);
            assert(given =~= seq![only]);
            assert(tree_objects(r)[0] == only);
            crate::bounding_box::lemma_contains_trans(bounding_box, bounding_box, bounding_box);
            swept_box_wf(only, u0, u1);
            assert(tree_wf(leaf, u0, u1));
            assert forall|i: int| 0 <= i < tree_objects(r).len() implies box_contains(
                bounding_box,
                #[trigger] swept_box(tree_objects(r)[i], u0, u1),
            ) by {
                assert(tree_objects(r)[i] == only);
            }
        }
        r
    } else if n == 2 {
        let first = objects[0];
        let second = objects[1];
        assert(sphere_wf(given[0]) && sphere_wf(given[1]));
        let order = BvhNode::box_compare(&first, &second, axis, time_0, time_1);
        let (a, b) = match order {
            core::cmp::Ordering::Less => (first, second),
            _ => (second, first),
        };
        let left = BvhTree::Object(a);
        let right = BvhTree::Object(b);
        let left_box = a.bounding_box(time_0, time_1);
        let right_box = b.bounding_box(time_0, time_1);
        let r = join(left, right, Ghost(u0), Ghost(u1), left_box, right_box);
        proof {
            assert(given =~= seq![first, second]);
            vstd::seq_lib::lemma_multiset_commutative(seq![a], seq![b]);
            vstd::seq_lib::lemma_multiset_commutative(seq![first], seq![second]);
            vstd::seq_lib::lemma_multiset_commutative(seq![second], seq![first]);
            assert(seq![first] + seq![second] =~= seq![first, second]);
            assert(seq![second] + seq![first] =~= seq![second, first]);
            assert(seq![first, second].to_multiset() =~= seq![second, first].to_multiset());
        }
        r
    } else {
        sort_by_box(&mut objects, axis, time_0, time_1);
        let ghost sorted = objects@;
        proof {
            assert forall|i: int| 0 <= i < sorted.len() implies sphere_wf(#[trigger] sorted[i])
                && center_in_range(sorted[i], u0) && center_in_range(sorted[i], u1) by {
                vstd::seq_lib::to_multiset_contains(sorted, sorted[i]);
                vstd::seq_lib::to_multiset_contains(given, sorted[i]);
                assert(sorted.contains(sorted[i]));
                let j = choose|j: int| 0 <= j < given.len() && given[j] == sorted[i];
                assert(sphere_wf(given[j]) && center_in_range(given[j], u0) && center_in_range(given[j], u1));
            }
            vstd::seq_lib::to_multiset_len(sorted);
            vstd::seq_lib::to_multiset_len(given);
        }
        let mid = objects.len() / 2;
        let right_objects = objects.split_off(mid);
        let left_objects = objects;
        proof {
            assert(sorted =~= left_objects@ + right_objects@);
            vstd::seq_lib::lemma_multiset_commutative(left_objects@, right_objects@);
            assert forall|i: int| 0 <= i < left_objects@.len() implies sphere_wf(#[trigger] left_objects@[i])
                && center_in_range(left_objects@[i], u0) && center_in_range(left_objects@[i], u1) by {
                assert(left_objects@[i] == sorted[i]);
            }
            assert forall|i: int| 0 <= i < right_objects@.len() implies sphere_wf(#[trigger] right_objects@[i])
                && center_in_range(right_objects@[i], u0) && center_in_range(right_objects@[i], u1) by {
                assert(right_objects@[i] == sorted[mid + i]);
            }
        }
        let left = build(left_objects, time_0, time_1);
        let right = build(right_objects, time_0, time_1);
        let left_box = tree_bounding_box(&left, time_0, time_1);
        let right_box = tree_bounding_box(&right, time_0, time_1);
        let r = join(left, right, Ghost(u0), Ghost(u1), left_box, right_box);
        proof {
            vstd::seq_lib::lemma_multiset_commutative(tree_objects(left), tree_objects(right));
        }
        r
    }
}

/// A bounding volume hierarchy built for rays whose time lies in
/// `[time_0, time_1]`.
pub struct BvhNode {
    pub tree: BvhTree,
    pub time_0: i64,
    pub time_1: i64,
}

/// The tree is well formed for its time window, which lies within the
/// coordinate bound.
pub open spec fn bvh_wf(b: BvhNode) -> bool {
    &&& tree_wf(b.tree, b.time_0 as int, b.time_1 as int)
    &&& -COORD_LIMIT <= b.time_0 <= b.time_1 <= COORD_LIMIT
}

impl BvhNode {
    /// The spheres of the hierarchy.
    pub closed spec fn objects(&self) -> Seq<MovingSphere> {
        tree_objects(self.tree)
    }

    /// A hierarchy over `src_objects` for rays whose time lies in
    /// `[time_0, time_1]`; it holds exactly the given spheres.
    pub fn new(src_objects: Vec<MovingSphere>, time_0: i64, time_1: i64) -> (r: BvhNode)
        requires
            src_objects@.len() > 0,
            objects_ready_over(src_objects@, time_0 as int, time_1 as int),
            -COORD_LIMIT <= time_0 <= time_1,
            time_1 <= COORD_LIMIT,
        ensures
            bvh_wf(r),
            r.objects().to_multiset() == src_objects@.to_multiset(),
            r.time_0 == time_0,
            r.time_1 == time_1,
    {
        let tree = build(src_objects, time_0, time_1);
        BvhNode { tree, time_0, time_1 }
    }

    /// The box of the whole hierarchy: it covers the box that every sphere
    /// sweeps over the hierarchy's time window.
    pub fn bounding_box(&self) -> (r: AxisAlignedBoundingBox)
        requires
            bvh_wf(*self),
        ensures
            r == tree_box(self.tree, self.time_0 as int, self.time_1 as int),
            box_wf(r),
            forall|i: int|
                0 <= i < self.objects().len() ==> box_contains(
                    r,
                    #[trigger] swept_box(self.objects()[i], self.time_0 as int, self.time_1 as int),
                ),
    {
        proof {
            lemma_tree_box_covers(self.tree, self.time_0 as int, self.time_1 as int);
        }
        tree_bounding_box(&self.tree, self.time_0, self.time_1)
    }

    /// The closest hit in `[t_min, t_max]` among the hierarchy's spheres,
    /// for a ray whose time lies in the window the hierarchy was built for.
    ///
    /// A node whose box the ray misses reports no hit. Otherwise the left
    /// child is searched over the whole range, then the right child up to the
    /// left child's hit, and the right child's hit wins when there is one.
    pub fn hit(&self, ray: &Ray, t_min: Fraction, t_max: Fraction) -> (r: Option<HitRecord>)
        requires
            bvh_wf(*self),
            self.time_0 <= ray.time <= self.time_1,
            ray_wf(*ray),
            frac_wf(t_min),
            frac_wf(t_max),
        ensures
            is_closest_hit(self.objects(), *ray, t_min, t_max, r),
    {
        hit_tree(&self.tree, ray, t_min, t_max, Ghost(self.time_0 as int), Ghost(self.time_1 as int))
    }
}

/// Whether a result is the closest hit depends only on which spheres there
/// are, not on their order.
proof fn lemma_closest_hit_same_objects(
    a: Seq<MovingSphere>,
    b: Seq<MovingSphere>,
    r: Ray,
    t_min: Fraction,
    t_max: Fraction,
    res: Option<HitRecord>,
)
    requires
        a.to_multiset() == b.to_multiset(),
        is_closest_hit(a, r, t_min, t_max, res),
    ensures
        is_closest_hit(b, r, t_min, t_max, res),
{
    assert forall|j: int| 0 <= j < b.len() implies exists|i: int| 0 <= i < a.len() && a[i] == #[trigger] b[j] by {
        vstd::seq_lib::to_multiset_contains(b, b[j]);
        vstd::seq_lib::to_multiset_contains(a, b[j]);
        assert(b.contains(b[j]));
    }
    match res {
        None => {
            assert forall|j: int| 0 <= j < b.len() implies #[trigger] sphere_hit_t(b[j], r, t_min, t_max) is None by {
                let i = choose|i: int| 0 <= i < a.len() && a[i] == b[j];
                assert(sphere_hit_t(a[i], r, t_min, t_max) is None);
            }
        },
        Some(h) => {
            let i = choose|i: int| 0 <= i < a.len() && #[trigger] sphere_hit(a[i], r, t_min, t_max) == Some(h);
            vstd::seq_lib::to_multiset_contains(a, a[i]);
            vstd::seq_lib::to_multiset_contains(b, a[i]);
            assert(a.contains(a[i]));
            let j = choose|j: int| 0 <= j < b.len() && b[j] == a[i];
            assert(sphere_hit(b[j], r, t_min, t_max) == Some(h));
            assert forall|j: int| 0 <= j < b.len() && (#[trigger] sphere_hit_t(b[j], r, t_min, t_max)) is Some implies frac_le(
                h.t,
                sphere_hit_t(b[j], r, t_min, t_max)->0,
            ) by {
                let i = choose|i: int| 0 <= i < a.len() && a[i] == b[j];
                assert(sphere_hit_t(a[i], r, t_min, t_max) is Some);
            }
        },
    }
}

/// Closest-hit equivalence: over the same spheres, the hit a hierarchy
/// reports (whatever the axes drawn while building it) and the hit a linear
/// scan reports are both absent or both present, and then at the same
/// parameter. `bvh_hit` and `scan_hit` stand for what `BvhNode::hit` and
/// `HittableList::hit` return for the same ray and range.
pub proof fn lemma_bvh_matches_scan(
    bvh: BvhNode,
    list: Seq<MovingSphere>,
    r: Ray,
    t_min: Fraction,
    t_max: Fraction,
    bvh_hit: Option<HitRecord>,
    scan_hit: Option<HitRecord>,
)
    requires
        bvh.objects().to_multiset() == list.to_multiset(),
        is_closest_hit(bvh.objects(), r, t_min, t_max, bvh_hit),
        is_closest_hit(list, r, t_min, t_max, scan_hit),
    ensures
        bvh_hit is None <==> scan_hit is None,
        bvh_hit is Some ==> crate::fraction::frac_eq(bvh_hit->0.t, scan_hit->0.t),
{
    lemma_closest_hit_same_objects(bvh.objects(), list, r, t_min, t_max, bvh_hit);
    crate::hittable_list::lemma_closest_hit_unique(list, r, t_min, t_max, bvh_hit, scan_hit);
}

} // verus!
