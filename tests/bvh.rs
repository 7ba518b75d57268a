use pathtracer::bounded_volume_hierarchy::{BvhNode, BvhTree};
use pathtracer::fraction::Fraction;
use pathtracer::hittable_list::HittableList;
use pathtracer::moving_sphere::MovingSphere;
use pathtracer::ray::Ray;
use pathtracer::sphere::Sphere;
use pathtracer::vector_3d::Vector3D;

fn frac(num: i64, den: i64) -> Fraction {
    Fraction::new(num, den)
}

fn ball(x: i64, y: i64, z: i64, radius: i64) -> MovingSphere {
    Sphere::new(Vector3D::new(x, y, z), radius, 0).sphere
}

fn ray_to(x: i64, y: i64, z: i64) -> Ray {
    Ray::new(Vector3D::new(0, 0, 0), Vector3D::new(x, y, z), Some(0))
}

fn same_value(a: Fraction, b: Fraction) -> bool {
    a.at_most(&b) && b.at_most(&a)
}

#[test]
fn can_hit_sinlge_sphere() {
    let bvh = BvhNode::new(vec![ball(0, 0, 5, 1)], 0, 1);
    let ray = ray_to(0, 0, 10);
    assert!(bvh.hit(&ray, frac(0, 1), frac(1, 1)).is_some());
}

#[test]
fn cant_hit_sinlge_sphere_outside_time_window() {
    let bvh = BvhNode::new(vec![ball(0, 0, 5, 1)], 0, 1);
    let ray = ray_to(0, 0, 1);
    assert!(bvh.hit(&ray, frac(0, 1), frac(1, 1)).is_none());
}

#[test]
fn can_hit_multiple() {
    let spheres = vec![ball(0, -2, 5, 1), ball(0, 2, 5, 1), ball(2, 0, 5, 1), ball(-2, 0, 5, 1)];
    let bvh = BvhNode::new(spheres, 0, 1);
    assert!(bvh.hit(&ray_to(0, 4, 10), frac(0, 1), frac(1, 1)).is_some());
    assert!(bvh.hit(&ray_to(0, -4, 10), frac(0, 1), frac(1, 1)).is_some());
    assert!(bvh.hit(&ray_to(4, 0, 10), frac(0, 1), frac(1, 1)).is_some());
    assert!(bvh.hit(&ray_to(-4, 0, 10), frac(0, 1), frac(1, 1)).is_some());
}

#[test]
fn cant_hit_between_multiple() {
    let bvh = BvhNode::new(vec![ball(0, -2, 5, 1), ball(0, 2, 5, 1)], 0, 1);
    assert!(bvh.hit(&ray_to(0, 0, 10), frac(0, 1), frac(1, 1)).is_none());
}

#[test]
fn direction_not_magnitude_decides_the_line() {
    let bvh = BvhNode::new(vec![ball(0, 0, 5, 1)], 0, 1);
    let long = bvh.hit(&ray_to(0, 0, 10), frac(0, 1), frac(1000, 1)).unwrap();
    let short = bvh.hit(&ray_to(0, 0, 1), frac(0, 1), frac(1000, 1)).unwrap();
    assert!(same_value(long.t, frac(2, 5)));
    assert!(same_value(short.t, frac(4, 1)));
    assert!(bvh.hit(&ray_to(0, 0, -1), frac(0, 1), frac(1000, 1)).is_none());
}

#[test]
fn nearest_sphere_wins() {
    let spheres = vec![ball(0, 0, 20, 1), ball(0, 0, 5, 1), ball(0, 0, 12, 2), ball(9, 9, 9, 1)];
    let bvh = BvhNode::new(spheres, 0, 1);
    let rec = bvh.hit(&ray_to(0, 0, 1), frac(0, 1), frac(1000, 1)).unwrap();
    assert!(same_value(rec.t, frac(4, 1)));
    assert_eq!(rec.center, Vector3D::new(0, 0, 5));
    // Starting past the first sphere, the next one along the ray is found.
    let rec = bvh.hit(&ray_to(0, 0, 1), frac(7, 1), frac(1000, 1)).unwrap();
    assert!(same_value(rec.t, frac(10, 1)));
}

#[test]
fn hierarchy_agrees_with_linear_scan() {
    let mut spheres = Vec::new();
    for i in 0..7i64 {
        spheres.push(ball(3 * i - 9, (i * 5) % 7 - 3, 10 + 2 * i, 1 + i % 2));
    }
    let mut list = HittableList::empty();
    for s in spheres.iter() {
        list.add(*s);
    }
    let bvh = BvhNode::new(spheres, 0, 1);
    let mut hits = 0;
    for dx in -12..=12i64 {
        for dy in -4..=4i64 {
            let ray = ray_to(dx, dy, 10);
            let a = bvh.hit(&ray, frac(0, 1), frac(1000, 1));
            let b = list.hit(&ray, frac(0, 1), frac(1000, 1));
            assert_eq!(a.is_some(), b.is_some());
            if let (Some(a), Some(b)) = (a, b) {
                assert!(same_value(a.t, b.t));
                hits += 1;
            }
        }
    }
    assert!(hits > 0);
}

#[test]
fn list_hit_and_box() {
    let mut list = HittableList::new(ball(0, 0, 5, 1));
    list.add(ball(0, 0, 3, 1));
    let rec = list.hit(&ray_to(0, 0, 1), frac(0, 1), frac(100, 1)).unwrap();
    assert!(same_value(rec.t, frac(2, 1)));
    let b = list.bounding_box(0, 1).unwrap();
    assert_eq!(b.minimum, Vector3D::new(-1, -1, 2));
    assert_eq!(b.maximum, Vector3D::new(1, 1, 6));
    list.clear();
    assert!(list.bounding_box(0, 1).is_none());
    assert!(list.hit(&ray_to(0, 0, 1), frac(0, 1), frac(100, 1)).is_none());
}

#[test]
fn box_compare_orders_by_minimum_corner() {
    let a = ball(0, 0, 5, 1);
    let b = ball(3, -4, 5, 1);
    assert_eq!(BvhNode::box_compare(&a, &b, 0, 0, 1), std::cmp::Ordering::Less);
    assert_eq!(BvhNode::box_compare(&a, &b, 1, 0, 1), std::cmp::Ordering::Greater);
    assert_eq!(BvhNode::box_compare(&a, &b, 2, 0, 1), std::cmp::Ordering::Equal);
}

#[test]
fn moving_spheres_in_hierarchy() {
    let m = MovingSphere::new(Vector3D::new(0, 0, 5), Vector3D::new(0, 10, 5), 1, 0, 0, 10);
    let bvh = BvhNode::new(vec![m, ball(30, 30, 30, 1)], 0, 10);
    let early = Ray::new(Vector3D::empty(), Vector3D::new(0, 0, 1), Some(0));
    let late = Ray::new(Vector3D::empty(), Vector3D::new(0, 0, 1), Some(10));
    let upper = Ray::new(Vector3D::new(0, 10, 0), Vector3D::new(0, 0, 1), Some(10));
    assert!(bvh.hit(&early, frac(0, 1), frac(100, 1)).is_some());
    assert!(bvh.hit(&late, frac(0, 1), frac(100, 1)).is_none());
    assert!(bvh.hit(&upper, frac(0, 1), frac(100, 1)).is_some());
}

#[test]
fn construction_sorts_along_the_axis() {
    // Ordered the same way along both axes that construction may pick.
    let bvh = BvhNode::new(vec![ball(20, 20, 0, 1), ball(10, 10, 0, 1), ball(0, 0, 0, 1)], 0, 1);
    let BvhTree::Node { left, right, .. } = &bvh.tree else {
        panic!("three spheres make a node");
    };
    let BvhTree::Node { left: only, right: None, .. } = left.as_ref() else {
        panic!("the left half holds one sphere");
    };
    let BvhTree::Object(first) = only.as_ref() else {
        panic!("a one-sphere node holds the sphere");
    };
    assert_eq!(first.start_center, Vector3D::new(0, 0, 0));
    let BvhTree::Node { left: a, right: Some(b), .. } = right.as_ref().unwrap().as_ref() else {
        panic!("the right half holds two spheres");
    };
    let (BvhTree::Object(a), BvhTree::Object(b)) = (a.as_ref(), b.as_ref()) else {
        panic!("two spheres sit side by side");
    };
    assert_eq!(a.start_center, Vector3D::new(10, 10, 0));
    assert_eq!(b.start_center, Vector3D::new(20, 20, 0));
    assert_eq!(bvh.bounding_box().minimum, Vector3D::new(-1, -1, -1));
}
