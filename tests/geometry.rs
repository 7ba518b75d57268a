use pathtracer::bounding_box::AxisAlignedBoundingBox;
use pathtracer::fraction::Fraction;
use pathtracer::hit_record::HitRecord;
use pathtracer::moving_sphere::MovingSphere;
use pathtracer::ray::Ray;
use pathtracer::sphere::Sphere;
use pathtracer::vector_3d::Vector3D;

fn frac(num: i64, den: i64) -> Fraction {
    Fraction::new(num, den)
}

fn cube(lo: i64, hi: i64) -> AxisAlignedBoundingBox {
    AxisAlignedBoundingBox::new(Vector3D::new(lo, lo, lo), Vector3D::new(hi, hi, hi))
}

#[test]
fn ray_anywhere_when_origin_and_direction_same() {
    let origin = Vector3D::new(14, 1, -42);
    let ray = Ray::new(origin, Vector3D::new(0, 0, 0), None);
    assert_eq!(ray.at(0), origin);
    assert_eq!(ray.at(1), origin);
    assert_eq!(ray.at(33), origin);
}

#[test]
fn ray_works_with_any_points() {
    let ray = Ray::new(Vector3D::empty(), Vector3D::new(2, 2, 2), Some(0));
    assert_eq!(ray.at(3), Vector3D::new(6, 6, 6));
}

#[test]
fn ray_works_at_endpoints() {
    let direction = Vector3D::new(14, 1, -42);
    let ray = Ray::new(Vector3D::empty(), direction, Some(0));
    assert_eq!(ray.at(1), direction);
    assert_eq!(ray.at(0), Vector3D::empty());
}

#[test]
fn ray_gives_same_result_at_midpoint_when_variables_swapped() {
    let origin = Vector3D::empty();
    let direction = Vector3D::new(2, 2, 2);
    let ray = Ray::new(origin, direction, Some(0));
    assert_eq!(ray.at(1), Vector3D::new(2, 2, 2));
    let ray = Ray::new(direction, direction.neg(), Some(0));
    assert_eq!(ray.at(1), Vector3D::new(0, 0, 0));
    assert_eq!(ray.time, 0);
}

#[test]
fn fractions_compare_by_value() {
    assert!(frac(1, 2).at_most(&frac(2, 4)));
    assert!(frac(2, 4).at_most(&frac(1, 2)));
    assert!(frac(1, 3).less_than(&frac(1, 2)));
    assert!(!frac(1, 2).less_than(&frac(1, 3)));
    assert!(frac(-1, 2).less_than(&Fraction::from_integer(0)));
}

#[test]
fn surrounding_box_is_the_union() {
    let a = AxisAlignedBoundingBox::new(Vector3D::new(0, -1, 2), Vector3D::new(1, 3, 4));
    let b = AxisAlignedBoundingBox::new(Vector3D::new(-2, 0, 3), Vector3D::new(0, 5, 3));
    let s = AxisAlignedBoundingBox::surrounding_box(&a, &b);
    assert_eq!(s.minimum, Vector3D::new(-2, -1, 2));
    assert_eq!(s.maximum, Vector3D::new(1, 5, 4));
    assert_eq!(AxisAlignedBoundingBox::surrounding_box(&b, &a), s);
    assert_eq!(AxisAlignedBoundingBox::surrounding_box(&a, &a), a);
}

#[test]
fn box_hit_through_the_middle() {
    let b = cube(-1, 1);
    let ray = Ray::new(Vector3D::new(0, 0, -5), Vector3D::new(0, 0, 1), Some(0));
    assert!(b.hit(&ray, frac(0, 1), frac(10, 1)));
    assert!(b.optimized_hit(&ray, frac(0, 1), frac(10, 1)));
    // The box starts at parameter 4: a range that ends before it misses.
    assert!(!b.hit(&ray, frac(0, 1), frac(3, 1)));
    assert!(!b.optimized_hit(&ray, frac(0, 1), frac(3, 1)));
    // Touching the face exactly counts.
    assert!(b.hit(&ray, frac(0, 1), frac(4, 1)));
    assert!(b.optimized_hit(&ray, frac(0, 1), frac(4, 1)));
}

#[test]
fn box_hit_parallel_ray() {
    let b = cube(-1, 1);
    let inside = Ray::new(Vector3D::new(0, 0, -5), Vector3D::new(0, 0, 1), Some(0));
    let outside = Ray::new(Vector3D::new(2, 0, -5), Vector3D::new(0, 0, 1), Some(0));
    assert!(b.hit(&inside, frac(0, 1), frac(100, 1)));
    assert!(!b.hit(&outside, frac(0, 1), frac(100, 1)));
    assert!(!b.optimized_hit(&outside, frac(0, 1), frac(100, 1)));
}

#[test]
fn box_hit_formulations_agree() {
    let b = AxisAlignedBoundingBox::new(Vector3D::new(-3, 1, 2), Vector3D::new(4, 6, 9));
    let origins = [Vector3D::new(0, 0, 0), Vector3D::new(10, -4, 3), Vector3D::new(-7, 8, 20)];
    let directions = [
        Vector3D::new(1, 2, 3),
        Vector3D::new(-3, 1, -1),
        Vector3D::new(0, 1, -2),
        Vector3D::new(-1, -1, -1),
        Vector3D::new(5, 0, 0),
    ];
    let ranges = [(frac(0, 1), frac(100, 1)), (frac(1, 2), frac(3, 1)), (frac(-5, 1), frac(-1, 1))];
    let mut hits = 0;
    for o in origins.iter() {
        for d in directions.iter() {
            for (lo, hi) in ranges.iter() {
                let ray = Ray::new(*o, *d, None);
                let naive = b.hit(&ray, *lo, *hi);
                assert_eq!(naive, b.optimized_hit(&ray, *lo, *hi));
                if naive {
                    hits += 1;
                }
            }
        }
    }
    assert!(hits > 0);
}

#[test]
fn box_with_empty_range_is_missed() {
    let b = cube(-1, 1);
    let ray = Ray::new(Vector3D::new(0, 0, 0), Vector3D::new(1, 1, 1), Some(0));
    assert!(!b.hit(&ray, frac(2, 1), frac(1, 1)));
    assert!(!b.optimized_hit(&ray, frac(2, 1), frac(1, 1)));
}

#[test]
fn sphere_hit_from_outside_gives_near_root() {
    let s = Sphere::new(Vector3D::new(0, 0, 5), 1, 3);
    let ray = Ray::new(Vector3D::empty(), Vector3D::new(0, 0, 10), Some(0));
    let rec = s.hit(&ray, frac(0, 1), frac(1, 1)).unwrap();
    assert!(rec.t.at_most(&frac(2, 5)) && frac(2, 5).at_most(&rec.t));
    assert!(rec.front_face);
    assert_eq!(rec.material, 3);
    assert_eq!(rec.center, Vector3D::new(0, 0, 5));
    assert_eq!(rec.radius, 1);
}

#[test]
fn sphere_hit_from_inside_gives_far_root() {
    let s = Sphere::new(Vector3D::new(0, 0, 0), 2, 0);
    let ray = Ray::new(Vector3D::empty(), Vector3D::new(0, 0, 1), Some(0));
    let rec = s.hit(&ray, frac(0, 1), frac(100, 1)).unwrap();
    assert!(rec.t.at_most(&frac(2, 1)) && frac(2, 1).at_most(&rec.t));
    assert!(!rec.front_face);
}

#[test]
fn sphere_aimed_at_center_has_two_roots() {
    let s = Sphere::new(Vector3D::new(0, 0, 10), 3, 0);
    let ray = Ray::new(Vector3D::empty(), Vector3D::new(0, 0, 2), Some(0));
    let near = s.hit(&ray, frac(0, 1), frac(100, 1)).unwrap();
    assert!(near.t.at_most(&frac(7, 2)) && frac(7, 2).at_most(&near.t));
    // Past the near root only the far one is left.
    let far = s.hit(&ray, frac(4, 1), frac(100, 1)).unwrap();
    assert!(far.t.at_most(&frac(13, 2)) && frac(13, 2).at_most(&far.t));
}

#[test]
fn sphere_tangent_ray_touches_once() {
    let s = Sphere::new(Vector3D::new(0, 1, 5), 1, 0);
    let ray = Ray::new(Vector3D::empty(), Vector3D::new(0, 0, 1), Some(0));
    let rec = s.hit(&ray, frac(0, 1), frac(100, 1)).unwrap();
    assert!(rec.t.at_most(&frac(5, 1)) && frac(5, 1).at_most(&rec.t));
    assert!(s.hit(&ray, frac(51, 10), frac(100, 1)).is_none());
}

#[test]
fn sphere_missed_by_ray() {
    let s = Sphere::new(Vector3D::new(0, 3, 5), 1, 0);
    let ray = Ray::new(Vector3D::empty(), Vector3D::new(0, 0, 1), Some(0));
    assert!(s.hit(&ray, frac(0, 1), frac(100, 1)).is_none());
    let zero = Ray::new(Vector3D::empty(), Vector3D::empty(), Some(0));
    assert!(s.hit(&zero, frac(0, 1), frac(100, 1)).is_none());
}

#[test]
fn sphere_root_uses_truncated_square_root() {
    // Discriminant 8: its square root is rounded down to 2.
    let s = Sphere::new(Vector3D::new(0, 1, 4), 3, 0);
    let ray = Ray::new(Vector3D::empty(), Vector3D::new(0, 0, 1), Some(0));
    // a = 1, half_b = -4, c = 17 - 9 = 8, discriminant = 16 - 8 = 8.
    let rec = s.hit(&ray, frac(0, 1), frac(100, 1)).unwrap();
    assert_eq!(rec.t, frac(2, 1));
}

#[test]
fn moving_sphere_center_interpolates() {
    let m = MovingSphere::new(Vector3D::new(0, 0, 0), Vector3D::new(10, -10, 3), 1, 0, 0, 4);
    assert_eq!(m.center(0), Vector3D::new(0, 0, 0));
    assert_eq!(m.center(4), Vector3D::new(10, -10, 3));
    assert_eq!(m.center(2), Vector3D::new(5, -5, 1));
    // Rounded down: 10/4 = 2.5 -> 2 and -10/4 = -2.5 -> -3.
    assert_eq!(m.center(1), Vector3D::new(2, -3, 0));
}

#[test]
fn moving_sphere_box_covers_both_ends() {
    let m = MovingSphere::new(Vector3D::new(0, 0, 0), Vector3D::new(4, -4, 0), 1, 0, 0, 1);
    let b = m.bounding_box(0, 1);
    assert_eq!(b.minimum, Vector3D::new(-1, -5, -1));
    assert_eq!(b.maximum, Vector3D::new(5, 1, 1));
}

#[test]
fn moving_sphere_box_at_fixed_time_is_static_box() {
    let m = MovingSphere::new(Vector3D::new(0, 0, 0), Vector3D::new(8, 4, -4), 2, 0, 0, 4);
    let c = m.center(2);
    let s = Sphere::new(c, 2, 0);
    assert_eq!(m.bounding_box(2, 2), s.bounding_box(0, 1));
    assert_eq!(s.bounding_box(0, 1).minimum, Vector3D::new(2, 0, -4));
}

#[test]
fn moving_sphere_hit_uses_center_at_ray_time() {
    let m = MovingSphere::new(Vector3D::new(0, 0, 5), Vector3D::new(0, 10, 5), 1, 0, 0, 10);
    let early = Ray::new(Vector3D::empty(), Vector3D::new(0, 0, 1), Some(0));
    let late = Ray::new(Vector3D::empty(), Vector3D::new(0, 0, 1), Some(10));
    assert!(m.hit(&early, frac(0, 1), frac(100, 1)).is_some());
    assert!(m.hit(&late, frac(0, 1), frac(100, 1)).is_none());
}

#[test]
fn hit_record_face_follows_normal() {
    let mut rec = HitRecord::new(frac(1, 1), true, 0, Vector3D::empty(), 1);
    let ray = Ray::new(Vector3D::empty(), Vector3D::new(0, 0, 1), Some(0));
    rec.set_face_normal(&ray, &Vector3D::new(0, 0, 1));
    assert!(!rec.front_face);
    rec.set_face_normal(&ray, &Vector3D::new(0, 0, -1));
    assert!(rec.front_face);
}
