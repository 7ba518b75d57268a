//! Vectors in tenths of a unit: `Vector3D::new(-20, 30, 14)` is
//! `(-2.0, 3.0, 1.4)`; products of two such vectors are in hundredths.
use pathtracer::vector_3d::{cross, dot, Vector3D};

#[test]
fn vector_3d_it_has_properties() {
    let v = Vector3D::new(2, 1, -51);
    assert_eq!(v.x(), 2);
    assert_eq!(v.y(), 1);
    assert_eq!(v.z(), -51);
}

#[test]
fn vector_3d_new_empty_properties_are_zero() {
    assert_eq!(Vector3D::empty(), Vector3D::new(0, 0, 0));
}

#[test]
fn vector_3d_can_index_in_to_vector() {
    let v = Vector3D::new(2, 1, -51);
    assert_eq!(v.index(0), v.x());
    assert_eq!(v.index(1), v.y());
    assert_eq!(v.index(2), v.z());
}

#[test]
fn vector_3d_can_index_and_change_vector() {
    let mut v = Vector3D::empty();
    v.set(0, 21);
    assert_eq!(v.index(0), 21);
    v.set(1, -21);
    assert_eq!(v.index(1), -21);
    v.set(2, 1);
    assert_eq!(v.index(2), 1);
    assert_eq!(v, Vector3D::new(21, -21, 1));
}

#[test]
fn vector_3d_length_squared_of_vector() {
    assert_eq!(Vector3D::new(1, 2, 3).length_squared(), 14);
}

#[test]
fn vector_3d_length_of_vector() {
    // A length of 5 is a squared length of 25.
    assert_eq!(Vector3D::new(0, 3, 4).length_squared(), 25);
}

#[test]
fn vector_3d_add_two_vectors() {
    let a = Vector3D::new(-20, 30, 14);
    let b = Vector3D::new(21, -10, -5);
    assert_eq!(a.add(&b), Vector3D::new(1, 20, 9));
}

#[test]
fn vector_3d_subtract_two_vectors() {
    let a = Vector3D::new(-20, 30, 14);
    let b = Vector3D::new(21, -10, -5);
    assert_eq!(a.sub(&b), Vector3D::new(-41, 40, 19));
}

#[test]
fn vector_3d_negate_a_vector() {
    assert_eq!(Vector3D::new(-20, 30, 14).neg(), Vector3D::new(20, -30, -14));
}

#[test]
fn vector_3d_multiply_vector_by_vector() {
    let a = Vector3D::new(-20, 30, 14);
    let b = Vector3D::new(5, 10, 30);
    assert_eq!(a.mul(&b), Vector3D::new(-100, 300, 420));
}

#[test]
fn vector_3d_multiply_vector_by_scalar() {
    assert_eq!(Vector3D::new(-20, 0, 13).scale(2), Vector3D::new(-40, 0, 26));
}

#[test]
fn vector_3d_multiply_scalar_by_vector() {
    assert_eq!(Vector3D::new(-20, 0, 13).scale(-2), Vector3D::new(40, 0, -26));
}

#[test]
fn vector_3d_divide_vector_by_scalar() {
    // Halving in tenths is doubling the unit: -2.0, 0, 1.3 become -1.0, 0, 0.65.
    let v = Vector3D::new(-200, 0, 130);
    let halved = Vector3D::new(-100, 0, 65);
    assert_eq!(halved.scale(2), v);
}

#[test]
fn vector_3d_add_and_assign_vector_by_vector() {
    let mut v = Vector3D::new(-20, 0, 13);
    v = v.add(&Vector3D::new(30, -10, 5));
    assert_eq!(v, Vector3D::new(10, -10, 18));
}

#[test]
fn vector_3d_multiply_and_assign_vector_by_scalar() {
    let mut v = Vector3D::new(-20, 0, 13);
    v = v.scale(2);
    assert_eq!(v, Vector3D::new(-40, 0, 26));
}

#[test]
fn vector_3d_divide_and_assign_vector_by_scalar() {
    let mut v = Vector3D::new(-20, 0, 13);
    v = v.scale(0);
    assert!(v.near_zero());
}

#[test]
fn vector_3d_dot_product_with_another_vector() {
    let a = Vector3D::new(13, -24, 50);
    let b = Vector3D::new(2, 10, -15);
    assert_eq!(a.dot(&b), -964);
    assert_eq!(dot(&a, &b), -964);
}

#[test]
fn vector_3d_cross_product_with_another_vector() {
    let a = Vector3D::new(13, -24, 50);
    let b = Vector3D::new(2, 10, -15);
    assert_eq!(a.cross(&b), Vector3D::new(-140, 295, 178));
    assert_eq!(cross(&b, &a), Vector3D::new(140, -295, -178));
}

#[test]
fn vector_3d_unit_vector_from_vector() {
    let v = Vector3D::new(0, 0, 1);
    assert_eq!(v.length_squared(), 1);
    assert_eq!(v.cross(&Vector3D::new(1, 0, 0)), Vector3D::new(0, 1, 0));
}

#[test]
fn near_zero_only_for_the_zero_vector() {
    assert!(Vector3D::new(0, 0, 0).near_zero());
    assert!(!Vector3D::new(0, 1, 0).near_zero());
}

#[test]
fn reflect_flips_the_normal_component() {
    let v = Vector3D::new(1, -1, 0);
    let n = Vector3D::new(0, 1, 0);
    assert_eq!(v.reflect(&n), Vector3D::new(1, 1, 0));
}
