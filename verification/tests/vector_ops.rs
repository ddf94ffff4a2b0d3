use ray_sphere::num::isqrt;
use ray_sphere::vector::{Vector, UNIT};

#[test]
fn construction_stores_coordinates() {
    let v = Vector::new(1, -2, 3);
    assert_eq!(v.x, 1);
    assert_eq!(v.y, -2);
    assert_eq!(v.z, 3);
}

#[test]
fn add_is_componentwise() {
    let v = Vector::new(1, 2, 3);
    let w = Vector::new(10, 20, 30);
    assert_eq!(v.add(&w), Vector::new(11, 22, 33));
}

#[test]
fn subtract_is_componentwise() {
    let v = Vector::new(11, 22, 33);
    let w = Vector::new(10, 20, 30);
    assert_eq!(v.subtract(&w), Vector::new(1, 2, 3));
}

#[test]
fn subtract_undoes_add() {
    let v = Vector::new(123, -456, 789);
    let w = Vector::new(-987, 654, -321);
    assert_eq!(v.add(&w).subtract(&w), v);
    assert_eq!(w.add(&v).subtract(&v), w);
}

#[test]
fn dot_product_value() {
    let v = Vector::new(1, 2, 3);
    let w = Vector::new(4, 5, 6);
    assert_eq!(v.dot(&w), 32);
}

#[test]
fn dot_self_is_magnitude_squared() {
    let v = Vector::new(3, 4, 0);
    let m = v.magnitude();
    assert_eq!(m, 5);
    assert_eq!(v.dot(&v), m * m);
}

#[test]
fn dot_self_brackets_magnitude_squared() {
    // 1*1 <= 3 < 2*2: the floor square root brackets the dot product.
    let v = Vector::new(1, 1, 1);
    let d = v.dot(&v);
    let m = v.magnitude();
    assert_eq!(d, 3);
    assert_eq!(m, 1);
    assert!(m * m <= d && d < (m + 1) * (m + 1));
}

#[test]
fn magnitude_values() {
    assert_eq!(Vector::new(0, 0, 0).magnitude(), 0);
    assert_eq!(Vector::new(3, 4, 0).magnitude(), 5);
    assert_eq!(Vector::new(3000, 4000, 0).magnitude(), 5000);
    assert_eq!(Vector::new(0, 0, -5000).magnitude(), 5000);
}

#[test]
fn scale_by_one_is_identity() {
    let v = Vector::new(7, -8, 9);
    assert_eq!(v.scale(1), v);
}

#[test]
fn scale_by_zero_is_zero_vector() {
    let v = Vector::new(7, -8, 9);
    assert_eq!(v.scale(0), Vector::new(0, 0, 0));
}

#[test]
fn scale_is_componentwise() {
    let v = Vector::new(1, -2, 3);
    assert_eq!(v.scale(-2), Vector::new(-2, 4, -6));
}

#[test]
fn normalize_rescales_to_unit_magnitude() {
    let v = Vector::new(3000, 4000, 0);
    let n = v.normalize();
    assert_eq!(n, Vector::new(600, 800, 0));
    assert_eq!(n.magnitude(), UNIT);
}

#[test]
fn normalize_axis_vector() {
    let v = Vector::new(0, 0, -5000);
    assert_eq!(v.normalize(), Vector::new(0, 0, -UNIT));
}

#[test]
fn normalize_of_unit_vector_is_itself() {
    let n = Vector::new(600, 800, 0);
    assert_eq!(n.normalize(), n);
}

#[test]
fn isqrt_values() {
    assert_eq!(isqrt(0), 0);
    assert_eq!(isqrt(1), 1);
    assert_eq!(isqrt(3), 1);
    assert_eq!(isqrt(4), 2);
    assert_eq!(isqrt(999999), 999);
    assert_eq!(isqrt(1000000), 1000);
    assert_eq!(isqrt(u64::MAX), 4294967295);
}
