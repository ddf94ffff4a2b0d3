use ray_sphere::ray::Ray;
use ray_sphere::sphere::Sphere;
use ray_sphere::vector::{Vector, UNIT};

fn unit_sphere() -> Sphere {
    Sphere::new(Vector::new(0, 0, 0), UNIT)
}

#[test]
fn ray_through_center_hits_near_surface() {
    let s = unit_sphere();
    let r = Ray::new(Vector::new(0, 0, -5 * UNIT), Vector::new(0, 0, UNIT));
    assert_eq!(s.intersect(&r), Some(Vector::new(0, 0, -UNIT)));
}

#[test]
fn offset_ray_misses() {
    let s = unit_sphere();
    let r = Ray::new(Vector::new(5 * UNIT, 5 * UNIT, -5 * UNIT), Vector::new(0, 0, UNIT));
    assert_eq!(s.intersect(&r), None);
}

#[test]
fn tangent_ray_hits_single_point() {
    let s = unit_sphere();
    let r = Ray::new(Vector::new(UNIT, 0, -5 * UNIT), Vector::new(0, 0, UNIT));
    assert_eq!(s.intersect(&r), Some(Vector::new(UNIT, 0, 0)));
}

#[test]
fn normal_at_surface_point() {
    let s = unit_sphere();
    let n = s.normal_at(&Vector::new(0, 0, -UNIT));
    assert_eq!(n, Vector::new(0, 0, -UNIT));
}

#[test]
fn scaled_direction_gives_identical_hit() {
    // The solve carries the full quadratic coefficient `dir . dir`, so a
    // direction of any positive length reports the same hit point.
    let s = unit_sphere();
    let origin = Vector::new(0, 0, -5 * UNIT);
    let unit_dir = Ray::new(origin, Vector::new(0, 0, UNIT));
    let double_dir = Ray::new(origin, Vector::new(0, 0, 2 * UNIT));
    let triple_dir = Ray::new(origin, Vector::new(0, 0, 3 * UNIT));
    let hit = Some(Vector::new(0, 0, -UNIT));
    assert_eq!(s.intersect(&unit_dir), hit);
    assert_eq!(s.intersect(&double_dir), hit);
    assert_eq!(s.intersect(&triple_dir), hit);
}

#[test]
fn ray_from_inside_reports_smaller_root_behind_origin() {
    // From the center, the algebraically smaller root is negative; the
    // reported point lies behind the origin, with no filtering.
    let s = unit_sphere();
    let r = Ray::new(Vector::new(0, 0, 0), Vector::new(0, 0, UNIT));
    assert_eq!(s.intersect(&r), Some(Vector::new(0, 0, -UNIT)));
}

#[test]
fn zero_radius_sphere_degenerates_to_point_test() {
    let s = Sphere::new(Vector::new(0, 0, 0), 0);
    let through = Ray::new(Vector::new(0, 0, -5 * UNIT), Vector::new(0, 0, UNIT));
    assert_eq!(s.intersect(&through), Some(Vector::new(0, 0, 0)));
    let past = Ray::new(Vector::new(UNIT, 0, -5 * UNIT), Vector::new(0, 0, UNIT));
    assert_eq!(s.intersect(&past), None);
}

#[test]
fn negative_radius_behaves_like_its_magnitude() {
    let s = Sphere::new(Vector::new(0, 0, 0), -UNIT);
    let r = Ray::new(Vector::new(0, 0, -5 * UNIT), Vector::new(0, 0, UNIT));
    assert_eq!(s.intersect(&r), Some(Vector::new(0, 0, -UNIT)));
}

#[test]
fn off_center_sphere_hit() {
    let s = Sphere::new(Vector::new(0, 0, 2 * UNIT), UNIT);
    let r = Ray::new(Vector::new(0, 0, -5 * UNIT), Vector::new(0, 0, UNIT));
    assert_eq!(s.intersect(&r), Some(Vector::new(0, 0, UNIT)));
}

#[test]
fn normal_at_off_center_sphere() {
    let s = Sphere::new(Vector::new(UNIT, UNIT, UNIT), UNIT);
    let n = s.normal_at(&Vector::new(UNIT, UNIT, 2 * UNIT));
    assert_eq!(n, Vector::new(0, 0, UNIT));
}

#[test]
fn sphere_and_ray_store_fields_verbatim() {
    let center = Vector::new(1, 2, 3);
    let s = Sphere::new(center, -7);
    assert_eq!(s.center, center);
    assert_eq!(s.radius, -7);
    let o = Vector::new(4, 5, 6);
    let d = Vector::new(7, 8, 9);
    let r = Ray::new(o, d);
    assert_eq!(r.origin, o);
    assert_eq!(r.direction, d);
}

#[test]
fn diagonal_tangent_point_lies_on_sphere() {
    let s = Sphere::new(Vector::new(0, 0, 0), 5 * UNIT);
    let r = Ray::new(Vector::new(3 * UNIT, 4 * UNIT, -10 * UNIT), Vector::new(0, 0, UNIT));
    let hit = s.intersect(&r).unwrap();
    assert_eq!(hit, Vector::new(3 * UNIT, 4 * UNIT, 0));
    assert_eq!(hit.magnitude(), 5 * UNIT);
    assert_eq!(s.normal_at(&hit), Vector::new(600, 800, 0));
}

#[test]
fn scaled_direction_gives_identical_tangent_hit() {
    let s = unit_sphere();
    let origin = Vector::new(UNIT, 0, -5 * UNIT);
    let hit = Some(Vector::new(UNIT, 0, 0));
    assert_eq!(s.intersect(&Ray::new(origin, Vector::new(0, 0, UNIT))), hit);
    assert_eq!(s.intersect(&Ray::new(origin, Vector::new(0, 0, 2 * UNIT))), hit);
}
