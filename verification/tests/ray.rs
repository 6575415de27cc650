use path_tracer::math::Vec3;
use path_tracer::ray::HitRecord;
use path_tracer::ray::Ray;
use path_tracer::scalar::Scalar;

fn v(x: i64, y: i64, z: i64) -> Vec3 {
    Vec3::from(Scalar::from_int(x), Scalar::from_int(y), Scalar::from_int(z))
}

#[test]
fn point_on_a_ray() {
    let ray = Ray::from(v(1, 2, 3), v(0, 0, 2));
    assert_eq!(ray.at(Scalar::from_ratio(5, 2)), v(1, 2, 8));
    assert_eq!(ray.at(Scalar::zero()), v(1, 2, 3));
    assert_eq!(ray.at(Scalar::from_int(-1)), v(1, 2, 1));
}

#[test]
fn new_ray_is_all_zero() {
    let ray = Ray::new();
    assert_eq!(ray.origin, Vec3::zero());
    assert_eq!(ray.direction, Vec3::zero());
}

#[test]
fn reflection_mirrors_the_direction() {
    let ray = Ray::from(v(0, 0, 0), v(1, -1, 0));
    assert_eq!(ray.reflect(v(0, 1, 0)), v(1, 1, 0));
    let along = Ray::from(v(0, 0, 0), v(1, 0, 0));
    assert_eq!(along.reflect(v(0, 1, 0)), v(1, 0, 0));
}

#[test]
fn hit_record_holds_its_fields() {
    let blank = HitRecord::new();
    assert_eq!(blank.point, Vec3::zero());
    assert_eq!(blank.normal, Vec3::zero());
    assert_eq!(blank.t, Scalar::zero());
    assert_eq!(blank.object_id, 0);
    let h = HitRecord::from(v(1, 2, 3), v(0, 1, 0), Scalar::from_int(4), 7);
    assert_eq!(h.point, v(1, 2, 3));
    assert_eq!(h.normal, v(0, 1, 0));
    assert_eq!(h.t, Scalar::from_int(4));
    assert_eq!(h.object_id, 7);
}
