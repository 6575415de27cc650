use path_tracer::math::Vec3;
use path_tracer::mesh::Mesh;
use path_tracer::mesh::MeshError;
use path_tracer::mesh::MeshTrait;
use path_tracer::mesh::Plane;
use path_tracer::mesh::Primitive;
use path_tracer::mesh::Sphere;
use path_tracer::mesh::Triangle;
use path_tracer::ray::Ray;
use path_tracer::scalar::Scalar;
use path_tracer::scalar::UNIT;

fn s(thousandths: i64) -> Scalar {
    Scalar::from_ratio(thousandths, 1000)
}

fn v(x: i64, y: i64, z: i64) -> Vec3 {
    Vec3::from(s(x), s(y), s(z))
}

fn close(a: Scalar, b: Scalar, tolerance: i64) -> bool {
    (a.raw - b.raw).abs() <= tolerance
}

fn close_vec(a: Vec3, b: Vec3, tolerance: i64) -> bool {
    close(a.x, b.x, tolerance) && close(a.y, b.y, tolerance) && close(a.z, b.z, tolerance)
}

fn near() -> Scalar {
    s(10)
}

fn far() -> Scalar {
    Scalar::max()
}

#[test]
fn sphere_hit_straight_on_is_exact() {
    let sphere = Sphere::from(v(0, 0, 4000), s(1000));
    let ray = Ray::from(v(0, 0, 0), v(0, 0, 1000));
    let hit = sphere.hit(&ray, near(), far(), 3).unwrap();
    assert_eq!(hit.t, s(3000));
    assert_eq!(hit.point, v(0, 0, 3000));
    assert_eq!(hit.normal, v(0, 0, -1000));
    assert_eq!(hit.object_id, 3);
}

#[test]
fn sphere_hit_respects_the_open_range() {
    let sphere = Sphere::from(v(0, 0, 4000), s(1000));
    let ray = Ray::from(v(0, 0, 0), v(0, 0, 1000));
    assert!(sphere.hit(&ray, s(2900), s(3100), 0).is_some());
    assert!(sphere.hit(&ray, near(), s(3000), 0).is_none());
    assert!(sphere.hit(&ray, s(3000), far(), 0).is_none());
    assert!(sphere.hit(&ray, s(3100), far(), 0).is_none());
}

#[test]
fn sphere_hit_point_lies_on_the_surface() {
    let center = v(0, 0, 4000);
    let radius = s(700);
    let sphere = Sphere::from(center, radius);
    let mut hits = 0;
    for dx in -4..=4 {
        for dy in -4..=4 {
            let direction = v(dx * 40, dy * 40, 1000).normalized();
            let ray = Ray::from(v(0, 0, 0), direction);
            if let Some(hit) = sphere.hit(&ray, near(), far(), 0) {
                hits += 1;
                let out = hit.point - center;
                assert!(close(out.dot(&out), radius * radius, 50_000), "{:?}", hit);
                assert!(close(hit.normal.dot(&hit.normal), Scalar::one(), 150_000), "{:?}", hit);
                assert!(close(out.length(), radius, 1_000), "{:?}", hit);
                assert!(close(hit.normal.length(), Scalar::one(), 1_000), "{:?}", hit);
                assert_eq!(hit.normal, out / radius);
                assert!(hit.normal.dot(&out).raw > 0);
                assert!(hit.normal.dot(&direction).raw < 0);
                assert!(close_vec(hit.point, ray.at(hit.t), 0));
            }
        }
    }
    assert!(hits >= 40, "{} hits", hits);
}

#[test]
fn sphere_is_missed_from_inside_and_behind() {
    let sphere = Sphere::from(v(0, 0, 4000), s(1000));
    let inside = Ray::from(v(0, 0, 4000), v(0, 0, 1000));
    assert!(sphere.hit(&inside, near(), far(), 0).is_none());
    let away = Ray::from(v(0, 0, 0), v(0, 0, -1000));
    assert!(sphere.hit(&away, near(), far(), 0).is_none());
    let beside = Ray::from(v(0, 0, 0), v(1000, 0, 0));
    assert!(sphere.hit(&beside, near(), far(), 0).is_none());
    let tangent = Ray::from(v(1000, 0, 0), v(0, 0, 1000));
    assert!(sphere.hit(&tangent, near(), far(), 0).is_none());
}

#[test]
fn sphere_is_missed_from_anywhere_inside() {
    let center = v(1000, -2000, 4000);
    let sphere = Sphere::from(center, s(1500));
    for (x, y, z) in [(0, 0, 0), (1400, 0, 0), (0, -1400, 0), (800, 800, 800), (0, 0, -1499)] {
        let origin = center + v(x, y, z);
        for direction in [v(1000, 0, 0), v(0, -1000, 0), v(0, 0, 1000), v(600, 0, -800)] {
            let ray = Ray::from(origin, direction);
            assert!(sphere.hit(&ray, s(10), far(), 0).is_none(), "{:?}", ray);
        }
    }
}

#[test]
fn new_sphere_is_a_point_at_the_origin() {
    let sphere = Sphere::new();
    assert_eq!(sphere.center, Vec3::zero());
    assert_eq!(sphere.radius, Scalar::zero());
    let ray = Ray::from(v(0, 0, -1000), v(0, 0, 1000));
    assert!(sphere.hit(&ray, near(), far(), 0).is_none());
}

#[test]
fn plane_is_hit_along_its_normal() {
    let plane = Plane::new(v(0, 0, 5000), v(0, 0, 1000));
    assert_eq!(plane.d, s(5000));
    assert_eq!(plane, Plane::from(v(0, 0, 5000), v(0, 0, 1000)));
    let ray = Ray::from(v(1000, 2000, 0), v(0, 0, 1000));
    let hit = plane.hit(&ray, near(), far(), 9).unwrap();
    assert_eq!(hit.t, s(5000));
    assert_eq!(hit.point, v(1000, 2000, 5000));
    assert_eq!(hit.normal, v(0, 0, 1000));
    assert_eq!(hit.object_id, 9);
    assert!(plane.hit(&ray, near(), s(5000), 9).is_none());
    assert!(plane.hit(&ray, s(5000), far(), 9).is_none());
}

#[test]
fn plane_is_one_sided() {
    let plane = Plane::new(v(0, 0, 5000), v(0, 0, 1000));
    let against = Ray::from(v(0, 0, 10_000), v(0, 0, -1000));
    assert!(plane.hit(&against, near(), far(), 0).is_none());
    let slanted = Ray::from(v(0, 0, 10_000), v(600, 0, -800));
    assert!(plane.hit(&slanted, near(), far(), 0).is_none());
    let along = Ray::from(v(0, 0, 0), v(1000, 0, 0));
    assert!(plane.hit(&along, near(), far(), 0).is_none());
}

#[test]
fn plane_threshold_is_a_millionth() {
    let plane = Plane::new(v(0, 0, 5000), v(0, 0, 1000));
    let below = Vec3::from(Scalar::one(), Scalar::zero(), Scalar::from_raw(999));
    assert!(plane.hit(&Ray::from(v(0, 0, 0), below), near(), far(), 0).is_none());
    let at = Vec3::from(Scalar::one(), Scalar::zero(), Scalar::from_raw(1_000));
    let hit = plane.hit(&Ray::from(v(0, 0, 0), at), near(), far(), 0).unwrap();
    assert_eq!(hit.t, Scalar::from_int(5_000_000));
}

fn flat_triangle(z: i64) -> Triangle {
    Triangle::new(v(0, 0, z), v(3000, 0, z), v(0, 3000, z))
}

#[test]
fn triangle_is_hit_at_its_centroid() {
    let triangle = flat_triangle(5000);
    assert_eq!(triangle.normal(), v(0, 0, 1000));
    let centroid = v(1000, 1000, 5000);
    let from_below = Ray::from(v(1000, 1000, 0), v(0, 0, 1000));
    let hit = triangle.hit(&from_below, near(), far(), 4).unwrap();
    assert!(close(hit.t, s(5000), 100), "{:?}", hit);
    assert!(close_vec(hit.point, centroid, 100), "{:?}", hit);
    assert_eq!(hit.normal, v(0, 0, 1000));
    assert_eq!(hit.object_id, 4);
    let from_above = Ray::from(v(1000, 1000, 10_000), v(0, 0, -1000));
    let hit = triangle.hit(&from_above, near(), far(), 4).unwrap();
    assert!(close(hit.t, s(5000), 100), "{:?}", hit);
    assert!(close_vec(hit.point, centroid, 100), "{:?}", hit);
    assert_eq!(hit.normal, v(0, 0, 1000));
}

#[test]
fn triangle_is_hit_at_the_centroid_of_a_tilted_face() {
    let a = v(1000, 0, 4000);
    let b = v(0, 2000, 5000);
    let c = v(-1000, -1000, 6000);
    let triangle = Triangle::new(a, b, c);
    let centroid = (a + b + c) / Scalar::from_int(3);
    let normal = triangle.normal();
    let origin = centroid + normal * Scalar::from_int(2);
    let ray = Ray::from(origin, -normal);
    let hit = triangle.hit(&ray, near(), far(), 0).unwrap();
    assert!(close(hit.t, Scalar::from_int(2), 1_000), "{:?}", hit);
    assert!(close_vec(hit.point, centroid, 1_000), "{:?}", hit);
}

#[test]
fn ray_at_the_centroid_hits_any_solid_triangle() {
    let mut state: u64 = 0x2545_f491_4f6c_dd1d;
    let mut next = move || {
        state ^= state << 13;
        state ^= state >> 7;
        state ^= state << 17;
        (state % 200_001) as i64 - 100_000
    };
    let mut tried = 0;
    while tried < 300 {
        let a = v(next(), next(), next());
        let b = v(next(), next(), next());
        let c = v(next(), next(), next());
        let triangle = Triangle::new(a, b, c);
        let twice_the_area = (b - a).cross(&(c - a)).length();
        if twice_the_area.raw < 100_000_000 {
            continue;
        }
        tried += 1;
        let centroid = (a + b + c) / Scalar::from_int(3);
        let normal = triangle.normal();
        for distance in [s(1), s(500), s(3000), s(100_000)] {
            let ray = Ray::from(centroid + normal * distance, -normal);
            let low = Scalar::from_raw(distance.raw - 8_000_000);
            let high = Scalar::from_raw(distance.raw + 8_000_000);
            let hit = triangle.hit(&ray, low, high, 0).unwrap();
            assert!(close(hit.t, distance, 7_999_999), "{:?} {:?}", triangle, hit);
            assert!(close_vec(hit.point, centroid, 16_000_000), "{:?} {:?}", triangle, hit);
            let behind = Ray::from(centroid - normal * distance, normal);
            let hit = triangle.hit(&behind, low, high, 0).unwrap();
            assert!(close(hit.t, distance, 7_999_999), "{:?} {:?}", triangle, hit);
            assert_eq!(hit.normal, normal);
        }
    }
}

fn wide_triangle(z: i64) -> Vec<Vec3> {
    vec![v(-1000, -1000, z), v(2000, -1000, z), v(-1000, 2000, z)]
}

#[test]
fn mesh_hit_on_the_nearer_of_two_triangles_is_exact() {
    let mut vertices = wide_triangle(4000);
    vertices.extend(wide_triangle(8000));
    let ray = Ray::from(v(0, 0, 0), v(0, 0, 1000));
    let near_first = Mesh::new(vertices.clone(), vec![0, 1, 2, 3, 4, 5], vec![]).unwrap();
    let hit = near_first.hit(&ray, s(10), far(), 0).unwrap();
    assert_eq!(hit.t, s(4000));
    assert_eq!(hit.point, v(0, 0, 4000));
    assert_eq!(hit.normal, v(0, 0, 1000));
    assert_eq!(hit.object_id, 0);
    let far_first = Mesh::new(vertices, vec![3, 4, 5, 0, 1, 2], vec![]).unwrap();
    let hit = far_first.hit(&ray, s(10), far(), 0).unwrap();
    assert_eq!(hit.t, s(4000));
    assert_eq!(hit.point, v(0, 0, 4000));
}

#[test]
fn mesh_hit_from_the_side_of_the_normal_is_exact() {
    let mesh = Mesh::new(wide_triangle(4000), vec![0, 1, 2], vec![]).unwrap();
    let ray = Ray::from(v(0, 0, 8000), v(0, 0, -1000));
    let hit = mesh.hit(&ray, s(10), far(), 2).unwrap();
    assert_eq!(hit.t, s(4000));
    assert_eq!(hit.point, v(0, 0, 4000));
    assert_eq!(hit.normal, v(0, 0, 1000));
    assert_eq!(hit.object_id, 2);
}

#[test]
fn tiny_triangle_has_a_unit_normal() {
    let a = Vec3::zero();
    let b = Vec3::from(Scalar::from_raw(100_000), Scalar::zero(), Scalar::zero());
    let c = Vec3::from(Scalar::zero(), Scalar::from_raw(100_000), Scalar::zero());
    let mesh = Mesh::new(vec![a, b, c], vec![0, 1, 2], vec![]).unwrap();
    let origin = Vec3::from(Scalar::from_raw(20_000), Scalar::from_raw(20_000), Scalar::one());
    let ray = Ray::from(origin, v(0, 0, -1_000_000));
    let tiny = Scalar::from_raw(100_000);
    if let Some(hit) = mesh.hit(&ray, tiny, far(), 0) {
        assert_eq!(hit.normal, v(0, 0, 1000));
    }
    assert_eq!(Triangle::new(a, b, c).normal(), v(0, 0, 1000));
}

#[test]
fn triangle_is_missed_outside_its_edges() {
    let triangle = flat_triangle(5000);
    for (x, y) in [(-100, 1000), (1000, -100), (2000, 2000), (3100, 0), (0, 3100)] {
        let ray = Ray::from(v(x, y, 0), v(0, 0, 1000));
        assert!(triangle.hit(&ray, near(), far(), 0).is_none(), "{} {}", x, y);
    }
    for (x, y) in [(100, 100), (2800, 100), (100, 2800), (1400, 1400)] {
        let ray = Ray::from(v(x, y, 0), v(0, 0, 1000));
        assert!(triangle.hit(&ray, near(), far(), 0).is_some(), "{} {}", x, y);
    }
}

#[test]
fn triangle_is_missed_by_a_ray_in_its_plane() {
    let triangle = flat_triangle(5000);
    let ray = Ray::from(v(-1000, 1000, 5000), v(1000, 0, 0));
    assert!(triangle.hit(&ray, near(), far(), 0).is_none());
    let behind = Ray::from(v(1000, 1000, 6000), v(0, 0, 1000));
    assert!(triangle.hit(&behind, near(), far(), 0).is_none());
}

#[test]
fn triangle_hit_respects_the_open_range() {
    let triangle = flat_triangle(5000);
    let ray = Ray::from(v(1000, 1000, 0), v(0, 0, 1000));
    assert!(triangle.hit(&ray, s(4900), s(5100), 0).is_some());
    assert!(triangle.hit(&ray, near(), s(4900), 0).is_none());
    assert!(triangle.hit(&ray, s(5100), far(), 0).is_none());
}

#[test]
fn degenerate_triangle_is_never_hit() {
    let point = Triangle::new(v(0, 0, 5000), v(0, 0, 5000), v(0, 0, 5000));
    let ray = Ray::from(v(0, 0, 0), v(0, 0, 1000));
    assert!(point.hit(&ray, near(), far(), 0).is_none());
}

#[test]
fn triangle_intersect_tests_plane_and_edges() {
    let triangle = flat_triangle(5000);
    let inside = Ray::from(v(1000, 1000, 0), v(0, 0, 1000));
    let t = triangle.intersect(&inside).unwrap();
    assert!(close(t, s(5000), 100));
    let from_above = Ray::from(v(1000, 1000, 7000), v(0, 0, -1000));
    assert!(close(triangle.intersect(&from_above).unwrap(), s(2000), 100));
    let outside = Ray::from(v(2000, 2000, 0), v(0, 0, 1000));
    assert!(triangle.intersect(&outside).is_none());
    let behind = Ray::from(v(1000, 1000, 6000), v(0, 0, 1000));
    assert!(triangle.intersect(&behind).is_none());
    let along = Ray::from(v(-1000, 1000, 5000), v(1000, 0, 0));
    assert!(triangle.intersect(&along).is_none());
}

fn square(z: i64) -> Vec<Vec3> {
    vec![v(0, 0, z), v(3000, 0, z), v(0, 3000, z), v(3000, 3000, z)]
}

#[test]
fn mesh_keeps_the_nearest_triangle() {
    let mut vertices = square(5000);
    vertices.extend(square(3000));
    let ray = Ray::from(v(500, 500, 0), v(0, 0, 1000));
    let far_first = Mesh::new(vertices.clone(), vec![0, 1, 2, 4, 5, 6], vec![]).unwrap();
    let hit = far_first.hit(&ray, near(), far(), 2).unwrap();
    assert!(close(hit.t, s(3000), 100), "{:?}", hit);
    assert_eq!(hit.object_id, 2);
    let near_first = Mesh::new(vertices, vec![4, 5, 6, 0, 1, 2], vec![]).unwrap();
    let hit = near_first.hit(&ray, near(), far(), 2).unwrap();
    assert!(close(hit.t, s(3000), 100), "{:?}", hit);
}

#[test]
fn mesh_prefers_the_earlier_of_equal_hits() {
    let vertices = square(5000);
    let ray = Ray::from(v(500, 500, 0), v(0, 0, 1000));
    let up_first = Mesh::new(vertices.clone(), vec![0, 1, 2, 0, 2, 1], vec![]).unwrap();
    assert_eq!(up_first.hit(&ray, near(), far(), 0).unwrap().normal, v(0, 0, 1000));
    let down_first = Mesh::new(vertices, vec![0, 2, 1, 0, 1, 2], vec![]).unwrap();
    assert_eq!(down_first.hit(&ray, near(), far(), 0).unwrap().normal, v(0, 0, -1000));
}

#[test]
fn mesh_covers_all_its_triangles() {
    let mesh = Mesh::new(square(5000), vec![0, 1, 2, 1, 3, 2], vec![]).unwrap();
    assert_eq!(mesh.triangle_count(), 2);
    assert_eq!(mesh.triangle(1), Triangle::new(v(3000, 0, 5000), v(3000, 3000, 5000), v(0, 3000, 5000)));
    let first = Ray::from(v(500, 500, 0), v(0, 0, 1000));
    let second = Ray::from(v(2500, 2500, 0), v(0, 0, 1000));
    let outside = Ray::from(v(3500, 2500, 0), v(0, 0, 1000));
    assert!(mesh.hit(&first, near(), far(), 0).is_some());
    assert!(mesh.hit(&second, near(), far(), 0).is_some());
    assert!(mesh.hit(&outside, near(), far(), 0).is_none());
    assert!(mesh.hit(&first, near(), s(4000), 0).is_none());
}

#[test]
fn empty_mesh_is_never_hit() {
    let mesh = Mesh::new(vec![], vec![], vec![]).unwrap();
    assert_eq!(mesh.triangle_count(), 0);
    let ray = Ray::from(v(0, 0, 0), v(0, 0, 1000));
    assert!(mesh.hit(&ray, near(), far(), 0).is_none());
}

#[test]
fn mesh_keeps_what_it_was_given() {
    let normals = vec![v(0, 0, 1000)];
    let mesh = Mesh::new(square(1000), vec![3, 2, 1], normals.clone()).unwrap();
    assert_eq!(mesh.vertices(), &square(1000));
    assert_eq!(mesh.indices(), &vec![3, 2, 1]);
    assert_eq!(mesh.normals(), &normals);
}

#[test]
fn mesh_refuses_an_incomplete_triangle() {
    assert_eq!(
        Mesh::new(square(0), vec![0, 1, 2, 3], vec![]).err(),
        Some(MeshError::IncompleteTriangle)
    );
    assert_eq!(Mesh::new(square(0), vec![0], vec![]).err(), Some(MeshError::IncompleteTriangle));
}

#[test]
fn mesh_refuses_an_index_without_a_vertex() {
    assert_eq!(
        Mesh::new(square(0), vec![0, 1, 4], vec![]).err(),
        Some(MeshError::IndexOutOfRange { position: 2 })
    );
    assert_eq!(
        Mesh::new(square(0), vec![0, 9, 4, 7], vec![]).err(),
        Some(MeshError::IndexOutOfRange { position: 1 })
    );
    assert_eq!(
        Mesh::new(vec![], vec![0, 0, 0], vec![]).err(),
        Some(MeshError::IndexOutOfRange { position: 0 })
    );
}

#[test]
fn primitive_tests_as_its_kind_does() {
    let ray = Ray::from(v(500, 500, 0), v(0, 0, 1000));
    let sphere = Sphere::from(v(500, 500, 4000), s(1000));
    assert_eq!(
        Primitive::Sphere(sphere).hit(&ray, near(), far(), 1),
        sphere.hit(&ray, near(), far(), 1)
    );
    let plane = Plane::new(v(0, 0, 5000), v(0, 0, 1000));
    assert_eq!(
        Primitive::Plane(plane).hit(&ray, near(), far(), 2),
        plane.hit(&ray, near(), far(), 2)
    );
    let mesh = Mesh::new(square(5000), vec![0, 1, 2], vec![]).unwrap();
    let expected = mesh.hit(&ray, near(), far(), 3);
    assert!(expected.is_some());
    assert_eq!(Primitive::Mesh(mesh).hit(&ray, near(), far(), 3), expected);
}

#[test]
fn unit_is_what_the_thresholds_are_measured_in() {
    assert_eq!(path_tracer::mesh::EPSILON * 1_000_000, UNIT);
    assert_eq!(path_tracer::mesh::PARALLEL * 10_000, UNIT);
}
