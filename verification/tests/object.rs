use path_tracer::material::Diffuse;
use path_tracer::material::PointLightMaterial;
use path_tracer::material::Surface;
use path_tracer::math::Vec3;
use path_tracer::mesh::Mesh;
use path_tracer::mesh::Primitive;
use path_tracer::object::Object;
use path_tracer::object::PointLight;
use path_tracer::object::SceneError;
use path_tracer::object::Transform;
use path_tracer::object::World;
use path_tracer::ray::Ray;
use path_tracer::scalar::Scalar;

fn s(thousandths: i64) -> Scalar {
    Scalar::from_ratio(thousandths, 1000)
}

fn v(x: i64, y: i64, z: i64) -> Vec3 {
    Vec3::from(s(x), s(y), s(z))
}

fn gray() -> Surface {
    Diffuse::boxed(v(500, 500, 500))
}

#[test]
fn transforms_keep_their_parts() {
    let still = Transform::zero();
    assert_eq!(still.position, Vec3::zero());
    assert_eq!(still.rotation, Vec3::zero());
    assert_eq!(still.scale, Vec3::one());
    let moved = Transform::from_position(v(1000, 2000, 3000));
    assert_eq!(moved.position, v(1000, 2000, 3000));
    assert_eq!(moved.rotation, Vec3::zero());
    assert_eq!(moved.scale, Vec3::one());
    let full = Transform::from(v(1, 2, 3), v(4, 5, 6), v(7, 8, 9));
    assert_eq!(full.position, v(1, 2, 3));
    assert_eq!(full.rotation, v(4, 5, 6));
    assert_eq!(full.scale, v(7, 8, 9));
}

#[test]
fn sphere_object_is_hit_under_its_own_identity() {
    let object = Object::sphere(v(0, 0, 4000), s(1000), gray(), 6);
    assert_eq!(object.id, 6);
    assert_eq!(object.material, gray());
    assert_eq!(object.transform, Transform::from_position(v(0, 0, 4000)));
    let ray = Ray::from(v(0, 0, 0), v(0, 0, 1000));
    let hit = object.hit(&ray, s(10), Scalar::max()).unwrap();
    assert_eq!(hit.object_id, 6);
    assert_eq!(hit.t, s(3000));
    assert!(object.hit(&ray, s(10), s(3000)).is_none());
}

#[test]
fn plane_object_is_one_sided() {
    let object = Object::plane(v(0, 0, 5000), v(0, 0, 1000), gray(), 0);
    assert_eq!(object.transform.position, v(0, 0, 5000));
    let toward = Ray::from(v(0, 0, 0), v(0, 0, 1000));
    assert_eq!(object.hit(&toward, s(10), Scalar::max()).unwrap().t, s(5000));
    let against = Ray::from(v(0, 0, 9000), v(0, 0, -1000));
    assert!(object.hit(&against, s(10), Scalar::max()).is_none());
}

#[test]
fn mesh_object_takes_its_vertices_as_they_are() {
    let vertices = vec![v(0, 0, 5000), v(3000, 0, 5000), v(0, 3000, 5000)];
    let mesh = Mesh::new(vertices, vec![0, 1, 2], vec![]).unwrap();
    let object = Object::from_mesh(v(100_000, 0, 0), mesh, gray(), 2);
    assert_eq!(object.transform.position, v(100_000, 0, 0));
    assert!(matches!(object.mesh, Primitive::Mesh(_)));
    let ray = Ray::from(v(1000, 1000, 0), v(0, 0, 1000));
    let hit = object.hit(&ray, s(10), Scalar::max()).unwrap();
    assert_eq!(hit.object_id, 2);
    assert!((hit.t.raw - s(5000).raw).abs() < 100);
}

#[test]
fn point_light_is_an_emitting_sphere() {
    let color = v(10_000, 10_000, 10_000);
    let light = Object::point_light(v(-2000, 500, 4000), s(700), s(100_000), color, 1);
    assert_eq!(light.id, 1);
    assert_eq!(light.material, Surface::PointLight(PointLightMaterial { color }));
    assert_eq!(light.transform.position, v(-2000, 500, 4000));
    let ray = Ray::from(v(0, 0, 0), v(-2000, 500, 4000).normalized());
    let hit = light.hit(&ray, s(10), Scalar::max()).unwrap();
    assert_eq!(hit.object_id, 1);
    let other = PointLight::new(v(-2000, 500, 4000), s(700), s(5), color, 1);
    assert_eq!(other.material, light.material);
    assert_eq!(other.hit(&ray, s(10), Scalar::max()), Some(hit));
}

#[test]
fn range_of_a_light_changes_nothing() {
    let color = v(1000, 1000, 1000);
    let ray = Ray::from(v(0, 0, 0), v(0, 0, 1000));
    let short = Object::point_light(v(0, 0, 4000), s(1000), s(1), color, 0);
    let long = Object::point_light(v(0, 0, 4000), s(1000), s(1_000_000), color, 0);
    assert_eq!(short.hit(&ray, s(10), Scalar::max()), long.hit(&ray, s(10), Scalar::max()));
    assert_eq!(short.material, long.material);
}

#[test]
fn world_takes_objects_that_carry_their_index() {
    let mut objects = Vec::new();
    objects.push(Object::sphere(v(0, 0, 4000), s(700), gray(), objects.len()));
    objects.push(Object::sphere(v(0, 0, 8000), s(700), gray(), objects.len()));
    let world = World::new(objects).ok().unwrap();
    assert_eq!(world.objects().len(), 2);
    assert_eq!(world.objects()[1].id, 1);
    assert!(World::new(Vec::new()).is_ok());
}

#[test]
fn world_refuses_an_identity_that_is_not_the_index() {
    let objects = vec![
        Object::sphere(v(0, 0, 4000), s(700), gray(), 0),
        Object::sphere(v(0, 0, 8000), s(700), gray(), 2),
        Object::sphere(v(0, 0, 9000), s(700), gray(), 7),
    ];
    assert_eq!(World::new(objects).err(), Some(SceneError::IdMismatch { position: 1 }));
    let only = vec![Object::sphere(v(0, 0, 4000), s(700), gray(), 1)];
    assert_eq!(World::new(only).err(), Some(SceneError::IdMismatch { position: 0 }));
}
