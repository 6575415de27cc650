//! Scene objects and the scene that holds them.

use crate::material::PointLightMaterial;
use crate::material::Surface;
use crate::math::Vec3;
use crate::mesh::Mesh;
use crate::mesh::MeshTrait;
use crate::mesh::Plane;
use crate::mesh::Primitive;
use crate::mesh::Sphere;
use crate::ray::HitRecord;
use crate::ray::Ray;
use crate::scalar::Scalar;
use vstd::prelude::*;

verus! {

/// Where an object stands, how it is turned and how large it is.
#[derive(Clone, Copy, Debug, PartialEq, Eq, Structural)]
pub struct Transform {
    pub position: Vec3,
    pub rotation: Vec3,
    pub scale: Vec3,
}

impl Transform {
    /// The transform that moves to `position` and neither turns nor scales.
    pub open spec fn spec_from_position(position: Vec3) -> Transform {
        Transform { position, rotation: Vec3::spec_zero(), scale: Vec3::spec_one() }
    }

    /// The transform that changes nothing.
    pub fn zero() -> (t: Transform)
        ensures
            t == Transform::spec_from_position(Vec3::spec_zero()),
    {
        Transform { position: Vec3::zero(), rotation: Vec3::zero(), scale: Vec3::one() }
    }

    /// The transform with the given parts.
    pub fn from(position: Vec3, rotation: Vec3, scale: Vec3) -> (t: Transform)
        ensures
            t == (Transform { position, rotation, scale }),
    {
        Transform { position, rotation, scale }
    }

    /// The transform that moves to `position` and neither turns nor scales.
    pub fn from_position(position: Vec3) -> (t: Transform)
        ensures
            t == Transform::spec_from_position(position),
    {
        Transform { position, rotation: Vec3::zero(), scale: Vec3::one() }
    }
}

/// A thing in the scene: a shape, a material, and the identity under which
/// its hits are recorded.
pub struct Object {
    pub transform: Transform,
    pub material: Surface,
    pub mesh: Primitive,
    /// The index of the object in the scene it belongs to.
    pub id: usize,
}

impl Object {
    /// Where `ray` meets the shape of the object; the record carries the
    /// identity of the object.
    pub open spec fn spec_hit(self, ray: Ray, t_min: Scalar, t_max: Scalar) -> Option<HitRecord> {
        self.mesh.spec_intersection(ray, t_min, t_max, self.id)
    }

    /// Where `ray` meets the object at a parameter strictly between `t_min`
    /// and `t_max`, if it does.
    pub fn hit(&self, ray: &Ray, t_min: Scalar, t_max: Scalar) -> (r: Option<HitRecord>)
        ensures
            r == self.spec_hit(*ray, t_min, t_max),
            r matches Some(h) ==> h.object_id == self.id && t_min.raw < h.t.raw < t_max.raw,
    {
        self.mesh.hit(ray, t_min, t_max, self.id)
    }

    /// A sphere of the given material.
    pub fn sphere(center: Vec3, radius: Scalar, material: Surface, id: usize) -> (o: Object)
        ensures
            o.transform == Transform::spec_from_position(center),
            o.material == material,
            o.mesh == Primitive::Sphere(Sphere { center, radius }),
            o.id == id,
    {
        Object {
            transform: Transform::from_position(center),
            material,
            mesh: Primitive::Sphere(Sphere { center, radius }),
            id,
        }
    }

    /// A plane through `point` of the given material.
    pub fn plane(point: Vec3, normal: Vec3, material: Surface, id: usize) -> (o: Object)
        ensures
            o.transform == Transform::spec_from_position(point),
            o.material == material,
            o.mesh == Primitive::Plane(Plane::spec_new(point, normal)),
            o.id == id,
    {
        Object {
            transform: Transform::from_position(point),
            material,
            mesh: Primitive::Plane(Plane::new(point, normal)),
            id,
        }
    }

    /// A triangle mesh of the given material. The vertices of the mesh are
    /// taken as they are: `position` is only recorded in the transform.
    pub fn from_mesh(position: Vec3, mesh: Mesh, material: Surface, id: usize) -> (o: Object)
        ensures
            o.transform == Transform::spec_from_position(position),
            o.material == material,
            o.mesh == Primitive::Mesh(mesh),
            o.id == id,
    {
        Object {
            transform: Transform::from_position(position),
            material,
            mesh: Primitive::Mesh(mesh),
            id,
        }
    }

    /// A light: a sphere that emits `color`. The range of the light is
    /// accepted and has no effect.
    pub fn point_light(position: Vec3, radius: Scalar, range: Scalar, color: Vec3, id: usize) -> (o:
        Object)
        ensures
            o.transform == Transform::spec_from_position(position),
            o.material == Surface::PointLight(PointLightMaterial { color }),
            o.mesh == Primitive::Sphere(Sphere { center: position, radius }),
            o.id == id,
    {
        Object {
            transform: Transform::from_position(position),
            material: Surface::PointLight(PointLightMaterial { color }),
            mesh: Primitive::Sphere(Sphere { center: position, radius }),
            id,
        }
    }
}

/// The maker of lights.
pub struct PointLight;

impl PointLight {
    /// A light: the object that [`Object::point_light`] makes.
    pub fn new(position: Vec3, radius: Scalar, range: Scalar, color: Vec3, id: usize) -> (o: Object)
        ensures
            o.transform == Transform::spec_from_position(position),
            o.material == Surface::PointLight(PointLightMaterial { color }),
            o.mesh == Primitive::Sphere(Sphere { center: position, radius }),
            o.id == id,
    {
        Object::point_light(position, radius, range, color, id)
    }
}

/// Whether every object carries its own index as its identity.
pub open spec fn spec_ids_match(objects: Seq<Object>) -> bool {
    forall|i: int| 0 <= i < objects.len() ==> (#[trigger] objects[i]).id == i
}

/// Why a list of objects is no scene.
#[derive(Clone, Copy, Debug, PartialEq, Eq, Structural)]
pub enum SceneError {
    /// The object at `position` carries another identity than its index.
    IdMismatch { position: usize },
}

/// A scene: objects in a fixed order, each known by its index.
pub struct World {
    objects: Vec<Object>,
}

impl World {
    /// In a scene every object carries its index as its identity.
    #[verifier::type_invariant]
    pub open spec fn well_formed(self) -> bool {
        spec_ids_match(self.spec_objects())
    }

    /// The objects of the scene, in order.
    pub closed spec fn spec_objects(self) -> Seq<Object> {
        self.objects@
    }

    /// Makes a scene of `objects`, or reports the first object whose identity
    /// is not its index.
    pub fn new(objects: Vec<Object>) -> (r: Result<World, SceneError>)
        ensures
            r is Ok <==> spec_ids_match(objects@),
            r matches Ok(w) ==> w.spec_objects() == objects@,
            r matches Err(SceneError::IdMismatch { position }) ==> position < objects@.len()
                && objects@[position as int].id != position && spec_ids_match(
                objects@.take(position as int),
            ),
    {
        let mut i: usize = 0;
        while i < objects.len()
            invariant
                i <= objects.len(),
                spec_ids_match(objects@.take(i as int)),
            decreases objects.len() - i,
        {
            if objects[i].id != i {
                return Err(SceneError::IdMismatch { position: i });
            }
            proof {
                let ghost before = objects@.take(i as int);
                let ghost after = objects@.take(i + 1);
                assert forall|j: int| 0 <= j < after.len() implies (#[trigger] after[j]).id == j by {
                    if j < i {
                        assert(after[j] == before[j]);
                    }
                }
            }
            i += 1;
        }
        assert(objects@.take(objects@.len() as int) =~= objects@);
        Ok(World { objects })
    }

    /// The objects of the scene, in order.
    pub fn objects(&self) -> (v: &Vec<Object>)
        ensures
            v@ == self.spec_objects(),
            spec_ids_match(v@),
    {
        proof {
            use_type_invariant(self);
        }
        &self.objects
    }
}

} // verus!
