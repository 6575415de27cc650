//! The shapes a ray can meet: sphere, plane, triangle and triangle mesh.

use crate::math::lemma_normalized_or_zero;
use crate::math::Vec3;
use crate::ray::lemma_least_hit_below;
use crate::ray::lemma_least_hit_is_least;
use crate::ray::spec_below;
use crate::ray::spec_least_hit;
use crate::ray::HitRecord;
use crate::ray::Ray;
use crate::scalar::Scalar;
use core::ops::Neg;
use vstd::prelude::*;

verus! {

/// The raw value of the threshold under which a denominator or a determinant
/// counts as zero: a millionth.
pub const EPSILON: i64 = 1_000;

/// The raw value of the threshold under which [`Triangle::intersect`] takes
/// a ray to run along the plane of the triangle: a ten-thousandth.
pub const PARALLEL: i64 = 100_000;

/// A shape that a ray can be tested against.
///
/// Whatever the shape, a hit lies strictly inside the range that was asked
/// for and carries the identity that was handed in: the integrator finds the
/// material of a hit by that identity.
pub trait MeshTrait {
    /// What [`MeshTrait::hit`] returns.
    spec fn spec_hit(&self, ray: Ray, t_min: Scalar, t_max: Scalar, object_id: usize) -> Option<
        HitRecord,
    >;

    /// Where `ray` meets the shape at a parameter strictly between `t_min`
    /// and `t_max`, if it does. The record carries `object_id`.
    fn hit(&self, ray: &Ray, t_min: Scalar, t_max: Scalar, object_id: usize) -> (r: Option<
        HitRecord,
    >)
        ensures
            r == self.spec_hit(*ray, t_min, t_max, object_id),
            r matches Some(h) ==> h.object_id == object_id && t_min.raw < h.t.raw < t_max.raw,
    ;
}

/// A sphere, seen from outside only: a ray that starts inside it misses it.
#[derive(Clone, Copy, Debug, PartialEq, Eq, Structural)]
pub struct Sphere {
    pub center: Vec3,
    pub radius: Scalar,
}

impl Sphere {
    /// The discriminant `b * b - a * c` of the quadratic `a t^2 + 2 b t + c`
    /// whose roots are the parameters at which `ray` crosses the sphere.
    pub open spec fn spec_discriminant(self, ray: Ray) -> Scalar {
        let oc = ray.origin.spec_sub(self.center);
        let a = ray.direction.spec_dot(ray.direction);
        let b = oc.spec_dot(ray.direction);
        let c = oc.spec_dot(oc).spec_sub(self.radius.spec_mul(self.radius));
        b.spec_mul(b).spec_sub(a.spec_mul(c))
    }

    /// The smaller root `(-b - sqrt(discriminant)) / a` of that quadratic.
    pub open spec fn spec_near_root(self, ray: Ray) -> Scalar {
        let oc = ray.origin.spec_sub(self.center);
        let a = ray.direction.spec_dot(ray.direction);
        let b = oc.spec_dot(ray.direction);
        b.spec_neg().spec_sub(self.spec_discriminant(ray).spec_sqrt()).spec_div(a)
    }

    /// The outward normal at `point`: `(point - center) / radius`.
    pub open spec fn spec_normal_at(self, point: Vec3) -> Vec3 {
        point.spec_sub(self.center).spec_shrink(self.radius)
    }

    /// The sphere of radius 0 at the zero vector.
    pub fn new() -> (s: Sphere)
        ensures
            s == (Sphere { center: Vec3::spec_zero(), radius: Scalar { raw: 0 } }),
    {
        Sphere { center: Vec3::zero(), radius: Scalar::zero() }
    }

    /// The sphere with the given center and radius.
    pub fn from(center: Vec3, radius: Scalar) -> (s: Sphere)
        ensures
            s == (Sphere { center, radius }),
    {
        Sphere { center, radius }
    }

    /// A hit needs a positive discriminant and the smaller root inside the
    /// range; the larger root is never tried.
    pub open spec fn spec_intersection(
        self,
        ray: Ray,
        t_min: Scalar,
        t_max: Scalar,
        object_id: usize,
    ) -> Option<HitRecord> {
        let t = self.spec_near_root(ray);
        if self.spec_discriminant(ray).raw > 0 && t_min.raw < t.raw < t_max.raw {
            let point = ray.spec_at(t);
            Some(HitRecord { point, normal: self.spec_normal_at(point), t, object_id })
        } else {
            None
        }
    }
}

impl MeshTrait for Sphere {
    open spec fn spec_hit(&self, ray: Ray, t_min: Scalar, t_max: Scalar, object_id: usize) -> Option<
        HitRecord,
    > {
        self.spec_intersection(ray, t_min, t_max, object_id)
    }

    fn hit(&self, ray: &Ray, t_min: Scalar, t_max: Scalar, object_id: usize) -> (r: Option<
        HitRecord,
    >) {
        let oc = ray.origin - self.center;
        let a = ray.direction.dot(&ray.direction);
        let b = oc.dot(&ray.direction);
        let c = oc.dot(&oc) - self.radius * self.radius;
        let discriminant = b * b - a * c;
        if discriminant.raw > 0 {
            let temp = (b.neg() - discriminant.sqrt()) / a;
            if temp.raw < t_max.raw && temp.raw > t_min.raw {
                let point = ray.at(temp);
                let normal = (point - self.center) / self.radius;
                return Some(HitRecord { point, normal, t: temp, object_id });
            }
        }
        None
    }
}

/// A one-sided plane: the points `p` with `p . normal == d`.
#[derive(Clone, Copy, Debug, PartialEq, Eq, Structural)]
pub struct Plane {
    /// The dot product of the normal with any point of the plane.
    pub d: Scalar,
    pub normal: Vec3,
}

impl Plane {
    /// The plane through `point` with the given normal.
    pub open spec fn spec_new(point: Vec3, normal: Vec3) -> Plane {
        Plane { d: point.spec_dot(normal), normal }
    }

    /// The parameter at which `ray` crosses the plane:
    /// `(d - origin . normal) / (direction . normal)`.
    pub open spec fn spec_crossing(self, ray: Ray) -> Scalar {
        self.d.spec_sub(ray.origin.spec_dot(self.normal)).spec_div(
            ray.direction.spec_dot(self.normal),
        )
    }

    /// The plane through `point` with the given normal.
    pub fn new(point: Vec3, normal: Vec3) -> (p: Plane)
        ensures
            p == Plane::spec_new(point, normal),
    {
        Plane { d: point.dot(&normal), normal }
    }

    /// The plane through `point` with the given normal.
    pub fn from(point: Vec3, normal: Vec3) -> (p: Plane)
        ensures
            p == Plane::spec_new(point, normal),
    {
        Plane::new(point, normal)
    }

    /// A ray hits only if it runs along the normal: `direction . normal` must
    /// reach the threshold, so a ray that is parallel to the plane or runs
    /// against the normal misses.
    pub open spec fn spec_intersection(
        self,
        ray: Ray,
        t_min: Scalar,
        t_max: Scalar,
        object_id: usize,
    ) -> Option<HitRecord> {
        let t = self.spec_crossing(ray);
        if ray.direction.spec_dot(self.normal).raw >= EPSILON && t_min.raw < t.raw < t_max.raw {
            Some(HitRecord { point: ray.spec_at(t), normal: self.normal, t, object_id })
        } else {
            None
        }
    }
}

impl MeshTrait for Plane {
    open spec fn spec_hit(&self, ray: Ray, t_min: Scalar, t_max: Scalar, object_id: usize) -> Option<
        HitRecord,
    > {
        self.spec_intersection(ray, t_min, t_max, object_id)
    }

    fn hit(&self, ray: &Ray, t_min: Scalar, t_max: Scalar, object_id: usize) -> (r: Option<
        HitRecord,
    >) {
        let denominator = ray.direction.dot(&self.normal);
        if denominator.raw < EPSILON {
            return None;
        }
        let t = (self.d - ray.origin.dot(&self.normal)) / denominator;
        if t.raw < t_max.raw && t.raw > t_min.raw {
            let point = ray.at(t);
            return Some(HitRecord { point, normal: self.normal, t, object_id });
        }
        None
    }
}

/// A triangle with the corners `a`, `b` and `c`.
#[derive(Clone, Copy, Debug, PartialEq, Eq, Structural)]
pub struct Triangle {
    pub a: Vec3,
    pub b: Vec3,
    pub c: Vec3,
}

impl Triangle {
    /// The flat face normal: `(b - a) x (c - a)`, normalized.
    pub open spec fn spec_normal(self) -> Vec3 {
        self.b.spec_sub(self.a).spec_cross(self.c.spec_sub(self.a)).spec_normalized()
    }

    /// The determinant `(b - a) . (direction x (c - a))`: near zero where the
    /// ray runs in the plane of the triangle.
    pub open spec fn spec_det(self, ray: Ray) -> Scalar {
        self.b.spec_sub(self.a).spec_dot(ray.direction.spec_cross(self.c.spec_sub(self.a)))
    }

    /// The first barycentric coordinate of the point where `ray` crosses the
    /// plane of the triangle, its weight on the corner `b`:
    /// `((origin - a) . (direction x (c - a))) / det`.
    pub open spec fn spec_u(self, ray: Ray) -> Scalar {
        ray.origin.spec_sub(self.a).spec_dot(
            ray.direction.spec_cross(self.c.spec_sub(self.a)),
        ).spec_div(self.spec_det(ray))
    }

    /// The second barycentric coordinate, the weight on the corner `c`:
    /// `(direction . ((origin - a) x (b - a))) / det`.
    pub open spec fn spec_v(self, ray: Ray) -> Scalar {
        ray.direction.spec_dot(
            ray.origin.spec_sub(self.a).spec_cross(self.b.spec_sub(self.a)),
        ).spec_div(self.spec_det(ray))
    }

    /// The ray parameter of the crossing point:
    /// `((c - a) . ((origin - a) x (b - a))) / det`.
    pub open spec fn spec_t(self, ray: Ray) -> Scalar {
        self.c.spec_sub(self.a).spec_dot(
            ray.origin.spec_sub(self.a).spec_cross(self.b.spec_sub(self.a)),
        ).spec_div(self.spec_det(ray))
    }

    /// Whether the ray crosses the plane of the triangle inside the triangle:
    /// the determinant is not near zero and the barycentric coordinates
    /// satisfy `0 <= u <= 1`, `0 <= v` and `u + v <= 1`.
    pub open spec fn spec_covers(self, ray: Ray) -> bool {
        let det = self.spec_det(ray);
        let u = self.spec_u(ray);
        let v = self.spec_v(ray);
        &&& !(-EPSILON < det.raw < EPSILON)
        &&& 0 <= u.raw <= 1_000_000_000
        &&& 0 <= v.raw
        &&& u.spec_add(v).raw <= 1_000_000_000
    }

    /// The parameter at which `ray` crosses the plane of the triangle:
    /// `(normal . a - normal . origin) / (normal . direction)`.
    pub open spec fn spec_plane_crossing(self, ray: Ray) -> Scalar {
        let normal = self.spec_normal();
        normal.spec_dot(self.a).spec_sub(normal.spec_dot(ray.origin)).spec_div(
            normal.spec_dot(ray.direction),
        )
    }

    /// Whether `point` lies on the same side of all three edges: the cross
    /// products of each edge with the vector from its start to `point` are
    /// taken in turn, and neither the first and the second nor the second
    /// and the third may point apart.
    pub open spec fn spec_within_edges(self, point: Vec3) -> bool {
        let c1 = self.b.spec_sub(self.a).spec_cross(point.spec_sub(self.a));
        let c2 = self.c.spec_sub(self.b).spec_cross(point.spec_sub(self.b));
        let c3 = self.a.spec_sub(self.c).spec_cross(point.spec_sub(self.c));
        c1.spec_dot(c2).raw >= 0 && c2.spec_dot(c3).raw >= 0
    }

    /// What [`Triangle::intersect`] returns.
    pub open spec fn spec_intersect(self, ray: Ray) -> Option<Scalar> {
        let t = self.spec_plane_crossing(ray);
        if self.spec_normal().spec_dot(ray.direction).spec_abs().raw >= PARALLEL && t.raw >= 0
            && self.spec_within_edges(ray.spec_at(t)) {
            Some(t)
        } else {
            None
        }
    }

    /// The triangle with the given corners.
    pub fn new(a: Vec3, b: Vec3, c: Vec3) -> (t: Triangle)
        ensures
            t == (Triangle { a, b, c }),
    {
        Triangle { a, b, c }
    }

    /// The flat face normal. It has unit length, but for a triangle so small
    /// or so thin that the cross product of its edges rounds to the zero
    /// vector, which has the zero vector for its normal.
    pub fn normal(&self) -> (n: Vec3)
        ensures
            n == self.spec_normal(),
            n.spec_is_unit() || n == Vec3::spec_zero(),
    {
        let ab = self.b - self.a;
        let ac = self.c - self.a;
        ab.cross(&ac).normalized()
    }

    /// The parameter at which `ray` crosses the triangle, from either side
    /// and at any distance ahead, if it does: the ray must not run nearly
    /// along the plane of the triangle, must cross that plane at a parameter
    /// that is not negative, and the crossing point must lie within the
    /// edges.
    pub fn intersect(&self, ray: &Ray) -> (r: Option<Scalar>)
        ensures
            r == self.spec_intersect(*ray),
    {
        let normal = self.normal();
        let denom = normal.dot(&ray.direction);
        if denom.abs().raw < PARALLEL {
            return None;
        }
        let d = normal.dot(&self.a);
        let t = (d - normal.dot(&ray.origin)) / denom;
        if t.raw < 0 {
            return None;
        }
        let p = ray.origin + ray.direction * t;
        let ab = self.b - self.a;
        let bc = self.c - self.b;
        let ca = self.a - self.c;
        let ap = p - self.a;
        let bp = p - self.b;
        let cp = p - self.c;
        let c1 = ab.cross(&ap);
        let c2 = bc.cross(&bp);
        let c3 = ca.cross(&cp);
        if c1.dot(&c2).raw >= 0 && c2.dot(&c3).raw >= 0 {
            Some(t)
        } else {
            None
        }
    }

    /// The Moeller-Trumbore test. Each of the two barycentric coordinates
    /// and the ray parameter is one quotient by the determinant, rounded
    /// once. The normal of the record is the flat face normal, whichever
    /// side the ray comes from.
    pub open spec fn spec_intersection(
        self,
        ray: Ray,
        t_min: Scalar,
        t_max: Scalar,
        object_id: usize,
    ) -> Option<HitRecord> {
        let t = self.spec_t(ray);
        if self.spec_covers(ray) && t_min.raw < t.raw < t_max.raw {
            Some(HitRecord { point: ray.spec_at(t), normal: self.spec_normal(), t, object_id })
        } else {
            None
        }
    }
}

impl MeshTrait for Triangle {
    open spec fn spec_hit(&self, ray: Ray, t_min: Scalar, t_max: Scalar, object_id: usize) -> Option<
        HitRecord,
    > {
        self.spec_intersection(ray, t_min, t_max, object_id)
    }

    fn hit(&self, ray: &Ray, t_min: Scalar, t_max: Scalar, object_id: usize) -> (r: Option<
        HitRecord,
    >) {
        let e1 = self.b - self.a;
        let e2 = self.c - self.a;
        let p = ray.direction.cross(&e2);
        let det = e1.dot(&p);
        if det.raw > -EPSILON && det.raw < EPSILON {
            return None;
        }
        let offset = ray.origin - self.a;
        let u = offset.dot(&p) / det;
        if u.raw < 0 || u.raw > Scalar::one().raw {
            return None;
        }
        let q = offset.cross(&e1);
        let v = ray.direction.dot(&q) / det;
        if v.raw < 0 || (u + v).raw > Scalar::one().raw {
            return None;
        }
        let temp = e2.dot(&q) / det;
        if temp.raw < t_max.raw && temp.raw > t_min.raw {
            return Some(
                HitRecord { point: ray.at(temp), normal: e1.cross(&e2).normalized(), t: temp, object_id },
            );
        }
        None
    }
}

/// What each of `triangles` gives when tested alone.
pub open spec fn spec_triangle_hits(
    triangles: Seq<Triangle>,
    ray: Ray,
    t_min: Scalar,
    t_max: Scalar,
    object_id: usize,
) -> Seq<Option<HitRecord>> {
    Seq::new(
        triangles.len(),
        |i: int| triangles[i].spec_intersection(ray, t_min, t_max, object_id),
    )
}

/// The nearest hit among `triangles`: of all their hits the one with the
/// least parameter, and of several with the least parameter the one of the
/// earliest triangle.
pub open spec fn spec_nearest_hit(
    triangles: Seq<Triangle>,
    ray: Ray,
    t_min: Scalar,
    t_max: Scalar,
    object_id: usize,
) -> Option<HitRecord> {
    spec_least_hit(spec_triangle_hits(triangles, ray, t_min, t_max, object_id))
}

/// The triangles that an index list picks from a vertex list, three indices
/// to a triangle.
pub open spec fn spec_triangles(vertices: Seq<Vec3>, indices: Seq<usize>) -> Seq<Triangle> {
    Seq::new(
        (indices.len() / 3) as nat,
        |i: int|
            Triangle {
                a: vertices[indices[3 * i] as int],
                b: vertices[indices[3 * i + 1] as int],
                c: vertices[indices[3 * i + 2] as int],
            },
    )
}

/// Whether an index list describes whole triangles over `vertex_count`
/// vertices.
pub open spec fn spec_indices_valid(vertex_count: nat, indices: Seq<usize>) -> bool {
    &&& indices.len() % 3 == 0
    &&& forall|i: int| 0 <= i < indices.len() ==> indices[i] < vertex_count
}

/// Why an index list was refused.
#[derive(Clone, Copy, Debug, PartialEq, Eq, Structural)]
pub enum MeshError {
    /// The number of indices is not a multiple of three.
    IncompleteTriangle,
    /// The index at `position` names no vertex.
    IndexOutOfRange { position: usize },
}

/// A triangle soup: vertices, and indices that group them into triangles.
pub struct Mesh {
    vertices: Vec<Vec3>,
    indices: Vec<usize>,
    normals: Vec<Vec3>,
}

impl Mesh {
    #[verifier::type_invariant]
    spec fn well_formed(self) -> bool {
        spec_indices_valid(self.vertices@.len(), self.indices@)
    }

    /// The vertex list.
    pub closed spec fn spec_vertices(self) -> Seq<Vec3> {
        self.vertices@
    }

    /// The index list.
    pub closed spec fn spec_indices(self) -> Seq<usize> {
        self.indices@
    }

    /// The stored vertex normals. The intersection test does not read them.
    pub closed spec fn spec_normals(self) -> Seq<Vec3> {
        self.normals@
    }

    /// The triangles of the mesh, in index order.
    pub open spec fn spec_triangle_list(self) -> Seq<Triangle> {
        spec_triangles(self.spec_vertices(), self.spec_indices())
    }

    /// Builds a mesh. The index list is checked from the front: the first
    /// index that names no vertex is reported; if all do, the length must be
    /// a multiple of three.
    pub fn new(vertices: Vec<Vec3>, indices: Vec<usize>, normals: Vec<Vec3>) -> (r: Result<
        Mesh,
        MeshError,
    >)
        ensures
            r is Ok <==> spec_indices_valid(vertices@.len(), indices@),
            r matches Ok(m) ==> m.spec_vertices() == vertices@ && m.spec_indices() == indices@
                && m.spec_normals() == normals@,
            r matches Err(MeshError::IndexOutOfRange { position }) ==> position < indices@.len()
                && indices@[position as int] >= vertices@.len() && forall|i: int|
                0 <= i < position ==> indices@[i] < vertices@.len(),
            r matches Err(MeshError::IncompleteTriangle) ==> indices@.len() % 3 != 0 && forall|
                i: int,
            | 0 <= i < indices@.len() ==> indices@[i] < vertices@.len(),
    {
        let mut i: usize = 0;
        while i < indices.len()
            invariant
                i <= indices.len(),
                forall|j: int| 0 <= j < i ==> indices@[j] < vertices@.len(),
            decreases indices.len() - i,
        {
            if indices[i] >= vertices.len() {
                return Err(MeshError::IndexOutOfRange { position: i });
            }
            i += 1;
        }
        if indices.len() % 3 != 0 {
            return Err(MeshError::IncompleteTriangle);
        }
        Ok(Mesh { vertices, indices, normals })
    }

    /// The vertex list.
    pub fn vertices(&self) -> (v: &Vec<Vec3>)
        ensures
            v@ == self.spec_vertices(),
    {
        &self.vertices
    }

    /// The index list.
    pub fn indices(&self) -> (v: &Vec<usize>)
        ensures
            v@ == self.spec_indices(),
            spec_indices_valid(self.spec_vertices().len(), v@),
    {
        proof {
            use_type_invariant(self);
        }
        &self.indices
    }

    /// The stored vertex normals.
    pub fn normals(&self) -> (v: &Vec<Vec3>)
        ensures
            v@ == self.spec_normals(),
    {
        &self.normals
    }

    /// The number of triangles.
    pub fn triangle_count(&self) -> (n: usize)
        ensures
            n == self.spec_triangle_list().len(),
    {
        self.indices.len() / 3
    }

    /// The triangle at position `i`.
    pub fn triangle(&self, i: usize) -> (t: Triangle)
        requires
            i < self.spec_triangle_list().len(),
        ensures
            t == self.spec_triangle_list()[i as int],
    {
        let count: usize = self.indices.len();
        proof {
            use_type_invariant(self);
            assert(3 * i + 2 < count);
        }
        let first: usize = 3 * i;
        Triangle {
            a: self.vertices[self.indices[first]],
            b: self.vertices[self.indices[first + 1]],
            c: self.vertices[self.indices[first + 2]],
        }
    }

    /// The nearest hit among the triangles of the mesh.
    pub open spec fn spec_intersection(
        self,
        ray: Ray,
        t_min: Scalar,
        t_max: Scalar,
        object_id: usize,
    ) -> Option<HitRecord> {
        spec_nearest_hit(self.spec_triangle_list(), ray, t_min, t_max, object_id)
    }
}

impl MeshTrait for Mesh {
    open spec fn spec_hit(&self, ray: Ray, t_min: Scalar, t_max: Scalar, object_id: usize) -> Option<
        HitRecord,
    > {
        self.spec_intersection(ray, t_min, t_max, object_id)
    }

    /// Scans the triangles in order; each is tested only below the nearest
    /// hit so far.
    fn hit(&self, ray: &Ray, t_min: Scalar, t_max: Scalar, object_id: usize) -> (r: Option<
        HitRecord,
    >) {
        let count = self.triangle_count();
        let ghost triangles = self.spec_triangle_list();
        let ghost hits = spec_triangle_hits(triangles, *ray, t_min, t_max, object_id);
        let mut hit_record: Option<HitRecord> = None;
        let mut closest_so_far = t_max;
        let mut i: usize = 0;
        assert(hits.take(0) =~= Seq::<Option<HitRecord>>::empty());
        while i < count
            invariant
                i <= count,
                count == triangles.len(),
                triangles == self.spec_triangle_list(),
                hits == spec_triangle_hits(triangles, *ray, t_min, t_max, object_id),
                hit_record == spec_least_hit(hits.take(i as int)),
                closest_so_far == match hit_record {
                    Some(h) => h.t,
                    None => t_max,
                },
                hit_record matches Some(h) ==> h.object_id == object_id && t_min.raw < h.t.raw
                    < t_max.raw,
            decreases count - i,
        {
            let triangle = self.triangle(i);
            proof {
                assert(hits.take(i + 1).drop_last() =~= hits.take(i as int));
                assert(hits.take(i + 1).last() == hits[i as int]);
                lemma_triangle_narrowed(triangle, *ray, t_min, t_max, closest_so_far, object_id);
            }
            if let Some(hit) = triangle.hit(ray, t_min, closest_so_far, object_id) {
                closest_so_far = hit.t;
                hit_record = Some(hit);
            }
            i += 1;
        }
        assert(hits.take(count as int) =~= hits);
        hit_record
    }
}

/// The shape of an object: one of the kinds of primitive.
pub enum Primitive {
    Sphere(Sphere),
    Plane(Plane),
    Mesh(Mesh),
}

impl Primitive {
    /// Where the ray meets the shape: what the test of its kind gives.
    pub open spec fn spec_intersection(
        self,
        ray: Ray,
        t_min: Scalar,
        t_max: Scalar,
        object_id: usize,
    ) -> Option<HitRecord> {
        match self {
            Primitive::Sphere(s) => s.spec_intersection(ray, t_min, t_max, object_id),
            Primitive::Plane(p) => p.spec_intersection(ray, t_min, t_max, object_id),
            Primitive::Mesh(m) => m.spec_intersection(ray, t_min, t_max, object_id),
        }
    }
}

impl MeshTrait for Primitive {
    open spec fn spec_hit(&self, ray: Ray, t_min: Scalar, t_max: Scalar, object_id: usize) -> Option<
        HitRecord,
    > {
        self.spec_intersection(ray, t_min, t_max, object_id)
    }

    fn hit(&self, ray: &Ray, t_min: Scalar, t_max: Scalar, object_id: usize) -> (r: Option<
        HitRecord,
    >) {
        match self {
            Primitive::Sphere(s) => s.hit(ray, t_min, t_max, object_id),
            Primitive::Plane(p) => p.hit(ray, t_min, t_max, object_id),
            Primitive::Mesh(m) => m.hit(ray, t_min, t_max, object_id),
        }
    }
}

/// A plane is one-sided: a ray whose direction has a dot product with the
/// normal below the threshold, because it runs against the normal or nearly
/// along the plane, never hits.
pub proof fn lemma_plane_is_one_sided(
    plane: Plane,
    ray: Ray,
    t_min: Scalar,
    t_max: Scalar,
    object_id: usize,
)
    requires
        ray.direction.spec_dot(plane.normal).raw < EPSILON,
    ensures
        plane.spec_intersection(ray, t_min, t_max, object_id) is None,
{
}

/// A hit on a sphere is consistent: the discriminant is positive, the
/// parameter is the smaller root, the point is the point of the ray at that
/// parameter, and the normal is the vector from the center to the point,
/// divided by the radius.
pub proof fn lemma_sphere_hit_is_consistent(
    sphere: Sphere,
    ray: Ray,
    t_min: Scalar,
    t_max: Scalar,
    object_id: usize,
)
    ensures
        sphere.spec_intersection(ray, t_min, t_max, object_id) matches Some(h) ==> {
            &&& sphere.spec_discriminant(ray).raw > 0
            &&& h.t == sphere.spec_near_root(ray)
            &&& h.point == ray.spec_at(h.t)
            &&& h.normal == h.point.spec_sub(sphere.center).spec_shrink(sphere.radius)
        },
{
}

/// A hit on a triangle lies inside it: the barycentric coordinates of the
/// crossing point satisfy `0 <= u <= 1`, `0 <= v` and `u + v <= 1`.
pub proof fn lemma_triangle_hit_is_inside(
    triangle: Triangle,
    ray: Ray,
    t_min: Scalar,
    t_max: Scalar,
    object_id: usize,
)
    ensures
        triangle.spec_intersection(ray, t_min, t_max, object_id) is Some ==> {
            &&& 0 <= triangle.spec_u(ray).raw <= 1_000_000_000
            &&& 0 <= triangle.spec_v(ray).raw
            &&& triangle.spec_u(ray).spec_add(triangle.spec_v(ray)).raw <= 1_000_000_000
        },
{
}

/// The normal of a hit on a triangle has unit length, but on a triangle so
/// small or so thin that the cross product of its edges rounds to the zero
/// vector, where it is the zero vector.
pub proof fn lemma_triangle_hit_normal_is_unit(
    triangle: Triangle,
    ray: Ray,
    t_min: Scalar,
    t_max: Scalar,
    object_id: usize,
)
    ensures
        triangle.spec_intersection(ray, t_min, t_max, object_id) matches Some(h) ==> h.normal
            == triangle.spec_normal() && (h.normal.spec_is_unit() || h.normal
            == Vec3::spec_zero()),
{
    lemma_normalized_or_zero(triangle.b.spec_sub(triangle.a).spec_cross(
        triangle.c.spec_sub(triangle.a),
    ));
}

/// The normal of a hit on a mesh is the flat normal of one of its
/// triangles, of unit length or, on a triangle whose cross product rounds to
/// the zero vector, the zero vector.
pub proof fn lemma_mesh_hit_normal_is_unit(
    triangles: Seq<Triangle>,
    ray: Ray,
    t_min: Scalar,
    t_max: Scalar,
    object_id: usize,
)
    ensures
        spec_nearest_hit(triangles, ray, t_min, t_max, object_id) matches Some(h)
            ==> h.normal.spec_is_unit() || h.normal == Vec3::spec_zero(),
{
    lemma_nearest_hit_is_nearest(triangles, ray, t_min, t_max, object_id);
    if let Some(h) = spec_nearest_hit(triangles, ray, t_min, t_max, object_id) {
        let hits = spec_triangle_hits(triangles, ray, t_min, t_max, object_id);
        let i = choose|i: int| 0 <= i < triangles.len() && #[trigger] hits[i] == Some(h);
        lemma_triangle_hit_normal_is_unit(triangles[i], ray, t_min, t_max, object_id);
    }
}

/// Narrowing the range of a triangle test from `t_max` to `limit` keeps the
/// hit if it lies below `limit`, and finds nothing otherwise.
pub proof fn lemma_triangle_narrowed(
    triangle: Triangle,
    ray: Ray,
    t_min: Scalar,
    t_max: Scalar,
    limit: Scalar,
    object_id: usize,
)
    requires
        limit.raw <= t_max.raw,
    ensures
        triangle.spec_intersection(ray, t_min, limit, object_id) == spec_below(
            triangle.spec_intersection(ray, t_min, t_max, object_id),
            limit,
        ),
        triangle.spec_intersection(ray, t_min, t_max, object_id) matches Some(h) ==> h.object_id
            == object_id && t_min.raw < h.t.raw < t_max.raw,
{
}

/// The hit of a mesh is the nearest: it is the hit of one of its triangles,
/// and no triangle is hit at a smaller parameter.
pub proof fn lemma_nearest_hit_is_nearest(
    triangles: Seq<Triangle>,
    ray: Ray,
    t_min: Scalar,
    t_max: Scalar,
    object_id: usize,
)
    ensures
        spec_nearest_hit(triangles, ray, t_min, t_max, object_id) matches Some(h) ==> exists|
            i: int,
        |
            0 <= i < triangles.len() && #[trigger] spec_triangle_hits(
                triangles,
                ray,
                t_min,
                t_max,
                object_id,
            )[i] == Some(h),
        forall|i: int|
            0 <= i < triangles.len() ==> (#[trigger] spec_triangle_hits(
                triangles,
                ray,
                t_min,
                t_max,
                object_id,
            )[i] matches Some(other) ==> spec_nearest_hit(triangles, ray, t_min, t_max, object_id)
                matches Some(h) && h.t.raw <= other.t.raw),
{
    lemma_least_hit_is_least(spec_triangle_hits(triangles, ray, t_min, t_max, object_id));
}

/// The hit of a primitive lies in the range and carries the identity it was
/// asked for. Narrowing the range from `t_max` to `limit` keeps the hit if it
/// lies below `limit`, and finds nothing otherwise.
pub proof fn lemma_intersection_narrowed(
    shape: Primitive,
    ray: Ray,
    t_min: Scalar,
    t_max: Scalar,
    limit: Scalar,
    object_id: usize,
)
    requires
        limit.raw <= t_max.raw,
    ensures
        shape.spec_intersection(ray, t_min, limit, object_id) == spec_below(
            shape.spec_intersection(ray, t_min, t_max, object_id),
            limit,
        ),
        shape.spec_intersection(ray, t_min, t_max, object_id) matches Some(h) ==> h.object_id
            == object_id && t_min.raw < h.t.raw < t_max.raw,
{
    if let Primitive::Mesh(m) = shape {
        let triangles = m.spec_triangle_list();
        let hits = spec_triangle_hits(triangles, ray, t_min, t_max, object_id);
        let cut = spec_triangle_hits(triangles, ray, t_min, limit, object_id);
        assert forall|i: int| 0 <= i < hits.len() implies cut[i] == spec_below(
            #[trigger] hits[i],
            limit,
        ) by {
            lemma_triangle_narrowed(triangles[i], ray, t_min, t_max, limit, object_id);
        }
        lemma_least_hit_below(hits, cut, limit);
        lemma_least_hit_is_least(hits);
        if let Some(h) = spec_least_hit(hits) {
            let i = choose|i: int| 0 <= i < hits.len() && #[trigger] hits[i] == Some(h);
            lemma_triangle_narrowed(triangles[i], ray, t_min, t_max, limit, object_id);
        }
    }
}

} // verus!
