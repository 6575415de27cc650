//! Rays and the record of where a ray meets a surface.

use crate::math::Vec3;
use crate::scalar::Scalar;
use vstd::prelude::*;

verus! {

/// A half-line: the points `origin + direction * t`.
///
/// The intersection tests take `direction` as it is, so a direction that is
/// not of unit length changes the meaning of `t`.
#[derive(Clone, Copy, Debug, PartialEq, Eq, Structural)]
pub struct Ray {
    pub origin: Vec3,
    pub direction: Vec3,
}

impl Ray {
    /// The point at parameter `t`.
    pub open spec fn spec_at(self, t: Scalar) -> Vec3 {
        self.origin.spec_add(self.direction.spec_scale(t))
    }

    /// The direction mirrored at a surface with the given normal.
    pub open spec fn spec_reflect(self, normal: Vec3) -> Vec3 {
        self.direction.spec_sub(
            normal.spec_scale(self.direction.spec_dot(normal)).spec_scale(
                Scalar { raw: 2_000_000_000 },
            ),
        )
    }

    /// The ray that starts at the zero vector and has the zero direction.
    pub fn new() -> (r: Ray)
        ensures
            r == (Ray { origin: Vec3::spec_zero(), direction: Vec3::spec_zero() }),
    {
        Ray { origin: Vec3::zero(), direction: Vec3::zero() }
    }

    /// The ray with the given origin and direction.
    pub fn from(origin: Vec3, direction: Vec3) -> (r: Ray)
        ensures
            r == (Ray { origin, direction }),
    {
        Ray { origin, direction }
    }

    /// The point at parameter `t`.
    pub fn at(&self, t: Scalar) -> (p: Vec3)
        ensures
            p == self.spec_at(t),
    {
        self.origin + self.direction * t
    }

    /// The direction mirrored at a surface with the given normal.
    pub fn reflect(&self, normal: Vec3) -> (d: Vec3)
        ensures
            d == self.spec_reflect(normal),
    {
        self.direction - normal * self.direction.dot(&normal) * Scalar::from_raw(2_000_000_000)
    }
}

/// Where a ray met a surface.
#[derive(Clone, Copy, Debug, PartialEq, Eq, Structural)]
pub struct HitRecord {
    /// The point that was hit.
    pub point: Vec3,
    /// The surface normal at that point.
    pub normal: Vec3,
    /// The ray parameter of the point.
    pub t: Scalar,
    /// The object that was hit: its index in the scene.
    pub object_id: usize,
}

impl HitRecord {
    /// The record of all zeros.
    pub fn new() -> (h: HitRecord)
        ensures
            h == (HitRecord {
                point: Vec3::spec_zero(),
                normal: Vec3::spec_zero(),
                t: Scalar { raw: 0 },
                object_id: 0,
            }),
    {
        HitRecord { point: Vec3::zero(), normal: Vec3::zero(), t: Scalar::zero(), object_id: 0 }
    }

    /// The record with the given fields.
    pub fn from(point: Vec3, normal: Vec3, t: Scalar, object_id: usize) -> (h: HitRecord)
        ensures
            h == (HitRecord { point, normal, t, object_id }),
    {
        HitRecord { point, normal, t, object_id }
    }
}

/// `hit` if its parameter lies below `limit`, and no hit otherwise.
pub open spec fn spec_below(hit: Option<HitRecord>, limit: Scalar) -> Option<HitRecord> {
    match hit {
        Some(h) => if h.t.raw < limit.raw {
            Some(h)
        } else {
            None
        },
        None => None,
    }
}

/// The nearer of a hit so far and the next candidate: the candidate wins
/// only with a strictly smaller parameter.
pub open spec fn spec_nearer(before: Option<HitRecord>, next: Option<HitRecord>) -> Option<
    HitRecord,
> {
    match before {
        Some(b) => match next {
            Some(h) => if h.t.raw < b.t.raw {
                Some(h)
            } else {
                Some(b)
            },
            None => Some(b),
        },
        None => next,
    }
}

/// The hit with the least parameter among `hits`, and of several with the
/// least parameter the first.
pub open spec fn spec_least_hit(hits: Seq<Option<HitRecord>>) -> Option<HitRecord>
    decreases hits.len(),
{
    if hits.len() == 0 {
        None
    } else {
        spec_nearer(spec_least_hit(hits.drop_last()), hits.last())
    }
}

/// The least hit is one of the hits, and none of them has a smaller
/// parameter.
pub proof fn lemma_least_hit_is_least(hits: Seq<Option<HitRecord>>)
    ensures
        spec_least_hit(hits) matches Some(h) ==> exists|i: int|
            0 <= i < hits.len() && #[trigger] hits[i] == Some(h),
        forall|i: int|
            0 <= i < hits.len() ==> (#[trigger] hits[i] matches Some(other) ==> spec_least_hit(
                hits,
            ) matches Some(h) && h.t.raw <= other.t.raw),
    decreases hits.len(),
{
    if hits.len() > 0 {
        let rest = hits.drop_last();
        lemma_least_hit_is_least(rest);
        if let Some(h) = spec_least_hit(hits) {
            if hits.last() == Some(h) {
                assert(hits[hits.len() - 1] == Some(h));
            } else {
                let i = choose|i: int| 0 <= i < rest.len() && #[trigger] rest[i] == Some(h);
                assert(hits[i] == rest[i]);
            }
        }
        assert forall|i: int| 0 <= i < hits.len() implies (#[trigger] hits[i] matches Some(
            other,
        ) ==> spec_least_hit(hits) matches Some(h) && h.t.raw <= other.t.raw) by {
            if i < rest.len() {
                assert(hits[i] == rest[i]);
            }
        }
    }
}

/// Where every hit is cut off at `limit`, the least hit is cut off at
/// `limit`.
pub proof fn lemma_least_hit_below(
    hits: Seq<Option<HitRecord>>,
    cut: Seq<Option<HitRecord>>,
    limit: Scalar,
)
    requires
        cut.len() == hits.len(),
        forall|i: int| 0 <= i < hits.len() ==> cut[i] == spec_below(#[trigger] hits[i], limit),
    ensures
        spec_least_hit(cut) == spec_below(spec_least_hit(hits), limit),
    decreases hits.len(),
{
    if hits.len() > 0 {
        lemma_least_hit_below(hits.drop_last(), cut.drop_last(), limit);
        assert(cut.last() == spec_below(hits[hits.len() - 1], limit));
    }
}

} // verus!
