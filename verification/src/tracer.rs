//! The integrator: what a ray brings back from the scene.

use crate::material::Material;
use crate::material::Surface;
use crate::mesh::lemma_intersection_narrowed;
use crate::math::Vec3;
use crate::object::spec_ids_match;
use crate::object::Object;
use crate::object::World;
use crate::random::random_bits;
use crate::ray::lemma_least_hit_is_least;
use crate::ray::spec_least_hit;
use crate::ray::HitRecord;
use crate::ray::Ray;
use crate::scalar::lemma_mul_not_negative;
use crate::scalar::lemma_mul_zero;
use crate::scalar::Scalar;
use vstd::prelude::*;

verus! {

/// The raw value of the smallest ray parameter that counts as a hit: a
/// hundredth. It keeps a scattered ray from hitting the surface it leaves.
pub const T_MIN: i64 = 10_000_000;

/// What each of `objects` gives when tested alone.
pub open spec fn spec_object_hits(objects: Seq<Object>, ray: Ray, t_min: Scalar, t_max: Scalar) -> Seq<
    Option<HitRecord>,
> {
    Seq::new(objects.len(), |i: int| objects[i].spec_hit(ray, t_min, t_max))
}

/// The closest hit of `ray` among `objects`: of all their hits the one with
/// the least parameter, and of several with the least parameter the one of
/// the earliest object.
pub open spec fn spec_closest_hit(objects: Seq<Object>, ray: Ray, t_min: Scalar, t_max: Scalar) -> Option<
    HitRecord,
> {
    spec_least_hit(spec_object_hits(objects, ray, t_min, t_max))
}

/// The closest hit is the hit of one of the objects, carries the identity of
/// that object and lies in the range, and no object is hit at a smaller
/// parameter.
pub proof fn lemma_closest_hit_is_closest(
    objects: Seq<Object>,
    ray: Ray,
    t_min: Scalar,
    t_max: Scalar,
)
    ensures
        spec_closest_hit(objects, ray, t_min, t_max) matches Some(h) ==> t_min.raw < h.t.raw
            < t_max.raw && exists|i: int|
            0 <= i < objects.len() && (#[trigger] objects[i]).id == h.object_id
                && objects[i].spec_hit(ray, t_min, t_max) == Some(h),
        forall|i: int|
            0 <= i < objects.len() ==> ((#[trigger] objects[i]).spec_hit(ray, t_min, t_max)
                matches Some(other) ==> spec_closest_hit(objects, ray, t_min, t_max) matches Some(
                h,
            ) && h.t.raw <= other.t.raw),
{
    let hits = spec_object_hits(objects, ray, t_min, t_max);
    lemma_least_hit_is_least(hits);
    if let Some(h) = spec_least_hit(hits) {
        let i = choose|i: int| 0 <= i < hits.len() && #[trigger] hits[i] == Some(h);
        lemma_intersection_narrowed(objects[i].mesh, ray, t_min, t_max, t_max, objects[i].id);
    }
    assert forall|i: int| 0 <= i < objects.len() implies ((#[trigger] objects[i]).spec_hit(
        ray,
        t_min,
        t_max,
    ) matches Some(other) ==> spec_closest_hit(objects, ray, t_min, t_max) matches Some(h)
        && h.t.raw <= other.t.raw) by {
        assert(hits[i] == objects[i].spec_hit(ray, t_min, t_max));
    }
}

/// Scans `objects` for the closest hit of `ray` between `t_min` and `t_max`;
/// each object is tested only below the closest hit so far.
pub fn closest_hit(objects: &Vec<Object>, ray: &Ray, t_min: Scalar, t_max: Scalar) -> (r: Option<
    HitRecord,
>)
    ensures
        r == spec_closest_hit(objects@, *ray, t_min, t_max),
        r matches Some(h) ==> t_min.raw < h.t.raw < t_max.raw && exists|i: int|
            0 <= i < objects@.len() && (#[trigger] objects@[i]).id == h.object_id,
{
    let ghost hits = spec_object_hits(objects@, *ray, t_min, t_max);
    let mut hit_record: Option<HitRecord> = None;
    let mut closest_so_far = t_max;
    let mut i: usize = 0;
    assert(hits.take(0) =~= Seq::<Option<HitRecord>>::empty());
    while i < objects.len()
        invariant
            i <= objects.len(),
            hits == spec_object_hits(objects@, *ray, t_min, t_max),
            hit_record == spec_least_hit(hits.take(i as int)),
            closest_so_far == match hit_record {
                Some(h) => h.t,
                None => t_max,
            },
            hit_record matches Some(h) ==> t_min.raw < h.t.raw < t_max.raw,
        decreases objects.len() - i,
    {
        proof {
            assert(hits.take(i + 1).drop_last() =~= hits.take(i as int));
            assert(hits.take(i + 1).last() == hits[i as int]);
            lemma_intersection_narrowed(
                objects@[i as int].mesh,
                *ray,
                t_min,
                t_max,
                closest_so_far,
                objects@[i as int].id,
            );
        }
        if let Some(temp_hit_record) = objects[i].hit(ray, t_min, closest_so_far) {
            closest_so_far = temp_hit_record.t;
            hit_record = Some(temp_hit_record);
        }
        i += 1;
    }
    proof {
        assert(hits.take(objects@.len() as int) =~= hits);
        lemma_closest_hit_is_closest(objects@, *ray, t_min, t_max);
    }
    hit_record
}

/// The draw at position `i` of a list of draws, and 0 where the list has run
/// out.
pub open spec fn spec_draw(draws: Seq<u32>, i: int) -> u32 {
    if 0 <= i < draws.len() {
        draws[i]
    } else {
        0
    }
}

/// The draws after the first `n`.
pub open spec fn spec_rest(draws: Seq<u32>, n: int) -> Seq<u32> {
    if 0 <= n <= draws.len() {
        draws.skip(n)
    } else {
        Seq::empty()
    }
}

/// What `ray` brings back from the scene `objects` with `depth` bounces
/// left.
///
/// With no bounce left it is black. A ray that hits nothing brings the sky.
/// Otherwise the material of the object that was hit decides, with the first
/// three of `draws`: either the path ends with the colour that the material
/// emits, or it goes on along the scattered ray with the later draws, and
/// what comes back is multiplied component by component by the attenuation.
pub open spec fn spec_trace(objects: Seq<Object>, ray: Ray, depth: nat, sky: Vec3, draws: Seq<u32>) -> Vec3
    decreases depth,
{
    if depth == 0 {
        Vec3::spec_zero()
    } else {
        match spec_closest_hit(objects, ray, Scalar { raw: T_MIN }, Scalar { raw: i64::MAX }) {
            None => sky,
            Some(hit) => {
                let response = objects[hit.object_id as int].material.spec_respond(
                    hit,
                    (spec_draw(draws, 0), spec_draw(draws, 1), spec_draw(draws, 2)),
                );
                match response.0 {
                    Some(scattered) => response.1.spec_mul(
                        spec_trace(objects, scattered, (depth - 1) as nat, sky, spec_rest(draws, 3)),
                    ),
                    None => response.1,
                }
            },
        }
    }
}

/// Follows `ray` with the draws of `draws` from position `start` on.
pub(crate) fn trace_from(ray: &Ray, world: &World, depth: u32, sky: &Vec3, draws: &Vec<u32>, start: usize) -> (c:
    Vec3)
    requires
        start <= draws@.len(),
    ensures
        c == spec_trace(world.spec_objects(), *ray, depth as nat, *sky, draws@.skip(start as int)),
    decreases depth,
{
    if depth == 0 {
        return Vec3::zero();
    }
    let objects = world.objects();
    let ghost rest = draws@.skip(start as int);
    match closest_hit(objects, ray, Scalar::from_raw(T_MIN), Scalar::max()) {
        None => *sky,
        Some(hit_record) => {
            let left: usize = draws.len() - start;
            let first: u32 = if left > 0 { draws[start] } else { 0 };
            let second: u32 = if left > 1 { draws[start + 1] } else { 0 };
            let third: u32 = if left > 2 { draws[start + 2] } else { 0 };
            let next_start: usize = if left > 2 { start + 3 } else { draws.len() };
            proof {
                assert(first == spec_draw(rest, 0));
                assert(second == spec_draw(rest, 1));
                assert(third == spec_draw(rest, 2));
                assert(draws@.skip(next_start as int) =~= spec_rest(rest, 3));
            }
            let (scattered, attenuation) = objects[hit_record.object_id].material.scatter(
                ray,
                &hit_record,
                (first, second, third),
            );
            match scattered {
                Some(scattered) => attenuation * trace_from(
                    &scattered,
                    world,
                    depth - 1,
                    sky,
                    draws,
                    next_start,
                ),
                None => attenuation,
            }
        },
    }
}

/// What `ray` brings back from the scene when the random choices along its
/// path are those of `draws`: three draws for each bounce, and zeros where
/// the list runs out.
///
/// With no bounce left the result is black. It is black, too, under a black
/// sky in a scene where every object is diffuse. It has no negative
/// component where no colour of the scene and of the sky has one.
pub fn trace_with(ray: &Ray, world: &World, depth: u32, sky: &Vec3, draws: &Vec<u32>) -> (c: Vec3)
    ensures
        c == spec_trace(world.spec_objects(), *ray, depth as nat, *sky, draws@),
        depth == 0 ==> c == Vec3::spec_zero(),
        spec_all_diffuse(world.spec_objects()) && *sky == Vec3::spec_zero() ==> c
            == Vec3::spec_zero(),
        spec_colors_not_negative(world.spec_objects()) && spec_not_negative(*sky)
            ==> spec_not_negative(c),
{
    proof {
        assert(draws@.skip(0) =~= draws@);
        use_type_invariant(world);
        if spec_all_diffuse(world.spec_objects()) && *sky == Vec3::spec_zero() {
            lemma_no_light_is_black(world.spec_objects(), *ray, depth as nat, *sky, draws@);
        }
        if spec_colors_not_negative(world.spec_objects()) && spec_not_negative(*sky) {
            lemma_trace_is_not_negative(world.spec_objects(), *ray, depth as nat, *sky, draws@);
        }
    }
    trace_from(ray, world, depth, sky, draws, 0)
}

/// What `ray` brings back from the scene along a random path of at most
/// `depth` bounces: the result of [`trace_with`] for some list of draws.
///
/// With no bounce left the result is black. It is black, too, under a black
/// sky in a scene where every object is diffuse. It has no negative
/// component where no colour of the scene and of the sky has one.
pub fn ray_caste(ray: &Ray, world: &World, depth: u32, sky: &Vec3) -> (c: Vec3)
    ensures
        exists|draws: Seq<u32>|
            c == spec_trace(world.spec_objects(), *ray, depth as nat, *sky, draws),
        depth == 0 ==> c == Vec3::spec_zero(),
        spec_all_diffuse(world.spec_objects()) && *sky == Vec3::spec_zero() ==> c
            == Vec3::spec_zero(),
        spec_colors_not_negative(world.spec_objects()) && spec_not_negative(*sky)
            ==> spec_not_negative(c),
{
    let color = follow(ray, world, depth, sky);
    proof {
        let scene = world.spec_objects();
        let left = depth as nat;
        let draws = choose|draws: Seq<u32>| color == spec_trace(scene, *ray, left, *sky, draws);
        use_type_invariant(world);
        if spec_all_diffuse(scene) && *sky == Vec3::spec_zero() {
            lemma_no_light_is_black(scene, *ray, left, *sky, draws);
        }
        if spec_colors_not_negative(scene) && spec_not_negative(*sky) {
            lemma_trace_is_not_negative(scene, *ray, left, *sky, draws);
        }
    }
    color
}

/// Follows `ray` along a random path. Three numbers are drawn at each hit on
/// a diffuse surface, and none at a hit on a light.
fn follow(ray: &Ray, world: &World, depth: u32, sky: &Vec3) -> (c: Vec3)
    ensures
        exists|draws: Seq<u32>|
            c == spec_trace(world.spec_objects(), *ray, depth as nat, *sky, draws),
    decreases depth,
{
    let ghost scene = world.spec_objects();
    let ghost none = Seq::<u32>::empty();
    if depth == 0 {
        assert(Vec3::spec_zero() == spec_trace(scene, *ray, depth as nat, *sky, none));
        return Vec3::zero();
    }
    let objects = world.objects();
    match closest_hit(objects, ray, Scalar::from_raw(T_MIN), Scalar::max()) {
        None => {
            assert(*sky == spec_trace(scene, *ray, depth as nat, *sky, none));
            *sky
        },
        Some(hit_record) => {
            let material = objects[hit_record.object_id].material;
            match material {
                Surface::PointLight(light) => {
                    let (_, emitted) = light.scatter(ray, &hit_record, (0, 0, 0));
                    assert(emitted == spec_trace(scene, *ray, depth as nat, *sky, none));
                    emitted
                },
                Surface::Diffuse(matte) => {
                    let first = random_bits();
                    let second = random_bits();
                    let third = random_bits();
                    let ghost drawn = seq![first, second, third];
                    let (scattered, attenuation) = matte.scatter(
                        ray,
                        &hit_record,
                        (first, second, third),
                    );
                    match scattered {
                        Some(scattered) => {
                            let incoming = follow(&scattered, world, depth - 1, sky);
                            let color = attenuation * incoming;
                            proof {
                                let left = (depth - 1) as nat;
                                let later = choose|later: Seq<u32>|
                                    incoming == spec_trace(scene, scattered, left, *sky, later);
                                let all = drawn + later;
                                assert(spec_rest(all, 3) =~= later);
                                assert(color == spec_trace(scene, *ray, depth as nat, *sky, all));
                            }
                            color
                        },
                        None => {
                            assert(attenuation == spec_trace(
                                scene,
                                *ray,
                                depth as nat,
                                *sky,
                                drawn,
                            ));
                            attenuation
                        },
                    }
                },
            }
        },
    }
}

/// Whether every object of the scene is diffuse, so that nothing emits
/// light.
pub open spec fn spec_all_diffuse(objects: Seq<Object>) -> bool {
    forall|i: int| 0 <= i < objects.len() ==> (#[trigger] objects[i]).material is Diffuse
}

/// Whether the path of `ray` leaves the scene: some ray along it hits
/// nothing while a bounce is still left.
pub open spec fn spec_escapes(objects: Seq<Object>, ray: Ray, depth: nat, draws: Seq<u32>) -> bool
    decreases depth,
{
    if depth == 0 {
        false
    } else {
        match spec_closest_hit(objects, ray, Scalar { raw: T_MIN }, Scalar { raw: i64::MAX }) {
            None => true,
            Some(hit) => {
                let response = objects[hit.object_id as int].material.spec_respond(
                    hit,
                    (spec_draw(draws, 0), spec_draw(draws, 1), spec_draw(draws, 2)),
                );
                match response.0 {
                    Some(scattered) => spec_escapes(
                        objects,
                        scattered,
                        (depth - 1) as nat,
                        spec_rest(draws, 3),
                    ),
                    None => false,
                }
            },
        }
    }
}

/// With no bounce left a ray brings back black, whatever the scene holds.
pub proof fn lemma_depth_zero_is_black(objects: Seq<Object>, ray: Ray, sky: Vec3, draws: Seq<u32>)
    ensures
        spec_trace(objects, ray, 0, sky, draws) == Vec3::spec_zero(),
{
}

/// The closest hit in a scene names one of its objects.
pub proof fn lemma_closest_hit_names_an_object(objects: Seq<Object>, ray: Ray, t_min: Scalar, t_max: Scalar)
    requires
        spec_ids_match(objects),
    ensures
        spec_closest_hit(objects, ray, t_min, t_max) matches Some(h) ==> h.object_id
            < objects.len(),
{
    lemma_closest_hit_is_closest(objects, ray, t_min, t_max);
}

/// A scene without lights creates no energy: where every object is diffuse,
/// a ray brings back black, unless its path leaves the scene under a sky
/// that is not black.
pub proof fn lemma_no_light_is_black(
    objects: Seq<Object>,
    ray: Ray,
    depth: nat,
    sky: Vec3,
    draws: Seq<u32>,
)
    requires
        spec_ids_match(objects),
        spec_all_diffuse(objects),
        sky == Vec3::spec_zero() || !spec_escapes(objects, ray, depth, draws),
    ensures
        spec_trace(objects, ray, depth, sky, draws) == Vec3::spec_zero(),
    decreases depth,
{
    if depth > 0 {
        lemma_closest_hit_names_an_object(
            objects,
            ray,
            Scalar { raw: T_MIN },
            Scalar { raw: i64::MAX },
        );
        match spec_closest_hit(objects, ray, Scalar { raw: T_MIN }, Scalar { raw: i64::MAX }) {
            None => {},
            Some(hit) => {
                let response = objects[hit.object_id as int].material.spec_respond(
                    hit,
                    (spec_draw(draws, 0), spec_draw(draws, 1), spec_draw(draws, 2)),
                );
                let scattered = response.0->0;
                lemma_no_light_is_black(
                    objects,
                    scattered,
                    (depth - 1) as nat,
                    sky,
                    spec_rest(draws, 3),
                );
                lemma_mul_zero(response.1.x);
                lemma_mul_zero(response.1.y);
                lemma_mul_zero(response.1.z);
            },
        }
    }
}

/// Whether no component is negative.
pub open spec fn spec_not_negative(v: Vec3) -> bool {
    v.x.raw >= 0 && v.y.raw >= 0 && v.z.raw >= 0
}

/// Whether the colour of every material of the scene has no negative
/// component.
pub open spec fn spec_colors_not_negative(objects: Seq<Object>) -> bool {
    forall|i: int|
        0 <= i < objects.len() ==> spec_not_negative(
            match (#[trigger] objects[i]).material {
                Surface::Diffuse(m) => m.color,
                Surface::PointLight(m) => m.color,
            },
        )
}

/// Light is never negative: where no colour of the scene and of the sky has
/// a negative component, what a ray brings back has none.
pub proof fn lemma_trace_is_not_negative(
    objects: Seq<Object>,
    ray: Ray,
    depth: nat,
    sky: Vec3,
    draws: Seq<u32>,
)
    requires
        spec_ids_match(objects),
        spec_colors_not_negative(objects),
        spec_not_negative(sky),
    ensures
        spec_not_negative(spec_trace(objects, ray, depth, sky, draws)),
    decreases depth,
{
    if depth > 0 {
        lemma_closest_hit_names_an_object(
            objects,
            ray,
            Scalar { raw: T_MIN },
            Scalar { raw: i64::MAX },
        );
        match spec_closest_hit(objects, ray, Scalar { raw: T_MIN }, Scalar { raw: i64::MAX }) {
            None => {},
            Some(hit) => {
                let response = objects[hit.object_id as int].material.spec_respond(
                    hit,
                    (spec_draw(draws, 0), spec_draw(draws, 1), spec_draw(draws, 2)),
                );
                match response.0 {
                    Some(scattered) => {
                        let incoming = spec_trace(
                            objects,
                            scattered,
                            (depth - 1) as nat,
                            sky,
                            spec_rest(draws, 3),
                        );
                        lemma_trace_is_not_negative(
                            objects,
                            scattered,
                            (depth - 1) as nat,
                            sky,
                            spec_rest(draws, 3),
                        );
                        lemma_mul_not_negative(response.1.x, incoming.x);
                        lemma_mul_not_negative(response.1.y, incoming.y);
                        lemma_mul_not_negative(response.1.z, incoming.z);
                    },
                    None => {},
                }
            },
        }
    }
}

} // verus!
