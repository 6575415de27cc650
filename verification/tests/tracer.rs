use path_tracer::material::Diffuse;
use path_tracer::math::Vec3;
use path_tracer::object::Object;
use path_tracer::object::World;
use path_tracer::ray::Ray;
use path_tracer::scalar::Scalar;
use path_tracer::tracer::closest_hit;
use path_tracer::tracer::ray_caste;
use path_tracer::tracer::trace_with;
use path_tracer::tracer::T_MIN;

fn s(thousandths: i64) -> Scalar {
    Scalar::from_ratio(thousandths, 1000)
}

fn v(x: i64, y: i64, z: i64) -> Vec3 {
    Vec3::from(s(x), s(y), s(z))
}

fn sky() -> Vec3 {
    v(500, 700, 1000)
}

fn bright() -> Vec3 {
    v(10_000, 10_000, 10_000)
}

fn lit_scene() -> World {
    let mut objects = Vec::new();
    objects.push(Object::sphere(v(0, 0, 4000), s(700), Diffuse::boxed(v(500, 500, 500)), objects.len()));
    objects.push(Object::point_light(v(-2000, 500, 4000), s(700), s(100_000), bright(), objects.len()));
    World::new(objects).ok().unwrap()
}

fn dark_scene() -> World {
    let mut objects = Vec::new();
    objects.push(Object::sphere(v(0, 0, 4000), s(700), Diffuse::boxed(v(500, 500, 500)), objects.len()));
    objects.push(Object::sphere(v(100_700, 0, 4000), s(100_000), Diffuse::boxed(v(500, 1000, 300)), objects.len()));
    objects.push(Object::plane(v(0, 0, 9000), v(0, 0, 1000), Diffuse::boxed(v(900, 900, 900)), objects.len()));
    World::new(objects).ok().unwrap()
}

fn rays() -> Vec<Ray> {
    let mut rays = Vec::new();
    for dx in -3..=3 {
        for dy in -3..=3 {
            rays.push(Ray::from(Vec3::zero(), v(dx * 200, dy * 200, 1000).normalized()));
        }
    }
    rays
}

fn centre() -> u32 {
    1 << 31
}

#[test]
fn trace_with_no_bounce_left_is_black() {
    let world = lit_scene();
    for ray in rays() {
        assert_eq!(trace_with(&ray, &world, 0, &sky(), &vec![1, 2, 3]), Vec3::zero());
        assert_eq!(ray_caste(&ray, &world, 0, &sky()), Vec3::zero());
    }
    let empty = World::new(Vec::new()).ok().unwrap();
    assert_eq!(ray_caste(&Ray::new(), &empty, 0, &sky()), Vec3::zero());
}

#[test]
fn ray_that_hits_nothing_brings_the_sky() {
    let world = lit_scene();
    let up = Ray::from(Vec3::zero(), v(0, 1000, 0));
    assert_eq!(trace_with(&up, &world, 10, &sky(), &vec![]), sky());
    assert_eq!(ray_caste(&up, &world, 10, &sky()), sky());
    assert_eq!(ray_caste(&up, &world, 1, &sky()), sky());
    let empty = World::new(Vec::new()).ok().unwrap();
    assert_eq!(ray_caste(&up, &empty, 3, &sky()), sky());
}

#[test]
fn ray_that_hits_a_light_brings_its_color() {
    let world = lit_scene();
    let toward = Ray::from(Vec3::zero(), v(-2000, 500, 4000).normalized());
    assert_eq!(trace_with(&toward, &world, 10, &sky(), &vec![]), bright());
    assert_eq!(ray_caste(&toward, &world, 1, &sky()), bright());
}

#[test]
fn bounce_attenuates_what_comes_back() {
    let world = lit_scene();
    let toward = Ray::from(Vec3::zero(), v(0, 0, 1000));
    let back = vec![centre(), centre(), centre()];
    assert_eq!(trace_with(&toward, &world, 2, &sky(), &back), v(250, 350, 500));
    assert_eq!(trace_with(&toward, &world, 1, &sky(), &back), Vec3::zero());
}

#[test]
fn bounce_toward_the_light_is_lit() {
    let world = lit_scene();
    let toward = Ray::from(Vec3::zero(), v(-150, 0, 1000).normalized());
    let mut lit = 0;
    let mut unlit = 0;
    for a in 0..8u32 {
        for b in 0..8u32 {
            for c in 0..8u32 {
                let draws = vec![a << 29, b << 29, c << 29];
                let color = trace_with(&toward, &world, 5, &sky(), &draws);
                if color == v(5000, 5000, 5000) {
                    lit += 1;
                } else {
                    assert_eq!(color, v(250, 350, 500));
                    unlit += 1;
                }
            }
        }
    }
    assert!(lit > 0 && unlit > 0, "{} lit, {} unlit", lit, unlit);
}

#[test]
fn missing_draws_count_as_zero() {
    let world = lit_scene();
    let toward = Ray::from(Vec3::zero(), v(0, 0, 1000));
    let none = trace_with(&toward, &world, 5, &sky(), &vec![]);
    let zeros = trace_with(&toward, &world, 5, &sky(), &vec![0; 15]);
    let some = trace_with(&toward, &world, 5, &sky(), &vec![0, 0]);
    assert_eq!(none, zeros);
    assert_eq!(some, zeros);
}

#[test]
fn trace_with_is_a_function_of_its_draws() {
    let world = lit_scene();
    let toward = Ray::from(Vec3::zero(), v(100, 50, 1000).normalized());
    let draws: Vec<u32> = (0..30u32).map(|i| i.wrapping_mul(2_654_435_761)).collect();
    let first = trace_with(&toward, &world, 10, &sky(), &draws);
    let second = trace_with(&toward, &world, 10, &sky(), &draws);
    assert_eq!(first, second);
}

#[test]
fn scene_without_lights_is_black_under_a_black_sky() {
    let world = dark_scene();
    let black = Vec3::zero();
    for ray in rays() {
        for depth in [1, 2, 10] {
            assert_eq!(ray_caste(&ray, &world, depth, &black), black);
            let draws: Vec<u32> = (0..30u32).map(|i| (i + depth).wrapping_mul(2_654_435_761)).collect();
            assert_eq!(trace_with(&ray, &world, depth, &black, &draws), black);
        }
    }
}

#[test]
fn scene_without_lights_shows_the_sky_it_is_given() {
    let world = dark_scene();
    let up = Ray::from(Vec3::zero(), v(0, 1000, -1000).normalized());
    assert_eq!(ray_caste(&up, &world, 10, &sky()), sky());
}

#[test]
fn light_is_never_negative() {
    let world = lit_scene();
    for ray in rays() {
        for _ in 0..20 {
            let color = ray_caste(&ray, &world, 10, &sky());
            assert!(color.x.raw >= 0 && color.y.raw >= 0 && color.z.raw >= 0, "{:?}", color);
            assert!(color.x.raw <= bright().x.raw, "{:?}", color);
        }
    }
}

#[test]
fn closest_hit_is_the_nearest_object_in_any_order() {
    let near_first = vec![
        Object::sphere(v(0, 0, 4000), s(1000), Diffuse::boxed(v(500, 500, 500)), 0),
        Object::sphere(v(0, 0, 8000), s(1000), Diffuse::boxed(v(500, 500, 500)), 1),
    ];
    let far_first = vec![
        Object::sphere(v(0, 0, 8000), s(1000), Diffuse::boxed(v(500, 500, 500)), 0),
        Object::sphere(v(0, 0, 4000), s(1000), Diffuse::boxed(v(500, 500, 500)), 1),
    ];
    let ray = Ray::from(Vec3::zero(), v(0, 0, 1000));
    let t_min = Scalar::from_raw(T_MIN);
    let hit = closest_hit(&near_first, &ray, t_min, Scalar::max()).unwrap();
    assert_eq!((hit.object_id, hit.t), (0, s(3000)));
    let hit = closest_hit(&far_first, &ray, t_min, Scalar::max()).unwrap();
    assert_eq!((hit.object_id, hit.t), (1, s(3000)));
    assert!(closest_hit(&far_first, &ray, t_min, s(3000)).is_none());
    assert!(closest_hit(&Vec::new(), &ray, t_min, Scalar::max()).is_none());
}

#[test]
fn closest_hit_prefers_the_earlier_of_equal_hits() {
    let twins = vec![
        Object::sphere(v(0, 0, 4000), s(1000), Diffuse::boxed(v(500, 500, 500)), 0),
        Object::sphere(v(0, 0, 4000), s(1000), Diffuse::boxed(v(100, 100, 100)), 1),
    ];
    let ray = Ray::from(Vec3::zero(), v(0, 0, 1000));
    let hit = closest_hit(&twins, &ray, Scalar::from_raw(T_MIN), Scalar::max()).unwrap();
    assert_eq!(hit.object_id, 0);
}

#[test]
fn hit_closer_than_a_hundredth_is_passed_over() {
    assert_eq!(T_MIN, 10_000_000);
    let objects = vec![Object::plane(v(0, 0, 5), v(0, 0, 1000), Diffuse::boxed(v(500, 500, 500)), 0)];
    let world = World::new(objects).ok().unwrap();
    let ray = Ray::from(Vec3::zero(), v(0, 0, 1000));
    assert_eq!(ray_caste(&ray, &world, 10, &sky()), sky());
}

#[test]
fn material_is_that_of_the_object_that_was_hit() {
    let mut objects = Vec::new();
    objects.push(Object::point_light(v(0, 0, 8000), s(1000), s(1000), v(1000, 0, 0), objects.len()));
    objects.push(Object::point_light(v(0, 0, 4000), s(1000), s(1000), v(0, 1000, 0), objects.len()));
    objects.push(Object::point_light(v(0, 0, 6000), s(500), s(1000), v(0, 0, 1000), objects.len()));
    let world = World::new(objects).ok().unwrap();
    let ray = Ray::from(Vec3::zero(), v(0, 0, 1000));
    assert_eq!(ray_caste(&ray, &world, 10, &sky()), v(0, 1000, 0));
}
