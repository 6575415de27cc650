use path_tracer::material::Diffuse;
use path_tracer::material::PointLightMaterial;
use path_tracer::material::Surface;
use path_tracer::math::Vec3;
use path_tracer::object::Object;
use path_tracer::object::World;
use path_tracer::ray::Ray;
use path_tracer::render::cpu_compute;
use path_tracer::render::mean;
use path_tracer::render::pixel_color;
use path_tracer::render::sample;
use path_tracer::render::sample_with;
use path_tracer::render::Camera;
use path_tracer::render::ConfigError;
use path_tracer::render::RenderSettings;
use path_tracer::scalar::Scalar;
use path_tracer::tracer::closest_hit;
use path_tracer::tracer::trace_with;
use path_tracer::tracer::T_MIN;

fn s(thousandths: i64) -> Scalar {
    Scalar::from_ratio(thousandths, 1000)
}

fn v(x: i64, y: i64, z: i64) -> Vec3 {
    Vec3::from(s(x), s(y), s(z))
}

fn sky() -> Vec3 {
    v(500, 700, 1000)
}

fn bright() -> Vec3 {
    v(10_000, 10_000, 10_000)
}

fn camera(width: u32, height: u32) -> Camera {
    Camera { position: Vec3::zero(), viewport_distance: Scalar::one(), width, height }
}

fn settings(width: u32, height: u32, samples: u32) -> RenderSettings {
    RenderSettings::new(camera(width, height), 10, samples, sky()).ok().unwrap()
}

fn lit_scene() -> World {
    let mut objects = Vec::new();
    objects.push(Object::sphere(v(0, 0, 4000), s(700), Diffuse::boxed(v(500, 500, 500)), objects.len()));
    objects.push(Object::point_light(v(-2000, 500, 4000), s(700), s(100_000), bright(), objects.len()));
    World::new(objects).ok().unwrap()
}

fn centre() -> u32 {
    1 << 31
}

fn not_negative(color: &Vec3) -> bool {
    color.x.raw >= 0 && color.y.raw >= 0 && color.z.raw >= 0
}

fn finite(color: &Vec3) -> bool {
    color.x.raw < i64::MAX && color.y.raw < i64::MAX && color.z.raw < i64::MAX
}

#[test]
fn settings_keep_what_they_were_given() {
    let checked = RenderSettings::new(camera(4, 3), 10, 50, sky()).ok().unwrap();
    assert_eq!(checked.camera(), camera(4, 3));
    assert_eq!(checked.max_depth(), 10);
    assert_eq!(checked.samples(), 50);
    assert_eq!(checked.sky_color(), sky());
}

#[test]
fn settings_refuse_an_image_without_pixels() {
    assert_eq!(RenderSettings::new(camera(0, 4), 10, 50, sky()).err(), Some(ConfigError::ZeroWidth));
    assert_eq!(RenderSettings::new(camera(4, 0), 10, 50, sky()).err(), Some(ConfigError::ZeroHeight));
    assert_eq!(RenderSettings::new(camera(0, 0), 0, 0, sky()).err(), Some(ConfigError::ZeroWidth));
}

#[test]
fn settings_refuse_an_image_plane_behind_the_camera() {
    let mut behind = camera(4, 4);
    behind.viewport_distance = Scalar::zero();
    assert_eq!(RenderSettings::new(behind, 10, 50, sky()).err(), Some(ConfigError::ViewportNotInFront));
    behind.viewport_distance = Scalar::from_int(-1);
    assert_eq!(RenderSettings::new(behind, 0, 50, sky()).err(), Some(ConfigError::ViewportNotInFront));
}

#[test]
fn settings_refuse_no_depth_and_no_samples() {
    assert_eq!(RenderSettings::new(camera(4, 4), 0, 50, sky()).err(), Some(ConfigError::ZeroDepth));
    assert_eq!(RenderSettings::new(camera(4, 4), 10, 0, sky()).err(), Some(ConfigError::ZeroSamples));
    assert_eq!(RenderSettings::new(camera(4, 4), 0, 0, v(2000, 0, 0)).err(), Some(ConfigError::ZeroDepth));
}

#[test]
fn settings_refuse_a_sky_that_is_no_color() {
    for bad in [v(1001, 0, 0), v(0, -1, 0), v(0, 0, 2000)] {
        assert_eq!(RenderSettings::new(camera(4, 4), 10, 50, bad).err(), Some(ConfigError::SkyOutOfRange));
    }
    assert!(RenderSettings::new(camera(4, 4), 10, 50, v(1000, 0, 1000)).is_ok());
}

#[test]
fn camera_ray_through_the_middle_runs_straight_ahead() {
    let ray = camera(4, 4).ray(3, 3, centre(), centre());
    assert_eq!(ray, Ray::from(Vec3::zero(), v(0, 0, 1000)));
}

#[test]
fn camera_ray_is_placed_by_pixel_and_jitter() {
    let cam = camera(4, 2);
    let ray = cam.ray(0, 1, 0, centre());
    let expected = Vec3::from(s(-625), s(-500), s(1000)).normalized();
    assert_eq!(ray.direction, expected);
    assert_eq!(ray.origin, Vec3::zero());
    let moved = Camera { position: v(1000, 2000, 3000), ..cam };
    assert_eq!(moved.ray(0, 1, 0, centre()), Ray::from(v(1000, 2000, 3000), expected));
}

#[test]
fn camera_ray_direction_has_unit_length() {
    let cam = camera(4, 4);
    for x in 0..4 {
        for y in 0..4 {
            let direction = cam.ray(x, y, x.wrapping_mul(0x9e37_79b9), y.wrapping_mul(0x7f4a_7c15)).direction;
            assert!((direction.dot(&direction).raw - 1_000_000_000).abs() < 10);
        }
    }
}

#[test]
fn mean_divides_the_sum_by_the_count() {
    assert_eq!(mean(&vec![v(1000, 2000, 3000), v(3000, 4000, 5000)]), v(2000, 3000, 4000));
    assert_eq!(mean(&vec![v(1000, 2000, 3000)]), v(1000, 2000, 3000));
    assert_eq!(mean(&vec![v(1000, 0, 0), v(0, 0, 0), v(0, 0, 0)]), Vec3::from(Scalar::from_raw(333_333_333), Scalar::zero(), Scalar::zero()));
}

#[test]
fn mean_of_nothing_is_zero() {
    assert_eq!(mean(&Vec::new()), Vec3::zero());
}

#[test]
fn sample_with_traces_the_camera_ray() {
    let world = lit_scene();
    let checked = settings(4, 4, 1);
    let draws: Vec<u32> = (1..40u32).map(|i| i.wrapping_mul(2_654_435_761)).collect();
    for x in 0..4 {
        for y in 0..4 {
            let ray = checked.camera().ray(x, y, draws[0], draws[1]);
            let rest = draws[2..].to_vec();
            assert_eq!(
                sample_with(&world, &checked, x, y, &draws),
                trace_with(&ray, &world, 10, &sky(), &rest)
            );
        }
    }
}

#[test]
fn sample_with_too_few_draws_reads_zeros() {
    let world = lit_scene();
    let checked = settings(4, 4, 1);
    let ray = checked.camera().ray(3, 3, 7, 0);
    assert_eq!(sample_with(&world, &checked, 3, 3, &vec![7]), trace_with(&ray, &world, 10, &sky(), &vec![]));
}

#[test]
fn end_to_end_scene_with_chosen_draws() {
    let world = lit_scene();
    let checked = settings(4, 4, 1);
    let t_min = Scalar::from_raw(T_MIN);
    let mut on_sphere = 0;
    let mut on_light = 0;
    let mut on_sky = 0;
    for x in 0..4u32 {
        for y in 0..4u32 {
            for jitter in [0u32, centre(), u32::MAX] {
                let mut draws = vec![jitter, jitter];
                draws.extend((0..30u32).map(|i| (i + x * 31 + y * 7).wrapping_mul(2_654_435_761)));
                let color = sample_with(&world, &checked, x, y, &draws);
                assert_eq!(color, sample_with(&world, &checked, x, y, &draws));
                assert!(not_negative(&color) && finite(&color), "{:?}", color);
                let ray = checked.camera().ray(x, y, jitter, jitter);
                match closest_hit(world.objects(), &ray, t_min, Scalar::max()) {
                    None => {
                        on_sky += 1;
                        assert_eq!(color, sky());
                    }
                    Some(hit) if hit.object_id == 1 => {
                        on_light += 1;
                        assert_eq!(color, bright());
                    }
                    Some(hit) => {
                        on_sphere += 1;
                        assert_eq!(hit.object_id, 0);
                        assert_ne!(color, Vec3::zero());
                    }
                }
            }
        }
    }
    assert!(on_sphere > 0 && on_light > 0 && on_sky > 0, "{} {} {}", on_sphere, on_light, on_sky);
}

#[test]
fn end_to_end_scene_with_random_draws() {
    let world = lit_scene();
    let checked = settings(4, 4, 1);
    let image = cpu_compute(&world, &checked);
    assert_eq!(image.len(), 16);
    for color in &image {
        assert!(not_negative(color) && finite(color), "{:?}", color);
    }
    assert!(image.iter().any(|color| *color == sky()));
}

#[test]
fn random_sample_is_sky_light_or_lit_sphere() {
    let world = lit_scene();
    let checked = settings(4, 4, 1);
    for x in 0..4 {
        for y in 0..4 {
            for _ in 0..10 {
                let color = sample(&world, &checked, x, y);
                assert!(not_negative(&color) && finite(&color));
                assert_ne!(color, Vec3::zero());
            }
        }
    }
}

#[test]
fn pixel_is_the_mean_of_its_samples() {
    let checked = settings(4, 4, 8);
    let empty = World::new(Vec::new()).ok().unwrap();
    assert_eq!(pixel_color(&empty, &checked, 1, 2), sky());
    let shell = vec![Object::plane(v(0, 0, 5000), v(0, 0, 1000), Surface::PointLight(PointLightMaterial { color: v(3000, 2000, 1000) }), 0)];
    let lit = World::new(shell).ok().unwrap();
    assert_eq!(pixel_color(&lit, &checked, 1, 2), v(3000, 2000, 1000));
}

#[test]
fn image_is_walked_column_by_column() {
    let light = v(3000, 2000, 1000);
    let wall = Object::plane(
        v(-10_000, 0, 0),
        v(-1000, 0, -400),
        Surface::PointLight(PointLightMaterial { color: light }),
        0,
    );
    let world = World::new(vec![wall]).ok().unwrap();
    let checked = settings(4, 2, 3);
    let image = cpu_compute(&world, &checked);
    assert_eq!(image.len(), 8);
    assert_eq!(image[0], light);
    assert_eq!(image[1], light);
    for index in 4..8 {
        assert_eq!(image[index], sky());
    }
}
