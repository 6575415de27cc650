use path_tracer::material::channel;
use path_tracer::material::channel_scaled;
use path_tracer::material::Color;
use path_tracer::material::Diffuse;
use path_tracer::material::Material;
use path_tracer::material::PointLightMaterial;
use path_tracer::material::Surface;
use path_tracer::math::Vec3;
use path_tracer::ray::HitRecord;
use path_tracer::ray::Ray;
use path_tracer::scalar::Scalar;

fn s(thousandths: i64) -> Scalar {
    Scalar::from_ratio(thousandths, 1000)
}

fn v(x: i64, y: i64, z: i64) -> Vec3 {
    Vec3::from(s(x), s(y), s(z))
}

#[test]
fn color_from_channels() {
    let c = Color::from_u8(1, 2, 3);
    assert_eq!(c.r, 1);
    assert_eq!(c.g, 2);
    assert_eq!(c.b, 3);
}

#[test]
fn color_as_intensities() {
    let c = Color::from_u8(255, 0, 51);
    assert_eq!(c.to_vec3(), v(1000, 0, 200));
    assert_eq!(Color::from_u8(1, 128, 254).to_vec3().x, Scalar::from_raw(3_921_568));
}

#[test]
fn intensities_are_quantized_toward_zero() {
    assert_eq!(Color::from(v(1000, 0, 500)), Color::from_u8(255, 0, 127));
    assert_eq!(Color::from(v(200, 400, 600)), Color::from_u8(51, 102, 153));
    assert_eq!(channel(Scalar::from_raw(999_999_999)), 254);
    assert_eq!(channel(Scalar::from_raw(3_921_568)), 0);
    assert_eq!(channel(Scalar::from_raw(3_921_569)), 1);
}

#[test]
fn intensities_are_clamped() {
    assert_eq!(Color::from(v(2000, -1000, 10_000)), Color::from_u8(255, 0, 255));
    assert_eq!(channel(Scalar::max()), 255);
    assert_eq!(channel(Scalar::from_raw(i64::MIN)), 0);
    assert_eq!(channel(Scalar::from_raw(-1)), 0);
}

#[test]
fn color_round_trip_keeps_extreme_channels() {
    for c in [Color::from_u8(0, 0, 0), Color::from_u8(255, 255, 255), Color::from_u8(255, 0, 255)] {
        assert_eq!(Color::from(c.to_vec3()), c);
    }
}

#[test]
fn color_is_scaled_channel_by_channel() {
    let c = Color::from_u8(100, 200, 255);
    assert_eq!(c * s(500), Color::from_u8(50, 100, 127));
    assert_eq!(c * s(2000), Color::from_u8(200, 255, 255));
    assert_eq!(c * s(-1000), Color::from_u8(0, 0, 0));
    assert_eq!(c * s(0), Color::from_u8(0, 0, 0));
    assert_eq!(c * s(1000), c);
    assert_eq!(channel_scaled(3, s(500)), 1);
    assert_eq!(channel_scaled(255, Scalar::max()), 255);
}

fn sample_hit() -> HitRecord {
    HitRecord::from(v(1000, 2000, 3000), v(0, 0, -1000), s(3000), 5)
}

#[test]
fn light_ends_the_path_with_its_color() {
    let light = PointLightMaterial { color: v(10_000, 10_000, 10_000) };
    let ray = Ray::from(v(0, 0, 0), v(0, 0, 1000));
    let (scattered, color) = light.scatter(&ray, &sample_hit(), (1, 2, 3));
    assert!(scattered.is_none());
    assert_eq!(color, v(10_000, 10_000, 10_000));
}

#[test]
fn diffuse_surface_scatters_about_the_normal() {
    let matte = Diffuse { color: v(500, 500, 500) };
    let ray = Ray::from(v(0, 0, 0), v(0, 0, 1000));
    let hit = sample_hit();
    let draws = (123_456_789, 3_000_000_000, 987_654_321);
    let (scattered, color) = matte.scatter(&ray, &hit, draws);
    let scattered = scattered.unwrap();
    assert_eq!(color, v(500, 500, 500));
    assert_eq!(scattered.origin, hit.point);
    assert_eq!(
        scattered.direction,
        hit.normal + Vec3::unit_vector_from(draws.0, draws.1, draws.2)
    );
    assert_ne!(scattered.direction, hit.normal);
}

#[test]
fn diffuse_surface_does_not_read_the_incoming_ray() {
    let matte = Diffuse { color: v(500, 500, 500) };
    let hit = sample_hit();
    let one = matte.scatter(&Ray::from(v(0, 0, 0), v(0, 0, 1000)), &hit, (7, 8, 9));
    let other = matte.scatter(&Ray::from(v(9000, 9000, 0), v(1000, 0, 0)), &hit, (7, 8, 9));
    assert_eq!(one, other);
}

#[test]
fn surface_does_what_its_kind_does() {
    let ray = Ray::from(v(0, 0, 0), v(0, 0, 1000));
    let hit = sample_hit();
    let matte = Diffuse { color: v(100, 200, 300) };
    let light = PointLightMaterial { color: v(4000, 5000, 6000) };
    assert_eq!(
        Surface::Diffuse(matte).scatter(&ray, &hit, (1, 2, 3)),
        matte.scatter(&ray, &hit, (1, 2, 3))
    );
    assert_eq!(
        Surface::PointLight(light).scatter(&ray, &hit, (1, 2, 3)),
        light.scatter(&ray, &hit, (1, 2, 3))
    );
}

#[test]
fn boxed_diffuse_is_a_diffuse_surface() {
    let color = v(500, 1000, 300);
    assert_eq!(Diffuse::boxed(color), Surface::Diffuse(Diffuse { color }));
}
