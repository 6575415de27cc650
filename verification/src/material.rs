//! Pixels, and the materials that decide what a surface does with a ray.

use crate::math::Vec3;
use crate::ray::HitRecord;
use crate::ray::Ray;
use crate::scalar::lemma_product_fits;
use crate::scalar::Scalar;
use crate::scalar::UNIT;
use vstd::prelude::*;

verus! {

/// An 8-bit RGB pixel.
#[derive(Clone, Copy, Debug, PartialEq, Eq, Structural)]
pub struct Color {
    pub r: u8,
    pub g: u8,
    pub b: u8,
}

/// The 8-bit channel for the intensity `x`: `x * 255` rounded toward zero and
/// clamped to 0..=255, so that 1 and everything above it give 255.
pub open spec fn spec_channel(x: Scalar) -> u8 {
    if x.raw <= 0 {
        0
    } else if (x.raw * 255) / (UNIT as int) >= 255 {
        255
    } else {
        ((x.raw * 255) / (UNIT as int)) as u8
    }
}

/// The channel `c` multiplied by `k`, rounded toward zero and clamped to
/// 0..=255.
pub open spec fn spec_channel_scaled(c: u8, k: Scalar) -> u8 {
    if k.raw <= 0 {
        0
    } else if (c * k.raw) / (UNIT as int) >= 255 {
        255
    } else {
        ((c * k.raw) / (UNIT as int)) as u8
    }
}

/// Quantizes one intensity.
pub fn channel(x: Scalar) -> (c: u8)
    ensures
        c == spec_channel(x),
{
    if x.raw <= 0 {
        0
    } else {
        let wide: i128 = x.raw as i128 * 255;
        let level: i128 = wide / UNIT as i128;
        if level >= 255 {
            255
        } else {
            level as u8
        }
    }
}

/// Scales one channel.
pub fn channel_scaled(c: u8, k: Scalar) -> (s: u8)
    ensures
        s == spec_channel_scaled(c, k),
{
    if k.raw <= 0 {
        0
    } else {
        proof {
            lemma_product_fits(c as i64, k.raw);
        }
        let wide: i128 = c as i128 * k.raw as i128;
        let level: i128 = wide / UNIT as i128;
        if level >= 255 {
            255
        } else {
            level as u8
        }
    }
}

impl Color {
    /// The colour as intensities: each channel divided by 255.
    pub open spec fn spec_to_vec3(self) -> Vec3 {
        Vec3 {
            x: Scalar::spec_from_ratio(self.r as i64, 255),
            y: Scalar::spec_from_ratio(self.g as i64, 255),
            z: Scalar::spec_from_ratio(self.b as i64, 255),
        }
    }

    /// The pixel for a colour given as intensities.
    pub open spec fn spec_from_vec3(vec: Vec3) -> Color {
        Color { r: spec_channel(vec.x), g: spec_channel(vec.y), b: spec_channel(vec.z) }
    }

    /// The pixel with each channel scaled by `k`.
    pub open spec fn spec_scaled(self, k: Scalar) -> Color {
        Color {
            r: spec_channel_scaled(self.r, k),
            g: spec_channel_scaled(self.g, k),
            b: spec_channel_scaled(self.b, k),
        }
    }

    /// Builds a pixel from its three channels.
    pub fn from_u8(r: u8, g: u8, b: u8) -> (c: Color)
        ensures
            c == (Color { r, g, b }),
    {
        Color { r, g, b }
    }

    /// The colour as intensities between 0 and 1.
    pub fn to_vec3(&self) -> (v: Vec3)
        ensures
            v == self.spec_to_vec3(),
    {
        Vec3::from(
            Scalar::from_ratio(self.r as i64, 255),
            Scalar::from_ratio(self.g as i64, 255),
            Scalar::from_ratio(self.b as i64, 255),
        )
    }
}

impl core::convert::From<Vec3> for Color {
    fn from(vec: Vec3) -> (c: Color) {
        Color { r: channel(vec.x), g: channel(vec.y), b: channel(vec.z) }
    }
}

impl vstd::std_specs::convert::FromSpecImpl<Vec3> for Color {
    open spec fn obeys_from_spec() -> bool {
        true
    }

    open spec fn from_spec(vec: Vec3) -> Color {
        Color::spec_from_vec3(vec)
    }
}

impl core::ops::Mul<Scalar> for Color {
    type Output = Color;

    fn mul(self, rhs: Scalar) -> (c: Color) {
        Color {
            r: channel_scaled(self.r, rhs),
            g: channel_scaled(self.g, rhs),
            b: channel_scaled(self.b, rhs),
        }
    }
}

impl vstd::std_specs::ops::MulSpecImpl<Scalar> for Color {
    open spec fn obeys_mul_spec() -> bool {
        true
    }

    open spec fn mul_req(self, rhs: Scalar) -> bool {
        true
    }

    open spec fn mul_spec(self, rhs: Scalar) -> Color {
        self.spec_scaled(rhs)
    }
}

/// What a surface does with a ray that hits it.
pub trait Material {
    /// What [`Material::scatter`] returns.
    spec fn spec_scatter(&self, ray: Ray, hit_record: HitRecord, draws: (u32, u32, u32)) -> (
        Option<Ray>,
        Vec3,
    );

    /// Decides how the path goes on from `hit_record`. `draws` holds three
    /// draws of 32 random bits for the material to use.
    ///
    /// With an outgoing ray, the colour is the attenuation of whatever the
    /// outgoing ray brings back. Without one the path ends here, and the
    /// colour is what the surface emits.
    fn scatter(&self, ray: &Ray, hit_record: &HitRecord, draws: (u32, u32, u32)) -> (r: (
        Option<Ray>,
        Vec3,
    ))
        ensures
            r == self.spec_scatter(*ray, *hit_record, draws),
    ;
}

/// A light: it scatters nothing and emits its colour.
#[derive(Clone, Copy, Debug, PartialEq, Eq, Structural)]
pub struct PointLightMaterial {
    pub color: Vec3,
}

impl PointLightMaterial {
    /// No outgoing ray, and the colour of the light.
    pub open spec fn spec_emit(self) -> (Option<Ray>, Vec3) {
        (None, self.color)
    }
}

impl Material for PointLightMaterial {
    open spec fn spec_scatter(&self, ray: Ray, hit_record: HitRecord, draws: (u32, u32, u32)) -> (
        Option<Ray>,
        Vec3,
    ) {
        self.spec_emit()
    }

    fn scatter(&self, ray: &Ray, hit_record: &HitRecord, draws: (u32, u32, u32)) -> (r: (
        Option<Ray>,
        Vec3,
    )) {
        (None, self.color)
    }
}

/// A matte surface: it sends the ray on in a random direction about the
/// normal and attenuates by its colour.
#[derive(Clone, Copy, Debug, PartialEq, Eq, Structural)]
pub struct Diffuse {
    pub color: Vec3,
}

impl Diffuse {
    /// The diffuse material of the given colour.
    pub open spec fn spec_of(color: Vec3) -> Diffuse {
        Diffuse { color }
    }

    /// The outgoing ray starts at the hit point; its direction is the normal
    /// plus the random direction that `draws` stand for, and is not
    /// normalized. The colour is the attenuation.
    pub open spec fn spec_bounce(self, hit_record: HitRecord, draws: (u32, u32, u32)) -> (
        Option<Ray>,
        Vec3,
    ) {
        (
            Some(
                Ray {
                    origin: hit_record.point,
                    direction: hit_record.normal.spec_add(
                        Vec3::spec_unit_vector_from(draws.0, draws.1, draws.2),
                    ),
                },
            ),
            self.color,
        )
    }

    /// A diffuse material of the given colour, wrapped for use in an object.
    pub fn boxed(color: Vec3) -> (m: Surface)
        ensures
            m == Surface::Diffuse(Diffuse { color }),
    {
        Surface::Diffuse(Diffuse { color })
    }
}

impl Material for Diffuse {
    open spec fn spec_scatter(&self, ray: Ray, hit_record: HitRecord, draws: (u32, u32, u32)) -> (
        Option<Ray>,
        Vec3,
    ) {
        self.spec_bounce(hit_record, draws)
    }

    fn scatter(&self, ray: &Ray, hit_record: &HitRecord, draws: (u32, u32, u32)) -> (r: (
        Option<Ray>,
        Vec3,
    )) {
        let scattered = Ray {
            origin: hit_record.point,
            direction: hit_record.normal + Vec3::unit_vector_from(draws.0, draws.1, draws.2),
        };
        (Some(scattered), self.color)
    }
}

/// The material of an object: one of the kinds of surface.
#[derive(Clone, Copy, Debug, PartialEq, Eq, Structural)]
pub enum Surface {
    Diffuse(Diffuse),
    PointLight(PointLightMaterial),
}

impl Surface {
    /// What the surface does with a ray: what its kind does.
    pub open spec fn spec_respond(self, hit_record: HitRecord, draws: (u32, u32, u32)) -> (
        Option<Ray>,
        Vec3,
    ) {
        match self {
            Surface::Diffuse(m) => m.spec_bounce(hit_record, draws),
            Surface::PointLight(m) => m.spec_emit(),
        }
    }
}

impl Material for Surface {
    open spec fn spec_scatter(&self, ray: Ray, hit_record: HitRecord, draws: (u32, u32, u32)) -> (
        Option<Ray>,
        Vec3,
    ) {
        self.spec_respond(hit_record, draws)
    }

    fn scatter(&self, ray: &Ray, hit_record: &HitRecord, draws: (u32, u32, u32)) -> (r: (
        Option<Ray>,
        Vec3,
    )) {
        match self {
            Surface::Diffuse(m) => m.scatter(ray, hit_record, draws),
            Surface::PointLight(m) => m.scatter(ray, hit_record, draws),
        }
    }
}

} // verus!
