//! The sampler: camera rays, and the mean colour of each pixel.

use crate::math::Vec3;
use crate::object::spec_ids_match;
use crate::object::Object;
use crate::object::World;
use crate::random::random_bits;
use crate::ray::Ray;
use crate::scalar::Scalar;
use crate::scalar::UNIT;
use crate::tracer::lemma_trace_is_not_negative;
use crate::tracer::ray_caste;
use crate::tracer::spec_colors_not_negative;
use crate::tracer::spec_draw;
use crate::tracer::spec_not_negative;
use crate::tracer::spec_rest;
use crate::tracer::spec_trace;
use crate::tracer::trace_from;
use vstd::prelude::*;

verus! {

/// Where the camera stands and what it looks at: it looks along +z at an
/// image plane `viewport_distance` away, `width` by `height` pixels large.
#[derive(Clone, Copy, Debug, PartialEq, Eq, Structural)]
pub struct Camera {
    pub position: Vec3,
    pub viewport_distance: Scalar,
    pub width: u32,
    pub height: u32,
}

/// The coordinate of pixel number `pixel` of `extent` on the image plane,
/// with the centre of the image at 0: `(pixel - extent / 2) / extent`.
pub open spec fn spec_viewport_coordinate(pixel: u32, extent: u32) -> Scalar {
    Scalar::spec_from_int(pixel as i64).spec_sub(
        Scalar::spec_from_int(extent as i64).spec_div(Scalar { raw: 2_000_000_000 }),
    ).spec_div(Scalar::spec_from_int(extent as i64))
}

/// The offset inside a pixel that a draw stands for: `(0.5 + u) / extent`
/// with `u` in [0, 1).
pub open spec fn spec_jitter(draw: u32, extent: u32) -> Scalar {
    (Scalar { raw: 500_000_000 }).spec_add(Scalar::spec_from_bits(draw)).spec_div(
        Scalar::spec_from_int(extent as i64),
    )
}

impl Camera {
    /// The ray from the camera through pixel (`x`, `y`), moved inside the
    /// pixel by the two draws; its direction is normalized.
    pub open spec fn spec_ray(self, x: u32, y: u32, jitter_x: u32, jitter_y: u32) -> Ray {
        Ray {
            origin: self.position,
            direction: Vec3 {
                x: spec_viewport_coordinate(x, self.width).spec_sub(
                    spec_jitter(jitter_x, self.width),
                ),
                y: spec_viewport_coordinate(y, self.height).spec_sub(
                    spec_jitter(jitter_y, self.height),
                ),
                z: self.viewport_distance,
            }.spec_normalized(),
        }
    }

    /// The ray from the camera through pixel (`x`, `y`), moved inside the
    /// pixel by the two draws.
    pub fn ray(&self, x: u32, y: u32, jitter_x: u32, jitter_y: u32) -> (r: Ray)
        ensures
            r == self.spec_ray(x, y, jitter_x, jitter_y),
            r.origin == self.position,
            self.viewport_distance.raw != 0 ==> r.direction.spec_is_unit(),
    {
        let two = Scalar::from_raw(2_000_000_000);
        let half = Scalar::from_raw(500_000_000);
        let width = Scalar::from_int(self.width as i64);
        let height = Scalar::from_int(self.height as i64);
        let viewport_x = (Scalar::from_int(x as i64) - width / two) / width;
        let viewport_y = (Scalar::from_int(y as i64) - height / two) / height;
        Ray {
            origin: self.position,
            direction: Vec3 {
                x: viewport_x - (half + Scalar::from_bits(jitter_x)) / width,
                y: viewport_y - (half + Scalar::from_bits(jitter_y)) / height,
                z: self.viewport_distance,
            }.normalized(),
        }
    }
}

/// Why a configuration was refused.
#[derive(Clone, Copy, Debug, PartialEq, Eq, Structural)]
pub enum ConfigError {
    /// The image is 0 pixels wide.
    ZeroWidth,
    /// The image is 0 pixels high.
    ZeroHeight,
    /// The image plane is not in front of the camera.
    ViewportNotInFront,
    /// No bounce is allowed.
    ZeroDepth,
    /// No sample is taken.
    ZeroSamples,
    /// A channel of the sky colour is below 0 or above 1.
    SkyOutOfRange,
}

/// Whether each component lies between 0 and 1.
pub open spec fn spec_is_color(v: Vec3) -> bool {
    &&& 0 <= v.x.raw <= UNIT
    &&& 0 <= v.y.raw <= UNIT
    &&& 0 <= v.z.raw <= UNIT
}

/// The first thing that is wrong with a configuration, if anything is: the
/// checks run in the order of the variants of [`ConfigError`].
pub open spec fn spec_config_error(camera: Camera, max_depth: u32, samples: u32, sky_color: Vec3) -> Option<
    ConfigError,
> {
    if camera.width == 0 {
        Some(ConfigError::ZeroWidth)
    } else if camera.height == 0 {
        Some(ConfigError::ZeroHeight)
    } else if camera.viewport_distance.raw <= 0 {
        Some(ConfigError::ViewportNotInFront)
    } else if max_depth == 0 {
        Some(ConfigError::ZeroDepth)
    } else if samples == 0 {
        Some(ConfigError::ZeroSamples)
    } else if !spec_is_color(sky_color) {
        Some(ConfigError::SkyOutOfRange)
    } else {
        None
    }
}

/// A configuration that has been checked.
pub struct RenderSettings {
    camera: Camera,
    max_depth: u32,
    samples: u32,
    sky_color: Vec3,
}

impl RenderSettings {
    #[verifier::type_invariant]
    spec fn well_formed(self) -> bool {
        spec_config_error(self.camera, self.max_depth, self.samples, self.sky_color) is None
    }

    /// The camera.
    pub closed spec fn spec_camera(self) -> Camera {
        self.camera
    }

    /// The number of bounces after which a path is given up.
    pub closed spec fn spec_max_depth(self) -> u32 {
        self.max_depth
    }

    /// The number of samples per pixel.
    pub closed spec fn spec_samples(self) -> u32 {
        self.samples
    }

    /// The colour that a ray brings back when it hits nothing.
    pub closed spec fn spec_sky_color(self) -> Vec3 {
        self.sky_color
    }

    /// Checks a configuration and reports the first thing that is wrong
    /// with it.
    pub fn new(camera: Camera, max_depth: u32, samples: u32, sky_color: Vec3) -> (r: Result<
        RenderSettings,
        ConfigError,
    >)
        ensures
            match spec_config_error(camera, max_depth, samples, sky_color) {
                Some(e) => r == Err::<RenderSettings, ConfigError>(e),
                None => r matches Ok(s) && s.spec_camera() == camera && s.spec_max_depth()
                    == max_depth && s.spec_samples() == samples && s.spec_sky_color() == sky_color,
            },
    {
        if camera.width == 0 {
            return Err(ConfigError::ZeroWidth);
        }
        if camera.height == 0 {
            return Err(ConfigError::ZeroHeight);
        }
        if camera.viewport_distance.raw <= 0 {
            return Err(ConfigError::ViewportNotInFront);
        }
        if max_depth == 0 {
            return Err(ConfigError::ZeroDepth);
        }
        if samples == 0 {
            return Err(ConfigError::ZeroSamples);
        }
        if !(0 <= sky_color.x.raw && sky_color.x.raw <= UNIT && 0 <= sky_color.y.raw
            && sky_color.y.raw <= UNIT && 0 <= sky_color.z.raw && sky_color.z.raw <= UNIT) {
            return Err(ConfigError::SkyOutOfRange);
        }
        Ok(RenderSettings { camera, max_depth, samples, sky_color })
    }

    /// The camera.
    pub fn camera(&self) -> (c: Camera)
        ensures
            c == self.spec_camera(),
            c.width > 0,
            c.height > 0,
            c.viewport_distance.raw > 0,
    {
        proof {
            use_type_invariant(self);
        }
        self.camera
    }

    /// The number of bounces after which a path is given up.
    pub fn max_depth(&self) -> (d: u32)
        ensures
            d == self.spec_max_depth(),
            d > 0,
    {
        proof {
            use_type_invariant(self);
        }
        self.max_depth
    }

    /// The number of samples per pixel.
    pub fn samples(&self) -> (n: u32)
        ensures
            n == self.spec_samples(),
            n > 0,
    {
        proof {
            use_type_invariant(self);
        }
        self.samples
    }

    /// The colour that a ray brings back when it hits nothing.
    pub fn sky_color(&self) -> (c: Vec3)
        ensures
            c == self.spec_sky_color(),
            spec_is_color(c),
    {
        proof {
            use_type_invariant(self);
        }
        self.sky_color
    }
}

/// The colour of one sample of pixel (`x`, `y`): the first two draws place
/// the camera ray inside the pixel, the later ones steer the path.
pub open spec fn spec_sample(
    objects: Seq<Object>,
    settings: RenderSettings,
    x: u32,
    y: u32,
    draws: Seq<u32>,
) -> Vec3 {
    spec_trace(
        objects,
        settings.spec_camera().spec_ray(x, y, spec_draw(draws, 0), spec_draw(draws, 1)),
        settings.spec_max_depth() as nat,
        settings.spec_sky_color(),
        spec_rest(draws, 2),
    )
}

/// The componentwise sum of `colors`, added up from the front.
pub open spec fn spec_sum(colors: Seq<Vec3>) -> Vec3
    decreases colors.len(),
{
    if colors.len() == 0 {
        Vec3::spec_zero()
    } else {
        spec_sum(colors.drop_last()).spec_add(colors.last())
    }
}

/// The mean of `colors`: their sum divided by their number.
pub open spec fn spec_mean(colors: Seq<Vec3>) -> Vec3 {
    spec_sum(colors).spec_shrink(Scalar::spec_from_count(colors.len()))
}

/// Whether `color` is a sample of pixel (`x`, `y`) for some list of draws.
pub open spec fn spec_is_sample(
    objects: Seq<Object>,
    settings: RenderSettings,
    x: u32,
    y: u32,
    color: Vec3,
) -> bool {
    exists|draws: Seq<u32>| color == spec_sample(objects, settings, x, y, draws)
}

/// Whether `color` is the mean of as many samples of pixel (`x`, `y`) as the
/// settings ask for.
pub open spec fn spec_is_pixel(
    objects: Seq<Object>,
    settings: RenderSettings,
    x: u32,
    y: u32,
    color: Vec3,
) -> bool {
    exists|colors: Seq<Vec3>|
        colors.len() == settings.spec_samples() && color == spec_mean(colors) && forall|k: int|
            0 <= k < colors.len() ==> spec_is_sample(objects, settings, x, y, #[trigger] colors[k])
}

/// The sample of pixel (`x`, `y`) that the given draws stand for.
pub fn sample_with(world: &World, settings: &RenderSettings, x: u32, y: u32, draws: &Vec<u32>) -> (c:
    Vec3)
    ensures
        c == spec_sample(world.spec_objects(), *settings, x, y, draws@),
{
    let jitter_x: u32 = if draws.len() > 0 { draws[0] } else { 0 };
    let jitter_y: u32 = if draws.len() > 1 { draws[1] } else { 0 };
    let start: usize = if draws.len() > 1 { 2 } else { draws.len() };
    let ray = settings.camera().ray(x, y, jitter_x, jitter_y);
    assert(draws@.skip(start as int) =~= spec_rest(draws@, 2));
    trace_from(&ray, world, settings.max_depth(), &settings.sky_color(), draws, start)
}

/// One random sample of pixel (`x`, `y`).
pub fn sample(world: &World, settings: &RenderSettings, x: u32, y: u32) -> (c: Vec3)
    ensures
        spec_is_sample(world.spec_objects(), *settings, x, y, c),
{
    let jitter_x = random_bits();
    let jitter_y = random_bits();
    let ray = settings.camera().ray(x, y, jitter_x, jitter_y);
    let sky = settings.sky_color();
    let color = ray_caste(&ray, world, settings.max_depth(), &sky);
    proof {
        let depth = settings.spec_max_depth() as nat;
        let later = choose|later: Seq<u32>|
            color == spec_trace(world.spec_objects(), ray, depth, sky, later);
        let all = seq![jitter_x, jitter_y] + later;
        assert(spec_rest(all, 2) =~= later);
        assert(color == spec_sample(world.spec_objects(), *settings, x, y, all));
    }
    color
}

/// The mean of `colors`; the mean of no colours divides by zero and is the
/// zero vector.
pub fn mean(colors: &Vec<Vec3>) -> (m: Vec3)
    ensures
        m == spec_mean(colors@),
{
    let mut sum = Vec3::zero();
    let mut i: usize = 0;
    assert(colors@.take(0) =~= Seq::<Vec3>::empty());
    while i < colors.len()
        invariant
            i <= colors.len(),
            sum == spec_sum(colors@.take(i as int)),
        decreases colors.len() - i,
    {
        proof {
            assert(colors@.take(i + 1).drop_last() =~= colors@.take(i as int));
            assert(colors@.take(i + 1).last() == colors@[i as int]);
        }
        sum = sum + colors[i];
        i += 1;
    }
    assert(colors@.take(colors@.len() as int) =~= colors@);
    sum / Scalar::from_count(colors.len())
}

/// The colour of pixel (`x`, `y`): the mean of as many random samples as the
/// settings ask for.
pub fn pixel_color(world: &World, settings: &RenderSettings, x: u32, y: u32) -> (c: Vec3)
    ensures
        spec_is_pixel(world.spec_objects(), *settings, x, y, c),
{
    let count = settings.samples();
    let mut colors: Vec<Vec3> = Vec::new();
    let mut k: u32 = 0;
    while k < count
        invariant
            k <= count,
            colors@.len() == k,
            forall|j: int|
                0 <= j < colors@.len() ==> spec_is_sample(
                    world.spec_objects(),
                    *settings,
                    x,
                    y,
                    #[trigger] colors@[j],
                ),
        decreases count - k,
    {
        let color = sample(world, settings, x, y);
        colors.push(color);
        k += 1;
    }
    mean(&colors)
}

/// The pixel of the image that stands at position `index` of the output:
/// the image is walked column by column.
pub open spec fn spec_pixel_at(index: int, height: u32) -> (int, int) {
    (index / (height as int), index % (height as int))
}

/// A sum of colours without a negative component has none.
pub proof fn lemma_sum_is_not_negative(colors: Seq<Vec3>)
    requires
        forall|k: int| 0 <= k < colors.len() ==> spec_not_negative(#[trigger] colors[k]),
    ensures
        spec_not_negative(spec_sum(colors)),
    decreases colors.len(),
{
    reveal(Scalar::spec_add);
    if colors.len() > 0 {
        let rest = colors.drop_last();
        assert forall|k: int| 0 <= k < rest.len() implies spec_not_negative(
            #[trigger] rest[k],
        ) by {
            assert(rest[k] == colors[k]);
        }
        lemma_sum_is_not_negative(rest);
        assert(spec_not_negative(colors[colors.len() - 1]));
    }
}

/// Light is never negative in a pixel: where no colour of the scene and of
/// the sky has a negative component, the colour of a pixel has none.
pub proof fn lemma_pixel_is_not_negative(
    objects: Seq<Object>,
    settings: RenderSettings,
    x: u32,
    y: u32,
    color: Vec3,
)
    requires
        spec_ids_match(objects),
        spec_colors_not_negative(objects),
        spec_not_negative(settings.spec_sky_color()),
        spec_is_pixel(objects, settings, x, y, color),
    ensures
        spec_not_negative(color),
{
    let colors = choose|colors: Seq<Vec3>|
        colors.len() == settings.spec_samples() && color == spec_mean(colors) && forall|k: int|
            0 <= k < colors.len() ==> spec_is_sample(objects, settings, x, y, #[trigger] colors[k]);
    assert forall|k: int| 0 <= k < colors.len() implies spec_not_negative(
        #[trigger] colors[k],
    ) by {
        let draws = choose|draws: Seq<u32>|
            colors[k] == spec_sample(objects, settings, x, y, draws);
        lemma_trace_is_not_negative(
            objects,
            settings.spec_camera().spec_ray(x, y, spec_draw(draws, 0), spec_draw(draws, 1)),
            settings.spec_max_depth() as nat,
            settings.spec_sky_color(),
            spec_rest(draws, 2),
        );
    }
    lemma_sum_is_not_negative(colors);
    let sum = spec_sum(colors);
    let count = Scalar::spec_from_count(colors.len());
    lemma_quotient_not_negative(sum.x, count);
    lemma_quotient_not_negative(sum.y, count);
    lemma_quotient_not_negative(sum.z, count);
}

/// A scalar that is not negative, divided by one that is not negative, is
/// not negative.
proof fn lemma_quotient_not_negative(a: Scalar, b: Scalar)
    requires
        a.raw >= 0,
        b.raw >= 0,
    ensures
        a.spec_div(b).raw >= 0,
{
    reveal(Scalar::spec_div);
    if b.raw > 0 {
        assert(a.raw * UNIT >= 0);
        vstd::arithmetic::div_mod::lemma_div_pos_is_pos(a.raw * UNIT, b.raw as int);
    }
}

/// Renders the image: one colour for each pixel, in the order x-major, the
/// pixel (`x`, `y`) at position `x * height + y`.
///
/// Where no colour of the scene has a negative component, no pixel has one.
pub fn cpu_compute(world: &World, settings: &RenderSettings) -> (image: Vec<Vec3>)
    ensures
        image@.len() == settings.spec_camera().width * settings.spec_camera().height,
        forall|p: int|
            0 <= p < image@.len() ==> spec_is_pixel(
                world.spec_objects(),
                *settings,
                spec_pixel_at(p, settings.spec_camera().height).0 as u32,
                spec_pixel_at(p, settings.spec_camera().height).1 as u32,
                #[trigger] image@[p],
            ),
        spec_colors_not_negative(world.spec_objects()) ==> forall|p: int|
            0 <= p < image@.len() ==> spec_not_negative(#[trigger] image@[p]),
{
    let camera = settings.camera();
    let mut image: Vec<Vec3> = Vec::new();
    let mut x: u32 = 0;
    while x < camera.width
        invariant
            camera == settings.spec_camera(),
            camera.height > 0,
            x <= camera.width,
            image@.len() == x * camera.height,
            forall|p: int|
                0 <= p < image@.len() ==> spec_is_pixel(
                    world.spec_objects(),
                    *settings,
                    spec_pixel_at(p, camera.height).0 as u32,
                    spec_pixel_at(p, camera.height).1 as u32,
                    #[trigger] image@[p],
                ),
        decreases camera.width - x,
    {
        let mut y: u32 = 0;
        while y < camera.height
            invariant
                camera == settings.spec_camera(),
                camera.height > 0,
                x < camera.width,
                y <= camera.height,
                image@.len() == x * camera.height + y,
                forall|p: int|
                    0 <= p < image@.len() ==> spec_is_pixel(
                        world.spec_objects(),
                        *settings,
                        spec_pixel_at(p, camera.height).0 as u32,
                        spec_pixel_at(p, camera.height).1 as u32,
                        #[trigger] image@[p],
                    ),
            decreases camera.height - y,
        {
            let color = pixel_color(world, settings, x, y);
            proof {
                let p = image@.len() as int;
                vstd::arithmetic::div_mod::lemma_fundamental_div_mod_converse(
                    p,
                    camera.height as int,
                    x as int,
                    y as int,
                );
            }
            image.push(color);
            y += 1;
        }
        assert((x + 1) * camera.height == x * camera.height + camera.height) by (nonlinear_arith);
        x += 1;
    }
    proof {
        if spec_colors_not_negative(world.spec_objects()) {
            use_type_invariant(world);
            use_type_invariant(settings);
            assert forall|p: int| 0 <= p < image@.len() implies spec_not_negative(
                #[trigger] image@[p],
            ) by {
                lemma_pixel_is_not_negative(
                    world.spec_objects(),
                    *settings,
                    spec_pixel_at(p, camera.height).0 as u32,
                    spec_pixel_at(p, camera.height).1 as u32,
                    image@[p],
                );
            }
        }
    }
    image
}

} // verus!
