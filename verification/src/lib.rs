//! A Monte Carlo path tracer for small scenes of spheres, planes and
//! triangle meshes.
//!
//! For every pixel the sampler casts random rays from the camera, the
//! integrator follows each of them from surface to surface until it meets a
//! light, leaves the scene or runs out of bounces, and the pixel gets the
//! mean of what the rays bring back.
//!
//! All numbers are decimal fixed-point ([`scalar::Scalar`]): every operation
//! is total and rounds in a fixed way, so that each function has one result,
//! which its contract states. How far rounding carries the geometry off is
//! bounded in [`accuracy`] and [`containment`].
//!
//! The random choices are 32-bit draws. Every function that makes them has a
//! twin that takes the draws as an argument instead and is a function of its
//! arguments.

pub mod accuracy;
pub mod containment;
pub mod image;
pub mod material;
pub mod math;
pub mod mesh;
pub mod object;
pub mod random;
pub mod ray;
pub mod render;
pub mod scalar;
pub mod tracer;
