//! A Monte Carlo path tracer over exact integer geometry.
//!
//! Coordinates are integers in a fixed unit of length (thousandths of a scene
//! unit, say): the scene's geometry lies within a coordinate box, ray origins and
//! hit points within a much wider reach; ray parameters are fixed-point numbers in
//! thousandths; hit records keep the exact geometric normal, oriented against the ray, and
//! materials scale it to length `UNIT`; colors and material parameters
//! are fixed-point numbers in thousandths. Every hit test, scattering law and the
//! radiance estimator are stated as spec functions over these values, and the
//! randomness of a bounce comes in as an explicit argument.
pub mod vec3;
pub mod ray;
pub mod hit;
pub mod sphere;
pub mod material;
pub mod world;
pub mod sample;
