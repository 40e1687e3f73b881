//! A small ray tracer, verified.
//!
//! Rays are cast from a camera through a viewport into a scene of spheres.
//! The colour of a ray is that of the sky, or half the colour of the ray
//! that bounces off the nearest surface; a pixel is the average of the
//! colours of some rays through it.
//!
//! The numbers are 64-bit binary floating-point numbers, held as their bit
//! patterns and computed with in integers: each operation gives the scalar
//! nearest to the exact result, which is what the arithmetic of the machine
//! gives. So every function says of its result which scalars it is made of,
//! operation by operation, and the hit test of a list of shapes is proved to
//! answer with the nearest crossing.
pub mod scalar;
pub mod round;
pub mod arith;
pub mod vector;
pub mod tolerance;
pub mod ray;
pub mod sphere;
pub mod sample;
pub mod shade;
pub mod camera;
pub mod canvas;
pub mod frame;
pub mod viewport;
