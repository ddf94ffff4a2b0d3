//! A 3D vector-algebra and ray-sphere intersection kernel over exact
//! fixed-point coordinates.
//!
//! Coordinates are `i64` values in units of `UNIT` (so `UNIT` stands for a
//! length of one). Every operation is specified exactly over the
//! mathematical integers: vector arithmetic is exact, square roots are
//! floors of the true square root, and divisions truncate toward zero as
//! Rust's `/` does. The intersection routine solves the full quadratic
//! `a*t^2 + b*t + c = 0`, so its result does not depend on the direction
//! vector being unit-length.

pub mod num;
pub mod vector;
pub mod ray;
pub mod sphere;
