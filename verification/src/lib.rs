//! Approximates a mono recording as a timed mix of short, pitch-shifted sounds from a fixed
//! palette: per tick of 50 ms, which palette entries play and how loud.
//!
//! The sample type is a parameter of the whole library. Nothing is assumed about what its
//! arithmetic computes: contracts say which values are combined by which operations, in
//! which order, and state lengths, positions, shapes and the order of the schedule exactly.
//! What only a concrete number type can do (counting in samples, logarithms, transforms,
//! ranking activations) is handed in by the caller.

pub mod algebra;
pub mod assets;
pub mod audio;
pub mod mojang;
pub mod nnls;
pub mod numeric;
pub mod pipeline;
pub mod schedule;
pub mod spectrum;
pub mod text;
