//! Bounding-volume hierarchy construction, flattening and traversal for a
//! GPU path tracer, together with the small pieces of decision logic around
//! it (scene selection, image encoding).
//!
//! Coordinates are IEEE-754 single-precision values; the library never does
//! arithmetic on them. It carries their bit patterns, exactly as they are
//! uploaded to the GPU, and compares them as IEEE comparison does (NaN never
//! below anything, `-0.0` equal to `+0.0`; minima and maxima skip NaN), through
//! an order-preserving integer key (see `order_key`). Everything that needs floating-point arithmetic
//! (split selection, intersection tests, normals) is supplied by the caller.

pub mod order_key;
pub mod node;
pub mod geometry;
pub mod permutation;
pub mod build_node;
pub mod tree;
pub mod traversal;
pub mod ppm;
pub mod draw;
pub mod scene_select;
