//! The verified core of a spectral path tracer: a time-varying bounding
//! volume hierarchy, the batched ray tracer that walks it, the per-sample
//! light path state machine, and the planning of render buckets.
//!
//! All geometry lives on an integer lattice, so that every predicate the
//! acceleration structure evaluates is exact.  Radiometric quantities never
//! enter this crate; the state machines here decide *which* quantity is
//! committed *when*, and leave the arithmetic on spectra to their caller.

pub mod math;
pub mod hash;
pub mod hilbert;
pub mod sampling;
pub mod algorithm;
pub mod vector;
pub mod lerp;
pub mod ray;
pub mod transform;
pub mod transform_stack;
pub mod bbox;
pub mod boundable;
pub mod sah;
pub mod bvh;
pub mod traverse;
pub mod scene;
pub mod cuboid;
pub mod hits;
pub mod tracer;
pub mod renderer;
pub mod light_path;
