//! Core logic of a small ray-tracing renderer.
//!
//! Shading itself works on machine reals, which stay outside this crate; the
//! parts that are discrete are verified here: closed-interval intersection
//! over order-preserving keys (the slab test's workhorse), nearest-hit
//! selection, the row-striping partition that spreads pixels over render
//! workers, and the image buffer that collects finished pixels in whatever
//! order the workers deliver them.

pub mod image;
pub mod math;
pub mod scene;
pub mod surfaces;
