//! Integer and control logic of a Monte-Carlo path tracer: the random draws it
//! threads through every randomised step, bounding boxes over order keys, the
//! bounding-volume hierarchy's construction and nearest-hit traversal, the
//! noise lattice's permutation tables, the image texture's texel lookup and
//! the integrator's bounce decisions.
pub mod aabb;
pub mod bvh;
pub mod integrator;
pub mod perlin;
pub mod random;
pub mod texture;
pub mod traversal;
