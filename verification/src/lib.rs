//! A small step-driven simulation core: motion integration (friction,
//! acceleration-clamped velocity, explicit-Euler position updates), a
//! quadtree broad phase rebuilt every step, a mask/layer-gated AABB narrow
//! phase, and a per-behaviour collision resolution pass.
//!
//! All world quantities are integer world units; rates are units per second
//! and a step's elapsed time is given in milliseconds.

pub mod components;
pub mod motion;
pub mod quadtree;
pub mod collisions;
pub mod input;
