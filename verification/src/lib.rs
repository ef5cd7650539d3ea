//! Σ⁴-Engine: a deterministic sparse-state cascade inference engine.
//!
//! The verified core of the engine: fixed memory bounds, the entity
//! layout and its delta ring, the length-prefixed wire protocol, the CSR
//! cascade matrix builder, the baseline CSV row parser and the simplex
//! snapshot codec. Floating-point values travel through this crate as their
//! IEEE-754 bit patterns (`u32`); arithmetic on them lives with the callers.

pub mod cascade;
pub mod constants;
pub mod entity;
pub mod loader;
pub mod matrix;
pub mod protocol;
pub mod server;
pub mod simplex;
pub mod text;
pub mod wire;
