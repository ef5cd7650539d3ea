//! Cascade results as they travel between the inference step and the wire.

use vstd::prelude::*;

verus! {

/// Cascade outcome of one entity.
#[derive(Clone, Copy)]
pub struct CascadeResult {
    /// Entity id.
    pub entity_id: u32,
    /// IEEE-754 bit pattern of the `f32` hit confidence (the best over all hops).
    pub confidence_bits: u32,
    /// Hop of the first hit.
    pub hop: u32,
    /// Accumulated lag (microseconds).
    pub lag_us: u32,
}

} // verus!
