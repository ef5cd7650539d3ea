//! Compile-time bounds of the engine: memory budget and topology limits.

use vstd::prelude::*;

verus! {

/// Maximum number of facets (slices) per entity.
pub const MAX_SLICES: usize = 16;

/// Maximum number of simplex endpoints per facet.
pub const K_MAX: usize = 8;

/// Number of pre-allocated entity slots (indexable by `u16`).
pub const MAX_ENTITIES: usize = 65_536;

/// Capacity of each entity's delta ring buffer (single producer, single consumer).
pub const DELTA_RING_CAPACITY: usize = 1024;

} // verus!
