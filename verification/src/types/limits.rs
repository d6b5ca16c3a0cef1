//! Default resource limits of the BONJSON format.
use vstd::prelude::*;

verus! {

/// Maximum document size in bytes (2 billion).
pub const MAX_DOCUMENT_SIZE: usize = 2_000_000_000;

/// Maximum container nesting depth.
pub const MAX_DEPTH: usize = 512;

/// Maximum elements in a single container.
pub const MAX_CONTAINER_SIZE: usize = 1_000_000;

/// Maximum string length in bytes.
pub const MAX_STRING_LENGTH: usize = 10_000_000;

/// Maximum absolute value of a big number's base-10 exponent.
pub const MAX_BIGNUMBER_EXPONENT: usize = 9999;

/// Maximum number of magnitude bytes of a big number (the width of a `u64`).
pub const MAX_BIGNUMBER_MAGNITUDE: usize = 8;

} // verus!
