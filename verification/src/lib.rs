pub mod cipher;
pub mod codec;
pub mod compress;
pub mod config;
pub mod duplex;
pub mod producer;
pub mod response;

use vstd::prelude::*;

verus! {

/// Capacity in bytes of the in-memory duplex buffer on the encode path.
pub const DUPLEX_CAPACITY: usize = 8192;

/// Returns the capacity of the duplex buffer used between the producer
/// task and the response stream.
pub fn duplex_capacity() -> (r: usize)
    ensures
        r == DUPLEX_CAPACITY,
{
    DUPLEX_CAPACITY
}

} // verus!
