//! Screen-mirroring core: frame diffing, adaptive tile encoding, packet
//! batching, peer discovery, and receiver-side reassembly, with the wire
//! format and all pipeline logic verified.

pub mod batch;
pub mod capture;
pub mod codec;
pub mod diff;
pub mod discovery;
pub mod protocol;
pub mod reassemble;

use vstd::prelude::*;

verus! {

/// Edge length, in pixels, of one square tile of the frame grid.
pub const TILE_SIZE: usize = 32;

/// Largest datagram payload the transport will carry; every batch the
/// batcher emits fits in this many serialized bytes.
pub const MAX_UDP_PAYLOAD: usize = 1400;

/// Number of color channels per pixel.
pub const CHANNELS: usize = 4;

/// Byte length of one uncompressed tile payload.
pub open spec fn raw_tile_len() -> int {
    TILE_SIZE as int * TILE_SIZE as int * CHANNELS as int
}

/// Exposes the raw tile payload length to executable code.
pub fn raw_tile_bytes() -> (n: usize)
    ensures
        n == raw_tile_len(),
{
    TILE_SIZE * TILE_SIZE * CHANNELS
}

} // verus!
