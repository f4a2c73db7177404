//! A builder for tiled, multi-resolution raster containers in the big-TIFF
//! layout: a pyramid of ceiling-halved levels, each split into fixed-size
//! square tiles, each tile independently LZW-compressed by the caller.
//!
//! The container is modelled as the byte image of the file: a 16-byte header,
//! one 1024-byte directory record per level, external offset/size tables for
//! levels with more than one tile, and appended tile payloads.  Every public
//! operation carries a contract over that byte model.

use vstd::prelude::*;

pub mod bytes_le;
pub mod codec;
pub mod geometry;
pub mod table;
pub mod ifd;
pub mod laws;
pub mod store;






verus! {

/// Edge length, in pixels, of every tile in the container.
pub const TILE_SIZE: u32 = 1024;

/// Failures surfaced by the container engine.  Geometry faults are fatal at
/// construction; a corrupt entry is reported when a stored offset/size pair
/// points outside the container.
#[derive(Clone, Copy, Debug, PartialEq, Eq, Structural)]
pub enum CogError {
    /// The per-channel bit-depth list was empty or longer than eight entries.
    InvalidChannelCount,
    /// `tiles_across * tiles_down` overflowed the 32-bit tile index space.
    TileCountOverflow,
    /// The header plus table region did not fit in the address space.
    RegionOverflow,
    /// A tile entry's offset/size points beyond the end of the container.
    CorruptEntry,
    /// The compressed payload was rejected by the LZW decoder.
    Decode,
}

} // verus!
