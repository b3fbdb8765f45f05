//! Blosc/Blosc2 compression: framing, filters (byte shuffle, bitshuffle) and the BloscLZ codec,
//! with the other codecs reached through their crates.
use vstd::prelude::*;

/// Compress and decompress buffers, read headers, extract items, and the context calls.
pub mod api;
/// Copies, byte order, chunk headers and n-dimensional buffers.
pub mod blosc;
/// Facts about index grids shared by the filters and the frame code.
pub mod arith;
/// The codecs: BloscLZ, and LZ4, Snappy, Zlib and Zstd through their crates.
pub mod codecs;
/// Whole-vector compression and decompression with the default parameters.
pub mod convenience;
/// Pre-compression filters: byte shuffle and bitshuffle.
pub mod filters;
/// The frame layout and the constants of the format.
pub mod internal;

pub use crate::api::{blosc1_cbuffer_metainfo, blosc1_cbuffer_validate, blosc1_cbuffer_sizes, blosc1_getitem};
pub use crate::api::{blosc2_get_complib_info, blosc2_compress, blosc2_decompress, blosc2_cbuffer_sizes};
pub use crate::api::{blosc2_create_cctx, blosc2_create_dctx, blosc2_compress_ctx, blosc2_decompress_ctx};
pub use crate::api::{Blosc2Context, Blosc2Cparams, Blosc2Dparams};
pub use crate::internal::constants::{BLOSC2_MAX_OVERHEAD, BLOSC_MIN_HEADER_LENGTH, BLOSC_EXTENDED_HEADER_LENGTH};
pub use crate::internal::constants::{BLOSC_NOSHUFFLE, BLOSC_SHUFFLE, BLOSC_BITSHUFFLE, BLOSC_NOFILTER};
pub use crate::internal::constants::{BLOSC_BLOSCLZ, BLOSC_LZ4, BLOSC_LZ4HC, BLOSC_SNAPPY, BLOSC_ZLIB, BLOSC_ZSTD};
pub use crate::internal::constants::{BLOSC_DOSHUFFLE, BLOSC_MEMCPYED, BLOSC_DOBITSHUFFLE, BLOSC2_MAX_FILTERS};

verus! {

} // verus!
