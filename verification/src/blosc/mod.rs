//! Routines of the core library: copies, byte order, chunk headers and n-dimensional buffers.
pub mod fastcopy;
pub mod byteorder;
pub mod header;
pub mod b2nd;
pub mod b2nd_copy;
pub mod blosclz;
pub mod stune;
