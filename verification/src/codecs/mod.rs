//! Compression codecs: BloscLZ, and the outside codecs behind trusted wrappers.
pub mod blosclz;
pub mod outside;
