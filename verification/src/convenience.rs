//! Compress and decompress whole byte vectors with the default parameters: BloscLZ at level 5,
//! 8-byte items and byte shuffle.
use vstd::prelude::*;
use crate::codecs::blosclz::u32_le_at;
use crate::internal;
use crate::internal::no_filters;
use crate::internal::frame::{frame_decode, zeros, nblocks_of};
use crate::internal::writer::{compress_ok, offset_table, roundtrip_conditions, lemma_header_parse, frame_flags, blocksize_spec,
    lemma_frame_flags_values, lemma_blocksize_bounds, header_bytes};
use crate::api::blosc2_cbuffer_sizes;

verus! {

/// Why a convenience call failed.
#[derive(Debug, Clone, Copy, PartialEq, Eq, Structural)]
pub enum BloscError {
    /// The compressed buffer is too short for a header.
    InvalidHeader,
    /// Compression or decompression failed.
    Failed,
}

impl BloscError {
    /// A sentence that describes the error.
    pub fn message(&self) -> (r: &'static str)
        ensures
            *self == BloscError::InvalidHeader ==> r@ == "invalid or truncated blosc header"@,
            *self == BloscError::Failed ==> r@ == "blosc compression/decompression failed"@,
    {
        match self {
            BloscError::InvalidHeader => "invalid or truncated blosc header",
            BloscError::Failed => "blosc compression/decompression failed",
        }
    }
}

/// The filter slots that [`blosc2_compress`] records: byte shuffle in the last slot.
pub open spec fn shuffle_last_slot() -> Seq<u8> {
    seq![0u8, 0u8, 0u8, 0u8, 0u8, 1u8]
}

/// A compression call's promise still holds of the destination cut to the compressed size.
proof fn lemma_compress_ok_prefix(extended: bool, filters: Seq<u8>, src: Seq<u8>, destlen: nat, d: Seq<u8>, c: usize)
    requires
        compress_ok(5, 1, 8, src, destlen, 0, extended, filters, no_filters(), d, Ok::<usize, i32>(c)),
        c <= d.len(),
    ensures
        compress_ok(5, 1, 8, src, destlen, 0, extended, filters, no_filters(), d.subrange(0, c as int),
            Ok::<usize, i32>(c)),
{
    let v = d.subrange(0, c as int);
    let hl: int = if extended { 32 } else { 16 };
    assert(v.subrange(0, hl) =~= d.subrange(0, hl));
    assert(v.subrange(0, c as int) =~= d.subrange(0, c as int));
    if c >= hl {
        assert(v.subrange(hl, c as int) =~= d.subrange(hl, c as int));
    }
    let nb = nblocks_of(src.len(), blocksize_spec(5, 8, src.len(), 0));
    if hl + 4 * nb <= c {
        assert(v.subrange(hl + 4 * nb, c as int) =~= d.subrange(hl + 4 * nb, c as int));
    }
    if c <= u32::MAX && offset_table(d, hl, nb, c as nat) && hl + 4 * nb <= c {
        assert forall|t: int| 0 <= t < nb implies #[trigger] u32_le_at(v, hl + 4 * t) == u32_le_at(d, hl + 4 * t) by {
            assert(hl + 4 * t + 3 < c);
        }
        assert(offset_table(v, hl, nb, c as nat)) by {
            if nb > 0 {
                assert(u32_le_at(v, hl + 4 * 0) == u32_le_at(d, hl + 4 * 0));
            }
            assert forall|t1: int, t2: int| 0 <= t1 < t2 < nb implies #[trigger] u32_le_at(v, hl + 4 * t1)
                < #[trigger] u32_le_at(v, hl + 4 * t2) by {
                assert(u32_le_at(v, hl + 4 * t1) == u32_le_at(d, hl + 4 * t1));
                assert(u32_le_at(v, hl + 4 * t2) == u32_le_at(d, hl + 4 * t2));
            }
        }
    }
}

/// Compresses `src` with the 16-byte Blosc1 header into a vector of the compressed size; this
/// always succeeds, since the data can always be stored as is.
pub fn blosc1_compress(src: &[u8]) -> (r: Result<Vec<u8>, BloscError>)
    requires
        src.len() <= usize::MAX - 32,
    ensures
        r matches Ok(v) && compress_ok(5, 1, 8, src@, (src.len() + 16) as nat, 0, false, no_filters(), no_filters(),
            v@, Ok::<usize, i32>(v.len())),
{
    let max_out = src.len() + 16;
    let mut dest = vec![0u8; max_out];
    match internal::compress(5, 1, 8, src, &mut dest, 0) {
        Ok(n) => {
            let ghost d = dest@;
            dest.truncate(n);
            proof { lemma_compress_ok_prefix(false, no_filters(), src@, (src.len() + 16) as nat, d, n); }
            Ok(dest)
        },
        Err(_) => Err(BloscError::Failed),
    }
}

/// Compresses `src` with the 32-byte extended header, byte shuffle named in its last filter
/// slot, into a vector of the compressed size; this always succeeds.
pub fn blosc2_compress(src: &[u8]) -> (r: Result<Vec<u8>, BloscError>)
    requires
        src.len() <= usize::MAX - 32,
    ensures
        r matches Ok(v) && compress_ok(5, 1, 8, src@, (src.len() + 32) as nat, 0, true, shuffle_last_slot(),
            no_filters(), v@, Ok::<usize, i32>(v.len())),
{
    let filters: [u8; 6] = [0u8, 0u8, 0u8, 0u8, 0u8, 1u8];
    let filters_meta: [u8; 6] = [0u8, 0u8, 0u8, 0u8, 0u8, 0u8];
    assert(filters@ == shuffle_last_slot());
    assert(filters_meta@ == no_filters());
    let max_out = src.len() + 32;
    let mut dest = vec![0u8; max_out];
    match internal::compress_extended(5, 1, 8, src, &mut dest, 0, &filters, &filters_meta) {
        Ok(n) => {
            let ghost d = dest@;
            dest.truncate(n);
            proof { lemma_compress_ok_prefix(true, shuffle_last_slot(), src@, (src.len() + 32) as nat, d, n); }
            Ok(dest)
        },
        Err(_) => Err(BloscError::Failed),
    }
}

/// What decompressing a whole buffer into a fresh vector gives: `InvalidHeader` for fewer than
/// 16 bytes, else [`frame_decode`] over as many zeros as the header's uncompressed size.
pub open spec fn decompress_vec(src: Seq<u8>) -> Result<Seq<u8>, BloscError> {
    if src.len() < 16 {
        Err(BloscError::InvalidHeader)
    } else {
        match frame_decode(src, zeros(u32_le_at(src, 4) as nat)) {
            Ok(out) => Ok(out),
            Err(_) => Err(BloscError::Failed),
        }
    }
}

/// Decompresses a whole buffer into a vector of the uncompressed size in its header.
fn decompress_to_vec(src: &[u8]) -> (r: Result<Vec<u8>, BloscError>)
    ensures
        match decompress_vec(src@) {
            Ok(out) => r matches Ok(v) && v@ == out,
            Err(e) => r == Err::<Vec<u8>, BloscError>(e),
        },
{
    let (nbytes, _, _) = blosc2_cbuffer_sizes(src);
    if nbytes == 0 && src.len() < 16 {
        return Err(BloscError::InvalidHeader);
    }
    let mut dest = vec![0u8; nbytes];
    assert(dest@ =~= zeros(u32_le_at(src@, 4) as nat));
    match internal::decompress(src, &mut dest) {
        Ok(_) => Ok(dest),
        Err(_) => Err(BloscError::Failed),
    }
}

/// Decompresses a buffer written with either header into a vector; see [`decompress_vec`].
pub fn blosc1_decompress(src: &[u8]) -> (r: Result<Vec<u8>, BloscError>)
    ensures
        match decompress_vec(src@) {
            Ok(out) => r matches Ok(v) && v@ == out,
            Err(e) => r == Err::<Vec<u8>, BloscError>(e),
        },
{
    decompress_to_vec(src)
}

/// Decompresses a buffer written with either header into a vector; see [`decompress_vec`].
pub fn blosc2_decompress(src: &[u8]) -> (r: Result<Vec<u8>, BloscError>)
    ensures
        match decompress_vec(src@) {
            Ok(out) => r matches Ok(v) && v@ == out,
            Err(e) => r == Err::<Vec<u8>, BloscError>(e),
        },
{
    decompress_to_vec(src)
}

/// Decompressing what a convenience compression returned gives the data back, on the inputs
/// where [`roundtrip_conditions`] hold: sizes that fit the header's 32-bit fields.
pub proof fn lemma_convenience_roundtrip(extended: bool, src: Seq<u8>, v: Seq<u8>)
    requires
        compress_ok(5, 1, 8, src, src.len() + (if extended { 32nat } else { 16nat }), 0, extended,
            if extended { shuffle_last_slot() } else { no_filters() }, no_filters(), v, Ok::<usize, i32>(v.len() as usize)),
        roundtrip_conditions(5, 1, 8, src.len(), 0, extended, if extended { shuffle_last_slot() } else { no_filters() },
            src.len() + (if extended { 32nat } else { 16nat }), v.len()),
    ensures
        decompress_vec(v) == Ok::<Seq<u8>, BloscError>(src),
{
    let filters = if extended { shuffle_last_slot() } else { no_filters() };
    let n = src.len();
    let hl: int = if extended { 32 } else { 16 };
    let bs = blocksize_spec(5, 8, n, 0);
    let f = frame_flags(5, 1, 8, n, 0, extended);
    lemma_frame_flags_values(5, 1, 8, n, 0, extended);
    lemma_blocksize_bounds(5, 8, n, 0);
    assert(v.subrange(0, v.len() as int) =~= v);
    assert(v.len() >= hl);
    if v.subrange(0, hl) == header_bytes(extended, n as usize, bs as usize, v.len() as usize, 8, f, 0, filters,
        no_filters()) {
        lemma_header_parse(v, extended, n as usize, bs as usize, v.len() as usize, 8, f, false, 0, filters, no_filters());
    } else {
        lemma_header_parse(v, extended, n as usize, bs as usize, v.len() as usize, 8, f, true, 0, filters, no_filters());
    }
    assert(zeros(n).skip(n as int) =~= Seq::<u8>::empty());
    assert(src + zeros(n).skip(n as int) =~= src);
}

} // verus!
