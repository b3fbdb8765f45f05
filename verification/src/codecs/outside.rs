//! The codecs that other crates provide: LZ4 (`lz4_flex`), Snappy (`snap`), Zlib (`flate2`)
//! and Zstd (`zstd`). Each call sits behind a small trusted wrapper; what a call returns is
//! named by a spec function of its arguments, and the compressing wrappers state the one
//! fact the frame layer needs of them: that the codec's own decoder gives the input back.
use vstd::prelude::*;
use std::io::Write;

verus! {

/// What `lz4_flex::block::compress_into` writes for `input` into a buffer of `cap` bytes,
/// or `None` where it reports an error.
pub uninterp spec fn lz4_compressed(input: Seq<u8>, cap: nat) -> Option<Seq<u8>>;

/// What `lz4_flex::block::decompress_into` writes for `input` into a buffer of `cap` bytes,
/// or `None` where it reports an error.
pub uninterp spec fn lz4_decoded(input: Seq<u8>, cap: nat) -> Option<Seq<u8>>;

/// What `snap::raw::Encoder::compress` writes for `input` into a buffer of `cap` bytes,
/// or `None` where it reports an error.
pub uninterp spec fn snappy_compressed(input: Seq<u8>, cap: nat) -> Option<Seq<u8>>;

/// What `snap::raw::Decoder::decompress` writes for `input` into a buffer of `cap` bytes,
/// or `None` where it reports an error.
pub uninterp spec fn snappy_decoded(input: Seq<u8>, cap: nat) -> Option<Seq<u8>>;

/// What a `flate2::write::ZlibEncoder` at `level` writes for `input` into a buffer of
/// `cap` bytes, or `None` where writing or finishing reports an error.
pub uninterp spec fn zlib_compressed(input: Seq<u8>, level: u32, cap: nat) -> Option<Seq<u8>>;

/// What a `flate2::read::ZlibDecoder` over `input` yields when copied into a buffer of
/// `cap` bytes, or `None` where the copy reports an error.
pub uninterp spec fn zlib_decoded(input: Seq<u8>, cap: nat) -> Option<Seq<u8>>;

/// What a `zstd::stream::write::Encoder` at `level` writes for `input` into a buffer of
/// `cap` bytes, or `None` where writing or finishing reports an error.
pub uninterp spec fn zstd_compressed(input: Seq<u8>, level: i32, cap: nat) -> Option<Seq<u8>>;

/// What `zstd::bulk::decompress_to_buffer` writes for `input` into a buffer of `cap` bytes,
/// or `None` where it reports an error.
pub uninterp spec fn zstd_decoded(input: Seq<u8>, cap: nat) -> Option<Seq<u8>>;

/// Calls `lz4_flex::block::compress_into` with `out[start..]` as the output buffer.
/// Claimed: only that part of `out` is written; the count and the bytes written are
/// `lz4_compressed(input, out.len() - start)`; and `lz4_flex::block::decompress_into`
/// gives `input` back from those bytes into any buffer that holds it.
#[verifier::external_body]
pub(crate) fn lz4_compress_at(input: &[u8], out: &mut [u8], start: usize) -> (r: Option<usize>)
    requires
        start <= old(out).len(),
    ensures
        final(out).len() == old(out).len(),
        forall|k: int| 0 <= k < start ==> final(out)@[k] == old(out)@[k],
        match r {
            Some(n) => start + n <= old(out).len() && lz4_compressed(input@, (old(out).len() - start) as nat)
                == Some(final(out)@.subrange(start as int, start + n)),
            None => lz4_compressed(input@, (old(out).len() - start) as nat) is None,
        },
        r matches Some(n) ==> forall|cap: nat| cap >= input.len()
            ==> #[trigger] lz4_decoded(final(out)@.subrange(start as int, start + n), cap) == Some(input@),
{
    match lz4_flex::block::compress_into(input, &mut out[start..]) {
        Ok(n) => Some(n),
        Err(_) => None,
    }
}

/// Calls `lz4_flex::block::decompress_into` with `out[start..end]` as the output buffer.
/// Claimed: nothing outside that range is written, and the count and the bytes written are
/// `lz4_decoded(input, end - start)`. What the call leaves past the count is not stated.
#[verifier::external_body]
pub(crate) fn lz4_decompress_range(input: &[u8], out: &mut [u8], start: usize, end: usize) -> (r: Option<usize>)
    requires
        start <= end <= old(out).len(),
    ensures
        final(out).len() == old(out).len(),
        forall|k: int| 0 <= k < start || end <= k < old(out).len() ==> final(out)@[k] == old(out)@[k],
        match r {
            Some(n) => start + n <= end && lz4_decoded(input@, (end - start) as nat)
                == Some(final(out)@.subrange(start as int, start + n)),
            None => lz4_decoded(input@, (end - start) as nat) is None,
        },
{
    match lz4_flex::block::decompress_into(input, &mut out[start..end]) {
        Ok(n) => Some(n),
        Err(_) => None,
    }
}

/// Calls `snap::raw::Encoder::compress` with `out[start..]` as the output buffer.
/// Claimed: only that part of `out` is written; the count and the bytes written are
/// `snappy_compressed(input, out.len() - start)`; and `snap::raw::Decoder::decompress` gives
/// `input` back from those bytes into any buffer that holds it.
#[verifier::external_body]
pub(crate) fn snappy_compress_at(input: &[u8], out: &mut [u8], start: usize) -> (r: Option<usize>)
    requires
        start <= old(out).len(),
    ensures
        final(out).len() == old(out).len(),
        forall|k: int| 0 <= k < start ==> final(out)@[k] == old(out)@[k],
        match r {
            Some(n) => start + n <= old(out).len() && snappy_compressed(input@, (old(out).len() - start) as nat)
                == Some(final(out)@.subrange(start as int, start + n)),
            None => snappy_compressed(input@, (old(out).len() - start) as nat) is None,
        },
        r matches Some(n) ==> forall|cap: nat| cap >= input.len()
            ==> #[trigger] snappy_decoded(final(out)@.subrange(start as int, start + n), cap) == Some(input@),
{
    match snap::raw::Encoder::new().compress(input, &mut out[start..]) {
        Ok(n) => Some(n),
        Err(_) => None,
    }
}

/// Calls `snap::raw::Decoder::decompress` with `out[start..end]` as the output buffer.
/// Claimed: nothing outside that range is written, and the count and the bytes written are
/// `snappy_decoded(input, end - start)`. What the call leaves past the count is not stated.
#[verifier::external_body]
pub(crate) fn snappy_decompress_range(input: &[u8], out: &mut [u8], start: usize, end: usize) -> (r: Option<usize>)
    requires
        start <= end <= old(out).len(),
    ensures
        final(out).len() == old(out).len(),
        forall|k: int| 0 <= k < start || end <= k < old(out).len() ==> final(out)@[k] == old(out)@[k],
        match r {
            Some(n) => start + n <= end && snappy_decoded(input@, (end - start) as nat)
                == Some(final(out)@.subrange(start as int, start + n)),
            None => snappy_decoded(input@, (end - start) as nat) is None,
        },
{
    match snap::raw::Decoder::new().decompress(input, &mut out[start..end]) {
        Ok(n) => Some(n),
        Err(_) => None,
    }
}

/// Writes `input` through a `flate2::write::ZlibEncoder` at `flate2::Compression::new(level)`
/// into a `std::io::Cursor` over `out[start..]`, then finishes the stream. The level must be at
/// most 10: the miniz_oxide backend asserts that in debug builds.
/// Claimed: only that part of `out` is written; the count (the cursor's position) and the bytes
/// written are `zlib_compressed(input, level, out.len() - start)`; and a
/// `flate2::read::ZlibDecoder` gives `input` back from those bytes into any buffer that holds it.
#[verifier::external_body]
pub(crate) fn zlib_compress_at(input: &[u8], level: u32, out: &mut [u8], start: usize) -> (r: Option<usize>)
    requires
        start <= old(out).len(),
        level <= 10,
    ensures
        final(out).len() == old(out).len(),
        forall|k: int| 0 <= k < start ==> final(out)@[k] == old(out)@[k],
        match r {
            Some(n) => start + n <= old(out).len() && zlib_compressed(input@, level, (old(out).len() - start) as nat)
                == Some(final(out)@.subrange(start as int, start + n)),
            None => zlib_compressed(input@, level, (old(out).len() - start) as nat) is None,
        },
        r matches Some(n) ==> forall|cap: nat| cap >= input.len()
            ==> #[trigger] zlib_decoded(final(out)@.subrange(start as int, start + n), cap) == Some(input@),
{
    let cursor = std::io::Cursor::new(&mut out[start..]);
    let mut encoder = flate2::write::ZlibEncoder::new(cursor, flate2::Compression::new(level));
    if encoder.write_all(input).is_err() {
        return None;
    }
    match encoder.finish() {
        Ok(cursor) => Some(cursor.position() as usize),
        Err(_) => None,
    }
}

/// Copies a `flate2::read::ZlibDecoder` over `input` with `std::io::copy` into a
/// `std::io::Cursor` over `out[start..end]`.
/// Claimed: nothing outside that range is written, and the count and the bytes written are
/// `zlib_decoded(input, end - start)`. What the call leaves past the count is not stated.
#[verifier::external_body]
pub(crate) fn zlib_decompress_range(input: &[u8], out: &mut [u8], start: usize, end: usize) -> (r: Option<usize>)
    requires
        start <= end <= old(out).len(),
    ensures
        final(out).len() == old(out).len(),
        forall|k: int| 0 <= k < start || end <= k < old(out).len() ==> final(out)@[k] == old(out)@[k],
        match r {
            Some(n) => start + n <= end && zlib_decoded(input@, (end - start) as nat)
                == Some(final(out)@.subrange(start as int, start + n)),
            None => zlib_decoded(input@, (end - start) as nat) is None,
        },
{
    let mut decoder = flate2::read::ZlibDecoder::new(input);
    let mut writer = std::io::Cursor::new(&mut out[start..end]);
    match std::io::copy(&mut decoder, &mut writer) {
        Ok(n) => Some(n as usize),
        Err(_) => None,
    }
}

/// Writes `input` through a `zstd::stream::write::Encoder` at `level` into a
/// `std::io::Cursor` over `out[start..]`, then finishes the frame. `Err(())` is what comes back
/// where `zstd::stream::write::Encoder::new` itself reports an error; nothing is claimed of when
/// that happens. Otherwise claimed: only `out[start..]` is written; the count (the cursor's
/// position) and the bytes written are `zstd_compressed(input, level, out.len() - start)`; and
/// `zstd::bulk::decompress_to_buffer` gives `input` back from those bytes into any buffer that
/// holds it.
#[verifier::external_body]
pub(crate) fn zstd_compress_at(input: &[u8], level: i32, out: &mut [u8], start: usize) -> (r: Result<Option<usize>, ()>)
    requires
        start <= old(out).len(),
    ensures
        final(out).len() == old(out).len(),
        forall|k: int| 0 <= k < start ==> final(out)@[k] == old(out)@[k],
        match r {
            Ok(Some(n)) => start + n <= old(out).len() && zstd_compressed(input@, level, (old(out).len() - start) as nat)
                == Some(final(out)@.subrange(start as int, start + n)),
            Ok(None) => zstd_compressed(input@, level, (old(out).len() - start) as nat) is None,
            Err(_) => true,
        },
        r matches Ok(Some(n)) ==> forall|cap: nat| cap >= input.len()
            ==> #[trigger] zstd_decoded(final(out)@.subrange(start as int, start + n), cap) == Some(input@),
{
    let cursor = std::io::Cursor::new(&mut out[start..]);
    let mut encoder = match zstd::stream::write::Encoder::new(cursor, level) {
        Ok(e) => e,
        Err(_) => return Err(()),
    };
    if encoder.write_all(input).is_err() {
        return Ok(None);
    }
    match encoder.finish() {
        Ok(cursor) => Ok(Some(cursor.position() as usize)),
        Err(_) => Ok(None),
    }
}

/// Calls `zstd::bulk::decompress_to_buffer` with `out[start..end]` as the output buffer.
/// Claimed: nothing outside that range is written, and the count and the bytes written are
/// `zstd_decoded(input, end - start)`. What the call leaves past the count is not stated.
#[verifier::external_body]
pub(crate) fn zstd_decompress_range(input: &[u8], out: &mut [u8], start: usize, end: usize) -> (r: Option<usize>)
    requires
        start <= end <= old(out).len(),
    ensures
        final(out).len() == old(out).len(),
        forall|k: int| 0 <= k < start || end <= k < old(out).len() ==> final(out)@[k] == old(out)@[k],
        match r {
            Some(n) => start + n <= end && zstd_decoded(input@, (end - start) as nat)
                == Some(final(out)@.subrange(start as int, start + n)),
            None => zstd_decoded(input@, (end - start) as nat) is None,
        },
{
    match zstd::bulk::decompress_to_buffer(input, &mut out[start..end]) {
        Ok(n) => Some(n),
        Err(_) => None,
    }
}

} // verus!
