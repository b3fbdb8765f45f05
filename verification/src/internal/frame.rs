//! The layout of a compressed buffer and what reading one yields.
//!
//! A buffer starts with a 16-byte header (32 bytes for the Blosc2 versions), then, unless the
//! data was stored as is, a table of 32-bit offsets to the blocks. Each block is a list of
//! streams, each a 32-bit size followed by that many bytes of codec output.
use vstd::prelude::*;
use crate::codecs::blosclz::{blosclz_decode, decompress_at, u32_le_at};
use crate::codecs::outside::{lz4_decoded, snappy_decoded, zlib_decoded, zstd_decoded};
use crate::codecs::outside::{lz4_decompress_range, snappy_decompress_range, zlib_decompress_range, zstd_decompress_range};
use crate::filters::{unshuffled, unshuffle};
use crate::filters::dispatch::{bitunshuffle_block, bitunshuffle_block_into};
use crate::arith::lemma_div_mul_le;

verus! {

/// Why reading a compressed buffer failed.
#[derive(Debug, Clone, Copy, PartialEq, Eq, Structural)]
pub enum DecompressError {
    /// Fewer bytes than the 16-byte header.
    HeaderTooSmall,
    /// A Blosc2 version byte, but fewer bytes than the 32-byte header.
    ExtendedHeaderTooSmall,
    /// The destination is shorter than the uncompressed size in the header.
    DestinationTooSmall,
    /// Stored data that the buffer does not hold in full.
    StoredDataTruncated,
    /// The table of block offsets runs past the buffer.
    BstartsTruncated,
    /// A block ends before it starts.
    BlockOutOfOrder,
    /// A block runs past the buffer.
    BlockTruncated,
    /// A stream size field runs past its block.
    ChunkHeaderTruncated,
    /// A stream runs past its block.
    ChunkOverrun,
    /// The codec rejected a stream.
    CodecFailed,
    /// The header names a codec that this library does not read.
    UnsupportedCompressor,
    /// A block's streams do not add up to its size.
    SizeMismatch,
    /// The bit-unshuffle filter rejected a block.
    BitunshuffleFailed,
}

/// The fields of a header, as the reader interprets them.
#[derive(Clone, Copy)]
pub struct FrameHeader {
    pub hlen: usize,
    pub flags: u8,
    pub compressor: u8,
    pub typesize: usize,
    pub nbytes: usize,
    pub blocksize: usize,
    pub cbytes: usize,
    pub doshuffle: bool,
    pub dobitshuffle: bool,
    pub memcpyed: bool,
}

/// The version bytes of the Blosc2 formats, which use the 32-byte header.
pub open spec fn is_v2_version(v: u8) -> bool {
    v == 3 || v == 4 || v == 5
}

/// The header length that the version byte of `s` calls for.
pub open spec fn header_len_of(s: Seq<u8>) -> nat {
    if is_v2_version(s[0]) { 32 } else { 16 }
}

/// Whether filter `f` is among the six filter slots of an extended header.
pub open spec fn filters_contain(s: Seq<u8>, f: u8) -> bool {
    s[16] == f || s[17] == f || s[18] == f || s[19] == f || s[20] == f || s[21] == f
}

/// How the reader interprets the header at the start of `s`. When both shuffle flags are set
/// they mark an extended header, whose filter slots then decide the filters; byte shuffle is
/// skipped for one-byte items and bitshuffle for blocks smaller than an item.
pub open spec fn parse_header(s: Seq<u8>) -> FrameHeader {
    let hlen: usize = if is_v2_version(s[0]) { 32 } else { 16 };
    let flags = s[2];
    let typesize = s[3] as usize;
    let blocksize = u32_le_at(s, 8) as usize;
    let marker = flags & 1u8 != 0 && flags & 4u8 != 0;
    let sh = if marker { hlen == 32 && filters_contain(s, 1) } else { flags & 1u8 != 0 };
    let bsh = if marker { hlen == 32 && filters_contain(s, 2) } else { flags & 4u8 != 0 };
    FrameHeader {
        hlen,
        flags,
        compressor: (flags >> 5u8) & 7u8,
        typesize,
        nbytes: u32_le_at(s, 4) as usize,
        blocksize,
        cbytes: u32_le_at(s, 12) as usize,
        doshuffle: sh && typesize > 1,
        dobitshuffle: bsh && blocksize >= typesize,
        memcpyed: flags & 2u8 != 0,
    }
}

/// Number of blocks of `blocksize` bytes that cover `nbytes` bytes (none for a zero block size).
pub open spec fn nblocks_of(nbytes: nat, blocksize: nat) -> nat {
    if blocksize == 0 { 0 } else { nbytes / blocksize + if nbytes % blocksize != 0 { 1nat } else { 0nat } }
}

/// Uncompressed length of block `i`: the block size, or what is left for the last block.
pub open spec fn block_len_of(nbytes: nat, blocksize: nat, i: nat) -> nat {
    if i + 1 == nblocks_of(nbytes, blocksize) && nbytes % blocksize != 0 { nbytes % blocksize } else { blocksize }
}

/// What one stream of a block decodes to with `cap` bytes of room. A BloscLZ stream that
/// does not decode yields nothing rather than an error.
pub open spec fn stream_decode(compressor: u8, chunk: Seq<u8>, cap: nat) -> Result<Seq<u8>, DecompressError> {
    if compressor == 0 {
        match blosclz_decode(chunk, cap) {
            Some(o) => Ok(o),
            None => Ok(Seq::empty()),
        }
    } else if compressor == 1 || compressor == 2 {
        fitted(lz4_decoded(chunk, cap), cap)
    } else if compressor == 3 {
        fitted(snappy_decoded(chunk, cap), cap)
    } else if compressor == 4 {
        fitted(zlib_decoded(chunk, cap), cap)
    } else if compressor == 5 {
        fitted(zstd_decoded(chunk, cap), cap)
    } else {
        Err(DecompressError::UnsupportedCompressor)
    }
}

/// A codec's answer as a stream result.
pub open spec fn fitted(d: Option<Seq<u8>>, cap: nat) -> Result<Seq<u8>, DecompressError> {
    match d {
        Some(o) => if o.len() <= cap { Ok(o) } else { Err(DecompressError::CodecFailed) },
        None => Err(DecompressError::CodecFailed),
    }
}

/// Decodes the streams of a block's bytes `content` from `off` on, appending to `acc`, with
/// `room` bytes for the whole block.
pub open spec fn chunks_decode(compressor: u8, content: Seq<u8>, off: nat, room: nat, acc: Seq<u8>)
    -> Result<Seq<u8>, DecompressError>
    decreases content.len() - off,
{
    if off >= content.len() {
        Ok(acc)
    } else if off + 4 > content.len() {
        Err(DecompressError::ChunkHeaderTruncated)
    } else {
        let sz = u32_le_at(content, off as int) as nat;
        let st = off + 4;
        if st + sz > content.len() {
            Err(DecompressError::ChunkOverrun)
        } else {
            match stream_decode(compressor, content.subrange(st as int, (st + sz) as int), (room - acc.len()) as nat) {
                Ok(o) => chunks_decode(compressor, content, st + sz, room, acc + o),
                Err(e) => Err(e),
            }
        }
    }
}

/// Offset of block `i` in the table that follows the header.
pub open spec fn bstart_of(s: Seq<u8>, h: FrameHeader, i: nat) -> nat {
    u32_le_at(s, h.hlen + 4 * i) as nat
}

/// The raw (still filtered) bytes of block `i`.
#[verifier::opaque]
pub open spec fn block_raw(s: Seq<u8>, h: FrameHeader, i: nat) -> Result<Seq<u8>, DecompressError> {
    let nb = nblocks_of(h.nbytes as nat, h.blocksize as nat);
    let off = bstart_of(s, h, i);
    let next = if i + 1 < nb { bstart_of(s, h, i + 1) } else { h.cbytes as nat };
    let bn = block_len_of(h.nbytes as nat, h.blocksize as nat, i);
    if next < off {
        Err(DecompressError::BlockOutOfOrder)
    } else if next > s.len() {
        Err(DecompressError::BlockTruncated)
    } else {
        match chunks_decode(h.compressor, s.subrange(off as int, next as int), 0, bn, Seq::empty()) {
            Ok(raw) => if raw.len() == bn { Ok(raw) } else { Err(DecompressError::SizeMismatch) },
            Err(e) => Err(e),
        }
    }
}

/// Block `i` once its filter is undone (`old_block`, what the destination held there, is
/// replaced whole).
#[verifier::opaque]
pub open spec fn block_out(s: Seq<u8>, h: FrameHeader, i: nat, old_block: Seq<u8>) -> Result<Seq<u8>, DecompressError> {
    let bn = block_len_of(h.nbytes as nat, h.blocksize as nat, i);
    let ts = h.typesize as nat;
    match block_raw(s, h, i) {
        Ok(raw) => if h.doshuffle {
            Ok(unshuffled(raw, ts, bn))
        } else if h.dobitshuffle {
            if ts == 0 {
                Err(DecompressError::BitunshuffleFailed)
            } else {
                Ok(bitunshuffle_block(raw, ts, bn))
            }
        } else {
            Ok(raw)
        },
        Err(e) => Err(e),
    }
}

/// The part of `old` that block `i` covers.
pub open spec fn old_block_of(h: FrameHeader, old: Seq<u8>, i: nat) -> Seq<u8> {
    let start = i * h.blocksize;
    old.subrange(start as int, (start + block_len_of(h.nbytes as nat, h.blocksize as nat, i)) as int)
}

/// Blocks `lo .. i` one after the other, each over the part of `old` it covers; the first
/// failing block decides the error.
pub open spec fn blocks_fold(s: Seq<u8>, h: FrameHeader, old: Seq<u8>, lo: nat, i: nat) -> Result<Seq<u8>, DecompressError>
    decreases i,
{
    if i <= lo {
        Ok(Seq::empty())
    } else {
        match blocks_fold(s, h, old, lo, (i - 1) as nat) {
            Ok(acc) => match block_out(s, h, (i - 1) as nat, old_block_of(h, old, (i - 1) as nat)) {
                Ok(b) => Ok(acc + b),
                Err(e) => Err(e),
            },
            Err(e) => Err(e),
        }
    }
}

/// What decompressing `s` over a destination holding `old` leaves there, or the error.
pub open spec fn frame_decode(s: Seq<u8>, old: Seq<u8>) -> Result<Seq<u8>, DecompressError> {
    if s.len() < 16 {
        Err(DecompressError::HeaderTooSmall)
    } else if s.len() < header_len_of(s) {
        Err(DecompressError::ExtendedHeaderTooSmall)
    } else {
        let h = parse_header(s);
        let nb = nblocks_of(h.nbytes as nat, h.blocksize as nat);
        if old.len() < h.nbytes {
            Err(DecompressError::DestinationTooSmall)
        } else if h.memcpyed {
            if s.len() < h.hlen + h.nbytes {
                Err(DecompressError::StoredDataTruncated)
            } else {
                Ok(s.subrange(h.hlen as int, h.hlen + h.nbytes) + old.skip(h.nbytes as int))
            }
        } else if s.len() < h.hlen + 4 * nb {
            Err(DecompressError::BstartsTruncated)
        } else {
            match blocks_fold(s, h, old, 0, nb) {
                Ok(out) => Ok(out + old.skip(out.len() as int)),
                Err(e) => Err(e),
            }
        }
    }
}

/// `n` zero bytes.
pub open spec fn zeros(n: nat) -> Seq<u8> {
    Seq::new(n, |k: int| 0u8)
}

/// The bytes of items `start .. start + nitems` of the buffer `s`, for a destination of
/// `destlen` bytes, or `None` where the request cannot be served. Only the blocks that hold the
/// items are decoded, each over zeros.
pub open spec fn getitem_decode(s: Seq<u8>, start: nat, nitems: nat, destlen: nat) -> Option<Seq<u8>> {
    if s.len() < 16 || s.len() < header_len_of(s) {
        None
    } else {
        let h = parse_header(s);
        let ts = h.typesize as nat;
        let sb = start * ts;
        let eb = (start + nitems) * ts;
        let nb = nblocks_of(h.nbytes as nat, h.blocksize as nat);
        if s.len() < h.cbytes {
            None
        } else if sb > usize::MAX || start + nitems > usize::MAX || eb > usize::MAX {
            None
        } else if eb > h.nbytes || destlen < eb - sb {
            None
        } else if h.memcpyed {
            if s.len() < h.hlen + eb { None } else { Some(s.subrange(h.hlen + sb, h.hlen + eb)) }
        } else if eb == sb {
            Some(Seq::empty())
        } else if h.blocksize == 0 || s.len() < h.hlen + 4 * nb {
            None
        } else {
            let bs = h.blocksize as nat;
            let lo = sb / bs;
            let hi = (eb - 1) as nat / bs + 1;
            match blocks_fold(s, h, zeros(h.nbytes as nat), lo, hi) {
                Ok(b) => Some(b.subrange(sb - lo * bs, eb - lo * bs)),
                Err(_) => None,
            }
        }
    }
}

/// Reads the 32-bit little-endian word at `pos`.
pub fn read_le32(s: &[u8], pos: usize) -> (r: usize)
    requires
        pos + 4 <= s.len(),
    ensures
        r == u32_le_at(s@, pos as int),
{
    let v: u32 = (s[pos] as u32) + (s[pos + 1] as u32) * 256 + (s[pos + 2] as u32) * 65536
        + (s[pos + 3] as u32) * 16777216;
    v as usize
}

/// Reads the header of `src` as [`parse_header`] describes it.
pub fn read_header(src: &[u8]) -> (h: FrameHeader)
    requires
        src.len() >= header_len_of(src@),
        src.len() >= 16,
    ensures
        h == parse_header(src@),
        h.hlen == header_len_of(src@),
{
    let version = src[0];
    let hlen: usize = if version == 3 || version == 4 || version == 5 { 32 } else { 16 };
    let flags = src[2];
    let typesize = src[3] as usize;
    let blocksize = read_le32(src, 8);
    let marker = flags & 1u8 != 0 && flags & 4u8 != 0;
    let mut sh = flags & 1u8 != 0;
    let mut bsh = flags & 4u8 != 0;
    if marker {
        sh = false;
        bsh = false;
        if hlen == 32 {
            let mut k: usize = 16;
            while k < 22
                invariant
                    16 <= k <= 22,
                    src.len() >= 32,
                    sh == (exists|j: int| 16 <= j < k && src@[j] == 1u8),
                    bsh == (exists|j: int| 16 <= j < k && src@[j] == 2u8),
                decreases 22 - k,
            {
                if src[k] == 1 {
                    sh = true;
                } else if src[k] == 2 {
                    bsh = true;
                }
                k += 1;
            }
            assert(sh == filters_contain(src@, 1)) by {
                if sh {
                    let j = choose|j: int| 16 <= j < 22 && src@[j] == 1u8;
                    assert(j == 16 || j == 17 || j == 18 || j == 19 || j == 20 || j == 21);
                } else {
                    assert(!(src@[16] == 1u8) && !(src@[17] == 1u8) && !(src@[18] == 1u8));
                    assert(!(src@[19] == 1u8) && !(src@[20] == 1u8) && !(src@[21] == 1u8));
                }
            }
            assert(bsh == filters_contain(src@, 2)) by {
                if bsh {
                    let j = choose|j: int| 16 <= j < 22 && src@[j] == 2u8;
                    assert(j == 16 || j == 17 || j == 18 || j == 19 || j == 20 || j == 21);
                } else {
                    assert(!(src@[16] == 2u8) && !(src@[17] == 2u8) && !(src@[18] == 2u8));
                    assert(!(src@[19] == 2u8) && !(src@[20] == 2u8) && !(src@[21] == 2u8));
                }
            }
        }
    }
    FrameHeader {
        hlen,
        flags,
        compressor: (flags >> 5u8) & 7u8,
        typesize,
        nbytes: read_le32(src, 4),
        blocksize,
        cbytes: read_le32(src, 12),
        doshuffle: sh && typesize > 1,
        dobitshuffle: bsh && blocksize >= typesize,
        memcpyed: flags & 2u8 != 0,
    }
}

/// Decodes one stream into `out[start..end]`, as [`stream_decode`] describes; nothing outside
/// that range is written.
fn decode_stream(compressor: u8, chunk: &[u8], out: &mut [u8], start: usize, end: usize) -> (r: Result<usize, DecompressError>)
    requires
        start <= end <= old(out).len(),
    ensures
        final(out).len() == old(out).len(),
        forall|k: int| 0 <= k < start || end <= k < old(out).len() ==> final(out)@[k] == old(out)@[k],
        match stream_decode(compressor, chunk@, (end - start) as nat) {
            Ok(o) => r matches Ok(n) && n == o.len() && start + o.len() <= end
                && final(out)@.subrange(start as int, start + o.len()) == o,
            Err(e) => r == Err::<usize, DecompressError>(e),
        },
{
    if compressor == 0 {
        let n = decompress_at(chunk, out, start, end);
        proof {
            if blosclz_decode(chunk@, (end - start) as nat) is None {
                assert(out@.subrange(start as int, start as int) =~= Seq::<u8>::empty());
            }
        }
        Ok(n)
    } else if compressor == 1 || compressor == 2 || compressor == 3 || compressor == 4 || compressor == 5 {
        let d = if compressor == 1 || compressor == 2 {
            lz4_decompress_range(chunk, out, start, end)
        } else if compressor == 3 {
            snappy_decompress_range(chunk, out, start, end)
        } else if compressor == 4 {
            zlib_decompress_range(chunk, out, start, end)
        } else {
            zstd_decompress_range(chunk, out, start, end)
        };
        match d {
            Some(n) => Ok(n),
            None => Err(DecompressError::CodecFailed),
        }
    } else {
        Err(DecompressError::UnsupportedCompressor)
    }
}

/// Decodes the raw bytes of block `i` of `src` into `out[start..start + bn]`, where `bn` is the
/// block's length; nothing outside that range is written.
fn decode_block(src: &[u8], h: &FrameHeader, i: usize, out: &mut [u8], start: usize) -> (r: Result<(), DecompressError>)
    requires
        *h == parse_header(src@),
        src.len() >= h.hlen + 4 * nblocks_of(h.nbytes as nat, h.blocksize as nat),
        i < nblocks_of(h.nbytes as nat, h.blocksize as nat),
        start + block_len_of(h.nbytes as nat, h.blocksize as nat, i as nat) <= old(out).len(),
    ensures
        final(out).len() == old(out).len(),
        forall|k: int| 0 <= k < start || start + block_len_of(h.nbytes as nat, h.blocksize as nat, i as nat) <= k < old(out).len()
            ==> final(out)@[k] == old(out)@[k],
        match block_raw(src@, *h, i as nat) {
            Ok(raw) => r is Ok && final(out)@.subrange(start as int, start + raw.len()) == raw,
            Err(e) => r == Err::<(), DecompressError>(e),
        },
{
    let ghost nb = nblocks_of(h.nbytes as nat, h.blocksize as nat);
    proof { reveal(block_raw); }
    let nblocks = h.nbytes / h.blocksize + if h.nbytes % h.blocksize != 0 { 1usize } else { 0usize };
    assert(nblocks == nb);
    let off = read_le32(src, h.hlen + 4 * i);
    let next = if i + 1 < nblocks { read_le32(src, h.hlen + 4 * (i + 1)) } else { h.cbytes };
    let bn = if i + 1 == nblocks && h.nbytes % h.blocksize != 0 { h.nbytes % h.blocksize } else { h.blocksize };
    assert(bn == block_len_of(h.nbytes as nat, h.blocksize as nat, i as nat));
    if next < off {
        return Err(DecompressError::BlockOutOfOrder);
    }
    if next > src.len() {
        return Err(DecompressError::BlockTruncated);
    }
    let content = &src[off..next];
    let ghost total = chunks_decode(h.compressor, content@, 0, bn as nat, Seq::empty());
    let ghost braw = block_raw(src@, *h, i as nat);
    assert(braw == match total {
        Ok(raw) => if raw.len() == bn { Ok(raw) } else { Err(DecompressError::SizeMismatch) },
        Err(e) => Err(e),
    });
    let mut coff: usize = 0;
    let mut filled: usize = 0;
    assert(out@.subrange(start as int, start as int) =~= Seq::<u8>::empty());
    while coff < content.len()
        invariant
            braw == block_raw(src@, *h, i as nat),
            braw == match total {
                Ok(raw) => if raw.len() == bn { Ok(raw) } else { Err(DecompressError::SizeMismatch) },
                Err(e) => Err(e),
            },
            bn == block_len_of(h.nbytes as nat, h.blocksize as nat, i as nat),
            coff <= content.len(),
            filled <= bn,
            start + bn <= out.len(),
            out.len() == old(out).len(),
            forall|k: int| 0 <= k < start || start + bn <= k < old(out).len() ==> out@[k] == old(out)@[k],
            total == chunks_decode(h.compressor, content@, 0, bn as nat, Seq::empty()),
            total == chunks_decode(h.compressor, content@, coff as nat, bn as nat,
                out@.subrange(start as int, start + filled)),
        decreases content.len() - coff,
    {
        let ghost acc = out@.subrange(start as int, start + filled);
        if content.len() - coff < 4 {
            return Err(DecompressError::ChunkHeaderTruncated);
        }
        let sz = read_le32(content, coff);
        let st = coff + 4;
        if sz > content.len() - st {
            return Err(DecompressError::ChunkOverrun);
        }
        let chunk = &content[st..st + sz];
        assert(chunk@ == content@.subrange(st as int, (st + sz) as int));
        let n = decode_stream(h.compressor, chunk, out, start + filled, start + bn);
        match n {
            Ok(n) => {
                proof {
                    let o = out@.subrange(start + filled, start + filled + n);
                    assert(out@.subrange(start as int, start + filled + n) =~= acc + o);
                }
                filled = filled + n;
                coff = st + sz;
            },
            Err(e) => {
                return Err(e);
            },
        }
    }
    if filled != bn {
        return Err(DecompressError::SizeMismatch);
    }
    Ok(())
}

/// Where block `i` sits: it starts at `i * blocksize`, every block but the last is a full
/// block, and the last one ends at `nbytes`.
pub proof fn lemma_block_geometry(nbytes: nat, blocksize: nat, i: nat)
    requires
        blocksize > 0,
        i < nblocks_of(nbytes, blocksize),
    ensures
        0 < block_len_of(nbytes, blocksize, i) <= blocksize,
        i * blocksize + block_len_of(nbytes, blocksize, i) <= nbytes,
        i + 1 < nblocks_of(nbytes, blocksize) ==> block_len_of(nbytes, blocksize, i) == blocksize,
        i + 1 == nblocks_of(nbytes, blocksize) ==> i * blocksize + block_len_of(nbytes, blocksize, i) == nbytes,
{
    let q = nbytes / blocksize;
    let r = nbytes % blocksize;
    vstd::arithmetic::div_mod::lemma_fundamental_div_mod(nbytes as int, blocksize as int);
    assert(blocksize * q == q * blocksize) by (nonlinear_arith);
    if r != 0 {
        if i < q {
            assert(i * blocksize + blocksize <= q * blocksize) by (nonlinear_arith)
                requires i < q, blocksize > 0;
        }
        assert(i * blocksize == q * blocksize ==> i == q) by (nonlinear_arith)
            requires blocksize > 0;
    } else {
        assert(i * blocksize + blocksize <= q * blocksize) by (nonlinear_arith)
            requires i + 1 <= q, blocksize > 0;
        assert(i + 1 == q ==> (i + 1) * blocksize == q * blocksize);
        assert((i + 1) * blocksize == i * blocksize + blocksize) by (nonlinear_arith);
    }
}

/// Past the header checks, decoding a buffer that is not stored as is comes down to its blocks.
pub proof fn lemma_frame_blocks(s: Seq<u8>, old: Seq<u8>)
    requires
        s.len() >= 16,
        s.len() >= header_len_of(s),
        old.len() >= parse_header(s).nbytes,
        !parse_header(s).memcpyed,
        s.len() >= parse_header(s).hlen + 4 * nblocks_of(parse_header(s).nbytes as nat, parse_header(s).blocksize as nat),
    ensures
        frame_decode(s, old) == match blocks_fold(s, parse_header(s), old, 0,
            nblocks_of(parse_header(s).nbytes as nat, parse_header(s).blocksize as nat)) {
            Ok(out) => Ok(out + old.skip(out.len() as int)),
            Err(e) => Err(e),
        },
{
}

/// Once a block fails, the blocks after it do not change the outcome.
pub proof fn lemma_fold_err_sticks(s: Seq<u8>, h: FrameHeader, old: Seq<u8>, lo: nat, i: nat, j: nat)
    requires
        blocks_fold(s, h, old, lo, i) is Err,
        i <= j,
    ensures
        blocks_fold(s, h, old, lo, j) == blocks_fold(s, h, old, lo, i),
    decreases j - i,
{
    if i < j {
        lemma_fold_err_sticks(s, h, old, lo, i, (j - 1) as nat);
        if j <= lo {
            assert(false);
        }
    }
}

/// A decoded block has the block's length.
pub proof fn lemma_block_out_len(s: Seq<u8>, h: FrameHeader, i: nat, old_block: Seq<u8>)
    requires
        old_block.len() == block_len_of(h.nbytes as nat, h.blocksize as nat, i),
    ensures
        block_out(s, h, i, old_block) matches Ok(b) ==> b.len() == old_block.len(),
{
    let bn = block_len_of(h.nbytes as nat, h.blocksize as nat, i);
    let ts = h.typesize as nat;
    reveal(block_out);
    reveal(block_raw);
    if block_out(s, h, i, old_block) is Ok && !h.doshuffle && h.dobitshuffle {
        let q = bn / ts;
        let size = crate::filters::dispatch::bit_elems(ts, bn);
        lemma_div_mul_le(bn as int, ts as int);
        assert(size * ts <= q * ts) by (nonlinear_arith) requires size <= q, ts > 0;
    }
}

/// Block `i` with its filter undone, over the destination bytes `old_block` it replaces.
pub(crate) fn block_output(src: &[u8], h: &FrameHeader, i: usize, old_block: &[u8]) -> (r: Result<Vec<u8>, DecompressError>)
    requires
        *h == parse_header(src@),
        src.len() >= h.hlen + 4 * nblocks_of(h.nbytes as nat, h.blocksize as nat),
        i < nblocks_of(h.nbytes as nat, h.blocksize as nat),
        old_block.len() == block_len_of(h.nbytes as nat, h.blocksize as nat, i as nat),
    ensures
        match block_out(src@, *h, i as nat, old_block@) {
            Ok(b) => r matches Ok(v) && v@ == b && b.len() == old_block.len(),
            Err(e) => r == Err::<Vec<u8>, DecompressError>(e),
        },
{
    let nblocks = h.nbytes / h.blocksize + if h.nbytes % h.blocksize != 0 { 1usize } else { 0usize };
    let bn = if i + 1 == nblocks && h.nbytes % h.blocksize != 0 { h.nbytes % h.blocksize } else { h.blocksize };
    proof {
        lemma_block_out_len(src@, *h, i as nat, old_block@);
        reveal(block_out);
        reveal(block_raw);
    }
    let mut raw = vec![0u8; bn];
    match decode_block(src, h, i, &mut raw, 0) {
        Ok(()) => {},
        Err(e) => {
            return Err(e);
        },
    }
    proof {
        if let Ok(rs) = block_raw(src@, *h, i as nat) {
            assert(raw@ =~= raw@.subrange(0, rs.len() as int));
        }
    }
    if h.doshuffle {
        let mut out = vec![0u8; bn];
        unshuffle(h.typesize, bn, &raw, &mut out);
        assert(out@ =~= unshuffled(raw@, h.typesize as nat, bn as nat));
        Ok(out)
    } else if h.dobitshuffle {
        if h.typesize == 0 {
            return Err(DecompressError::BitunshuffleFailed);
        }
        let mut out = vec![0u8; bn];
        bitunshuffle_block_into(h.typesize, bn, &raw, &mut out);
        assert(out@ =~= bitunshuffle_block(raw@, h.typesize as nat, bn as nat));
        Ok(out)
    } else {
        Ok(raw)
    }
}

/// Copies `src[from..from + len]` over `dst[at..at + len]`.
pub fn copy_range(dst: &mut [u8], at: usize, src: &[u8], from: usize, len: usize)
    requires
        at + len <= old(dst).len(),
        from + len <= src.len(),
    ensures
        final(dst)@ == old(dst)@.subrange(0, at as int) + src@.subrange(from as int, from + len)
            + old(dst)@.skip(at + len),
{
    let mut k: usize = 0;
    while k < len
        invariant
            k <= len,
            at + len <= dst.len(),
            from + len <= src.len(),
            dst.len() == old(dst).len(),
            forall|j: int| 0 <= j < at || at + len <= j < dst.len() ==> dst@[j] == old(dst)@[j],
            forall|j: int| at <= j < at + k ==> #[trigger] dst@[j] == src@[from + (j - at)],
        decreases len - k,
    {
        dst[at + k] = src[from + k];
        k += 1;
    }
    assert(dst@ =~= old(dst)@.subrange(0, at as int) + src@.subrange(from as int, from + len)
        + old(dst)@.skip(at + len));
}

} // verus!
