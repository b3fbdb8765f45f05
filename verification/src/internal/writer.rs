//! Building a compressed buffer: block size, flags, header, streams and the stored fallback.
use vstd::prelude::*;
use crate::codecs::blosclz::{compress_at, u32_le_at, blosclz_result, blosclz_stream};
use crate::codecs::outside::{lz4_compress_at, snappy_compress_at, zlib_compress_at, zstd_compress_at};
use crate::codecs::outside::{lz4_compressed, snappy_compressed, zlib_compressed, zstd_compressed};
use crate::internal::frame::{DecompressError, stream_decode, chunks_decode, nblocks_of, block_len_of, zeros};
use crate::internal::frame::{FrameHeader, parse_header, frame_decode, blocks_fold, block_out, block_raw, old_block_of, bstart_of, filters_contain, header_len_of, lemma_block_geometry, copy_range};
use crate::filters::lemma_unshuffle_shuffle;
use crate::filters::dispatch::{bitshuffle_block, bitshuffle_block_into, bitunshuffle_block, lemma_blosc2_bitunshuffle_bitshuffle, lemma_bitshuffle_block_short};
use crate::filters::{shuffled, shuffle};

verus! {

/// The block size chosen for `nbytes` bytes of `typesize`-byte items: the whole buffer below
/// 32 KiB, else a multiple of 32 KiB picked by level and codec (doubled for the codecs that
/// compress harder), never more than the buffer and rounded down to whole items.
pub open spec fn blocksize_spec(clevel: i32, typesize: nat, nbytes: nat, compressor: u8) -> nat {
    if nbytes < typesize {
        if nbytes > 1 { nbytes } else { 1 }
    } else {
        let hcr = compressor == 2 || compressor == 4 || compressor == 5;
        let b0: nat = if nbytes >= 32768 {
            let b: nat = if hcr { 65536 } else { 32768 };
            if clevel == 0 {
                b / 4
            } else if clevel == 1 {
                b / 2
            } else if clevel == 2 {
                b
            } else if clevel == 3 {
                2 * b
            } else if clevel == 4 || clevel == 5 {
                4 * b
            } else if 6 <= clevel <= 8 {
                8 * b
            } else if clevel == 9 {
                if hcr { 16 * b } else { 8 * b }
            } else {
                b
            }
        } else {
            nbytes
        };
        let b1 = if b0 > nbytes { nbytes } else { b0 };
        if b1 > typesize { (b1 / typesize) * typesize } else { b1 }
    }
}

/// Computes [`blocksize_spec`].
pub fn compute_blocksize(clevel: i32, typesize: usize, nbytes: usize, compressor: u8) -> (r: usize)
    requires
        typesize > 0,
    ensures
        r == blocksize_spec(clevel, typesize as nat, nbytes as nat, compressor),
{
    if nbytes < typesize {
        return if nbytes > 1 { nbytes } else { 1 };
    }
    let mut blocksize = nbytes;
    if nbytes >= 32768 {
        blocksize = 32768;
        let is_hcr = compressor == 2 || compressor == 4 || compressor == 5;
        if is_hcr {
            blocksize = blocksize * 2;
        }
        if clevel == 0 {
            blocksize = blocksize / 4;
        } else if clevel == 1 {
            blocksize = blocksize / 2;
        } else if clevel == 2 {
        } else if clevel == 3 {
            blocksize = blocksize * 2;
        } else if clevel == 4 || clevel == 5 {
            blocksize = blocksize * 4;
        } else if 6 <= clevel && clevel <= 8 {
            blocksize = blocksize * 8;
        } else if clevel == 9 {
            blocksize = blocksize * 8;
            if is_hcr {
                blocksize = blocksize * 2;
            }
        }
    }
    if blocksize > nbytes {
        blocksize = nbytes;
    }
    if blocksize > typesize {
        proof { crate::arith::lemma_div_mul_le(blocksize as int, typesize as int); }
        blocksize = (blocksize / typesize) * typesize;
    }
    blocksize
}

/// `b` cut to whole `ts`-byte items, where it holds more than one item.
pub open spec fn whole_items(b: nat, ts: nat) -> nat {
    if b > ts { (b / ts) * ts } else { b }
}

/// The block sizes by level: with at least 32 KiB of data and no more than the data, blocks of
/// 8, 16, 32, 64, 128, 256 and 256 KiB at levels 0, 1, 2, 3, 4 and 5, 6 to 8, and 9 (other
/// levels: 32 KiB), twice as large for LZ4HC, Zlib and Zstd, except that their level 9 takes
/// 1 MiB; always cut to whole items; the whole buffer below 32 KiB; and at least one byte. A
/// block is never larger than the buffer (or one byte), and holds whole items where it holds
/// more than one.
pub proof fn lemma_blocksize_table(clevel: i32, ts: nat, n: nat, compressor: u8)
    requires
        ts >= 1,
    ensures
        ({
            let bs = blocksize_spec(clevel, ts, n, compressor);
            let hcr = compressor == 2 || compressor == 4 || compressor == 5;
            let cap = |b: nat| whole_items(if b <= n { b } else { n }, ts);
            &&& n < ts ==> bs == if n > 1 { n } else { 1 }
            &&& ts <= n < 32768 ==> bs == whole_items(n, ts)
            &&& (ts <= n && n >= 32768) ==> {
                &&& clevel == 0 ==> bs == cap(if hcr { 16384 } else { 8192 })
                &&& clevel == 1 ==> bs == cap(if hcr { 32768 } else { 16384 })
                &&& clevel == 2 ==> bs == cap(if hcr { 65536 } else { 32768 })
                &&& clevel == 3 ==> bs == cap(if hcr { 131072 } else { 65536 })
                &&& (clevel == 4 || clevel == 5) ==> bs == cap(if hcr { 262144 } else { 131072 })
                &&& (6 <= clevel <= 8) ==> bs == cap(if hcr { 524288 } else { 262144 })
                &&& clevel == 9 ==> bs == cap(if hcr { 1048576 } else { 262144 })
                &&& (clevel < 0 || clevel > 9) ==> bs == cap(if hcr { 65536 } else { 32768 })
            }
            &&& 1 <= bs
            &&& bs <= if n > 1 { n } else { 1 }
            &&& bs > ts ==> bs % ts == 0
        }),
{
    let bs = blocksize_spec(clevel, ts, n, compressor);
    if n >= ts {
        let hcr = compressor == 2 || compressor == 4 || compressor == 5;
        let b: nat = if hcr { 65536 } else { 32768 };
        let b0: nat = if n >= 32768 {
            if clevel == 0 { b / 4 } else if clevel == 1 { b / 2 } else if clevel == 2 { b } else if clevel == 3 {
                2 * b
            } else if clevel == 4 || clevel == 5 { 4 * b } else if 6 <= clevel <= 8 { 8 * b } else if clevel == 9 {
                if hcr { 16 * b } else { 8 * b }
            } else { b }
        } else { n };
        let b1: nat = if b0 > n { n } else { b0 };
        assert(bs == whole_items(b1, ts));
        if b1 > ts {
            vstd::arithmetic::div_mod::lemma_fundamental_div_mod(b1 as int, ts as int);
            assert((b1 / ts) * ts <= b1) by (nonlinear_arith)
                requires b1 == ts * (b1 / ts) + b1 % ts, b1 % ts >= 0;
            assert(b1 / ts >= 1) by (nonlinear_arith)
                requires b1 > ts, ts >= 1;
            assert((b1 / ts) * ts >= ts) by (nonlinear_arith)
                requires b1 / ts >= 1, ts >= 1;
            vstd::arithmetic::div_mod::lemma_mod_multiples_basic((b1 / ts) as int, ts as int);
        }
    }
}

/// The shuffle flags that a compression call starts from: the filter asked for, or both bits
/// (the mark of an extended header, whose filter slots then say which filter applies).
pub open spec fn base_flags(doshuffle: i32, extended: bool) -> u8 {
    let f: u8 = if doshuffle == 1 { 1u8 } else if doshuffle == 2 { 4u8 } else { 0u8 };
    if extended { f | 5u8 } else { f }
}

/// Whether a block is compressed as one stream per item byte: only under byte shuffle, for
/// BloscLZ, LZ4 and fast Zstd, items of at most 16 bytes and at least 32 items per block.
pub open spec fn split_spec(compressor: u8, clevel: i32, typesize: nat, blocksize: nat, flags: u8) -> bool {
    flags & 1u8 != 0 && (compressor == 0 || compressor == 1 || (compressor == 5 && clevel <= 5))
        && typesize <= 16 && blocksize / typesize >= 32
}

/// Computes [`split_spec`].
pub fn split_block(compressor: u8, clevel: i32, typesize: usize, blocksize: usize, filter_flags: u8) -> (r: bool)
    requires
        typesize > 0,
    ensures
        r == split_spec(compressor, clevel, typesize as nat, blocksize as nat, filter_flags),
{
    if filter_flags & 1u8 == 0 {
        return false;
    }
    let split = compressor == 0 || compressor == 1 || (compressor == 5 && clevel <= 5);
    split && typesize <= 16 && blocksize / typesize >= 32
}

/// The flag bits that the two shuffle filters stand for, from a list of filter slots.
pub open spec fn flags_of_filters(filters: Seq<u8>) -> u8 {
    (if filters.contains(1u8) { 1u8 } else { 0u8 }) | (if filters.contains(2u8) { 4u8 } else { 0u8 })
}

/// Computes [`flags_of_filters`] for six filter slots.
pub fn filters_to_flags(filters: &[u8; 6]) -> (r: u8)
    ensures
        r == flags_of_filters(filters@),
{
    let mut has_shuffle = false;
    let mut has_bitshuffle = false;
    let mut k: usize = 0;
    while k < 6
        invariant
            k <= 6,
            filters@.len() == 6,
            has_shuffle == filters@.subrange(0, k as int).contains(1u8),
            has_bitshuffle == filters@.subrange(0, k as int).contains(2u8),
        decreases 6 - k,
    {
        let f = filters[k];
        proof {
            let p = filters@.subrange(0, k as int);
            let q = filters@.subrange(0, k + 1);
            assert(q =~= p.push(f));
            assert(q.contains(1u8) == (p.contains(1u8) || f == 1u8)) by {
                if f == 1u8 { assert(q[k as int] == f); }
                if q.contains(1u8) && f != 1u8 {
                    let j = choose|j: int| 0 <= j < q.len() && q[j] == 1u8;
                    assert(p[j] == 1u8);
                }
                if p.contains(1u8) {
                    let j = choose|j: int| 0 <= j < p.len() && p[j] == 1u8;
                    assert(q[j] == 1u8);
                }
            }
            assert(q.contains(2u8) == (p.contains(2u8) || f == 2u8)) by {
                if f == 2u8 { assert(q[k as int] == f); }
                if q.contains(2u8) && f != 2u8 {
                    let j = choose|j: int| 0 <= j < q.len() && q[j] == 2u8;
                    assert(p[j] == 2u8);
                }
                if p.contains(2u8) {
                    let j = choose|j: int| 0 <= j < p.len() && p[j] == 2u8;
                    assert(q[j] == 2u8);
                }
            }
        }
        if f == 1 {
            has_shuffle = true;
        } else if f == 2 {
            has_bitshuffle = true;
        }
        k += 1;
    }
    assert(filters@.subrange(0, 6) =~= filters@);
    (if has_shuffle { 1u8 } else { 0u8 }) | (if has_bitshuffle { 4u8 } else { 0u8 })
}

/// The four little-endian bytes of `v`.
pub open spec fn le32_bytes(v: u32) -> Seq<u8> {
    seq![(v % 256) as u8, ((v / 256) % 256) as u8, ((v / 65536) % 256) as u8, (v / 16777216) as u8]
}

/// Reading back the four bytes of a word gives the word.
pub proof fn lemma_le32_roundtrip(s: Seq<u8>, pos: int, v: u32)
    requires
        0 <= pos,
        pos + 4 <= s.len(),
        s.subrange(pos, pos + 4) == le32_bytes(v),
    ensures
        u32_le_at(s, pos) == v,
{
    assert(s[pos] == le32_bytes(v)[0]);
    assert(s[pos + 1] == le32_bytes(v)[1]);
    assert(s[pos + 2] == le32_bytes(v)[2]);
    assert(s[pos + 3] == le32_bytes(v)[3]);
    assert((v % 256) as u8 as int + ((v / 256) % 256) as u8 as int * 256 + ((v / 65536) % 256) as u8 as int * 65536
        + (v / 16777216) as u8 as int * 16777216 == v) by (bit_vector);
}

/// Writes the four little-endian bytes of `v` at `pos`.
pub fn write_le32(dest: &mut [u8], pos: usize, v: u32)
    requires
        pos + 4 <= old(dest).len(),
    ensures
        final(dest)@ == old(dest)@.subrange(0, pos as int) + le32_bytes(v) + old(dest)@.skip(pos + 4),
{
    dest[pos] = (v % 256) as u8;
    dest[pos + 1] = ((v / 256) % 256) as u8;
    dest[pos + 2] = ((v / 65536) % 256) as u8;
    dest[pos + 3] = (v / 16777216) as u8;
    assert(dest@ =~= old(dest)@.subrange(0, pos as int) + le32_bytes(v) + old(dest)@.skip(pos + 4));
}

/// The header bytes: version, codec format version, flags with the codec in the top three
/// bits, item size, then uncompressed size, block size and compressed size; an extended header
/// adds the six filter slots, the codec, a codec meta byte, the six filter meta bytes and two
/// reserved bytes.
pub open spec fn header_bytes(extended: bool, nbytes: usize, blocksize: usize, cbytes: usize, typesize: usize,
    flags: u8, compressor: u8, filters: Seq<u8>, meta: Seq<u8>) -> Seq<u8> {
    let base = header_base(extended, nbytes, blocksize, cbytes, typesize, flags, compressor);
    if extended { base + filters + seq![compressor, 0u8] + meta + seq![0u8, 0u8] } else { base }
}

/// The first 16 bytes of [`header_bytes`].
pub open spec fn header_base(extended: bool, nbytes: usize, blocksize: usize, cbytes: usize, typesize: usize,
    flags: u8, compressor: u8) -> Seq<u8> {
    seq![if extended { 5u8 } else { 2u8 }, 1u8, flags | (compressor << 5u8), typesize as u8]
        + le32_bytes(nbytes as u32) + le32_bytes(blocksize as u32) + le32_bytes(cbytes as u32)
}

/// Writes [`header_bytes`] at the start of `dest`.
fn write_header(dest: &mut [u8], extended: bool, nbytes: usize, blocksize: usize, cbytes: usize, typesize: usize,
    flags: u8, compressor: u8, filters: &[u8; 6], meta: &[u8; 6])
    requires
        old(dest).len() >= if extended { 32usize } else { 16usize },
    ensures
        final(dest)@ == header_bytes(extended, nbytes, blocksize, cbytes, typesize, flags, compressor, filters@, meta@)
            + old(dest)@.skip(if extended { 32int } else { 16int }),
{
    let nb = nbytes as u32;
    let bs = blocksize as u32;
    let cb = cbytes as u32;
    dest[0] = if extended { 5 } else { 2 };
    dest[1] = 1;
    dest[2] = flags | (compressor << 5u8);
    dest[3] = typesize as u8;
    dest[4] = (nb % 256) as u8;
    dest[5] = ((nb / 256) % 256) as u8;
    dest[6] = ((nb / 65536) % 256) as u8;
    dest[7] = (nb / 16777216) as u8;
    dest[8] = (bs % 256) as u8;
    dest[9] = ((bs / 256) % 256) as u8;
    dest[10] = ((bs / 65536) % 256) as u8;
    dest[11] = (bs / 16777216) as u8;
    dest[12] = (cb % 256) as u8;
    dest[13] = ((cb / 256) % 256) as u8;
    dest[14] = ((cb / 65536) % 256) as u8;
    dest[15] = (cb / 16777216) as u8;
    let ghost hb = header_base(extended, nbytes, blocksize, cbytes, typesize, flags, compressor);
    assert(dest@ =~= hb + old(dest)@.skip(16));
    if extended {
        let mut k: usize = 0;
        while k < 6
            invariant
                k <= 6,
                dest.len() == old(dest).len(),
                dest.len() >= 32,
                filters@.len() == 6,
                meta@.len() == 6,
                hb.len() == 16,
                forall|j: int| 0 <= j < 16 ==> #[trigger] dest@[j] == hb[j],
                forall|j: int| 16 + k <= j < 24 || 24 + k <= j < dest.len() ==> #[trigger] dest@[j] == old(dest)@[j],
                forall|j: int| 0 <= j < k ==> dest@[16 + j] == filters@[j] && dest@[24 + j] == meta@[j],
            decreases 6 - k,
        {
            dest[16 + k] = filters[k];
            dest[24 + k] = meta[k];
            k += 1;
        }
        dest[22] = compressor;
        dest[23] = 0;
        dest[30] = 0;
        dest[31] = 0;
    }
    assert(dest@ =~= header_bytes(extended, nbytes, blocksize, cbytes, typesize, flags, compressor, filters@, meta@)
        + old(dest)@.skip(if extended { 32int } else { 16int }));
}

/// The codecs that this library can write.
pub open spec fn known_compressor(c: u8) -> bool {
    c == 0 || c == 1 || c == 3 || c == 4 || c == 5
}

/// Whether `from .. to` of `d` is a list of streams that decodes, with `room` bytes for the
/// block, to `expect`.
pub open spec fn region_ok(comp: u8, d: Seq<u8>, from: nat, to: nat, room: nat, expect: Seq<u8>) -> bool {
    from <= to <= d.len() && chunks_decode(comp, d.subrange(from as int, to as int), 0, room, Seq::empty())
        == Ok::<Seq<u8>, DecompressError>(expect)
}

/// Appending one stream record to a list of streams appends what the stream decodes to.
pub proof fn lemma_chunks_append(comp: u8, c1: Seq<u8>, rec: Seq<u8>, off: nat, room: nat, acc: Seq<u8>,
    a1: Seq<u8>, o: Seq<u8>)
    requires
        off <= c1.len(),
        chunks_decode(comp, c1, off, room, acc) == Ok::<Seq<u8>, DecompressError>(a1),
        rec.len() >= 4,
        u32_le_at(rec, 0) == rec.len() - 4,
        stream_decode(comp, rec.subrange(4, rec.len() as int), (room - a1.len()) as nat) == Ok::<Seq<u8>, DecompressError>(o),
    ensures
        chunks_decode(comp, c1 + rec, off, room, acc) == Ok::<Seq<u8>, DecompressError>(a1 + o),
    decreases c1.len() - off,
{
    let t = c1 + rec;
    let p = off as int;
    if off == c1.len() {
        assert(a1 == acc);
        assert(t[p] == rec[0] && t[p + 1] == rec[1] && t[p + 2] == rec[2] && t[p + 3] == rec[3]);
        assert(u32_le_at(t, p) == u32_le_at(rec, 0));
        assert(t.subrange(p + 4, t.len() as int) =~= rec.subrange(4, rec.len() as int));
        assert(chunks_decode(comp, t, t.len(), room, acc + o) == Ok::<Seq<u8>, DecompressError>(acc + o));
    } else {
        let sz = u32_le_at(c1, off as int) as nat;
        let st = off + 4;
        assert(off + 4 <= c1.len());
        assert(t[p] == c1[p] && t[p + 1] == c1[p + 1] && t[p + 2] == c1[p + 2] && t[p + 3] == c1[p + 3]);
        assert(u32_le_at(t, off as int) == u32_le_at(c1, off as int));
        assert(st + sz <= c1.len());
        assert(t.subrange(st as int, (st + sz) as int) =~= c1.subrange(st as int, (st + sz) as int));
        let o1 = stream_decode(comp, c1.subrange(st as int, (st + sz) as int), (room - acc.len()) as nat)->Ok_0;
        lemma_chunks_append(comp, c1, rec, st + sz, room, acc + o1, a1, o);
    }
}

/// What the codec writes for `part` into `room` bytes of output, or `None` where it fails:
/// BloscLZ (which fails by writing nothing), LZ4, Snappy, and Zlib and Zstd at the level.
#[verifier::opaque]
pub open spec fn codec_output(compressor: u8, clevel: i32, part: Seq<u8>, room: int) -> Option<Seq<u8>> {
    if compressor == 0 {
        if blosclz_result(part, clevel, room) > 0 { Some(blosclz_stream(part, clevel)) } else { None }
    } else if compressor == 1 {
        lz4_compressed(part, room as nat)
    } else if compressor == 3 {
        snappy_compressed(part, room as nat)
    } else if compressor == 4 {
        zlib_compressed(part, clevel as u32, room as nat)
    } else if compressor == 5 {
        zstd_compressed(part, clevel, room as nat)
    } else {
        None
    }
}

/// The stream kept for `part`: what the codec writes, where that is not empty and shorter than
/// `part`.
pub open spec fn stream_result(compressor: u8, clevel: i32, part: Seq<u8>, room: int) -> Option<Seq<u8>> {
    match codec_output(compressor, clevel, part, room) {
        Some(s) => if 0 < s.len() < part.len() { Some(s) } else { None },
        None => None,
    }
}

/// The records of the first `j` of the `ns` equal streams of `filtered`, written one after the
/// other from `at` on in a buffer of `destlen` bytes: each stream's size in four bytes, then the
/// stream. `None` where the size does not fit or a stream is not kept.
#[verifier::opaque]
pub open spec fn streams_upto(compressor: u8, clevel: i32, filtered: Seq<u8>, ns: nat, j: nat, at: int,
    destlen: int) -> Option<Seq<u8>>
    decreases j,
{
    if j == 0 {
        Some(Seq::empty())
    } else {
        match streams_upto(compressor, clevel, filtered, ns, (j - 1) as nat, at, destlen) {
            None => None,
            Some(prev) => {
                let pos = at + prev.len();
                let w = filtered.len() / ns;
                let part = filtered.subrange((j - 1) * w, (j * w) as int);
                if destlen - pos < 4 {
                    None
                } else {
                    match stream_result(compressor, clevel, part, destlen - pos - 4) {
                        None => None,
                        Some(st) => Some(prev + le32_bytes(st.len() as u32) + st),
                    }
                }
            },
        }
    }
}

/// The records of `j + 1` streams are those of `j` streams and the next one.
proof fn lemma_streams_next(compressor: u8, clevel: i32, filtered: Seq<u8>, ns: nat, j: nat, at: int, destlen: int,
    prev: Seq<u8>)
    requires
        streams_upto(compressor, clevel, filtered, ns, j, at, destlen) == Some(prev),
    ensures
        ({
            let pos = at + prev.len();
            let w = filtered.len() / ns;
            let part = filtered.subrange((j * w) as int, ((j + 1) * w) as int);
            streams_upto(compressor, clevel, filtered, ns, j + 1, at, destlen) == if destlen - pos < 4 {
                None
            } else {
                match stream_result(compressor, clevel, part, destlen - pos - 4) {
                    None => None,
                    Some(st) => Some(prev + le32_bytes(st.len() as u32) + st),
                }
            }
        }),
{
    reveal(streams_upto);
    let j1 = (j + 1) as nat;
    assert((j1 - 1) as nat == j);
    let w = filtered.len() / ns;
    assert((j1 - 1) * w == j * w) by (nonlinear_arith)
        requires j1 - 1 == j;
    assert((j1 * w) as int == (j + 1) * w);
}

/// Once a stream is not kept, the block is not.
pub proof fn lemma_streams_none(compressor: u8, clevel: i32, filtered: Seq<u8>, ns: nat, j: nat, k: nat, at: int,
    destlen: int)
    requires
        j <= k,
        streams_upto(compressor, clevel, filtered, ns, j, at, destlen) is None,
    ensures
        streams_upto(compressor, clevel, filtered, ns, k, at, destlen) is None,
    decreases k - j,
{
    reveal(streams_upto);
    if j < k {
        lemma_streams_none(compressor, clevel, filtered, ns, j, (k - 1) as nat, at, destlen);
    }
}

/// Compresses `input` as one stream: its bytes go to `dest[at + 4..]` and their count to
/// `dest[at..at + 4]`. `Ok(Some(e))` gives the end of the record, whose stream is
/// [`stream_result`]; `Ok(None)` means that the codec failed or did not shrink the input;
/// `Err(-1)` comes for a codec that this library does not write and where the Zstd encoder
/// cannot be set up.
#[verifier::spinoff_prover]
#[verifier::rlimit(100)]
fn compress_stream(compressor: u8, clevel: i32, input: &[u8], dest: &mut [u8], at: usize) -> (r: Result<Option<usize>, i32>)
    requires
        at + 4 <= old(dest).len(),
        compressor == 0 && input.len() >= 16 ==> 0 <= clevel <= 9,
        compressor == 4 ==> 0 <= clevel <= 10,
    ensures
        final(dest).len() == old(dest).len(),
        forall|k: int| 0 <= k < at ==> final(dest)@[k] == old(dest)@[k],
        match r {
            Ok(Some(e)) => at + 4 < e <= old(dest).len() && e - at - 4 < input.len()
                && u32_le_at(final(dest)@, at as int) == ((e - at - 4) as u32)
                && (forall|cap: nat| cap >= input.len()
                    ==> #[trigger] stream_decode(compressor, final(dest)@.subrange(at + 4, e as int), cap)
                        == Ok::<Seq<u8>, DecompressError>(input@)),
            Ok(None) => true,
            Err(c) => c == -1 && (compressor == 5 || !known_compressor(compressor)),
        },
        r matches Ok(Some(e)) ==> stream_result(compressor, clevel, input@, old(dest).len() - at - 4)
            == Some(final(dest)@.subrange(at + 4, e as int))
            && final(dest)@.subrange(at as int, at + 4) == le32_bytes((e - at - 4) as u32),
        r == Ok::<Option<usize>, i32>(None) ==> stream_result(compressor, clevel, input@, old(dest).len() - at - 4)
            is None,
        !known_compressor(compressor) ==> r == Err::<Option<usize>, i32>(-1i32),
{
    let start = at + 4;
    proof { reveal(codec_output); }
    let csize: usize = if compressor == 0 {
        compress_at(clevel, input, dest, start)
    } else if compressor == 1 {
        match lz4_compress_at(input, dest, start) {
            Some(n) => n,
            None => 0,
        }
    } else if compressor == 3 {
        match snappy_compress_at(input, dest, start) {
            Some(n) => n,
            None => 0,
        }
    } else if compressor == 4 {
        match zlib_compress_at(input, clevel as u32, dest, start) {
            Some(n) => n,
            None => 0,
        }
    } else if compressor == 5 {
        match zstd_compress_at(input, clevel, dest, start) {
            Ok(Some(n)) => n,
            Ok(None) => 0,
            Err(()) => {
                return Err(-1);
            },
        }
    } else {
        return Err(-1);
    };
    if csize == 0 || csize >= input.len() {
        return Ok(None);
    }
    let ghost mid = dest@;
    write_le32(dest, at, csize as u32);
    proof {
        assert(dest@.subrange(start as int, start + csize) =~= mid.subrange(start as int, start + csize));
        assert(dest@.subrange(at as int, at + 4) =~= le32_bytes(csize as u32));
        lemma_le32_roundtrip(dest@, at as int, csize as u32);
        assert(codec_output(compressor, clevel, input@, old(dest).len() - at - 4)
            == Some(mid.subrange(start as int, start + csize)));
    }
    Ok(Some(start + csize))
}

/// Compresses `filtered` as `nstreams` streams of `filtered.len() / nstreams` bytes each, one
/// record after the other from `dest[at]` on. `Ok(Some(e))` gives the end of the last record;
/// `Ok(None)` means that a stream did not shrink or that `dest` ran out; errors as for
/// [`compress_stream`].
#[verifier::spinoff_prover]
#[verifier::rlimit(100)]
fn compress_streams(compressor: u8, clevel: i32, filtered: &[u8], nstreams: usize, dest: &mut [u8], at: usize)
    -> (r: Result<Option<usize>, i32>)
    requires
        nstreams > 0,
        at <= old(dest).len(),
        compressor == 0 && filtered.len() >= 16 ==> 0 <= clevel <= 9,
        compressor == 4 ==> 0 <= clevel <= 10,
    ensures
        final(dest).len() == old(dest).len(),
        forall|k: int| 0 <= k < at ==> final(dest)@[k] == old(dest)@[k],
        match r {
            Ok(Some(e)) => at <= e <= old(dest).len()
                && (e <= u32::MAX ==> region_ok(compressor,
                    final(dest)@, at as nat, e as nat, filtered.len() as nat,
                    filtered@.subrange(0, nstreams * (filtered.len() / nstreams)))),
            Ok(None) => true,
            Err(c) => c == -1 && (compressor == 5 || !known_compressor(compressor)),
        },
        !known_compressor(compressor) && at + 4 <= old(dest).len() ==> r == Err::<Option<usize>, i32>(-1i32),
        r matches Ok(Some(_)) ==> known_compressor(compressor),
        r matches Ok(Some(e)) ==> at < e && streams_upto(compressor, clevel, filtered@, nstreams as nat,
            nstreams as nat, at as int, old(dest).len() as int) == Some(final(dest)@.subrange(at as int, e as int)),
        r matches Ok(None) ==> streams_upto(compressor, clevel, filtered@, nstreams as nat, nstreams as nat,
            at as int, old(dest).len() as int) is None,
{
    let neblock = filtered.len() / nstreams;
    let ghost bn = filtered.len() as nat;
    proof { crate::arith::lemma_div_mul_le(filtered.len() as int, nstreams as int); }
    assert(neblock * nstreams == nstreams * neblock) by (nonlinear_arith);
    let mut cur = at;
    let mut j: usize = 0;
    assert(dest@.subrange(at as int, at as int) =~= Seq::<u8>::empty());
    proof { reveal(streams_upto); }
    assert(filtered@.subrange(0, 0) =~= Seq::<u8>::empty());
    while j < nstreams
        invariant
            nstreams > 0,
            neblock == filtered.len() / nstreams,
            nstreams * neblock <= filtered.len(),
            bn == filtered.len(),
            compressor == 0 && filtered.len() >= 16 ==> 0 <= clevel <= 9,
            compressor == 4 ==> 0 <= clevel <= 10,
            j <= nstreams,
            at <= cur <= dest.len(),
            dest.len() == old(dest).len(),
            forall|k: int| 0 <= k < at ==> dest@[k] == old(dest)@[k],
            j > 0 ==> known_compressor(compressor),
            j == 0 ==> cur == at,
            cur <= u32::MAX ==> region_ok(compressor, dest@,
                at as nat, cur as nat, bn, filtered@.subrange(0, j * neblock)),
            j > 0 ==> at < cur,
            streams_upto(compressor, clevel, filtered@, nstreams as nat, j as nat, at as int, dest.len() as int)
                == Some(dest@.subrange(at as int, cur as int)),
        decreases nstreams - j,
    {
        proof {
            lemma_streams_next(compressor, clevel, filtered@, nstreams as nat, j as nat, at as int, dest.len() as int,
                dest@.subrange(at as int, cur as int));
        }
        if dest.len() - cur < 4 {
            proof {
                lemma_streams_none(compressor, clevel, filtered@, nstreams as nat, (j + 1) as nat, nstreams as nat,
                    at as int, dest.len() as int);
            }
            return Ok(None);
        }
        assert(j * neblock + neblock <= nstreams * neblock) by (nonlinear_arith)
            requires j < nstreams;
        assert(j * neblock + neblock == (j + 1) * neblock) by (nonlinear_arith);
        let stream = &filtered[j * neblock..(j + 1) * neblock];
        let ghost before = dest@;
        match compress_stream(compressor, clevel, stream, dest, cur) {
            Err(c) => {
                return Err(c);
            },
            Ok(None) => {
                proof {
                    assert(stream@ == filtered@.subrange(j * neblock, (j + 1) * neblock));
                    lemma_streams_none(compressor, clevel, filtered@, nstreams as nat, (j + 1) as nat, nstreams as nat,
                        at as int, dest.len() as int);
                }
                return Ok(None);
            },
            Ok(Some(e)) => {
                proof {
                    assert(stream@ == filtered@.subrange(j * neblock, (j + 1) * neblock));
                    assert(dest@.subrange(at as int, cur as int) =~= before.subrange(at as int, cur as int));
                    assert(dest@.subrange(at as int, e as int) =~= dest@.subrange(at as int, cur as int)
                        + dest@.subrange(cur as int, cur + 4) + dest@.subrange(cur + 4, e as int));
                    if e <= u32::MAX {
                        let c1 = dest@.subrange(at as int, cur as int);
                        let rec = dest@.subrange(cur as int, e as int);
                        assert(c1 =~= before.subrange(at as int, cur as int));
                        let a1 = filtered@.subrange(0, j * neblock);
                        assert(rec[0] == dest@[cur as int] && rec[1] == dest@[cur + 1] && rec[2] == dest@[cur + 2]
                            && rec[3] == dest@[cur + 3]);
                        assert(u32_le_at(rec, 0) == u32_le_at(dest@, cur as int));
                        assert(rec.subrange(4, rec.len() as int) =~= dest@.subrange(cur + 4, e as int));
                        let cap = (bn - a1.len()) as nat;
                        assert(cap >= stream.len());
                        assert(stream_decode(compressor, dest@.subrange(cur + 4, e as int), cap)
                            == Ok::<Seq<u8>, DecompressError>(stream@));
                        lemma_chunks_append(compressor, c1, rec, 0, bn, Seq::empty(), a1, stream@);
                        assert(dest@.subrange(at as int, e as int) =~= c1 + rec);
                        assert(filtered@.subrange(0, (j + 1) * neblock) =~= a1 + stream@);
                    }
                }
                cur = e;
            },
        }
        j += 1;
    }
    Ok(Some(cur))
}

/// What the filter asked for makes of a block `x` of `ts`-byte items: byte shuffle, bitshuffle
/// (of the whole items in groups of eight, the bytes after them copied), or the block itself.
pub open spec fn filter_block_spec(doshuffle: i32, ts: nat, x: Seq<u8>) -> Seq<u8> {
    if doshuffle == 1 {
        shuffled(x, ts, x.len())
    } else if doshuffle == 2 {
        bitshuffle_block(x, ts, x.len())
    } else {
        x
    }
}

/// Filters `src[start..end]` as [`filter_block_spec`] describes.
fn filter_block(doshuffle: i32, typesize: usize, src: &[u8], start: usize, end: usize) -> (r: Result<Vec<u8>, i32>)
    requires
        start <= end <= src.len(),
        typesize > 0,
        doshuffle == 2 ==> 8 * typesize <= usize::MAX + 1,
    ensures
        match r {
            Ok(v) => v@ == filter_block_spec(doshuffle, typesize as nat, src@.subrange(start as int, end as int))
                && v.len() == end - start,
            Err(c) => c == -1,
        },
        r is Ok,
{
    let len = end - start;
    let blk = vstd::slice::slice_to_vec(&src[start..end]);
    if doshuffle == 1 {
        let mut out = vec![0u8; len];
        shuffle(typesize, len, &blk, &mut out);
        assert(out@ =~= shuffled(blk@, typesize as nat, len as nat));
        Ok(out)
    } else if doshuffle == 2 {
        let mut out = vec![0u8; len];
        proof { lemma_filter_block_len(doshuffle, typesize as nat, blk@); }
        bitshuffle_block_into(typesize, len, &blk, &mut out);
        assert(out@ =~= bitshuffle_block(blk@, typesize as nat, len as nat));
        Ok(out)
    } else {
        Ok(blk)
    }
}

/// The flags that a compression call writes, before it knows whether the data is stored as is:
/// [`base_flags`], plus `0x10` where blocks are not split, the level is not 0 and the buffer
/// holds at least 32 bytes.
pub open spec fn frame_flags(clevel: i32, doshuffle: i32, typesize: nat, nbytes: nat, compressor: u8, extended: bool) -> u8 {
    let f = base_flags(doshuffle, extended);
    let bs = blocksize_spec(clevel, typesize, nbytes, compressor);
    if !split_spec(compressor, clevel, typesize, bs, f) && clevel != 0 && nbytes >= 32 { f | 16u8 } else { f }
}

/// Whether one of the six filter slots holds `f`.
pub open spec fn slots_contain(filters: Seq<u8>, f: u8) -> bool {
    filters[0] == f || filters[1] == f || filters[2] == f || filters[3] == f || filters[4] == f || filters[5] == f
}

/// The filter that a reader undoes on a buffer written with these arguments: 1 for byte
/// shuffle, 2 for bitshuffle, 0 for none. An extended header names its filters in its slots.
pub open spec fn read_filter(doshuffle: i32, typesize: nat, blocksize: nat, extended: bool, filters: Seq<u8>) -> int {
    let sh = if extended { slots_contain(filters, 1) } else { doshuffle == 1 };
    let bsh = if extended { slots_contain(filters, 2) } else { doshuffle == 2 };
    if sh && typesize > 1 { 1 } else if bsh && blocksize >= typesize { 2 } else { 0 }
}

/// The filter that compression applies: 1 for byte shuffle, 2 for bitshuffle, 0 for none.
pub open spec fn applied_filter(doshuffle: i32) -> int {
    if doshuffle == 1 { 1 } else if doshuffle == 2 { 2 } else { 0 }
}

/// The inputs on which a buffer of `cbytes` bytes, written with these arguments, reads back as
/// the data: the item size fits its header byte; the sizes fit their 32-bit fields; and the
/// reader undoes the filter that was applied (an extended header must name the filter asked
/// for; byte shuffle of one-byte items and bitshuffle of a block shorter than an item change
/// nothing).
pub open spec fn roundtrip_conditions(clevel: i32, doshuffle: i32, typesize: nat, nbytes: nat, compressor: u8,
    extended: bool, filters: Seq<u8>, destlen: nat, cbytes: nat) -> bool {
    let bs = blocksize_spec(clevel, typesize, nbytes, compressor);
    let flags = frame_flags(clevel, doshuffle, typesize, nbytes, compressor, extended);
    let applied = applied_filter(doshuffle);
    let read = read_filter(doshuffle, typesize, bs, extended, filters);
    &&& typesize <= 255
    &&& nbytes <= u32::MAX
    &&& cbytes <= u32::MAX
    &&& (applied == read || (applied == 1 && read == 0 && typesize == 1)
        || (applied == 2 && read == 0 && bs < typesize))
}

/// The bytes of block `k` of `src`.
pub open spec fn block_src(src: Seq<u8>, bs: nat, k: nat) -> Seq<u8> {
    src.subrange((k * bs) as int, (k * bs + block_len_of(src.len(), bs, k)) as int)
}

/// Number of streams a block of `bn` bytes is written as.
pub open spec fn nstreams_spec(compressor: u8, clevel: i32, ts: nat, bn: nat, flags: u8) -> nat {
    if split_spec(compressor, clevel, ts, bn, flags) && bn % ts == 0 { ts } else { 1 }
}

/// What the streams of block `k` decode to: the filtered block, cut to whole streams.
pub open spec fn expected_raw(compressor: u8, clevel: i32, doshuffle: i32, ts: nat, flags: u8, src: Seq<u8>, bs: nat, k: nat) -> Seq<u8> {
    let bn = block_len_of(src.len(), bs, k);
    let ns = nstreams_spec(compressor, clevel, ts, bn, flags);
    filter_block_spec(doshuffle, ts, block_src(src, bs, k)).subrange(0, (ns * (bn / ns)) as int)
}

/// Where the streams of block `k` end: at the next block, or at `end` for the last one.
pub open spec fn next_start(bst: Seq<usize>, k: int, end: nat) -> nat {
    if k + 1 < bst.len() { bst[k + 1] as nat } else { end }
}

/// Block `k` of `src` is written in `d` from `bst[k]` on, as streams that decode to
/// [`expected_raw`].
pub open spec fn block_written(compressor: u8, clevel: i32, doshuffle: i32, ts: nat, flags: u8, src: Seq<u8>, bs: nat,
    d: Seq<u8>, bst: Seq<usize>, end: nat, k: int) -> bool {
    region_ok(compressor, d, bst[k] as nat, next_start(bst, k, end), block_len_of(src.len(), bs, k as nat),
        expected_raw(compressor, clevel, doshuffle, ts, flags, src, bs, k as nat))
}

/// A stream list keeps decoding the same way while the bytes it occupies stay the same.
pub proof fn lemma_region_stable(comp: u8, d1: Seq<u8>, d2: Seq<u8>, from: nat, to: nat, room: nat, exp: Seq<u8>)
    requires
        region_ok(comp, d1, from, to, room, exp),
        d2.len() == d1.len(),
        forall|k: int| from <= k < to ==> d1[k] == d2[k],
    ensures
        region_ok(comp, d2, from, to, room, exp),
{
    assert(d1.subrange(from as int, to as int) =~= d2.subrange(from as int, to as int));
}

/// The flag bytes that a compression call can write, and what their bits say.
pub proof fn lemma_flag_bits(f: u8, c: u8)
    by (bit_vector)
    requires
        f == 0 || f == 1 || f == 4 || f == 5 || f == 16 || f == 17 || f == 20 || f == 21,
    ensures
        (f | (c << 5u8)) & 1u8 == f & 1u8,
        (f | (c << 5u8)) & 2u8 == 0,
        (f | (c << 5u8)) & 4u8 == f & 4u8,
        ((f | (c << 5u8)) >> 5u8) & 7u8 == c & 7u8,
        ((f | 2u8) | (c << 5u8)) & 1u8 == f & 1u8,
        ((f | 2u8) | (c << 5u8)) & 2u8 != 0,
        ((f | 2u8) | (c << 5u8)) & 4u8 == f & 4u8,
        (((f | 2u8) | (c << 5u8)) >> 5u8) & 7u8 == c & 7u8,
        c < 8 ==> c & 7u8 == c,
{
}

/// The values [`frame_flags`] takes, and its shuffle bits.
pub proof fn lemma_frame_flags_values(clevel: i32, doshuffle: i32, typesize: nat, nbytes: nat, compressor: u8, extended: bool)
    ensures
        ({
            let f = frame_flags(clevel, doshuffle, typesize, nbytes, compressor, extended);
            &&& (f == 0 || f == 1 || f == 4 || f == 5 || f == 16 || f == 17 || f == 20 || f == 21)
            &&& (f & 1u8 != 0) == (extended || doshuffle == 1)
            &&& (f & 4u8 != 0) == (extended || doshuffle == 2)
            &&& f & 1u8 == base_flags(doshuffle, extended) & 1u8
        }),
{
    let b = base_flags(doshuffle, extended);
    assert(0u8 | 5u8 == 5u8 && 1u8 | 5u8 == 5u8 && 4u8 | 5u8 == 5u8) by (bit_vector);
    assert(0u8 | 16u8 == 16u8 && 1u8 | 16u8 == 17u8 && 4u8 | 16u8 == 20u8 && 5u8 | 16u8 == 21u8) by (bit_vector);
    assert(0u8 & 1u8 == 0 && 1u8 & 1u8 == 1 && 4u8 & 1u8 == 0 && 5u8 & 1u8 == 1) by (bit_vector);
    assert(16u8 & 1u8 == 0 && 17u8 & 1u8 == 1 && 20u8 & 1u8 == 0 && 21u8 & 1u8 == 1) by (bit_vector);
    assert(0u8 & 4u8 == 0 && 1u8 & 4u8 == 0 && 4u8 & 4u8 == 4 && 5u8 & 4u8 == 4) by (bit_vector);
    assert(16u8 & 4u8 == 0 && 17u8 & 4u8 == 0 && 20u8 & 4u8 == 4 && 21u8 & 4u8 == 4) by (bit_vector);
}

/// The block size is at least 1 and at most the buffer (or 1 for an empty one).
pub proof fn lemma_blocksize_bounds(clevel: i32, typesize: nat, nbytes: nat, compressor: u8)
    requires
        typesize > 0,
    ensures
        1 <= blocksize_spec(clevel, typesize, nbytes, compressor),
        blocksize_spec(clevel, typesize, nbytes, compressor) <= if nbytes > 1 { nbytes } else { 1 },
{
    let bs = blocksize_spec(clevel, typesize, nbytes, compressor);
    if nbytes >= typesize {
        let hcr = compressor == 2 || compressor == 4 || compressor == 5;
        let b0: nat = if nbytes >= 32768 {
            let b: nat = if hcr { 65536 } else { 32768 };
            if clevel == 0 { b / 4 } else if clevel == 1 { b / 2 } else if clevel == 2 { b }
            else if clevel == 3 { 2 * b } else if clevel == 4 || clevel == 5 { 4 * b }
            else if 6 <= clevel <= 8 { 8 * b } else if clevel == 9 { if hcr { 16 * b } else { 8 * b } }
            else { b }
        } else { nbytes };
        let b1 = if b0 > nbytes { nbytes } else { b0 };
        assert(b1 >= 1);
        if b1 > typesize {
            crate::arith::lemma_div_mul_le(b1 as int, typesize as int);
            assert((b1 / typesize) * typesize >= typesize) by (nonlinear_arith)
                requires b1 > typesize, typesize > 0;
        }
    }
}

/// Byte shuffle of one-byte items leaves a block as it is.
pub proof fn lemma_shuffle_one(x: Seq<u8>)
    ensures
        shuffled(x, 1, x.len()) == x,
{
    assert forall|k: int| 0 <= k < x.len() implies #[trigger] shuffled(x, 1, x.len())[k] == x[k] by {
        vstd::arithmetic::div_mod::lemma_fundamental_div_mod_converse(k, x.len() as int, 0, k);
    }
    assert(shuffled(x, 1, x.len()) =~= x);
}

/// How a reader parses a header written by a compression call.
pub proof fn lemma_header_parse(s: Seq<u8>, extended: bool, nbytes: usize, blocksize: usize, cbytes: usize,
    typesize: usize, f: u8, stored: bool, compressor: u8, filters: Seq<u8>, meta: Seq<u8>)
    requires
        filters.len() == 6,
        meta.len() == 6,
        s.len() >= (if extended { 32int } else { 16int }),
        f == 0 || f == 1 || f == 4 || f == 5 || f == 16 || f == 17 || f == 20 || f == 21,
        typesize <= 255,
        nbytes <= u32::MAX,
        blocksize <= u32::MAX,
        cbytes <= u32::MAX,
        s.subrange(0, if extended { 32int } else { 16int }) == header_bytes(extended, nbytes, blocksize, cbytes,
            typesize, if stored { f | 2u8 } else { f }, compressor, filters, meta),
    ensures
        ({
            let h = parse_header(s);
            let sh = if f & 1u8 != 0 && f & 4u8 != 0 { extended && slots_contain(filters, 1) } else { f & 1u8 != 0 };
            let bsh = if f & 1u8 != 0 && f & 4u8 != 0 { extended && slots_contain(filters, 2) } else { f & 4u8 != 0 };
            &&& h.hlen == (if extended { 32usize } else { 16usize })
            &&& header_len_of(s) == h.hlen
            &&& h.compressor == compressor & 7u8
            &&& (compressor < 8 ==> h.compressor == compressor)
            &&& h.typesize == typesize
            &&& h.nbytes == nbytes
            &&& h.blocksize == blocksize
            &&& h.cbytes == cbytes
            &&& h.memcpyed == stored
            &&& h.doshuffle == (sh && typesize > 1)
            &&& h.dobitshuffle == (bsh && blocksize >= typesize)
        }),
{
    let hl = if extended { 32int } else { 16int };
    let fl = if stored { f | 2u8 } else { f };
    let hb = header_bytes(extended, nbytes, blocksize, cbytes, typesize, fl, compressor, filters, meta);
    assert forall|j: int| 0 <= j < hl implies s[j] == #[trigger] hb[j] by {
        assert(s.subrange(0, hl)[j] == s[j]);
    }
    assert(s[0] == hb[0] && s[2] == hb[2] && s[3] == hb[3]);
    lemma_flag_bits(f, compressor);
    assert(s.subrange(4, 8) =~= le32_bytes(nbytes as u32)) by {
        assert forall|j: int| 0 <= j < 4 implies s.subrange(4, 8)[j] == le32_bytes(nbytes as u32)[j] by {
            assert(s[4 + j] == hb[4 + j]);
        }
    }
    assert(s.subrange(8, 12) =~= le32_bytes(blocksize as u32)) by {
        assert forall|j: int| 0 <= j < 4 implies s.subrange(8, 12)[j] == le32_bytes(blocksize as u32)[j] by {
            assert(s[8 + j] == hb[8 + j]);
        }
    }
    assert(s.subrange(12, 16) =~= le32_bytes(cbytes as u32)) by {
        assert forall|j: int| 0 <= j < 4 implies s.subrange(12, 16)[j] == le32_bytes(cbytes as u32)[j] by {
            assert(s[12 + j] == hb[12 + j]);
        }
    }
    lemma_le32_roundtrip(s, 4, nbytes as u32);
    lemma_le32_roundtrip(s, 8, blocksize as u32);
    lemma_le32_roundtrip(s, 12, cbytes as u32);
    if extended {
        assert forall|j: int| 0 <= j < 6 implies s[16 + j] == filters[j] by {
            assert(s[16 + j] == hb[16 + j]);
        }
        assert(filters_contain(s, 1) == slots_contain(filters, 1));
        assert(filters_contain(s, 2) == slots_contain(filters, 2));
    }
}

/// The length of a filtered block.
pub proof fn lemma_filter_block_len(doshuffle: i32, ts: nat, x: Seq<u8>)
    requires
        ts > 0,
    ensures
        filter_block_spec(doshuffle, ts, x).len() == x.len(),
{
    if doshuffle == 2 {
        let q = x.len() / ts;
        let size = crate::filters::dispatch::bit_elems(ts, x.len());
        crate::arith::lemma_div_mul_le(x.len() as int, ts as int);
        assert(size * ts <= q * ts) by (nonlinear_arith) requires size <= q, ts > 0;
        vstd::arithmetic::div_mod::lemma_div_by_multiple(size as int, ts as int);
        assert(8 * ts * (size / 8) == size * ts) by (nonlinear_arith) requires size % 8 == 0;
    }
}

/// A block written by compression reads back as the block of the data.
pub proof fn lemma_block_roundtrip(clevel: i32, doshuffle: i32, typesize: nat, compressor: u8, extended: bool,
    filters: Seq<u8>, flags: u8, src: Seq<u8>, bs: nat, s: Seq<u8>, h: FrameHeader, bst: Seq<usize>, i: nat,
    old_block: Seq<u8>)
    requires
        h == parse_header(s),
        h.nbytes == src.len(),
        h.blocksize == bs,
        bs > 0,
        h.cbytes == s.len(),
        h.typesize == typesize,
        h.compressor == compressor,
        typesize > 0,
        h.doshuffle == (read_filter(doshuffle, typesize, bs, extended, filters) == 1),
        (!h.doshuffle && h.dobitshuffle) == (read_filter(doshuffle, typesize, bs, extended, filters) == 2),
        applied_filter(doshuffle) == read_filter(doshuffle, typesize, bs, extended, filters)
            || (applied_filter(doshuffle) == 1 && read_filter(doshuffle, typesize, bs, extended, filters) == 0
                && typesize == 1)
            || (applied_filter(doshuffle) == 2 && read_filter(doshuffle, typesize, bs, extended, filters) == 0
                && bs < typesize),
        i < nblocks_of(src.len(), bs),
        bst.len() == nblocks_of(src.len(), bs),
        bstart_of(s, h, i) == bst[i as int],
        i + 1 < nblocks_of(src.len(), bs) ==> bstart_of(s, h, i + 1) == bst[i + 1int],
        block_written(compressor, clevel, doshuffle, typesize, flags, src, bs, s, bst, s.len(), i as int),
        old_block.len() == block_len_of(src.len(), bs, i),
    ensures
        block_out(s, h, i, old_block) == Ok::<Seq<u8>, DecompressError>(block_src(src, bs, i)),
{
    reveal(block_out);
    reveal(block_raw);
    let bn = block_len_of(src.len(), bs, i);
    lemma_block_geometry(src.len(), bs, i);
    let x = block_src(src, bs, i);
    assert(x.len() == bn);
    let fb = filter_block_spec(doshuffle, typesize, x);
    lemma_filter_block_len(doshuffle, typesize, x);
    let ns = nstreams_spec(compressor, clevel, typesize, bn, flags);
    if split_spec(compressor, clevel, typesize, bn, flags) && bn % typesize == 0 {
        vstd::arithmetic::div_mod::lemma_fundamental_div_mod(bn as int, typesize as int);
        assert(typesize * (bn / typesize) == bn);
        assert(ns == typesize);
        assert(ns * (bn / ns) == bn) by (nonlinear_arith)
            requires ns == typesize, typesize * (bn / typesize) == bn;
    } else {
        assert(ns == 1);
        assert(ns * (bn / ns) == bn) by (nonlinear_arith)
            requires ns == 1;
    }
    assert(fb.subrange(0, (ns * (bn / ns)) as int) =~= fb);
    assert(block_raw(s, h, i) == Ok::<Seq<u8>, DecompressError>(fb));
    let read = read_filter(doshuffle, typesize, bs, extended, filters);
    if doshuffle == 1 {
        if read == 1 {
            lemma_unshuffle_shuffle(x, typesize);
        } else {
            lemma_shuffle_one(x);
        }
    } else if doshuffle == 2 {
        assert(x.subrange(0, bn as int) =~= x);
        if read == 2 {
            lemma_blosc2_bitunshuffle_bitshuffle(x, typesize, bn);
        } else {
            assert(bn <= bs);
            lemma_bitshuffle_block_short(x, typesize, bn);
        }
    }
}

/// When every block reads back as the block of the data, all of them read back as the data.
pub proof fn lemma_fold_blocks(s: Seq<u8>, h: FrameHeader, old: Seq<u8>, src: Seq<u8>, k: nat)
    requires
        h.blocksize > 0,
        h.nbytes == src.len(),
        k <= nblocks_of(src.len(), h.blocksize as nat),
        forall|i: nat| i < nblocks_of(src.len(), h.blocksize as nat) ==> #[trigger] block_out(s, h, i,
            old_block_of(h, old, i)) == Ok::<Seq<u8>, DecompressError>(block_src(src, h.blocksize as nat, i)),
    ensures
        blocks_fold(s, h, old, 0, k) == Ok::<Seq<u8>, DecompressError>(src.subrange(0,
            if k < nblocks_of(src.len(), h.blocksize as nat) { (k * h.blocksize) as int } else { src.len() as int })),
    decreases k,
{
    let nb = nblocks_of(src.len(), h.blocksize as nat);
    let bs = h.blocksize as nat;
    if k == 0 {
        assert(0 * bs == 0);
        if nb == 0 {
            vstd::arithmetic::div_mod::lemma_fundamental_div_mod(src.len() as int, bs as int);
            assert(src.len() / bs == 0 && src.len() % bs == 0);
            assert(bs * (src.len() / bs) == 0) by (nonlinear_arith)
                requires src.len() / bs == 0;
            assert(src.len() == 0);
        }
        assert(src.subrange(0, 0) =~= Seq::<u8>::empty());
        if nb == 0 {
            assert(src.subrange(0, src.len() as int) =~= Seq::<u8>::empty());
        }
    } else {
        let i = (k - 1) as nat;
        lemma_fold_blocks(s, h, old, src, i);
        lemma_block_geometry(src.len(), bs, i);
        assert(block_out(s, h, i, old_block_of(h, old, i)) == Ok::<Seq<u8>, DecompressError>(block_src(src, bs, i)));
        let prev = src.subrange(0, (i * bs) as int);
        assert(prev + block_src(src, bs, i) =~= src.subrange(0, (i * bs + block_len_of(src.len(), bs, i)) as int));
        if k < nb {
            assert(k * bs == i * bs + bs) by (nonlinear_arith)
                requires k == i + 1;
        }
    }
}

/// A buffer whose blocks were written by compression reads back as the data.
#[verifier::rlimit(100)]
#[verifier::spinoff_prover]
pub proof fn lemma_compressed_roundtrip(clevel: i32, doshuffle: i32, typesize: usize, compressor: u8, extended: bool,
    filters: Seq<u8>, meta: Seq<u8>, src: Seq<u8>, d: Seq<u8>, c: nat, bst: Seq<usize>, old: Seq<u8>,
    hl: int, bs: nat, nb: nat, f: u8)
    requires
        typesize > 0,
        filters.len() == 6,
        meta.len() == 6,
        known_compressor(compressor),
        roundtrip_conditions(clevel, doshuffle, typesize as nat, src.len(), compressor, extended, filters, d.len(), c),
        bs == blocksize_spec(clevel, typesize as nat, src.len(), compressor),
        nb == nblocks_of(src.len(), bs),
        f == frame_flags(clevel, doshuffle, typesize as nat, src.len(), compressor, extended),
        hl == if extended { 32int } else { 16int },
        hl + 4 * nb <= c <= d.len(),
        d.subrange(0, hl) == header_bytes(extended, src.len() as usize, bs as usize, c as usize, typesize, f,
            compressor, filters, meta),
        bst.len() == nb,
        forall|t: int| 0 <= t < nb ==> bst[t] <= c,
        forall|t: int| 0 <= t < nb ==> #[trigger] u32_le_at(d, hl + 4 * t) == (bst[t] as u32),
        forall|k: int| 0 <= k < nb ==> #[trigger] block_written(compressor, clevel, doshuffle, typesize as nat, f,
            src, bs, d, bst, c, k),
        old.len() >= src.len(),
    ensures
        frame_decode(d.subrange(0, c as int), old) == Ok::<Seq<u8>, DecompressError>(src + old.skip(src.len() as int)),
{
    let n = src.len();
    let ts = typesize as nat;
    let s = d.subrange(0, c as int);
    lemma_blocksize_bounds(clevel, ts, n, compressor);
    lemma_frame_flags_values(clevel, doshuffle, ts, n, compressor, extended);
    assert(s.subrange(0, hl) =~= d.subrange(0, hl));
    assert(compressor < 8);
    lemma_header_parse(s, extended, n as usize, bs as usize, c as usize, typesize, f, false, compressor, filters, meta);
    let h = parse_header(s);
    assert(h.nbytes == n && h.blocksize == bs && h.cbytes == c);
    assert forall|t: int| 0 <= t < nb implies bstart_of(s, h, t as nat) == bst[t] by {
        assert(u32_le_at(d, hl + 4 * t) == (bst[t] as u32));
        assert(s[hl + 4 * t] == d[hl + 4 * t] && s[hl + 4 * t + 1] == d[hl + 4 * t + 1]
            && s[hl + 4 * t + 2] == d[hl + 4 * t + 2] && s[hl + 4 * t + 3] == d[hl + 4 * t + 3]);
    }
    assert forall|i: nat| i < nb implies #[trigger] block_out(s, h, i, old_block_of(h, old, i))
        == Ok::<Seq<u8>, DecompressError>(block_src(src, bs, i)) by {
        lemma_block_geometry(n, bs, i);
        assert(block_written(compressor, clevel, doshuffle, ts, f, src, bs, d, bst, c, i as int));
        let to = next_start(bst, i as int, c);
        assert(to <= c);
        assert(s.subrange(bst[i as int] as int, to as int) =~= d.subrange(bst[i as int] as int, to as int));
        assert(block_written(compressor, clevel, doshuffle, ts, f, src, bs, s, bst, s.len(), i as int));
        lemma_block_roundtrip(clevel, doshuffle, ts, compressor, extended, filters, f, src, bs, s, h, bst, i,
            old_block_of(h, old, i));
    }
    lemma_fold_blocks(s, h, old, src, nb);
    assert(src.subrange(0, n as int) =~= src);
}

/// A buffer that stores the data as is reads back as the data.
pub proof fn lemma_stored_roundtrip(clevel: i32, doshuffle: i32, typesize: usize, compressor: u8, extended: bool,
    filters: Seq<u8>, meta: Seq<u8>, src: Seq<u8>, d: Seq<u8>, c: nat, old: Seq<u8>)
    requires
        typesize > 0,
        filters.len() == 6,
        meta.len() == 6,
        roundtrip_conditions(clevel, doshuffle, typesize as nat, src.len(), compressor, extended, filters, d.len(), c),
        ({
            let bs = blocksize_spec(clevel, typesize as nat, src.len(), compressor);
            let f = frame_flags(clevel, doshuffle, typesize as nat, src.len(), compressor, extended);
            let hl = if extended { 32int } else { 16int };
            &&& c == hl + src.len()
            &&& c <= d.len()
            &&& d.subrange(0, hl) == header_bytes(extended, src.len() as usize, bs as usize, c as usize, typesize,
                f | 2u8, compressor, filters, meta)
            &&& d.subrange(hl, c as int) == src
        }),
        old.len() >= src.len(),
    ensures
        frame_decode(d.subrange(0, c as int), old) == Ok::<Seq<u8>, DecompressError>(src + old.skip(src.len() as int)),
{
    let n = src.len();
    let ts = typesize as nat;
    let bs = blocksize_spec(clevel, ts, n, compressor);
    let f = frame_flags(clevel, doshuffle, ts, n, compressor, extended);
    let hl = if extended { 32int } else { 16int };
    let s = d.subrange(0, c as int);
    lemma_blocksize_bounds(clevel, ts, n, compressor);
    lemma_frame_flags_values(clevel, doshuffle, ts, n, compressor, extended);
    assert(s.subrange(0, hl) =~= d.subrange(0, hl));
    lemma_header_parse(s, extended, n as usize, bs as usize, c as usize, typesize, f, true, compressor, filters, meta);
    assert(s.subrange(hl, hl + n) =~= src);
}

/// Blocks `0 .. i` of `src`, each filtered and written as its streams, one after the other from
/// `start` on in a buffer of `destlen` bytes; `None` where a block is not kept.
#[verifier::opaque]
pub open spec fn blocks_upto(clevel: i32, doshuffle: i32, ts: nat, src: Seq<u8>, compressor: u8, f: u8, bs: nat,
    i: nat, start: int, destlen: int) -> Option<Seq<u8>>
    decreases i,
{
    if i == 0 {
        Some(Seq::empty())
    } else {
        match blocks_upto(clevel, doshuffle, ts, src, compressor, f, bs, (i - 1) as nat, start, destlen) {
            None => None,
            Some(prev) => {
                let k = (i - 1) as nat;
                let ns = nstreams_spec(compressor, clevel, ts, block_len_of(src.len(), bs, k), f);
                match streams_upto(compressor, clevel, filter_block_spec(doshuffle, ts, block_src(src, bs, k)), ns, ns,
                    start + prev.len(), destlen) {
                    None => None,
                    Some(b) => Some(prev + b),
                }
            },
        }
    }
}

/// The blocks up to `i + 1` are those up to `i` and block `i`.
proof fn lemma_blocks_next(clevel: i32, doshuffle: i32, ts: nat, src: Seq<u8>, compressor: u8, f: u8, bs: nat,
    i: nat, start: int, destlen: int, prev: Seq<u8>)
    requires
        blocks_upto(clevel, doshuffle, ts, src, compressor, f, bs, i, start, destlen) == Some(prev),
    ensures
        ({
            let ns = nstreams_spec(compressor, clevel, ts, block_len_of(src.len(), bs, i), f);
            blocks_upto(clevel, doshuffle, ts, src, compressor, f, bs, i + 1, start, destlen)
                == match streams_upto(compressor, clevel, filter_block_spec(doshuffle, ts, block_src(src, bs, i)), ns,
                    ns, start + prev.len(), destlen) {
                    None => None,
                    Some(b) => Some(prev + b),
                }
        }),
{
    reveal(blocks_upto);
    assert(((i + 1) - 1) as nat == i);
}

/// Once a block is not kept, the body is not.
proof fn lemma_blocks_none(clevel: i32, doshuffle: i32, ts: nat, src: Seq<u8>, compressor: u8, f: u8, bs: nat,
    i: nat, k: nat, start: int, destlen: int)
    requires
        i <= k,
        blocks_upto(clevel, doshuffle, ts, src, compressor, f, bs, i, start, destlen) is None,
    ensures
        blocks_upto(clevel, doshuffle, ts, src, compressor, f, bs, k, start, destlen) is None,
    decreases k - i,
{
    reveal(blocks_upto);
    if i < k {
        lemma_blocks_none(clevel, doshuffle, ts, src, compressor, f, bs, i, (k - 1) as nat, start, destlen);
    }
}

/// The compressed body of a buffer of `destlen` bytes: every block written after the header
/// and the table of block offsets; `None` where the table does not fit or a block is not kept.
pub open spec fn frame_body(clevel: i32, doshuffle: i32, typesize: usize, src: Seq<u8>, destlen: nat,
    compressor: u8, extended: bool) -> Option<Seq<u8>> {
    let ts = typesize as nat;
    let bs = blocksize_spec(clevel, ts, src.len(), compressor);
    let nb = nblocks_of(src.len(), bs);
    let hl: int = if extended { 32 } else { 16 };
    if hl + 4 * nb > destlen {
        None
    } else {
        blocks_upto(clevel, doshuffle, ts, src, compressor, frame_flags(clevel, doshuffle, ts, src.len(), compressor,
            extended), bs, nb, hl + 4 * nb, destlen as int)
    }
}

/// Whether compression keeps the data as is: at level 0, where the compressed body is not kept,
/// and where it is no shorter than the data.
pub open spec fn stores_plain(clevel: i32, doshuffle: i32, typesize: usize, src: Seq<u8>, destlen: nat,
    compressor: u8, extended: bool) -> bool {
    clevel == 0 || match frame_body(clevel, doshuffle, typesize, src, destlen, compressor, extended) {
        None => true,
        Some(b) => b.len() >= src.len(),
    }
}

/// A compressed buffer of `c` bytes: the header, the table of block offsets, then the
/// compressed body, shorter than the data.
pub open spec fn compressed_frame(clevel: i32, doshuffle: i32, typesize: usize, src: Seq<u8>, destlen: nat,
    compressor: u8, extended: bool, filters: Seq<u8>, meta: Seq<u8>, d: Seq<u8>, c: nat) -> bool {
    let n = src.len();
    let ts = typesize as nat;
    let bs = blocksize_spec(clevel, ts, n, compressor);
    let nb = nblocks_of(n, bs);
    let f = frame_flags(clevel, doshuffle, ts, n, compressor, extended);
    let hl: int = if extended { 32 } else { 16 };
    &&& hl + 4 * nb <= c <= d.len()
    &&& c < hl + 4 * nb + n
    &&& d.subrange(0, hl) == header_bytes(extended, n as usize, bs as usize, c as usize, typesize, f, compressor,
        filters, meta)
    &&& frame_body(clevel, doshuffle, typesize, src, destlen, compressor, extended)
        == Some(d.subrange(hl + 4 * nb, c as int))
    &&& (c <= u32::MAX ==> offset_table(d, hl, nb, c))
}

/// What a compression call with these arguments promises of its result `r` and of the
/// destination `d` it leaves, given the destination's length `destlen`.
///
/// On success `r` is the compressed size. Where [`stores_plain`] holds, the data follows the
/// header as is, with the stored flag (`0x2`) set ([`stored_frame`]); otherwise the header, the
/// offset table and the compressed body follow ([`compressed_frame`]). Under
/// [`roundtrip_conditions`] the buffer reads back as the data over any destination that holds
/// it. An error is `-1`, and comes only from a codec that this library does not write, from the
/// Zstd encoder, or where the data is to be stored as is and does not fit after the header.
pub open spec fn compress_ok(clevel: i32, doshuffle: i32, typesize: usize, src: Seq<u8>, destlen: nat,
    compressor: u8, extended: bool, filters: Seq<u8>, meta: Seq<u8>, d: Seq<u8>, r: Result<usize, i32>) -> bool {
    let n = src.len();
    let ts = typesize as nat;
    let hl: int = if extended { 32 } else { 16 };
    let plain = stores_plain(clevel, doshuffle, typesize, src, destlen, compressor, extended);
    match r {
        Ok(c) => {
            &&& hl <= c <= destlen
            &&& (plain ==> stored_frame(clevel, doshuffle, typesize, src, compressor, extended, filters, meta, d, c as nat))
            &&& (!plain ==> compressed_frame(clevel, doshuffle, typesize, src, destlen, compressor, extended, filters,
                meta, d, c as nat))
            &&& (roundtrip_conditions(clevel, doshuffle, ts, n, compressor, extended, filters, destlen, c as nat)
                ==> forall|old: Seq<u8>| old.len() >= n ==> #[trigger] frame_decode(d.subrange(0, c as int), old)
                    == Ok::<Seq<u8>, DecompressError>(src + old.skip(n as int)))
        },
        Err(e) => {
            &&& e == -1
            &&& (!known_compressor(compressor) || compressor == 5 || (plain && n + hl > destlen))
        },
    }
}

/// The table of block offsets after a header of `hl` bytes: the first block starts right after
/// the table, every block starts after the table and before the end `c` of the buffer, and each
/// block starts after the one before it.
pub open spec fn offset_table(d: Seq<u8>, hl: int, nb: nat, c: nat) -> bool {
    &&& (nb > 0 ==> u32_le_at(d, hl) == hl + 4 * nb)
    &&& forall|t: int| 0 <= t < nb ==> hl + 4 * nb <= #[trigger] u32_le_at(d, hl + 4 * t) < c
    &&& forall|t1: int, t2: int| 0 <= t1 < t2 < nb
        ==> #[trigger] u32_le_at(d, hl + 4 * t1) < #[trigger] u32_le_at(d, hl + 4 * t2)
}

/// The inputs on which compression fails for sure: at a level above 0, the codec is not one
/// this library writes and the first stream has room to be tried.
pub open spec fn compress_fails(clevel: i32, doshuffle: i32, typesize: usize, nbytes: nat, destlen: nat,
    compressor: u8, extended: bool) -> bool {
    let ts = typesize as nat;
    let bs = blocksize_spec(clevel, ts, nbytes, compressor);
    let nb = nblocks_of(nbytes, bs);
    let hl: int = if extended { 32 } else { 16 };
    clevel != 0 && nb > 0 && !known_compressor(compressor) && hl + 4 * nb + 4 <= destlen
}

/// The data stored as is after a header whose flags mark it so.
pub open spec fn stored_frame(clevel: i32, doshuffle: i32, typesize: usize, src: Seq<u8>, compressor: u8,
    extended: bool, filters: Seq<u8>, meta: Seq<u8>, d: Seq<u8>, c: nat) -> bool {
    let n = src.len();
    let hl: int = if extended { 32 } else { 16 };
    let bs = blocksize_spec(clevel, typesize as nat, n, compressor);
    let f = frame_flags(clevel, doshuffle, typesize as nat, n, compressor, extended);
    &&& c == hl + n
    &&& c <= d.len()
    &&& d.subrange(0, hl) == header_bytes(extended, n as usize, bs as usize, c as usize, typesize, f | 2u8,
        compressor, filters, meta)
    &&& d.subrange(hl, c as int) == src
}

/// Compresses `src` into `dest` in blocks, each filtered and compressed as one or more
/// streams, and falls back to storing the data as is where that does not shrink it. Level 0
/// means no compression: the data is stored as is. See [`compress_ok`] and [`compress_fails`]
/// for what it promises: the body is [`frame_body`], and the data is stored as is exactly where
/// [`stores_plain`] holds.
pub fn compress_internal(clevel: i32, doshuffle: i32, typesize: usize, src: &[u8], dest: &mut [u8],
    compressor: u8, extended: bool, filters: &[u8; 6], filters_meta: &[u8; 6]) -> (r: Result<usize, i32>)
    requires
        typesize > 0,
        old(dest).len() >= if extended { 32usize } else { 16usize },
        compressor == 0 && src.len() >= 16 ==> 0 <= clevel <= 9,
        compressor == 4 ==> 0 <= clevel <= 10,
        doshuffle == 2 ==> 8 * typesize <= usize::MAX + 1,
    ensures
        final(dest).len() == old(dest).len(),
        compress_ok(clevel, doshuffle, typesize, src@, old(dest).len() as nat, compressor, extended, filters@,
            filters_meta@, final(dest)@, r),
        compress_fails(clevel, doshuffle, typesize, src.len() as nat, old(dest).len() as nat, compressor, extended)
            ==> r == Err::<usize, i32>(-1i32),
        clevel == 0 ==> (r is Err <==> src.len() + (if extended { 32int } else { 16int }) > old(dest).len()),
        clevel == 0 ==> (r matches Ok(c) ==> stored_frame(clevel, doshuffle, typesize, src@, compressor, extended,
            filters@, filters_meta@, final(dest)@, c as nat)),
{
    let ghost ts = typesize as nat;
    let nbytes = src.len();
    let blocksize = compute_blocksize(clevel, typesize, nbytes, compressor);
    let ghost bs = blocksize as nat;
    proof { lemma_blocksize_bounds(clevel, ts, nbytes as nat, compressor); }
    assert(nbytes % blocksize != 0 ==> nbytes / blocksize < nbytes) by (nonlinear_arith)
        requires blocksize > 0, nbytes % blocksize != 0 ==> blocksize != 1;
    let nblocks: usize = if nbytes == 0 { 0 } else {
        nbytes / blocksize + if nbytes % blocksize != 0 { 1usize } else { 0usize }
    };
    assert(nblocks == nblocks_of(nbytes as nat, bs));
    let header_len: usize = if extended { 32 } else { 16 };
    let mut flags: u8 = if doshuffle == 1 { 1 } else if doshuffle == 2 { 4 } else { 0 };
    if extended {
        flags = flags | 5u8;
    }
    assert(flags == base_flags(doshuffle, extended));
    let split = split_block(compressor, clevel, typesize, blocksize, flags);
    if !split && clevel != 0 && nbytes >= 32 {
        flags = flags | 16u8;
    }
    let ghost f = flags;
    assert(f == frame_flags(clevel, doshuffle, ts, nbytes as nat, compressor, extended));
    proof { lemma_frame_flags_values(clevel, doshuffle, ts, nbytes as nat, compressor, extended); }
    if clevel == 0 {
        return finish_stored(clevel, doshuffle, typesize, src, dest, compressor, extended, filters, filters_meta,
            blocksize, flags);
    }
    let ghost fb = base_flags(doshuffle, extended);
    let fits = nblocks <= (dest.len() - header_len) / 4;
    assert(fits == (header_len + 4 * nblocks <= dest.len()));
    let data_offset: usize = if fits { header_len + 4 * nblocks } else { 0 };
    let mut incompressible = false;
    let mut cur: usize = data_offset;
    let mut bstarts: Vec<usize> = Vec::new();
    if !fits {
        proof { lemma_block_geometry(nbytes as nat, bs, 0); }
        let end0 = if nbytes < blocksize { nbytes } else { blocksize };
        assert(end0 == block_len_of(nbytes as nat, bs, 0));
        match filter_block(doshuffle, typesize, src, 0, end0) {
            Err(c) => {
                return Err(c);
            },
            Ok(_) => {},
        }
        incompressible = true;
    } else {
        let mut i: usize = 0;
        assert(dest.len() == old(dest).len());
        proof {
            reveal(blocks_upto);
            assert(dest@.subrange(data_offset as int, cur as int) =~= Seq::<u8>::empty());
        }
        while i < nblocks && !incompressible
            invariant
                nbytes == src.len(),
                blocksize == bs,
                bs == blocksize_spec(clevel, ts, nbytes as nat, compressor),
                1 <= bs <= if nbytes > 1 { nbytes as nat } else { 1 },
                ts == typesize, typesize > 0,
                nblocks == nblocks_of(nbytes as nat, bs),
                header_len == (if extended { 32usize } else { 16usize }),
                data_offset == header_len + 4 * nblocks,
                data_offset <= dest.len(),
                flags == f,
                f == frame_flags(clevel, doshuffle, ts, nbytes as nat, compressor, extended),
                f & 1u8 == fb & 1u8,
                compressor == 0 && src.len() >= 16 ==> 0 <= clevel <= 9,
                compressor == 4 ==> 0 <= clevel <= 10,
                clevel != 0,
                doshuffle == 2 ==> 8 * typesize <= usize::MAX + 1,
                i <= nblocks,
                i == 0 ==> cur == data_offset,
                data_offset <= cur <= dest.len(),
                dest.len() == old(dest).len(),
                bstarts.len() == i,
                forall|t: int| 0 <= t < i ==> data_offset <= #[trigger] bstarts@[t] <= cur,
                i > 0 ==> bstarts@[0] == data_offset,
                i > 0 ==> known_compressor(compressor),
                incompressible ==> known_compressor(compressor) || cur + 4 > dest.len(),
                cur <= u32::MAX ==> forall|k: int| 0 <= k < i
                    ==> #[trigger] block_written(compressor, clevel, doshuffle, ts, f, src@, bs, dest@, bstarts@, cur as nat, k),
                forall|t: int| 0 <= t < i ==> #[trigger] bstarts@[t] < cur,
                forall|t1: int, t2: int| 0 <= t1 < t2 < i ==> #[trigger] bstarts@[t1] < #[trigger] bstarts@[t2],
                !incompressible ==> blocks_upto(clevel, doshuffle, ts, src@, compressor, f, bs, i as nat,
                    data_offset as int, dest.len() as int) == Some(dest@.subrange(data_offset as int, cur as int)),
                incompressible ==> blocks_upto(clevel, doshuffle, ts, src@, compressor, f, bs, nblocks as nat,
                    data_offset as int, dest.len() as int) is None,
            decreases nblocks - i, if incompressible { 0int } else { 1int },
        {
            proof { lemma_block_geometry(nbytes as nat, bs, i as nat); }
            assert(i * blocksize + blocksize <= nblocks * blocksize + blocksize) by (nonlinear_arith)
                requires i <= nblocks;
            let start = i * blocksize;
            let end = if nbytes - start < blocksize { nbytes } else { start + blocksize };
            assert(end - start == block_len_of(nbytes as nat, bs, i as nat));
            let filtered = match filter_block(doshuffle, typesize, src, start, end) {
                Err(c) => {
                    return Err(c);
                },
                Ok(v) => v,
            };
            let block_split = split_block(compressor, clevel, typesize, end - start, flags)
                && (end - start) % typesize == 0;
            let nstreams: usize = if block_split { typesize } else { 1 };
            let ghost before = dest@;
            let ghost bst_before = bstarts@;
            let ghost cur_before = cur;
            proof {
                assert(src@.subrange(start as int, end as int) == block_src(src@, bs, i as nat));
                assert(nstreams == nstreams_spec(compressor, clevel, ts, block_len_of(nbytes as nat, bs, i as nat), f));
                lemma_blocks_next(clevel, doshuffle, ts, src@, compressor, f, bs, i as nat, data_offset as int,
                    dest.len() as int, dest@.subrange(data_offset as int, cur as int));
            }
            match compress_streams(compressor, clevel, &filtered, nstreams, dest, cur) {
                Err(c) => {
                    return Err(c);
                },
                Ok(None) => {
                    incompressible = true;
                    proof {
                        lemma_blocks_none(clevel, doshuffle, ts, src@, compressor, f, bs, (i + 1) as nat, nblocks as nat,
                            data_offset as int, dest.len() as int);
                        if cur <= u32::MAX {
                            assert forall|k: int| 0 <= k < i implies #[trigger] block_written(compressor, clevel, doshuffle,
                                ts, f, src@, bs, dest@, bstarts@, cur as nat, k) by {
                                assert(block_written(compressor, clevel, doshuffle, ts, f, src@, bs, before, bst_before,
                                    cur as nat, k));
                                lemma_region_stable(compressor, before, dest@, bstarts@[k] as nat,
                                    next_start(bstarts@, k, cur as nat), block_len_of(nbytes as nat, bs, k as nat),
                                    expected_raw(compressor, clevel, doshuffle, ts, f, src@, bs, k as nat));
                            }
                        }
                    }
                },
                Ok(Some(e)) => {
                    bstarts.push(cur);
                    proof {
                        assert(bstarts@ == bst_before.push(cur_before));
                        assert(dest@.subrange(data_offset as int, cur as int) =~= before.subrange(data_offset as int,
                            cur as int));
                        assert(dest@.subrange(data_offset as int, e as int) =~= dest@.subrange(data_offset as int,
                            cur as int) + dest@.subrange(cur as int, e as int));
                        assert(src@.subrange(start as int, end as int) == block_src(src@, bs, i as nat));
                        if e <= u32::MAX {
                            assert forall|k: int| 0 <= k < i + 1 implies #[trigger] block_written(compressor, clevel,
                                doshuffle, ts, f, src@, bs, dest@, bstarts@, e as nat, k) by {
                                if k < i {
                                    assert(block_written(compressor, clevel, doshuffle, ts, f, src@, bs, before,
                                        bst_before, cur_before as nat, k));
                                    assert(next_start(bstarts@, k, e as nat) == next_start(bst_before, k, cur_before as nat));
                                    lemma_region_stable(compressor, before, dest@, bstarts@[k] as nat,
                                        next_start(bstarts@, k, e as nat), block_len_of(nbytes as nat, bs, k as nat),
                                        expected_raw(compressor, clevel, doshuffle, ts, f, src@, bs, k as nat));
                                } else {
                                    assert(next_start(bstarts@, k, e as nat) == e);
                                    assert(nstreams == nstreams_spec(compressor, clevel, ts,
                                        block_len_of(nbytes as nat, bs, i as nat), f));
                                }
                            }
                        }
                    }
                    cur = e;
                    i = i + 1;
                },
            }
        }
    }
    proof {
        if !fits {
            assert(frame_body(clevel, doshuffle, typesize, src@, dest.len() as nat, compressor, extended) is None);
        }
    }
    if incompressible || cur - data_offset >= nbytes {
        assert(!compress_fails(clevel, doshuffle, typesize, src.len() as nat, old(dest).len() as nat, compressor,
            extended));
        assert(stores_plain(clevel, doshuffle, typesize, src@, old(dest).len() as nat, compressor, extended));
        return finish_stored(clevel, doshuffle, typesize, src, dest, compressor, extended, filters, filters_meta,
            blocksize, flags);
    }
    assert(nbytes / blocksize >= 1) by (nonlinear_arith)
        requires nbytes >= blocksize, blocksize > 0;
    assert(!compress_fails(clevel, doshuffle, typesize, src.len() as nat, old(dest).len() as nat, compressor,
        extended));
    assert(frame_body(clevel, doshuffle, typesize, src@, old(dest).len() as nat, compressor, extended)
        == Some(dest@.subrange(data_offset as int, cur as int)));
    finish_compressed(clevel, doshuffle, typesize, src, dest, compressor, extended, filters, filters_meta,
        blocksize, flags, nblocks, &bstarts, cur)
}

/// Stores `src` as is after the header, with the stored flag set; `Err(-1)` where it does not
/// fit.
#[verifier::spinoff_prover]
#[verifier::rlimit(100)]
fn finish_stored(clevel: i32, doshuffle: i32, typesize: usize, src: &[u8], dest: &mut [u8],
    compressor: u8, extended: bool, filters: &[u8; 6], filters_meta: &[u8; 6], blocksize: usize, flags: u8)
    -> (r: Result<usize, i32>)
    requires
        typesize > 0,
        old(dest).len() >= if extended { 32usize } else { 16usize },
        blocksize == blocksize_spec(clevel, typesize as nat, src.len() as nat, compressor),
        flags == frame_flags(clevel, doshuffle, typesize as nat, src.len() as nat, compressor, extended),
        stores_plain(clevel, doshuffle, typesize, src@, old(dest).len() as nat, compressor, extended),
    ensures
        final(dest).len() == old(dest).len(),
        compress_ok(clevel, doshuffle, typesize, src@, old(dest).len() as nat, compressor, extended, filters@,
            filters_meta@, final(dest)@, r),
        r is Err <==> src.len() + (if extended { 32int } else { 16int }) > old(dest).len(),
        r matches Ok(c) ==> stored_frame(clevel, doshuffle, typesize, src@, compressor, extended, filters@,
            filters_meta@, final(dest)@, c as nat),
{
    let header_len: usize = if extended { 32 } else { 16 };
    let nbytes = src.len();
    let ghost ts = typesize as nat;
    if nbytes > dest.len() - header_len {
        return Err(-1);
    }
    copy_range(dest, header_len, src, 0, nbytes);
    let flags = flags | 2u8;
    let cur = header_len + nbytes;
    let ghost copied = dest@;
    write_header(dest, extended, nbytes, blocksize, cur, typesize, flags, compressor, filters, filters_meta);
    proof {
        assert(dest@.subrange(0, header_len as int) =~= header_bytes(extended, nbytes, blocksize, cur, typesize,
            flags, compressor, filters@, filters_meta@));
        assert(dest@.subrange(header_len as int, cur as int) =~= copied.subrange(header_len as int, cur as int));
        assert(copied.subrange(header_len as int, cur as int) =~= src@);
        if roundtrip_conditions(clevel, doshuffle, ts, nbytes as nat, compressor, extended, filters@,
            dest.len() as nat, cur as nat) {
            assert forall|old: Seq<u8>| old.len() >= nbytes implies #[trigger] frame_decode(dest@.subrange(0, cur as int), old)
                == Ok::<Seq<u8>, DecompressError>(src@ + old.skip(nbytes as int)) by {
                lemma_stored_roundtrip(clevel, doshuffle, typesize, compressor, extended, filters@,
                    filters_meta@, src@, dest@, cur as nat, old);
            }
        }
    }
    Ok(cur)
}

/// Blocks written in `body`, with the offset table and the header written over the bytes
/// before them, read back as the data.
proof fn lemma_finished_frame(clevel: i32, doshuffle: i32, typesize: usize, compressor: u8, extended: bool,
    filters: Seq<u8>, meta: Seq<u8>, src: Seq<u8>, body: Seq<u8>, d: Seq<u8>, c: nat, bst: Seq<usize>,
    hl: int, bs: nat, nb: nat, f: u8)
    requires
        typesize > 0,
        filters.len() == 6,
        meta.len() == 6,
        known_compressor(compressor),
        bs == blocksize_spec(clevel, typesize as nat, src.len(), compressor),
        nb == nblocks_of(src.len(), bs),
        f == frame_flags(clevel, doshuffle, typesize as nat, src.len(), compressor, extended),
        hl == if extended { 32int } else { 16int },
        hl + 4 * nb <= c <= d.len(),
        d.len() == body.len(),
        forall|j: int| hl + 4 * nb <= j < d.len() ==> d[j] == body[j],
        d.subrange(0, hl) == header_bytes(extended, src.len() as usize, bs as usize, c as usize, typesize, f,
            compressor, filters, meta),
        bst.len() == nb,
        forall|t: int| 0 <= t < nb ==> hl + 4 * nb <= #[trigger] bst[t] <= c,
        forall|q: int| 0 <= q < nb ==> #[trigger] u32_le_at(d, hl + 4 * q) == (bst[q] as u32),
        c <= u32::MAX ==> forall|k: int| 0 <= k < nb
            ==> #[trigger] block_written(compressor, clevel, doshuffle, typesize as nat, f, src, bs, body, bst, c, k),
    ensures
        roundtrip_conditions(clevel, doshuffle, typesize as nat, src.len(), compressor, extended, filters, d.len(), c)
            ==> forall|old: Seq<u8>| old.len() >= src.len() ==> #[trigger] frame_decode(d.subrange(0, c as int), old)
                == Ok::<Seq<u8>, DecompressError>(src + old.skip(src.len() as int)),
{
    if roundtrip_conditions(clevel, doshuffle, typesize as nat, src.len(), compressor, extended, filters, d.len(), c) {
        assert forall|k: int| 0 <= k < nb implies #[trigger] block_written(compressor, clevel, doshuffle,
            typesize as nat, f, src, bs, d, bst, c, k) by {
            assert(block_written(compressor, clevel, doshuffle, typesize as nat, f, src, bs, body, bst, c, k));
            lemma_region_stable(compressor, body, d, bst[k] as nat, next_start(bst, k, c),
                block_len_of(src.len(), bs, k as nat), expected_raw(compressor, clevel, doshuffle, typesize as nat, f,
                src, bs, k as nat));
        }
        assert forall|old: Seq<u8>| old.len() >= src.len() implies #[trigger] frame_decode(d.subrange(0, c as int), old)
            == Ok::<Seq<u8>, DecompressError>(src + old.skip(src.len() as int)) by {
            lemma_compressed_roundtrip(clevel, doshuffle, typesize, compressor, extended, filters, meta, src, d, c,
                bst, old, hl, bs, nb, f);
        }
    }
}

/// Writes the table of block offsets and the header in front of blocks already written.
#[verifier::spinoff_prover]
#[verifier::rlimit(100)]
fn finish_compressed(clevel: i32, doshuffle: i32, typesize: usize, src: &[u8], dest: &mut [u8],
    compressor: u8, extended: bool, filters: &[u8; 6], filters_meta: &[u8; 6], blocksize: usize, flags: u8,
    nblocks: usize, bstarts: &Vec<usize>, cur: usize) -> (r: Result<usize, i32>)
    requires
        typesize > 0,
        blocksize == blocksize_spec(clevel, typesize as nat, src.len() as nat, compressor),
        nblocks == nblocks_of(src.len() as nat, blocksize as nat),
        nblocks > 0,
        flags == frame_flags(clevel, doshuffle, typesize as nat, src.len() as nat, compressor, extended),
        known_compressor(compressor),
        (if extended { 32int } else { 16int }) + 4 * nblocks <= cur <= old(dest).len(),
        bstarts.len() == nblocks,
        forall|t: int| 0 <= t < nblocks ==> (if extended { 32int } else { 16int }) + 4 * nblocks <= #[trigger] bstarts@[t] <= cur,
        bstarts@[0] == (if extended { 32int } else { 16int }) + 4 * nblocks,
        cur < (if extended { 32int } else { 16int }) + 4 * nblocks + src.len(),
        forall|t: int| 0 <= t < nblocks ==> #[trigger] bstarts@[t] < cur,
        forall|t1: int, t2: int| 0 <= t1 < t2 < nblocks ==> #[trigger] bstarts@[t1] < #[trigger] bstarts@[t2],
        frame_body(clevel, doshuffle, typesize, src@, old(dest).len() as nat, compressor, extended)
            == Some(old(dest)@.subrange((if extended { 32int } else { 16int }) + 4 * nblocks, cur as int)),
        clevel != 0,
        cur <= u32::MAX ==> forall|k: int| 0 <= k < nblocks
            ==> #[trigger] block_written(compressor, clevel, doshuffle, typesize as nat, flags, src@, blocksize as nat,
                old(dest)@, bstarts@, cur as nat, k),
    ensures
        final(dest).len() == old(dest).len(),
        r == Ok::<usize, i32>(cur),
        compress_ok(clevel, doshuffle, typesize, src@, old(dest).len() as nat, compressor, extended, filters@,
            filters_meta@, final(dest)@, r),
{
    let header_len: usize = if extended { 32 } else { 16 };
    let nbytes = src.len();
    let ghost ts = typesize as nat;
    let ghost bs = blocksize as nat;
    let ghost f = flags;
    let ghost body = dest@;
    let ghost data_offset = header_len + 4 * nblocks;
    let mut t: usize = 0;
    while t < nblocks
        invariant
            t <= nblocks,
            bstarts.len() == nblocks,
            header_len == (if extended { 32usize } else { 16usize }),
            data_offset == header_len + 4 * nblocks,
            data_offset <= dest.len(),
            dest.len() == body.len(),
            forall|j: int| data_offset <= j < dest.len() ==> dest@[j] == body[j],
            forall|q: int| 0 <= q < t ==> #[trigger] u32_le_at(dest@, header_len + 4 * q) == (bstarts@[q] as u32),
        decreases nblocks - t,
    {
        let ghost prev = dest@;
        write_le32(dest, header_len + 4 * t, bstarts[t] as u32);
        proof {
            assert(dest@.subrange(header_len + 4 * t, header_len + 4 * t + 4) =~= le32_bytes(bstarts@[t as int] as u32));
            lemma_le32_roundtrip(dest@, header_len + 4 * t, bstarts@[t as int] as u32);
            assert forall|q: int| 0 <= q < t implies #[trigger] u32_le_at(dest@, header_len + 4 * q) == (bstarts@[q] as u32) by {
                assert(u32_le_at(prev, header_len + 4 * q) == (bstarts@[q] as u32));
            }
        }
        t += 1;
    }
    let ghost tabled = dest@;
    write_header(dest, extended, nbytes, blocksize, cur, typesize, flags, compressor, filters, filters_meta);
    proof {
        assert(dest@.subrange(0, header_len as int) =~= header_bytes(extended, nbytes, blocksize, cur, typesize,
            flags, compressor, filters@, filters_meta@));
        assert forall|q: int| 0 <= q < nblocks implies #[trigger] u32_le_at(dest@, header_len + 4 * q)
            == (bstarts@[q] as u32) by {
            assert(u32_le_at(tabled, header_len + 4 * q) == (bstarts@[q] as u32));
        }
        lemma_finished_frame(clevel, doshuffle, typesize, compressor, extended, filters@, filters_meta@, src@,
            body, dest@, cur as nat, bstarts@, header_len as int, bs, nblocks as nat, f);
        if cur <= u32::MAX {
            assert forall|q: int| 0 <= q < nblocks implies header_len + 4 * nblocks <= #[trigger] u32_le_at(dest@, header_len + 4 * q)
                <= cur by {
                assert(u32_le_at(dest@, header_len + 4 * q) == (bstarts@[q] as u32));
            }
            assert(u32_le_at(dest@, header_len + 4 * 0) == (bstarts@[0] as u32));
            assert forall|t1: int, t2: int| 0 <= t1 < t2 < nblocks implies #[trigger] u32_le_at(dest@, header_len + 4 * t1)
                < #[trigger] u32_le_at(dest@, header_len + 4 * t2) by {
                assert(u32_le_at(dest@, header_len + 4 * t1) == (bstarts@[t1] as u32));
                assert(u32_le_at(dest@, header_len + 4 * t2) == (bstarts@[t2] as u32));
            }
            assert(offset_table(dest@, header_len as int, nblocks as nat, cur as nat));
        }
        assert(dest@.subrange(data_offset as int, cur as int) =~= body.subrange(data_offset as int, cur as int));
        assert(compressed_frame(clevel, doshuffle, typesize, src@, dest.len() as nat, compressor, extended,
            filters@, filters_meta@, dest@, cur as nat));
    }
    Ok(cur)
}

} // verus!
