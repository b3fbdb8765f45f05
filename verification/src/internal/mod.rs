//! Writing and reading compressed buffers: the frame layout around the codecs and filters.
pub mod constants;
pub mod frame;
pub mod writer;

use vstd::prelude::*;
use crate::internal::frame::{DecompressError, FrameHeader, parse_header, nblocks_of, block_len_of};
use crate::internal::frame::{frame_decode, blocks_fold, old_block_of, block_out, read_header, block_output, copy_range};
use crate::internal::frame::{lemma_block_geometry, lemma_fold_err_sticks, lemma_frame_blocks, getitem_decode, zeros};
use crate::internal::writer::{compress_internal, compress_ok, compress_fails, stored_frame, stores_plain, roundtrip_conditions};
use crate::internal::writer::{blocksize_spec, frame_flags, lemma_frame_flags_values, lemma_blocksize_bounds, lemma_header_parse};

verus! {

/// Six empty filter slots.
pub open spec fn no_filters() -> Seq<u8> {
    seq![0u8, 0u8, 0u8, 0u8, 0u8, 0u8]
}

/// Compresses `src` into `dest` with the 16-byte Blosc1 header: `doshuffle` picks byte shuffle
/// (1), bitshuffle (2) or no filter, `typesize` is the item size and `compressor` the codec.
/// Returns the compressed size; see [`compress_ok`] and [`compress_fails`].
pub fn compress(clevel: i32, doshuffle: i32, typesize: usize, src: &[u8], dest: &mut [u8], compressor: u8)
    -> (r: Result<usize, i32>)
    requires
        typesize > 0,
        old(dest).len() >= 16,
        compressor == 0 && src.len() >= 16 ==> 0 <= clevel <= 9,
        compressor == 4 ==> 0 <= clevel <= 10,
        doshuffle == 2 ==> 8 * typesize <= usize::MAX + 1,
    ensures
        final(dest).len() == old(dest).len(),
        compress_ok(clevel, doshuffle, typesize, src@, old(dest).len() as nat, compressor, false, no_filters(),
            no_filters(), final(dest)@, r),
        compress_fails(clevel, doshuffle, typesize, src.len() as nat, old(dest).len() as nat, compressor, false)
            ==> r == Err::<usize, i32>(-1i32),
        clevel == 0 ==> (r is Err <==> src.len() + 16int > old(dest).len()),
        clevel == 0 ==> (r matches Ok(c) ==> stored_frame(clevel, doshuffle, typesize, src@, compressor, false,
            no_filters(), no_filters(), final(dest)@, c as nat)),
{
    let none: [u8; 6] = [0u8, 0u8, 0u8, 0u8, 0u8, 0u8];
    assert(none@ == no_filters());
    compress_internal(clevel, doshuffle, typesize, src, dest, compressor, false, &none, &none)
}

/// Compresses `src` into `dest` with the 32-byte extended header, which records `filters` and
/// `filters_meta`; a reader takes the filters from those slots. Returns the compressed size;
/// see [`compress_ok`] and [`compress_fails`].
pub fn compress_extended(clevel: i32, doshuffle: i32, typesize: usize, src: &[u8], dest: &mut [u8], compressor: u8,
    filters: &[u8; 6], filters_meta: &[u8; 6]) -> (r: Result<usize, i32>)
    requires
        typesize > 0,
        old(dest).len() >= 32,
        compressor == 0 && src.len() >= 16 ==> 0 <= clevel <= 9,
        compressor == 4 ==> 0 <= clevel <= 10,
        doshuffle == 2 ==> 8 * typesize <= usize::MAX + 1,
    ensures
        final(dest).len() == old(dest).len(),
        compress_ok(clevel, doshuffle, typesize, src@, old(dest).len() as nat, compressor, true, filters@,
            filters_meta@, final(dest)@, r),
        compress_fails(clevel, doshuffle, typesize, src.len() as nat, old(dest).len() as nat, compressor, true)
            ==> r == Err::<usize, i32>(-1i32),
        clevel == 0 ==> (r is Err <==> src.len() + 32int > old(dest).len()),
        clevel == 0 ==> (r matches Ok(c) ==> stored_frame(clevel, doshuffle, typesize, src@, compressor, true,
            filters@, filters_meta@, final(dest)@, c as nat)),
{
    compress_internal(clevel, doshuffle, typesize, src, dest, compressor, true, filters, filters_meta)
}

/// Decompresses the buffer `src` into `dest` and returns the uncompressed size from its header.
/// What `dest` then holds, or which error comes back, is [`frame_decode`] of `src` over the
/// old contents of `dest`; on an error the contents of `dest` are not stated.
pub fn decompress(src: &[u8], dest: &mut [u8]) -> (r: Result<usize, DecompressError>)
    ensures
        final(dest).len() == old(dest).len(),
        match frame_decode(src@, old(dest)@) {
            Ok(out) => r == Ok::<usize, DecompressError>(parse_header(src@).nbytes) && final(dest)@ == out,
            Err(e) => r == Err::<usize, DecompressError>(e),
        },
{
    if src.len() < 16 {
        return Err(DecompressError::HeaderTooSmall);
    }
    let version = src[0];
    let hlen: usize = if version == 3 || version == 4 || version == 5 { 32 } else { 16 };
    if src.len() < hlen {
        return Err(DecompressError::ExtendedHeaderTooSmall);
    }
    let h = read_header(src);
    if dest.len() < h.nbytes {
        return Err(DecompressError::DestinationTooSmall);
    }
    if h.memcpyed {
        if src.len() - h.hlen < h.nbytes {
            return Err(DecompressError::StoredDataTruncated);
        }
        copy_range(dest, 0, src, h.hlen, h.nbytes);
        assert(dest@ =~= src@.subrange(h.hlen as int, h.hlen + h.nbytes) + old(dest)@.skip(h.nbytes as int));
        return Ok(h.nbytes);
    }
    assert(h.blocksize > 0 && h.nbytes % h.blocksize != 0 ==> h.nbytes / h.blocksize < h.nbytes) by (nonlinear_arith)
        requires h.blocksize > 0 && h.nbytes % h.blocksize != 0 ==> h.blocksize != 1;
    let nblocks: usize = if h.blocksize == 0 { 0 } else {
        h.nbytes / h.blocksize + if h.nbytes % h.blocksize != 0 { 1usize } else { 0usize }
    };
    assert(nblocks == nblocks_of(h.nbytes as nat, h.blocksize as nat));
    if (src.len() - h.hlen) / 4 < nblocks {
        return Err(DecompressError::BstartsTruncated);
    }
    let ghost old_dest = old(dest)@;
    proof { lemma_frame_blocks(src@, old_dest); }
    let ghost result = frame_decode(src@, old_dest);
    let mut i: usize = 0;
    let mut dest_offset: usize = 0;
    assert(dest@.subrange(0, 0) =~= Seq::<u8>::empty());
    while i < nblocks
        invariant
            old_dest == old(dest)@,
            result == frame_decode(src@, old_dest),
            result == match blocks_fold(src@, h, old_dest, 0, nblocks as nat) {
                Ok(out) => Ok(out + old_dest.skip(out.len() as int)),
                Err(e) => Err::<Seq<u8>, DecompressError>(e),
            },
            h == parse_header(src@),
            src.len() >= h.hlen + 4 * nblocks_of(h.nbytes as nat, h.blocksize as nat),
            nblocks == nblocks_of(h.nbytes as nat, h.blocksize as nat),
            nblocks > 0 ==> h.blocksize > 0,
            i <= nblocks,
            dest.len() == old_dest.len(),
            dest.len() >= h.nbytes,
            dest_offset <= h.nbytes,
            i < nblocks ==> dest_offset == i * h.blocksize,
            i == nblocks && nblocks > 0 ==> dest_offset == h.nbytes,
            blocks_fold(src@, h, old_dest, 0, i as nat) == Ok::<Seq<u8>, DecompressError>(dest@.subrange(0, dest_offset as int)),
            dest@.skip(dest_offset as int) == old_dest.skip(dest_offset as int),
        decreases nblocks - i,
    {
        proof { lemma_block_geometry(h.nbytes as nat, h.blocksize as nat, i as nat); }
        let bn = if i + 1 == nblocks && h.nbytes % h.blocksize != 0 { h.nbytes % h.blocksize } else { h.blocksize };
        assert(bn == block_len_of(h.nbytes as nat, h.blocksize as nat, i as nat));
        let old_block = &dest[dest_offset..dest_offset + bn];
        assert(old_block@ == old_block_of(h, old_dest, i as nat)) by {
            assert(old_block@ =~= dest@.skip(dest_offset as int).subrange(0, bn as int));
            assert(old_dest.subrange(dest_offset as int, dest_offset + bn)
                =~= old_dest.skip(dest_offset as int).subrange(0, bn as int));
        }
        let b = match block_output(src, &h, i, old_block) {
            Ok(b) => b,
            Err(e) => {
                proof { lemma_fold_err_sticks(src@, h, old_dest, 0, (i + 1) as nat, nblocks as nat); }
                return Err(e);
            },
        };
        let ghost before = dest@;
        copy_range(dest, dest_offset, &b, 0, bn);
        proof {
            assert(b@.subrange(0, bn as int) =~= b@);
            assert(dest@.subrange(0, dest_offset + bn) =~= before.subrange(0, dest_offset as int) + b@);
            assert(dest@.skip(dest_offset + bn) =~= before.skip(dest_offset + bn));
            assert(before.skip(dest_offset + bn) =~= before.skip(dest_offset as int).skip(bn as int));
            assert(old_dest.skip(dest_offset + bn) =~= old_dest.skip(dest_offset as int).skip(bn as int));
            if i + 1 < nblocks {
                assert((i + 1) * h.blocksize == i * h.blocksize + h.blocksize) by (nonlinear_arith);
            }
        }
        dest_offset = dest_offset + bn;
        i = i + 1;
    }
    assert(dest@ =~= dest@.subrange(0, dest_offset as int) + old_dest.skip(dest_offset as int));
    Ok(h.nbytes)
}

/// The block range that holds the bytes `sb .. eb`: blocks `sb / bs` up to and including
/// `(eb - 1) / bs`.
proof fn lemma_item_blocks(sb: nat, eb: nat, nbytes: nat, bs: nat)
    requires
        bs > 0,
        sb < eb <= nbytes,
    ensures
        (sb / bs) * bs <= sb,
        sb / bs < (eb - 1) as nat / bs + 1,
        (eb - 1) as nat / bs + 1 <= nblocks_of(nbytes, bs),
        ((eb - 1) as nat / bs + 1) * bs >= eb,
{
    let lo = sb / bs;
    let e1 = (eb - 1) as nat;
    let hi = e1 / bs + 1;
    crate::arith::lemma_div_mul_le(sb as int, bs as int);
    crate::arith::lemma_div_mul_le(e1 as int, bs as int);
    crate::arith::lemma_div_mul_le(nbytes as int, bs as int);
    assert(lo <= e1 / bs) by (nonlinear_arith)
        requires sb <= e1, bs > 0, lo == sb / bs;
    assert(hi * bs == (e1 / bs) * bs + bs) by (nonlinear_arith)
        requires hi == e1 / bs + 1;
    assert(e1 / bs <= nbytes / bs) by (nonlinear_arith)
        requires e1 < nbytes, bs > 0;
    if nbytes % bs == 0 {
        assert(e1 / bs < nbytes / bs) by (nonlinear_arith)
            requires e1 < nbytes, bs > 0, (nbytes / bs) * bs == nbytes, (e1 / bs) * bs <= e1;
    }
}

/// Decompresses items `start .. start + nitems` (of the typesize in the header) of `src` into
/// the start of `dest`, decoding only the blocks that hold them, and returns their byte count;
/// `Err(-1)` where [`getitem_decode`] says the request cannot be served, with `dest` untouched.
pub fn getitem(src: &[u8], start: usize, nitems: usize, dest: &mut [u8]) -> (r: Result<usize, i32>)
    ensures
        final(dest).len() == old(dest).len(),
        match getitem_decode(src@, start as nat, nitems as nat, old(dest).len() as nat) {
            Some(items) => r == Ok::<usize, i32>(items.len() as usize)
                && final(dest)@ == items + old(dest)@.skip(items.len() as int),
            None => r == Err::<usize, i32>(-1i32) && final(dest)@ == old(dest)@,
        },
{
    if src.len() < 16 {
        return Err(-1);
    }
    let version = src[0];
    let hlen: usize = if version == 3 || version == 4 || version == 5 { 32 } else { 16 };
    if src.len() < hlen {
        return Err(-1);
    }
    let h = read_header(src);
    if src.len() < h.cbytes {
        return Err(-1);
    }
    let start_byte = match start.checked_mul(h.typesize) {
        Some(v) => v,
        None => return Err(-1),
    };
    let end_item = match start.checked_add(nitems) {
        Some(v) => v,
        None => return Err(-1),
    };
    let end_byte = match end_item.checked_mul(h.typesize) {
        Some(v) => v,
        None => return Err(-1),
    };
    assert(start_byte <= end_byte) by (nonlinear_arith)
        requires start_byte == start * h.typesize, end_byte == end_item * h.typesize, start <= end_item;
    if end_byte > h.nbytes || dest.len() < end_byte - start_byte {
        return Err(-1);
    }
    let len = end_byte - start_byte;
    if h.memcpyed {
        if src.len() - h.hlen < end_byte {
            return Err(-1);
        }
        copy_range(dest, 0, src, h.hlen + start_byte, len);
        assert(dest@ =~= src@.subrange(h.hlen + start_byte, h.hlen + end_byte) + old(dest)@.skip(len as int));
        return Ok(len);
    }
    if len == 0 {
        assert(old(dest)@ =~= Seq::<u8>::empty() + old(dest)@.skip(0));
        return Ok(0);
    }
    if h.blocksize == 0 {
        return Err(-1);
    }
    assert(h.nbytes % h.blocksize != 0 ==> h.nbytes / h.blocksize < h.nbytes) by (nonlinear_arith)
        requires h.blocksize > 0, h.nbytes % h.blocksize != 0 ==> h.blocksize != 1;
    let nblocks = h.nbytes / h.blocksize + if h.nbytes % h.blocksize != 0 { 1usize } else { 0usize };
    assert(nblocks == nblocks_of(h.nbytes as nat, h.blocksize as nat));
    if (src.len() - h.hlen) / 4 < nblocks {
        return Err(-1);
    }
    let bs = h.blocksize;
    let lo = start_byte / bs;
    let hi = (end_byte - 1) / bs + 1;
    proof { lemma_item_blocks(start_byte as nat, end_byte as nat, h.nbytes as nat, bs as nat); }
    let ghost zs = zeros(h.nbytes as nat);
    let ghost gres = getitem_decode(src@, start as nat, nitems as nat, old(dest).len() as nat);
    assert(gres == match blocks_fold(src@, h, zs, lo as nat, hi as nat) {
        Ok(b) => Some(b.subrange(start_byte - lo * bs, end_byte - lo * bs)),
        Err(_) => None::<Seq<u8>>,
    });
    let mut acc: Vec<u8> = Vec::new();
    let mut i: usize = lo;
    assert(lo * bs <= start_byte);
    while i < hi
        invariant
            gres == getitem_decode(src@, start as nat, nitems as nat, old(dest).len() as nat),
            gres == match blocks_fold(src@, h, zs, lo as nat, hi as nat) {
                Ok(b) => Some(b.subrange(start_byte - lo * bs, end_byte - lo * bs)),
                Err(_) => None::<Seq<u8>>,
            },
            dest@ == old(dest)@,
            h == parse_header(src@),
            src.len() >= h.hlen + 4 * nblocks_of(h.nbytes as nat, h.blocksize as nat),
            nblocks == nblocks_of(h.nbytes as nat, h.blocksize as nat),
            bs == h.blocksize, bs > 0,
            lo <= i <= hi, hi <= nblocks,
            lo * bs <= start_byte,
            zs == zeros(h.nbytes as nat),
            lo * bs + acc.len() == if i < nblocks { i * bs } else { h.nbytes as int },
            blocks_fold(src@, h, zs, lo as nat, i as nat) == Ok::<Seq<u8>, DecompressError>(acc@),
        decreases hi - i,
    {
        proof { lemma_block_geometry(h.nbytes as nat, bs as nat, i as nat); }
        let bn = if i + 1 == nblocks && h.nbytes % bs != 0 { h.nbytes % bs } else { bs };
        assert(bn == block_len_of(h.nbytes as nat, h.blocksize as nat, i as nat));
        let zero_block = vec![0u8; bn];
        assert(zero_block@ =~= old_block_of(h, zs, i as nat));
        let mut b = match block_output(src, &h, i, &zero_block) {
            Ok(b) => b,
            Err(_) => {
                proof { lemma_fold_err_sticks(src@, h, zs, lo as nat, (i + 1) as nat, hi as nat); }
                return Err(-1);
            },
        };
        acc.append(&mut b);
        proof {
            if i + 1 < nblocks {
                assert((i + 1) * bs == i * bs + bs) by (nonlinear_arith);
            }
        }
        i = i + 1;
    }
    proof {
        if hi < nblocks {
            assert(hi * bs >= end_byte);
        }
    }
    copy_range(dest, 0, &acc, start_byte - lo * bs, len);
    assert(dest@ =~= acc@.subrange(start_byte - lo * bs, end_byte - lo * bs) + old(dest)@.skip(len as int));
    Ok(len)
}

/// Over destinations that agree on the blocks' bytes, the blocks decode alike.
proof fn lemma_fold_same_old(s: Seq<u8>, h: FrameHeader, old1: Seq<u8>, old2: Seq<u8>, lo: nat, j: nat)
    requires
        h.blocksize > 0,
        j <= nblocks_of(h.nbytes as nat, h.blocksize as nat),
        old1.len() >= h.nbytes,
        old2.len() >= h.nbytes,
        old1.subrange(0, h.nbytes as int) == old2.subrange(0, h.nbytes as int),
    ensures
        blocks_fold(s, h, old1, lo, j) == blocks_fold(s, h, old2, lo, j),
    decreases j,
{
    if j > lo {
        lemma_fold_same_old(s, h, old1, old2, lo, (j - 1) as nat);
        let i = (j - 1) as nat;
        lemma_block_geometry(h.nbytes as nat, h.blocksize as nat, i);
        let a = i * h.blocksize;
        let e = a + block_len_of(h.nbytes as nat, h.blocksize as nat, i);
        assert(old_block_of(h, old1, i) =~= old_block_of(h, old2, i)) by {
            assert forall|k: int| 0 <= k < e - a implies old_block_of(h, old1, i)[k] == old_block_of(h, old2, i)[k] by {
                assert(old_block_of(h, old1, i)[k] == old1[a + k]);
                assert(old_block_of(h, old2, i)[k] == old2[a + k]);
                assert(old1.subrange(0, h.nbytes as int)[a + k] == old1[a + k]);
                assert(old2.subrange(0, h.nbytes as int)[a + k] == old2[a + k]);
            }
        }
    }
}

/// Blocks `lo .. j` decode to the part of blocks `0 .. j` from block `lo` on, and blocks
/// `0 .. j` cover `j` whole blocks, or all the bytes once `j` is the block count.
proof fn lemma_fold_from(s: Seq<u8>, h: FrameHeader, old: Seq<u8>, lo: nat, j: nat)
    requires
        h.blocksize > 0,
        lo <= j <= nblocks_of(h.nbytes as nat, h.blocksize as nat),
        lo < nblocks_of(h.nbytes as nat, h.blocksize as nat),
        old.len() >= h.nbytes,
        blocks_fold(s, h, old, 0, j) is Ok,
    ensures
        ({
            let a = blocks_fold(s, h, old, 0, j).unwrap();
            let nb = nblocks_of(h.nbytes as nat, h.blocksize as nat);
            &&& a.len() == if j < nb { (j * h.blocksize) as int } else { h.nbytes as int }
            &&& lo * h.blocksize <= a.len()
            &&& blocks_fold(s, h, old, lo, j) == Ok::<Seq<u8>, DecompressError>(a.skip((lo * h.blocksize) as int))
        }),
    decreases j,
{
    let nb = nblocks_of(h.nbytes as nat, h.blocksize as nat);
    let bs = h.blocksize as nat;
    lemma_block_geometry(h.nbytes as nat, bs, lo);
    if j == 0 {
        assert(blocks_fold(s, h, old, 0, 0).unwrap() =~= Seq::<u8>::empty());
        assert(0 * bs == 0);
        assert(blocks_fold(s, h, old, 0, 0).unwrap().skip(0) =~= Seq::<u8>::empty());
    } else {
        let i = (j - 1) as nat;
        if blocks_fold(s, h, old, 0, i) is Err {
            lemma_fold_err_sticks(s, h, old, 0, i, j);
        }
        lemma_block_geometry(h.nbytes as nat, bs, i);
        crate::internal::frame::lemma_block_out_len(s, h, i, old_block_of(h, old, i));
        let prev = blocks_fold(s, h, old, 0, i).unwrap();
        assert(block_out(s, h, i, old_block_of(h, old, i)) is Ok);
        let b = block_out(s, h, i, old_block_of(h, old, i)).unwrap();
        let a = prev + b;
        assert(blocks_fold(s, h, old, 0, j) == Ok::<Seq<u8>, DecompressError>(a));
        lemma_fold_from(s, h, old, 0, i);
        assert(prev.len() == i * bs);
        assert(b.len() == block_len_of(h.nbytes as nat, bs, i));
        assert(j * bs == i * bs + bs) by (nonlinear_arith) requires j == i + 1;
        if lo <= i {
            lemma_fold_from(s, h, old, lo, i);
            assert(lo * bs <= i * bs) by (nonlinear_arith) requires lo <= i;
            assert(blocks_fold(s, h, old, lo, i) == Ok::<Seq<u8>, DecompressError>(prev.skip((lo * bs) as int)));
            assert(blocks_fold(s, h, old, lo, j) == Ok::<Seq<u8>, DecompressError>(prev.skip((lo * bs) as int) + b));
            assert(a.skip((lo * bs) as int) =~= prev.skip((lo * bs) as int) + b);
        } else {
            assert(lo == j);
            assert(blocks_fold(s, h, old, lo, j) == Ok::<Seq<u8>, DecompressError>(Seq::<u8>::empty()));
            assert(a.skip((lo * bs) as int) =~= Seq::<u8>::empty());
        }
    }
}

/// The first `j` blocks decoded are the start of the first `k`.
proof fn lemma_fold_prefix(s: Seq<u8>, h: FrameHeader, old: Seq<u8>, j: nat, k: nat)
    requires
        j <= k,
        blocks_fold(s, h, old, 0, k) is Ok,
    ensures
        blocks_fold(s, h, old, 0, j) is Ok,
        blocks_fold(s, h, old, 0, j).unwrap().len() <= blocks_fold(s, h, old, 0, k).unwrap().len(),
        blocks_fold(s, h, old, 0, k).unwrap().subrange(0, blocks_fold(s, h, old, 0, j).unwrap().len() as int)
            == blocks_fold(s, h, old, 0, j).unwrap(),
    decreases k - j,
{
    if blocks_fold(s, h, old, 0, j) is Err {
        lemma_fold_err_sticks(s, h, old, 0, j, k);
    }
    let ak = blocks_fold(s, h, old, 0, k).unwrap();
    if j < k {
        lemma_fold_prefix(s, h, old, j + 1, k);
        let a = blocks_fold(s, h, old, 0, j).unwrap();
        let a1 = blocks_fold(s, h, old, 0, j + 1).unwrap();
        assert(block_out(s, h, j, old_block_of(h, old, j)) is Ok);
        assert(a1 == a + block_out(s, h, j, old_block_of(h, old, j)).unwrap());
        assert(a1.subrange(0, a.len() as int) =~= a);
        assert(ak.subrange(0, a1.len() as int) == a1);
        assert(ak.subrange(0, a.len() as int) =~= a1.subrange(0, a.len() as int));
    } else {
        assert(ak.subrange(0, ak.len() as int) =~= ak);
    }
}

/// Extracting items gives the bytes that decompressing the whole buffer, into a destination of
/// zeros, puts at their place. (A header with a block size of zero reports no blocks: there,
/// extraction refuses a non-empty request.)
pub proof fn lemma_getitem_matches_decompress(s: Seq<u8>, start: nat, nitems: nat, destlen: nat, n: nat)
    requires
        frame_decode(s, zeros(n)) is Ok,
        s.len() >= parse_header(s).cbytes,
        start + nitems <= usize::MAX,
        (start + nitems) * parse_header(s).typesize <= usize::MAX,
        (start + nitems) * parse_header(s).typesize <= parse_header(s).nbytes,
        destlen >= nitems * parse_header(s).typesize,
        parse_header(s).blocksize > 0 || parse_header(s).memcpyed || nitems * parse_header(s).typesize == 0,
    ensures
        ({
            let ts = parse_header(s).typesize as nat;
            getitem_decode(s, start, nitems, destlen)
                == Some(frame_decode(s, zeros(n)).unwrap().subrange((start * ts) as int, ((start + nitems) * ts) as int))
        }),
{
    let h = parse_header(s);
    let ts = h.typesize as nat;
    let sb = start * ts;
    let eb = (start + nitems) * ts;
    let out = frame_decode(s, zeros(n)).unwrap();
    assert(eb == sb + nitems * ts) by (nonlinear_arith) requires eb == (start + nitems) * ts, sb == start * ts;
    assert(sb <= eb);
    if h.memcpyed {
        assert(out.subrange(sb as int, eb as int) =~= s.subrange(h.hlen + sb, h.hlen + eb));
    } else if eb == sb {
        assert(out.subrange(sb as int, eb as int) =~= Seq::<u8>::empty());
    } else {
        let bs = h.blocksize as nat;
        let nb = nblocks_of(h.nbytes as nat, bs);
        let lo = sb / bs;
        let hi = (eb - 1) as nat / bs + 1;
        lemma_item_blocks(sb, eb, h.nbytes as nat, bs);
        lemma_frame_blocks(s, zeros(n));
        let znb = zeros(h.nbytes as nat);
        assert(zeros(n).subrange(0, h.nbytes as int) =~= znb.subrange(0, h.nbytes as int));
        lemma_fold_same_old(s, h, zeros(n), znb, 0, nb);
        lemma_fold_same_old(s, h, zeros(n), znb, lo, hi);
        lemma_fold_prefix(s, h, zeros(n), hi, nb);
        lemma_fold_from(s, h, zeros(n), lo, hi);
        lemma_fold_from(s, h, zeros(n), 0, nb);
        let a_nb = blocks_fold(s, h, zeros(n), 0, nb).unwrap();
        let a_hi = blocks_fold(s, h, zeros(n), 0, hi).unwrap();
        assert(a_hi.len() >= eb);
        assert(out == a_nb + zeros(n).skip(a_nb.len() as int));
        assert(lo * bs <= sb);
        assert(blocks_fold(s, h, znb, lo, hi) == Ok::<Seq<u8>, DecompressError>(a_hi.skip((lo * bs) as int)));
        assert(a_hi.skip((lo * bs) as int).subrange(sb - lo * bs, eb - lo * bs) =~= out.subrange(sb as int, eb as int)) by {
            assert forall|k: int| 0 <= k < eb - sb implies
                a_hi.skip((lo * bs) as int).subrange(sb - lo * bs, eb - lo * bs)[k] == out.subrange(sb as int, eb as int)[k] by {
                assert(a_nb.subrange(0, a_hi.len() as int)[sb + k] == a_hi[sb + k]);
                assert(out[sb + k] == a_nb[sb + k]);
            }
        }
    }
}

/// Extracting items from a buffer that compression wrote gives those items of the data: where a
/// compression call left `d` and returned `Ok(c)` on inputs that meet [`roundtrip_conditions`],
/// reading `nitems` items from item `start` on, all within the data, out of the first `c` bytes
/// of `d` into a destination of `outlen` bytes that holds them gives
/// `src[start * typesize .. (start + nitems) * typesize]`.
pub proof fn lemma_compress_getitem(clevel: i32, doshuffle: i32, typesize: usize, src: Seq<u8>, destlen: nat,
    compressor: u8, extended: bool, filters: Seq<u8>, meta: Seq<u8>, d: Seq<u8>, c: usize, start: nat,
    nitems: nat, outlen: nat)
    requires
        typesize > 0,
        filters.len() == 6,
        meta.len() == 6,
        compress_ok(clevel, doshuffle, typesize, src, destlen, compressor, extended, filters, meta, d,
            Ok::<usize, i32>(c)),
        roundtrip_conditions(clevel, doshuffle, typesize as nat, src.len(), compressor, extended, filters, destlen,
            c as nat),
        (start + nitems) * typesize <= src.len(),
        outlen >= nitems * typesize,
    ensures
        getitem_decode(d.subrange(0, c as int), start, nitems, outlen)
            == Some(src.subrange((start * typesize) as int, ((start + nitems) * typesize) as int)),
{
    let s = d.subrange(0, c as int);
    let n = src.len();
    let ts = typesize as nat;
    let bs = blocksize_spec(clevel, ts, n, compressor);
    let f = frame_flags(clevel, doshuffle, ts, n, compressor, extended);
    let hl: int = if extended { 32 } else { 16 };
    lemma_frame_flags_values(clevel, doshuffle, ts, n, compressor, extended);
    lemma_blocksize_bounds(clevel, ts, n, compressor);
    assert(s.subrange(0, hl) =~= d.subrange(0, hl));
    if stores_plain(clevel, doshuffle, typesize, src, destlen, compressor, extended) {
        lemma_header_parse(s, extended, n as usize, bs as usize, c, typesize, f, true, compressor, filters, meta);
    } else {
        lemma_header_parse(s, extended, n as usize, bs as usize, c, typesize, f, false, compressor, filters, meta);
    }
    assert(frame_decode(s, zeros(n)) == Ok::<Seq<u8>, DecompressError>(src + zeros(n).skip(n as int)));
    assert(src + zeros(n).skip(n as int) =~= src);
    assert(start + nitems <= (start + nitems) * ts) by (nonlinear_arith)
        requires ts >= 1;
    lemma_getitem_matches_decompress(s, start, nitems, outlen, n);
}

} // verus!
