//! The block filters behind the `i32` interface of the library: the portable kernels, with
//! parameter checks, the trailing bytes that a kernel leaves alone, and the format version.
use vstd::prelude::*;
use crate::arith::{lemma_div_mul_le, lemma_transpose_index};
use crate::filters::{shuffle, unshuffle, shuffled, unshuffled, bitshuffled, byte_transpose};
use crate::filters::{lemma_unshuffle_shuffle, lemma_byte_transpose_prefix};
use crate::filters::bitshuffle_generic::{bshuf_trans_bit_elem_scal, bshuf_untrans_bit_elem_scal, eightelem};
use crate::filters::bitshuffle_generic::lemma_bshuf_untrans_trans;
use crate::internal::constants::{BLOSC2_ERROR_INVALID_PARAM, BLOSC2_VERSION_FORMAT};

verus! {

/// The shuffle parameters that the dispatching routines accept.
pub open spec fn shuffle_params_ok(typesize: i32, blocksize: i32) -> bool {
    1 <= typesize <= 256 && blocksize >= 0
}

/// Number of whole elements of a block that bitshuffle covers: a multiple of eight.
pub open spec fn bit_elems(typesize: nat, blocksize: nat) -> nat {
    ((blocksize / typesize) / 8 * 8) as nat
}

/// The bit-unshuffled image of `size` items of `elem_size` bytes (`size` a multiple of eight).
pub open spec fn bit_untransposed(src: Seq<u8>, size: nat, elem_size: nat) -> Seq<u8> {
    eightelem(byte_transpose(src, 8 * elem_size, size / 8), size, elem_size)
}

/// A bitshuffled block: the whole elements, in groups of eight, are bitshuffled and the bytes
/// after them are copied as they are.
pub open spec fn bitshuffle_block(src: Seq<u8>, typesize: nat, blocksize: nat) -> Seq<u8> {
    let n = bit_elems(typesize, blocksize) * typesize;
    bitshuffled(src, typesize, n) + src.subrange(n as int, blocksize as int)
}

/// The inverse of [`bitshuffle_block`] on a block.
pub open spec fn bitunshuffle_block(src: Seq<u8>, typesize: nat, blocksize: nat) -> Seq<u8> {
    let size = bit_elems(typesize, blocksize);
    let n = size * typesize;
    bit_untransposed(src, size, typesize) + src.subrange(n as int, blocksize as int)
}

/// Byte shuffle of a block of `blocksize` bytes in elements of `bytesoftype` bytes; the
/// trailing partial element is copied.
pub fn shuffle_generic(bytesoftype: i32, blocksize: i32, src: &[u8], dest: &mut [u8])
    requires
        bytesoftype > 0,
        blocksize >= 0,
        src.len() >= blocksize,
        old(dest).len() >= blocksize,
    ensures
        final(dest)@ == shuffled(src@, bytesoftype as nat, blocksize as nat)
            + old(dest)@.skip(blocksize as int),
{
    shuffle(bytesoftype as usize, blocksize as usize, src, dest);
}

/// Inverse of [`shuffle_generic`].
pub fn unshuffle_generic(bytesoftype: i32, blocksize: i32, src: &[u8], dest: &mut [u8])
    requires
        bytesoftype > 0,
        blocksize >= 0,
        src.len() >= blocksize,
        old(dest).len() >= blocksize,
    ensures
        final(dest)@ == unshuffled(src@, bytesoftype as nat, blocksize as nat)
            + old(dest)@.skip(blocksize as int),
{
    unshuffle(bytesoftype as usize, blocksize as usize, src, dest);
}

/// Byte shuffle of a block: `blocksize` on success, or the invalid-parameter error (and `dest`
/// untouched) unless `1 <= typesize <= 256` and `blocksize >= 0`.
pub fn blosc2_shuffle(typesize: i32, blocksize: i32, src: &[u8], dest: &mut [u8]) -> (r: i32)
    requires
        shuffle_params_ok(typesize, blocksize) ==> src.len() >= blocksize && old(dest).len() >= blocksize,
    ensures
        !shuffle_params_ok(typesize, blocksize) ==> r == BLOSC2_ERROR_INVALID_PARAM && final(dest)@ == old(dest)@,
        shuffle_params_ok(typesize, blocksize) ==> r == blocksize && final(dest)@
            == shuffled(src@, typesize as nat, blocksize as nat) + old(dest)@.skip(blocksize as int),
{
    if typesize < 1 || typesize > 256 || blocksize < 0 {
        return BLOSC2_ERROR_INVALID_PARAM;
    }
    shuffle_generic(typesize, blocksize, src, dest);
    blocksize
}

/// Inverse of [`blosc2_shuffle`], with the same parameter check.
pub fn blosc2_unshuffle(typesize: i32, blocksize: i32, src: &[u8], dest: &mut [u8]) -> (r: i32)
    requires
        shuffle_params_ok(typesize, blocksize) ==> src.len() >= blocksize && old(dest).len() >= blocksize,
    ensures
        !shuffle_params_ok(typesize, blocksize) ==> r == BLOSC2_ERROR_INVALID_PARAM && final(dest)@ == old(dest)@,
        shuffle_params_ok(typesize, blocksize) ==> r == blocksize && final(dest)@
            == unshuffled(src@, typesize as nat, blocksize as nat) + old(dest)@.skip(blocksize as int),
{
    if typesize < 1 || typesize > 256 || blocksize < 0 {
        return BLOSC2_ERROR_INVALID_PARAM;
    }
    unshuffle_generic(typesize, blocksize, src, dest);
    blocksize
}

/// Copies `src[from..to]` over `dest[from..to]`.
fn copy_tail(src: &[u8], dest: &mut [u8], from: usize, to: usize)
    requires
        from <= to,
        to <= src.len(),
        to <= old(dest).len(),
    ensures
        final(dest)@ == old(dest)@.subrange(0, from as int) + src@.subrange(from as int, to as int)
            + old(dest)@.skip(to as int),
{
    let mut k = from;
    while k < to
        invariant
            from <= k <= to,
            to <= src.len(),
            dest.len() == old(dest).len(),
            to <= dest.len(),
            forall|j: int| 0 <= j < from ==> dest@[j] == old(dest)@[j],
            forall|j: int| from <= j < k ==> dest@[j] == src@[j],
            forall|j: int| k <= j < dest.len() ==> dest@[j] == old(dest)@[j],
        decreases to - k,
    {
        dest[k] = src[k];
        k += 1;
    }
    assert(dest@ =~= old(dest)@.subrange(0, from as int) + src@.subrange(from as int, to as int)
        + old(dest)@.skip(to as int));
}

/// Bitshuffle of a block: the whole elements, taken in groups of eight, are bitshuffled and the
/// remaining bytes copied. `blocksize` on success, or the invalid-parameter error (and `dest`
/// untouched) unless `1 <= typesize <= 256` and `blocksize >= 0`.
pub fn blosc2_bitshuffle(typesize: i32, blocksize: i32, src: &[u8], dest: &mut [u8]) -> (r: i32)
    requires
        typesize != 0,
        !(typesize == -1 && blocksize == i32::MIN),
        shuffle_params_ok(typesize, blocksize) ==> src.len() >= blocksize && old(dest).len() >= blocksize,
    ensures
        !shuffle_params_ok(typesize, blocksize) ==> r == BLOSC2_ERROR_INVALID_PARAM && final(dest)@ == old(dest)@,
        shuffle_params_ok(typesize, blocksize) ==> r == blocksize && final(dest)@
            == bitshuffle_block(src@, typesize as nat, blocksize as nat) + old(dest)@.skip(blocksize as int),
{
    let q = blocksize / typesize;
    if typesize < 1 || typesize > 256 || blocksize < 0 {
        return BLOSC2_ERROR_INVALID_PARAM;
    }
    let ts = typesize as usize;
    let bs = blocksize as usize;
    let mut size = q as usize;
    size = size - size % 8;
    proof {
        lemma_div_mul_le(bs as int, ts as int);
        assert(size == bit_elems(ts as nat, bs as nat));
        assert(size * ts <= q * ts) by (nonlinear_arith) requires size <= q, ts > 0;
    }
    bshuf_trans_bit_elem_scal(src, dest, size, ts);
    proof {
        vstd::arithmetic::div_mod::lemma_div_by_multiple(size as int, ts as int);
        assert(8 * ts * (size / 8) == size * ts) by (nonlinear_arith) requires size % 8 == 0;
    }
    let ghost d1 = dest@;
    let offset = size * ts;
    copy_tail(src, dest, offset, bs);
    proof {
        let n = offset as int;
        assert(d1 == bitshuffled(src@, ts as nat, n as nat) + old(dest)@.skip(n));
        assert(dest@ =~= bitshuffle_block(src@, ts as nat, bs as nat) + old(dest)@.skip(bs as int));
    }
    blocksize
}

/// Bit-unshuffle of a block under a given format version. From the third version on, the whole
/// elements in groups of eight are restored and the remaining bytes copied; under the second,
/// the block is restored only where its element count is a multiple of eight, and copied
/// whole otherwise.
fn bitunshuffle(typesize: i32, blocksize: i32, src: &[u8], dest: &mut [u8], format_version: u8) -> (r: i32)
    requires
        blocksize >= 0,
        typesize > 0 || blocksize < -typesize,
        src.len() >= blocksize,
        old(dest).len() >= blocksize,
    ensures
        r == blocksize,
        typesize > 0 && format_version != 2 ==> final(dest)@
            == bitunshuffle_block(src@, typesize as nat, blocksize as nat) + old(dest)@.skip(blocksize as int),
        typesize > 0 && format_version == 2 && (blocksize / typesize) % 8 == 0 ==> final(dest)@
            == bit_untransposed(src@, (blocksize / typesize) as nat, typesize as nat)
                + old(dest)@.skip(((blocksize / typesize) * typesize) as int),
        typesize > 0 && format_version == 2 && (blocksize / typesize) % 8 != 0 ==> final(dest)@
            == src@.subrange(0, blocksize as int) + old(dest)@.skip(blocksize as int),
        typesize < 0 && format_version != 2 ==> final(dest)@
            == src@.subrange(0, blocksize as int) + old(dest)@.skip(blocksize as int),
        typesize < 0 && format_version == 2 ==> final(dest)@ == old(dest)@,
{
    let bs = blocksize as usize;
    if typesize < 0 {
        if format_version != 2 {
            copy_tail(src, dest, 0, bs);
            assert(dest@ =~= src@.subrange(0, blocksize as int) + old(dest)@.skip(blocksize as int));
        }
        return blocksize;
    }
    let ts = typesize as usize;
    let mut size = (blocksize / typesize) as usize;
    proof { lemma_div_mul_le(bs as int, ts as int); }
    if format_version == 2 {
        if size % 8 == 0 {
            bshuf_untrans_bit_elem_scal(src, dest, size, ts);
        } else {
            copy_tail(src, dest, 0, bs);
            assert(dest@ =~= src@.subrange(0, blocksize as int) + old(dest)@.skip(blocksize as int));
        }
    } else {
        size = size - size % 8;
        proof {
            assert(size == bit_elems(ts as nat, bs as nat));
            assert(size * ts <= (bs / ts) * ts) by (nonlinear_arith) requires size <= bs / ts, ts > 0;
        }
        bshuf_untrans_bit_elem_scal(src, dest, size, ts);
        let ghost d1 = dest@;
        let offset = size * ts;
        copy_tail(src, dest, offset, bs);
        proof {
            let n = offset as int;
            assert(d1 == bit_untransposed(src@, size as nat, ts as nat) + old(dest)@.skip(n));
            assert(dest@ =~= bitunshuffle_block(src@, ts as nat, bs as nat) + old(dest)@.skip(bs as int));
        }
    }
    blocksize
}

/// Bit-unshuffle of a block in the current format: the inverse of [`blosc2_bitshuffle`].
/// Returns `blocksize`.
pub fn blosc2_bitunshuffle(typesize: i32, blocksize: i32, src: &[u8], dest: &mut [u8]) -> (r: i32)
    requires
        blocksize >= 0,
        typesize > 0 || blocksize < -typesize,
        src.len() >= blocksize,
        old(dest).len() >= blocksize,
    ensures
        r == blocksize,
        typesize > 0 ==> final(dest)@
            == bitunshuffle_block(src@, typesize as nat, blocksize as nat) + old(dest)@.skip(blocksize as int),
        typesize < 0 ==> final(dest)@ == src@.subrange(0, blocksize as int) + old(dest)@.skip(blocksize as int),
{
    bitunshuffle(typesize, blocksize, src, dest, BLOSC2_VERSION_FORMAT)
}

/// Unshuffling a block that [`blosc2_shuffle`] wrote gives the block back.
pub proof fn lemma_blosc2_unshuffle_shuffle(x: Seq<u8>, typesize: nat, blocksize: nat)
    requires
        typesize > 0,
        x.len() >= blocksize,
    ensures
        unshuffled(shuffled(x, typesize, blocksize), typesize, blocksize) == x.subrange(0, blocksize as int),
{
    let xb = x.subrange(0, blocksize as int);
    let q = (blocksize / typesize) as int;
    lemma_div_mul_le(blocksize as int, typesize as int);
    assert forall|k: int| 0 <= k < blocksize implies
        #[trigger] shuffled(x, typesize, blocksize)[k] == shuffled(xb, typesize, blocksize)[k] by {
        if k < q * typesize {
            lemma_transpose_index(k, q, typesize as int);
        }
    }
    assert(shuffled(x, typesize, blocksize) =~= shuffled(xb, typesize, blocksize));
    lemma_unshuffle_shuffle(xb, typesize);
}

/// Bit-unshuffling a block that [`blosc2_bitshuffle`] wrote gives the block back, trailing
/// bytes included.
pub proof fn lemma_blosc2_bitunshuffle_bitshuffle(x: Seq<u8>, typesize: nat, blocksize: nat)
    requires
        typesize > 0,
        x.len() >= blocksize,
    ensures
        bitunshuffle_block(bitshuffle_block(x, typesize, blocksize), typesize, blocksize)
            == x.subrange(0, blocksize as int),
{
    let size = bit_elems(typesize, blocksize);
    let n = size * typesize;
    lemma_div_mul_le(blocksize as int, typesize as int);
    assert(size * typesize <= (blocksize / typesize) * typesize) by (nonlinear_arith)
        requires size <= blocksize / typesize;
    vstd::arithmetic::div_mod::lemma_div_by_multiple(size as int, typesize as int);
    assert(8 * typesize * (size / 8) == n) by (nonlinear_arith) requires size % 8 == 0, n == size * typesize;
    let z = bitshuffled(x, typesize, n);
    assert(z.len() == n);
    let y = bitshuffle_block(x, typesize, blocksize);
    assert(y.subrange(0, n as int) =~= z);
    lemma_byte_transpose_prefix(y, 8 * typesize, size / 8);
    lemma_bshuf_untrans_trans(x, size, typesize);
    assert(bitunshuffle_block(y, typesize, blocksize) =~= x.subrange(0, blocksize as int));
}

/// Writes [`bitshuffle_block`] of the first `blocksize` bytes of `src` into `dest`.
pub(crate) fn bitshuffle_block_into(typesize: usize, blocksize: usize, src: &[u8], dest: &mut [u8])
    requires
        typesize > 0,
        src.len() >= blocksize,
        old(dest).len() >= blocksize,
    ensures
        final(dest)@ == bitshuffle_block(src@, typesize as nat, blocksize as nat) + old(dest)@.skip(blocksize as int),
{
    let ts = typesize;
    let bs = blocksize;
    let q = bs / ts;
    let size = q - q % 8;
    proof {
        lemma_div_mul_le(bs as int, ts as int);
        assert(size == bit_elems(ts as nat, bs as nat));
        assert(size * ts <= q * ts) by (nonlinear_arith) requires size <= q, ts > 0;
        vstd::arithmetic::div_mod::lemma_div_by_multiple(size as int, ts as int);
        assert(8 * ts * (size / 8) == size * ts) by (nonlinear_arith) requires size % 8 == 0;
    }
    if size > 0 {
        assert(8 * ts <= size * ts) by (nonlinear_arith) requires size >= 8, ts > 0;
        bshuf_trans_bit_elem_scal(src, dest, size, ts);
    } else {
        assert(bitshuffled(src@, ts as nat, 0) =~= Seq::<u8>::empty());
        assert(dest@ =~= bitshuffled(src@, ts as nat, 0) + old(dest)@.skip(0));
    }
    let ghost d1 = dest@;
    let offset = size * ts;
    copy_tail(src, dest, offset, bs);
    proof {
        let n = offset as int;
        assert(d1 == bitshuffled(src@, ts as nat, n as nat) + old(dest)@.skip(n));
        assert(dest@ =~= bitshuffle_block(src@, ts as nat, bs as nat) + old(dest)@.skip(bs as int));
    }
}

/// Writes [`bitunshuffle_block`] of the first `blocksize` bytes of `src` into `dest`.
pub(crate) fn bitunshuffle_block_into(typesize: usize, blocksize: usize, src: &[u8], dest: &mut [u8])
    requires
        typesize > 0,
        src.len() >= blocksize,
        old(dest).len() >= blocksize,
    ensures
        final(dest)@ == bitunshuffle_block(src@, typesize as nat, blocksize as nat) + old(dest)@.skip(blocksize as int),
{
    let ts = typesize;
    let bs = blocksize;
    let q = bs / ts;
    let size = q - q % 8;
    proof {
        lemma_div_mul_le(bs as int, ts as int);
        assert(size == bit_elems(ts as nat, bs as nat));
        assert(size * ts <= q * ts) by (nonlinear_arith) requires size <= q, ts > 0;
    }
    bshuf_untrans_bit_elem_scal(src, dest, size, ts);
    let ghost d1 = dest@;
    let offset = size * ts;
    copy_tail(src, dest, offset, bs);
    proof {
        let n = offset as int;
        assert(d1 == bit_untransposed(src@, size as nat, ts as nat) + old(dest)@.skip(n));
        assert(dest@ =~= bitunshuffle_block(src@, ts as nat, bs as nat) + old(dest)@.skip(bs as int));
    }
}

/// Bitshuffling a block shorter than one item leaves it as it is.
pub proof fn lemma_bitshuffle_block_short(x: Seq<u8>, typesize: nat, blocksize: nat)
    requires
        0 < typesize,
        blocksize < typesize,
        x.len() >= blocksize,
    ensures
        bitshuffle_block(x, typesize, blocksize) == x.subrange(0, blocksize as int),
{
    vstd::arithmetic::div_mod::lemma_basic_div_specific_divisor(typesize as int);
    assert(blocksize / typesize == 0);
    assert(bitshuffled(x, typesize, 0) =~= Seq::<u8>::empty());
    assert(bitshuffle_block(x, typesize, blocksize) =~= x.subrange(0, blocksize as int));
}

} // verus!
