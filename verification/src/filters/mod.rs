//! Pre-compression filters: byte shuffle and bitshuffle, with their inverses.
pub mod bits;
pub mod bitshuffle_generic;
pub mod delta;
pub mod dispatch;
pub mod trunc_prec;

use vstd::prelude::*;
use crate::arith::{lemma_grid_cell, lemma_grid_split, lemma_div_mul_le, lemma_transpose_index};
use crate::filters::bits::{word_of, byte_of, trans_bit_8x8_spec, trans_bit_8x8, lemma_trans_bit_8x8_involution, lemma_word_of_bytes, lemma_bytes_of_word};

verus! {

/// The byte-shuffled image of the first `blocksize` bytes of `src`: with
/// `q = blocksize / typesize` whole elements, byte `j` of element `i` moves to `j * q + i`;
/// the `blocksize % typesize` trailing bytes stay where they are.
pub open spec fn shuffled(src: Seq<u8>, typesize: nat, blocksize: nat) -> Seq<u8> {
    let q = blocksize / typesize;
    Seq::new(blocksize, |k: int|
        if k < q * typesize { src[(k % q as int) * typesize + k / q as int] } else { src[k] })
}

/// The inverse of [`shuffled`]: byte `j * q + i` goes back to byte `j` of element `i`.
pub open spec fn unshuffled(src: Seq<u8>, typesize: nat, blocksize: nat) -> Seq<u8> {
    let q = blocksize / typesize;
    Seq::new(blocksize, |k: int|
        if k < q * typesize { src[(k % typesize as int) * q + k / typesize as int] } else { src[k] })
}

/// Byte shuffle of one block: groups byte `j` of every element together.
pub fn shuffle(bytesoftype: usize, blocksize: usize, src: &[u8], dest: &mut [u8])
    requires
        bytesoftype > 0,
        src.len() >= blocksize,
        old(dest).len() >= blocksize,
    ensures
        final(dest)@ == shuffled(src@, bytesoftype as nat, blocksize as nat)
            + old(dest)@.skip(blocksize as int),
{
    let neblock_quot = blocksize / bytesoftype;
    let neblock_rem = blocksize % bytesoftype;
    let ghost ts = bytesoftype as int;
    let ghost q = neblock_quot as int;
    let ghost spec_out = shuffled(src@, bytesoftype as nat, blocksize as nat);
    proof { lemma_div_mul_le(blocksize as int, ts); }
    assert(q * ts == ts * q) by (nonlinear_arith);
    let mut j: usize = 0;
    while j < bytesoftype
        invariant
            ts == bytesoftype, q == neblock_quot, q == blocksize / bytesoftype,
            0 < ts, q * ts <= blocksize, q * ts == ts * q,
            j <= bytesoftype,
            src.len() >= blocksize,
            dest.len() == old(dest).len(), dest.len() >= blocksize,
            spec_out == shuffled(src@, bytesoftype as nat, blocksize as nat),
            forall|k: int| 0 <= k < j * q ==> dest@[k] == spec_out[k],
            forall|k: int| j * q <= k < dest.len() ==> dest@[k] == old(dest)@[k],
        decreases bytesoftype - j,
    {
        let mut i: usize = 0;
        proof { if q > 0 { lemma_grid_cell(j as int, 0, ts, q); } }
        assert(j * q + q <= ts * q) by (nonlinear_arith)
            requires j < ts, 0 <= q;
        while i < neblock_quot
            invariant
                ts == bytesoftype, q == neblock_quot, q == blocksize / bytesoftype,
                0 < ts, q * ts <= blocksize, q * ts == ts * q,
                j < bytesoftype, i <= neblock_quot,
                j * q + q <= ts * q,
                src.len() >= blocksize,
                dest.len() == old(dest).len(), dest.len() >= blocksize,
                spec_out == shuffled(src@, bytesoftype as nat, blocksize as nat),
                forall|k: int| 0 <= k < j * q + i ==> dest@[k] == spec_out[k],
                forall|k: int| j * q + i <= k < dest.len() ==> dest@[k] == old(dest)@[k],
            decreases neblock_quot - i,
        {
            proof {
                lemma_grid_cell(j as int, i as int, ts, q);
                lemma_grid_cell(i as int, j as int, q, ts);
            }
            let d = j * neblock_quot + i;
            let s = i * bytesoftype + j;
            dest[d] = src[s];
            i += 1;
        }
        assert(j * q + q == (j + 1) * q) by (nonlinear_arith);
        j += 1;
    }
    assert(ts * q == q * ts);
    let start = blocksize - neblock_rem;
    let mut k: usize = start;
    while k < blocksize
        invariant
            start == q * ts, start <= k <= blocksize,
            ts == bytesoftype, q == blocksize / bytesoftype,
            src.len() >= blocksize,
            dest.len() == old(dest).len(), dest.len() >= blocksize,
            spec_out == shuffled(src@, bytesoftype as nat, blocksize as nat),
            forall|m: int| 0 <= m < k ==> dest@[m] == spec_out[m],
            forall|m: int| k <= m < dest.len() ==> dest@[m] == old(dest)@[m],
        decreases blocksize - k,
    {
        dest[k] = src[k];
        k += 1;
    }
    assert(dest@ =~= spec_out + old(dest)@.skip(blocksize as int));
}

/// Inverse of [`shuffle`]: puts byte `j * q + i` back as byte `j` of element `i`.
pub fn unshuffle(bytesoftype: usize, blocksize: usize, src: &[u8], dest: &mut [u8])
    requires
        bytesoftype > 0,
        src.len() >= blocksize,
        old(dest).len() >= blocksize,
    ensures
        final(dest)@ == unshuffled(src@, bytesoftype as nat, blocksize as nat)
            + old(dest)@.skip(blocksize as int),
{
    let neblock_quot = blocksize / bytesoftype;
    let neblock_rem = blocksize % bytesoftype;
    let ghost ts = bytesoftype as int;
    let ghost q = neblock_quot as int;
    let ghost spec_out = unshuffled(src@, bytesoftype as nat, blocksize as nat);
    proof { lemma_div_mul_le(blocksize as int, ts); }
    assert(q * ts == ts * q) by (nonlinear_arith);
    let mut i: usize = 0;
    while i < neblock_quot
        invariant
            ts == bytesoftype, q == neblock_quot, q == blocksize / bytesoftype,
            0 < ts, q * ts <= blocksize, q * ts == ts * q,
            i <= neblock_quot,
            src.len() >= blocksize,
            dest.len() == old(dest).len(), dest.len() >= blocksize,
            spec_out == unshuffled(src@, bytesoftype as nat, blocksize as nat),
            forall|k: int| 0 <= k < i * ts ==> dest@[k] == spec_out[k],
            forall|k: int| i * ts <= k < dest.len() ==> dest@[k] == old(dest)@[k],
        decreases neblock_quot - i,
    {
        let mut j: usize = 0;
        assert(i * ts + ts <= q * ts) by (nonlinear_arith)
            requires i < q, 0 < ts;
        while j < bytesoftype
            invariant
                ts == bytesoftype, q == neblock_quot, q == blocksize / bytesoftype,
                0 < ts, q * ts <= blocksize, q * ts == ts * q,
                i < neblock_quot, j <= bytesoftype,
                i * ts + ts <= q * ts,
                src.len() >= blocksize,
                dest.len() == old(dest).len(), dest.len() >= blocksize,
                spec_out == unshuffled(src@, bytesoftype as nat, blocksize as nat),
                forall|k: int| 0 <= k < i * ts + j ==> dest@[k] == spec_out[k],
                forall|k: int| i * ts + j <= k < dest.len() ==> dest@[k] == old(dest)@[k],
            decreases bytesoftype - j,
        {
            proof {
                lemma_grid_cell(j as int, i as int, ts, q);
                lemma_grid_cell(i as int, j as int, q, ts);
            }
            let d = i * bytesoftype + j;
            let s = j * neblock_quot + i;
            dest[d] = src[s];
            j += 1;
        }
        assert(i * ts + ts == (i + 1) * ts) by (nonlinear_arith);
        i += 1;
    }
    let start = blocksize - neblock_rem;
    let mut k: usize = start;
    while k < blocksize
        invariant
            start == q * ts, start <= k <= blocksize,
            ts == bytesoftype, q == blocksize / bytesoftype,
            src.len() >= blocksize,
            dest.len() == old(dest).len(), dest.len() >= blocksize,
            spec_out == unshuffled(src@, bytesoftype as nat, blocksize as nat),
            forall|m: int| 0 <= m < k ==> dest@[m] == spec_out[m],
            forall|m: int| k <= m < dest.len() ==> dest@[m] == old(dest)@[m],
        decreases blocksize - k,
    {
        dest[k] = src[k];
        k += 1;
    }
    assert(dest@ =~= spec_out + old(dest)@.skip(blocksize as int));
}

/// Unshuffling a shuffled block gives the block back.
pub proof fn lemma_unshuffle_shuffle(x: Seq<u8>, typesize: nat)
    requires
        typesize > 0,
    ensures
        unshuffled(shuffled(x, typesize, x.len()), typesize, x.len()) == x,
        shuffled(unshuffled(x, typesize, x.len()), typesize, x.len()) == x,
{
    let n = x.len();
    let ts = typesize as int;
    let q = (n / typesize) as int;
    let s = shuffled(x, typesize, n);
    let u = unshuffled(x, typesize, n);
    lemma_div_mul_le(n as int, ts);
    assert(q * ts == ts * q) by (nonlinear_arith);
    assert forall|k: int| 0 <= k < n implies unshuffled(s, typesize, n)[k] == x[k] by {
        if k < q * ts {
            lemma_grid_split(k, q, ts);
            let i = k / ts;
            let j = k % ts;
            lemma_grid_cell(j, i, ts, q);
        }
    }
    assert forall|k: int| 0 <= k < n implies shuffled(u, typesize, n)[k] == x[k] by {
        if k < q * ts {
            lemma_grid_split(k, ts, q);
            let j = k / q;
            let i = k % q;
            lemma_grid_cell(i, j, q, ts);
        }
    }
    assert(unshuffled(s, typesize, n) =~= x);
    assert(shuffled(u, typesize, n) =~= x);
}


/// Transpose of a `rows x cols` byte matrix: byte `j * rows + i` of the result is byte
/// `i * cols + j` of `x`.
pub open spec fn byte_transpose(x: Seq<u8>, rows: nat, cols: nat) -> Seq<u8> {
    Seq::new(rows * cols, |k: int| x[(k % rows as int) * cols + k / rows as int])
}

/// Transpose of an `a x b` matrix of `blk`-byte blocks: block `jj * a + ii` of the result is
/// block `ii * b + jj` of `z`.
pub open spec fn block_transpose(z: Seq<u8>, a: nat, b: nat, blk: nat) -> Seq<u8> {
    Seq::new(a * b * blk, |k: int| z[((k / blk as int) % a as int * b + (k / blk as int) / a as int) * blk + k % blk as int])
}

/// The 64-bit little-endian word `i` of `y`.
pub open spec fn word_at(y: Seq<u8>, i: int) -> u64 {
    word_of(y[8 * i], y[8 * i + 1], y[8 * i + 2], y[8 * i + 3], y[8 * i + 4], y[8 * i + 5], y[8 * i + 6], y[8 * i + 7])
}

/// Bit-transposes each of the `nrows` words of `y` and spreads the result over eight rows:
/// byte `kk * nrows + ii` of the result is byte `kk` of the transposed word `ii`.
pub open spec fn bit_rows(y: Seq<u8>, nrows: nat) -> Seq<u8> {
    Seq::new(8 * nrows, |k: int| byte_of(trans_bit_8x8_spec(word_at(y, k % nrows as int)), k / nrows as int))
}

/// The word that gathers byte `ii` of each of the eight rows of `t`.
pub open spec fn row_word(t: Seq<u8>, nrows: nat, ii: int) -> u64 {
    let r = nrows as int;
    word_of(t[ii], t[r + ii], t[2 * r + ii], t[3 * r + ii], t[4 * r + ii], t[5 * r + ii], t[6 * r + ii], t[7 * r + ii])
}

/// Inverse of [`bit_rows`]: word `ii` of the result is the bit transpose of the word that
/// gathers byte `ii` of each row.
pub open spec fn bit_unrows(t: Seq<u8>, nrows: nat) -> Seq<u8> {
    Seq::new(8 * nrows, |k: int| byte_of(trans_bit_8x8_spec(row_word(t, nrows, k / 8)), k % 8))
}

/// Bitshuffle of the whole elements of a block of `blocksize` bytes: byte transpose of the
/// elements, bit transpose within each 8-byte word, then transpose of the bit rows.
pub open spec fn bitshuffled(src: Seq<u8>, typesize: nat, blocksize: nat) -> Seq<u8> {
    let size = blocksize / typesize;
    let n = size * typesize;
    block_transpose(bit_rows(byte_transpose(src, size, typesize), n / 8), 8, typesize, size / 8)
}

/// Inverse of [`bitshuffled`].
pub open spec fn bitunshuffled(src: Seq<u8>, typesize: nat, blocksize: nat) -> Seq<u8> {
    let size = blocksize / typesize;
    let n = size * typesize;
    byte_transpose(bit_unrows(block_transpose(src, typesize, 8, size / 8), n / 8), typesize, size)
}

/// Writes the transpose of the `rows x cols` byte matrix at the start of `input` into the start
/// of `output`.
pub(crate) fn transpose_bytes(input: &[u8], output: &mut [u8], rows: usize, cols: usize)
    requires
        rows * cols <= input.len(),
        rows * cols <= old(output).len(),
    ensures
        final(output).len() == old(output).len(),
        final(output)@.subrange(0, rows * cols) == byte_transpose(input@, rows as nat, cols as nat),
        forall|k: int| rows * cols <= k < old(output).len() ==> final(output)@[k] == old(output)@[k],
{
    let ghost spec_out = byte_transpose(input@, rows as nat, cols as nat);
    let ghost n = rows * cols;
    assert(rows * cols == cols * rows) by (nonlinear_arith);
    let mut j: usize = 0;
    while j < cols
        invariant
            n == rows * cols, n == cols * rows,
            n <= input.len(), n <= output.len(),
            j <= cols,
            output.len() == old(output).len(),
            spec_out == byte_transpose(input@, rows as nat, cols as nat),
            forall|k: int| 0 <= k < j * rows ==> output@[k] == spec_out[k],
            forall|k: int| j * rows <= k < output.len() ==> output@[k] == old(output)@[k],
        decreases cols - j,
    {
        assert(j * rows + rows <= cols * rows) by (nonlinear_arith)
            requires j < cols;
        let mut i: usize = 0;
        while i < rows
            invariant
                n == rows * cols, n == cols * rows,
                n <= input.len(), n <= output.len(),
                j < cols, i <= rows,
                j * rows + rows <= cols * rows,
                output.len() == old(output).len(),
                spec_out == byte_transpose(input@, rows as nat, cols as nat),
                forall|k: int| 0 <= k < j * rows + i ==> output@[k] == spec_out[k],
                forall|k: int| j * rows + i <= k < output.len() ==> output@[k] == old(output)@[k],
            decreases rows - i,
        {
            proof {
                lemma_grid_cell(j as int, i as int, cols as int, rows as int);
                lemma_grid_cell(i as int, j as int, rows as int, cols as int);
            }
            let d = j * rows + i;
            let s = i * cols + j;
            output[d] = input[s];
            i += 1;
        }
        assert(j * rows + rows == (j + 1) * rows) by (nonlinear_arith);
        j += 1;
    }
    assert(output@.subrange(0, rows * cols) =~= spec_out);
}

/// Writes the transpose of the `a x b` matrix of `blk`-byte blocks at the start of `input`
/// into the start of `output`.
pub(crate) fn transpose_blocks(input: &[u8], output: &mut [u8], a: usize, b: usize, blk: usize)
    requires
        a * b <= usize::MAX + 1,
        a * b * blk <= input.len(),
        a * b * blk <= old(output).len(),
    ensures
        final(output).len() == old(output).len(),
        final(output)@.subrange(0, a * b * blk) == block_transpose(input@, a as nat, b as nat, blk as nat),
        forall|k: int| a * b * blk <= k < old(output).len() ==> final(output)@[k] == old(output)@[k],
{
    let ghost spec_out = block_transpose(input@, a as nat, b as nat, blk as nat);
    let ghost n = a * b * blk;
    assert(a * b == b * a) by (nonlinear_arith);
    assert(a * b * blk == (b * a) * blk) by (nonlinear_arith);
    assert(0 * a * blk == 0) by (nonlinear_arith);
    let mut jj: usize = 0;
    while jj < b
        invariant
            n == a * b * blk, n == (b * a) * blk, a * b <= usize::MAX + 1, a * b == b * a,
            n <= input.len(), n <= output.len(),
            jj <= b,
            output.len() == old(output).len(),
            spec_out == block_transpose(input@, a as nat, b as nat, blk as nat),
            forall|k: int| 0 <= k < jj * a * blk ==> output@[k] == spec_out[k],
            forall|k: int| jj * a * blk <= k < output.len() ==> output@[k] == old(output)@[k],
        decreases b - jj,
    {
        let mut ii: usize = 0;
        assert((jj * a + a) * blk <= (b * a) * blk) by (nonlinear_arith)
            requires jj < b;
        assert(jj * a * blk == (jj * a) * blk) by (nonlinear_arith);
        while ii < a
            invariant
                n == a * b * blk, n == (b * a) * blk, a * b <= usize::MAX + 1, a * b == b * a,
                n <= input.len(), n <= output.len(),
                jj < b, ii <= a,
                (jj * a + a) * blk <= (b * a) * blk,
                output.len() == old(output).len(),
                spec_out == block_transpose(input@, a as nat, b as nat, blk as nat),
                forall|k: int| 0 <= k < (jj * a + ii) * blk ==> output@[k] == spec_out[k],
                forall|k: int| (jj * a + ii) * blk <= k < output.len() ==> output@[k] == old(output)@[k],
            decreases a - ii,
        {
            proof {
                lemma_grid_cell(jj as int, ii as int, b as int, a as int);
                lemma_grid_cell(ii as int, jj as int, a as int, b as int);
                assert((jj * a + ii) * blk + blk <= (b * a) * blk) by (nonlinear_arith)
                    requires jj * a + ii < b * a;
                assert((ii * b + jj) * blk + blk <= (a * b) * blk) by (nonlinear_arith)
                    requires ii * b + jj < a * b;
                assert((a * b) * blk == a * b * blk) by (nonlinear_arith);
            }
            let out_start = (jj * a + ii) * blk;
            let in_start = (ii * b + jj) * blk;
            let mut t: usize = 0;
            while t < blk
                invariant
                    n == a * b * blk, n == (b * a) * blk,
                    n <= input.len(), n <= output.len(),
                    jj < b, ii < a, t <= blk,
                    out_start == (jj * a + ii) * blk,
                    in_start == (ii * b + jj) * blk,
                    out_start + blk <= n,
                    in_start + blk <= n,
                    output.len() == old(output).len(),
                    spec_out == block_transpose(input@, a as nat, b as nat, blk as nat),
                    forall|k: int| 0 <= k < out_start + t ==> output@[k] == spec_out[k],
                    forall|k: int| out_start + t <= k < output.len() ==> output@[k] == old(output)@[k],
                decreases blk - t,
            {
                proof {
                    let k = out_start + t;
                    vstd::arithmetic::div_mod::lemma_fundamental_div_mod_converse(
                        k, blk as int, (jj * a + ii) as int, t as int);
                    lemma_grid_cell(jj as int, ii as int, b as int, a as int);
                    assert(spec_out[k] == input@[in_start + t]);
                }
                output[out_start + t] = input[in_start + t];
                t += 1;
            }
            assert((jj * a + ii) * blk + blk == (jj * a + ii + 1) * blk) by (nonlinear_arith);
            ii += 1;
        }
        assert((jj * a + a) * blk == (jj + 1) * a * blk) by (nonlinear_arith);
        jj += 1;
    }
    assert(output@.subrange(0, a * b * blk) =~= spec_out);
}


/// Position of byte `i` of row `kk` when rows are `r` bytes long.
pub open spec fn rpos(kk: int, i: int, r: int) -> int {
    kk * r + i
}

proof fn lemma_rpos_distinct(a: int, i: int, b: int, j: int, r: int)
    requires
        0 <= a < 8, 0 <= b < 8,
        0 <= i < r, 0 <= j < r,
        i != j,
    ensures
        rpos(a, i, r) != rpos(b, j, r),
        0 <= rpos(a, i, r) < 8 * r,
{
    lemma_grid_cell(a, i, 8, r);
    lemma_grid_cell(b, j, 8, r);
}

/// Bit-transposes each of the first `nrows` words of `input` and writes byte `kk` of the
/// transposed word `ii` at `output[kk * nrows + ii]`.
fn trans_bit_rows(input: &[u8], output: &mut [u8], nrows: usize)
    requires
        8 * nrows <= input.len(),
        8 * nrows <= old(output).len(),
    ensures
        final(output).len() == old(output).len(),
        final(output)@.subrange(0, 8 * nrows) == bit_rows(input@, nrows as nat),
        forall|k: int| 8 * nrows <= k < old(output).len() ==> final(output)@[k] == old(output)@[k],
{
    let ghost spec_out = bit_rows(input@, nrows as nat);
    let ghost r = nrows as int;
    let mut ii: usize = 0;
    while ii < nrows
        invariant
            8 * nrows <= input.len(), 8 * nrows <= output.len(),
            r == nrows,
            ii <= nrows,
            output.len() == old(output).len(),
            spec_out == bit_rows(input@, nrows as nat),
            forall|kk: int, i: int| 0 <= kk < 8 && 0 <= i < ii
                ==> output@[#[trigger] rpos(kk, i, r)] == spec_out[rpos(kk, i, r)],
            forall|k: int| 8 * nrows <= k < output.len() ==> output@[k] == old(output)@[k],
        decreases nrows - ii,
    {
        let b = 8 * ii;
        let x = (input[b] as u64) | ((input[b + 1] as u64) << 8u64) | ((input[b + 2] as u64) << 16u64)
            | ((input[b + 3] as u64) << 24u64) | ((input[b + 4] as u64) << 32u64)
            | ((input[b + 5] as u64) << 40u64) | ((input[b + 6] as u64) << 48u64)
            | ((input[b + 7] as u64) << 56u64);
        assert(x == word_at(input@, ii as int));
        let x = trans_bit_8x8(x);
        let ghost before = output@;
        proof {
            assert forall|kk: int| 0 <= kk < 8 implies
                (#[trigger] rpos(kk, ii as int, r)) < 8 * nrows && rpos(kk, ii as int, r) % r == ii
                && rpos(kk, ii as int, r) / r == kk by {
                lemma_grid_cell(kk, ii as int, 8, r);
            }
        }
        let mut kk: usize = 0;
        while kk < 8
            invariant
                8 * nrows <= input.len(), 8 * nrows <= output.len(),
                r == nrows, ii < nrows, kk <= 8,
                output.len() == old(output).len(),
                x == trans_bit_8x8_spec(word_at(input@, ii as int)),
                spec_out == bit_rows(input@, nrows as nat),
                forall|k2: int| 0 <= k2 < 8 ==> (#[trigger] rpos(k2, ii as int, r)) < 8 * nrows
                    && rpos(k2, ii as int, r) % r == ii && rpos(k2, ii as int, r) / r == k2,
                forall|k2: int| 0 <= k2 < kk ==> output@[#[trigger] rpos(k2, ii as int, r)]
                    == spec_out[rpos(k2, ii as int, r)],
                forall|k: int| 0 <= k < output.len() && (forall|k2: int| 0 <= k2 < kk ==> k != #[trigger] rpos(k2, ii as int, r))
                    ==> output@[k] == before[k],
            decreases 8 - kk,
        {
            assert(rpos(kk as int, ii as int, r) < 8 * nrows);
            assert(kk * nrows <= rpos(kk as int, ii as int, r));
            let d = kk * nrows + ii;
            assert(d == rpos(kk as int, ii as int, r));
            output[d] = ((x >> ((8 * kk) as u64)) & 0xffu64) as u8;
            kk += 1;
        }
        proof {
            assert forall|kk2: int, i: int| 0 <= kk2 < 8 && 0 <= i < ii + 1
                implies output@[#[trigger] rpos(kk2, i, r)] == spec_out[rpos(kk2, i, r)] by {
                if i < ii {
                    assert forall|k2: int| 0 <= k2 < 8 implies rpos(kk2, i, r) != #[trigger] rpos(k2, ii as int, r) by {
                        lemma_rpos_distinct(kk2, i, k2, ii as int, r);
                    }
                    lemma_rpos_distinct(kk2, i, 0, ii as int, r);
                }
            }
            assert forall|k: int| 8 * nrows <= k < output.len() implies output@[k] == old(output)@[k] by {
                assert forall|k2: int| 0 <= k2 < 8 implies k != #[trigger] rpos(k2, ii as int, r) by {}
            }
        }
        ii += 1;
    }
    proof {
        assert forall|k: int| 0 <= k < 8 * nrows implies output@.subrange(0, 8 * nrows)[k] == spec_out[k] by {
            lemma_grid_split(k, 8, r);
            assert(k == rpos(k / r, k % r, r));
        }
    }
    assert(output@.subrange(0, 8 * nrows) =~= spec_out);
}

/// Inverse of [`trans_bit_rows`]: gathers byte `ii` of each of the eight rows of `input` into
/// a word, bit-transposes it and writes it as word `ii` of `output`.
fn untrans_bit_rows(input: &[u8], output: &mut [u8], nrows: usize)
    requires
        8 * nrows <= input.len(),
        8 * nrows <= old(output).len(),
    ensures
        final(output).len() == old(output).len(),
        final(output)@.subrange(0, 8 * nrows) == bit_unrows(input@, nrows as nat),
        forall|k: int| 8 * nrows <= k < old(output).len() ==> final(output)@[k] == old(output)@[k],
{
    let ghost spec_out = bit_unrows(input@, nrows as nat);
    let ghost r = nrows as int;
    let mut ii: usize = 0;
    while ii < nrows
        invariant
            8 * nrows <= input.len(), 8 * nrows <= output.len(),
            r == nrows,
            ii <= nrows,
            output.len() == old(output).len(),
            spec_out == bit_unrows(input@, nrows as nat),
            forall|k: int| 0 <= k < 8 * ii ==> output@[k] == spec_out[k],
            forall|k: int| 8 * ii <= k < output.len() ==> output@[k] == old(output)@[k],
        decreases nrows - ii,
    {
        let x = (input[ii] as u64) | ((input[nrows + ii] as u64) << 8u64)
            | ((input[2 * nrows + ii] as u64) << 16u64) | ((input[3 * nrows + ii] as u64) << 24u64)
            | ((input[4 * nrows + ii] as u64) << 32u64) | ((input[5 * nrows + ii] as u64) << 40u64)
            | ((input[6 * nrows + ii] as u64) << 48u64) | ((input[7 * nrows + ii] as u64) << 56u64);
        assert(x == row_word(input@, nrows as nat, ii as int));
        let x = trans_bit_8x8(x);
        let b = 8 * ii;
        let mut kk: usize = 0;
        while kk < 8
            invariant
                8 * nrows <= input.len(), 8 * nrows <= output.len(),
                r == nrows, ii < nrows, kk <= 8, b == 8 * ii,
                output.len() == old(output).len(),
                x == trans_bit_8x8_spec(row_word(input@, nrows as nat, ii as int)),
                spec_out == bit_unrows(input@, nrows as nat),
                forall|k: int| 0 <= k < b + kk ==> output@[k] == spec_out[k],
                forall|k: int| b + kk <= k < output.len() ==> output@[k] == old(output)@[k],
            decreases 8 - kk,
        {
            proof {
                assert((b + kk) / 8 == ii);
                assert((b + kk) % 8 == kk);
            }
            output[b + kk] = ((x >> ((8 * kk) as u64)) & 0xffu64) as u8;
            kk += 1;
        }
        ii += 1;
    }
    assert(output@.subrange(0, 8 * nrows) =~= spec_out);
}


/// Bitshuffle of one block: transposes the bits of the `blocksize / bytesoftype` whole
/// elements, which must come in groups of eight (else `Err(-80)` and nothing is written).
/// The trailing `blocksize % bytesoftype` bytes of `dest` are not written.
pub fn bitshuffle(bytesoftype: usize, blocksize: usize, src: &[u8], dest: &mut [u8]) -> (r: Result<(), i32>)
    requires
        bytesoftype > 0,
        8 * bytesoftype <= usize::MAX + 1,
        src.len() >= blocksize,
        old(dest).len() >= blocksize,
    ensures
        final(dest).len() == old(dest).len(),
        (blocksize / bytesoftype) % 8 != 0 ==> r == Err::<(), i32>(-80i32) && final(dest)@ == old(dest)@,
        (blocksize / bytesoftype) % 8 == 0 ==> r == Ok::<(), i32>(()) && final(dest)@
            == bitshuffled(src@, bytesoftype as nat, blocksize as nat)
            + old(dest)@.skip(((blocksize / bytesoftype) * bytesoftype) as int),
{
    let size = blocksize / bytesoftype;
    if size % 8 != 0 {
        return Err(-80);
    }
    proof { lemma_div_mul_le(blocksize as int, bytesoftype as int); }
    let n = size * bytesoftype;
    let mut tmp_buf = vec![0u8; blocksize];
    transpose_bytes(src, dest, size, bytesoftype);
    let ghost d1 = dest@;
    assert(n == 8 * ((size / 8) * bytesoftype)) by (nonlinear_arith)
        requires size % 8 == 0, n == size * bytesoftype;
    assert(8 * (n / 8) == n);
    trans_bit_rows(dest, &mut tmp_buf, n / 8);
    assert(8 * bytesoftype * (size / 8) == n) by (nonlinear_arith)
        requires size % 8 == 0, n == size * bytesoftype;
    transpose_blocks(&tmp_buf, dest, 8, bytesoftype, size / 8);
    proof {
        lemma_block_transpose_prefix(tmp_buf@, 8, bytesoftype as nat, (size / 8) as nat);
        lemma_bit_rows_prefix(d1, (n / 8) as nat);
        assert(dest@.subrange(0, n as int) == bitshuffled(src@, bytesoftype as nat, blocksize as nat));
        assert(dest@ =~= dest@.subrange(0, n as int) + old(dest)@.skip(n as int));
    }
    Ok(())
}

/// Inverse of [`bitshuffle`] on one block: `Err(-80)` (and nothing written) unless the whole
/// elements come in groups of eight. The trailing `blocksize % bytesoftype` bytes of `dest`
/// are not written.
pub fn bitunshuffle(bytesoftype: usize, blocksize: usize, src: &[u8], dest: &mut [u8]) -> (r: Result<(), i32>)
    requires
        bytesoftype > 0,
        8 * bytesoftype <= usize::MAX + 1,
        src.len() >= blocksize,
        old(dest).len() >= blocksize,
    ensures
        final(dest).len() == old(dest).len(),
        (blocksize / bytesoftype) % 8 != 0 ==> r == Err::<(), i32>(-80i32) && final(dest)@ == old(dest)@,
        (blocksize / bytesoftype) % 8 == 0 ==> r == Ok::<(), i32>(()) && final(dest)@
            == bitunshuffled(src@, bytesoftype as nat, blocksize as nat)
            + old(dest)@.skip(((blocksize / bytesoftype) * bytesoftype) as int),
{
    let size = blocksize / bytesoftype;
    if size % 8 != 0 {
        return Err(-80);
    }
    proof { lemma_div_mul_le(blocksize as int, bytesoftype as int); }
    let n = size * bytesoftype;
    let mut tmp_buf = vec![0u8; blocksize];
    let mut tmp_buf2 = vec![0u8; blocksize];
    assert(bytesoftype * 8 * (size / 8) == n) by (nonlinear_arith)
        requires size % 8 == 0, n == size * bytesoftype;
    transpose_blocks(src, &mut tmp_buf, bytesoftype, 8, size / 8);
    assert(n == 8 * ((size / 8) * bytesoftype)) by (nonlinear_arith)
        requires size % 8 == 0, n == size * bytesoftype;
    assert(8 * (n / 8) == n);
    untrans_bit_rows(&tmp_buf, &mut tmp_buf2, n / 8);
    assert(bytesoftype * size == n) by (nonlinear_arith)
        requires n == size * bytesoftype;
    transpose_bytes(&tmp_buf2, dest, bytesoftype, size);
    proof {
        assert(tmp_buf@.subrange(0, n as int) == block_transpose(src@, bytesoftype as nat, 8, (size / 8) as nat));
        assert(bit_unrows(tmp_buf@, (n / 8) as nat) =~= bit_unrows(tmp_buf@.subrange(0, n as int), (n / 8) as nat));
        lemma_byte_transpose_prefix(tmp_buf2@, bytesoftype as nat, size as nat);
        assert(dest@.subrange(0, n as int) == bitunshuffled(src@, bytesoftype as nat, blocksize as nat));
        assert(dest@ =~= dest@.subrange(0, n as int) + old(dest)@.skip(n as int));
    }
    Ok(())
}

/// A byte transpose reads only the first `rows * cols` bytes.
pub proof fn lemma_byte_transpose_prefix(x: Seq<u8>, rows: nat, cols: nat)
    requires
        x.len() >= rows * cols,
    ensures
        byte_transpose(x, rows, cols) == byte_transpose(x.subrange(0, (rows * cols) as int), rows, cols),
{
    let n = (rows * cols) as int;
    let p = x.subrange(0, n);
    if rows > 0 {
        assert forall|k: int| 0 <= k < n implies
            #[trigger] byte_transpose(x, rows, cols)[k] == byte_transpose(p, rows, cols)[k] by {
            lemma_transpose_index(k, rows as int, cols as int);
        }
    }
    assert(byte_transpose(x, rows, cols) =~= byte_transpose(p, rows, cols));
}

/// A block transpose reads only the first `a * b * blk` bytes.
pub proof fn lemma_block_transpose_prefix(z: Seq<u8>, a: nat, b: nat, blk: nat)
    requires
        z.len() >= a * b * blk,
    ensures
        block_transpose(z, a, b, blk) == block_transpose(z.subrange(0, (a * b * blk) as int), a, b, blk),
{
    let n = (a * b * blk) as int;
    let p = z.subrange(0, n);
    if a > 0 && blk > 0 {
        assert forall|k: int| 0 <= k < n implies
            #[trigger] block_transpose(z, a, b, blk)[k] == block_transpose(p, a, b, blk)[k] by {
            assert(a * b * blk == (a * b) * blk) by (nonlinear_arith);
            lemma_grid_split(k, (a * b) as int, blk as int);
            let c = k / blk as int;
            lemma_transpose_index(c, a as int, b as int);
            lemma_grid_cell((c % a as int) * b + c / a as int, k % blk as int, (a * b) as int, blk as int);
        }
    } else {
        assert(a * b * blk == 0) by (nonlinear_arith)
            requires a == 0 || blk == 0;
    }
    assert(block_transpose(z, a, b, blk) =~= block_transpose(p, a, b, blk));
}

/// The bit rows of `y` read only its first `8 * nrows` bytes.
pub proof fn lemma_bit_rows_prefix(y: Seq<u8>, nrows: nat)
    requires
        y.len() >= 8 * nrows,
    ensures
        bit_rows(y, nrows) == bit_rows(y.subrange(0, (8 * nrows) as int), nrows),
{
    let p = y.subrange(0, (8 * nrows) as int);
    assert forall|k: int| 0 <= k < 8 * nrows implies
        #[trigger] bit_rows(y, nrows)[k] == bit_rows(p, nrows)[k] by {
        let i = k % nrows as int;
        assert(word_at(y, i) == word_at(p, i));
    }
    assert(bit_rows(y, nrows) =~= bit_rows(p, nrows));
}

/// Transposing a byte matrix twice gives it back.
pub proof fn lemma_byte_transpose_twice(x: Seq<u8>, r: nat, c: nat)
    requires
        x.len() == r * c,
    ensures
        byte_transpose(byte_transpose(x, r, c), c, r) == x,
{
    let y = byte_transpose(x, r, c);
    let u = byte_transpose(y, c, r);
    assert(c * r == r * c) by (nonlinear_arith);
    if r == 0 || c == 0 {
        assert(x.len() == 0) by (nonlinear_arith)
            requires x.len() == r * c, r == 0 || c == 0;
    }
    assert forall|k: int| 0 <= k < x.len() implies #[trigger] u[k] == x[k] by {
        lemma_grid_split(k, r as int, c as int);
        let i = k / c as int;
        let j = k % c as int;
        lemma_grid_cell(j, i, c as int, r as int);
    }
    assert(u =~= x);
}

/// Transposing a block matrix twice gives it back.
pub proof fn lemma_block_transpose_twice(z: Seq<u8>, a: nat, b: nat, blk: nat)
    requires
        z.len() == a * b * blk,
    ensures
        block_transpose(block_transpose(z, a, b, blk), b, a, blk) == z,
{
    let w = block_transpose(z, a, b, blk);
    let u = block_transpose(w, b, a, blk);
    assert(b * a * blk == a * b * blk) by (nonlinear_arith);
    if a == 0 || b == 0 || blk == 0 {
        assert(z.len() == 0) by (nonlinear_arith)
            requires z.len() == a * b * blk, a == 0 || b == 0 || blk == 0;
    } else {
        assert forall|k: int| 0 <= k < z.len() implies #[trigger] u[k] == z[k] by {
            assert(a * b * blk == (a * b) * blk) by (nonlinear_arith);
            lemma_grid_split(k, (a * b) as int, blk as int);
            let c = k / blk as int;
            let t = k % blk as int;
            lemma_grid_split(c, a as int, b as int);
            let m = ((c % b as int) * a + c / b as int) * blk + t;
            lemma_grid_cell(c % b as int, c / b as int, b as int, a as int);
            lemma_grid_cell((c % b as int) * a + c / b as int, t, (b * a) as int, blk as int);
            assert(m / blk as int == (c % b as int) * a + c / b as int);
            assert(m % blk as int == t);
            assert(b * a == a * b) by (nonlinear_arith);
            lemma_grid_cell(c / b as int, c % b as int, a as int, b as int);
            lemma_grid_cell(c, t, (a * b) as int, blk as int);
        }
    }
    assert(u =~= z);
}

/// Undoing the bit rows gives the words back.
pub proof fn lemma_bit_unrows_rows(y: Seq<u8>, nrows: nat)
    requires
        y.len() == 8 * nrows,
    ensures
        bit_unrows(bit_rows(y, nrows), nrows) == y,
{
    let r = nrows as int;
    let t = bit_rows(y, nrows);
    let u = bit_unrows(t, nrows);
    assert forall|k: int| 0 <= k < y.len() implies #[trigger] u[k] == y[k] by {
        let ii = k / 8;
        let kk = k % 8;
        assert(0 <= ii < r);
        let w = trans_bit_8x8_spec(word_at(y, ii));
        assert forall|j: int| 0 <= j < 8 implies #[trigger] t[j * r + ii] == byte_of(w, j) by {
            lemma_grid_cell(j, ii, 8, r);
        }
        assert(t[0 * r + ii] == byte_of(w, 0));
        assert(t[1 * r + ii] == byte_of(w, 1));
        assert(t[2 * r + ii] == byte_of(w, 2));
        assert(t[3 * r + ii] == byte_of(w, 3));
        assert(t[4 * r + ii] == byte_of(w, 4));
        assert(t[5 * r + ii] == byte_of(w, 5));
        assert(t[6 * r + ii] == byte_of(w, 6));
        assert(t[7 * r + ii] == byte_of(w, 7));
        lemma_word_of_bytes(w);
        assert(row_word(t, nrows, ii) == w);
        lemma_trans_bit_8x8_involution(word_at(y, ii));
        lemma_bytes_of_word(y[8 * ii], y[8 * ii + 1], y[8 * ii + 2], y[8 * ii + 3], y[8 * ii + 4],
            y[8 * ii + 5], y[8 * ii + 6], y[8 * ii + 7]);
        assert(k == 8 * ii + kk);
    }
    assert(u =~= y);
}

/// Bit-unshuffling a bit-shuffled block gives back its whole elements.
pub proof fn lemma_bitunshuffle_bitshuffle(x: Seq<u8>, typesize: nat, blocksize: nat)
    requires
        typesize > 0,
        x.len() >= blocksize,
        (blocksize / typesize) % 8 == 0,
    ensures
        bitunshuffled(bitshuffled(x, typesize, blocksize), typesize, blocksize)
            == x.subrange(0, ((blocksize / typesize) * typesize) as int),
{
    let size = blocksize / typesize;
    let n = size * typesize;
    lemma_div_mul_le(blocksize as int, typesize as int);
    let xn = x.subrange(0, n as int);
    let y1 = byte_transpose(x, size, typesize);
    lemma_byte_transpose_prefix(x, size, typesize);
    assert(n == 8 * ((size / 8) * typesize)) by (nonlinear_arith)
        requires size % 8 == 0, n == size * typesize;
    assert(8 * (n / 8) == n);
    let y2 = bit_rows(y1, n / 8);
    assert(8 * typesize * (size / 8) == n) by (nonlinear_arith)
        requires size % 8 == 0, n == size * typesize;
    let y3 = block_transpose(y2, 8, typesize, size / 8);
    assert(typesize * 8 * (size / 8) == n) by (nonlinear_arith)
        requires size % 8 == 0, n == size * typesize;
    lemma_block_transpose_twice(y2, 8, typesize, size / 8);
    lemma_bit_unrows_rows(y1, n / 8);
    lemma_byte_transpose_twice(xn, size, typesize);
}

} // verus!
