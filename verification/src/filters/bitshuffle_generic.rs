//! The portable bitshuffle kernels, one step of the transform each. Every kernel returns the
//! number of bytes it covers (`size * elem_size`), or `-80` where a count that must be a
//! multiple of eight is not. Words are read and written little-endian, which is the layout the
//! kernels produce on every host.
use vstd::prelude::*;
use crate::arith::{lemma_grid_cell, lemma_grid_split};
use crate::filters::bits::{byte_of, trans_bit_8x8_spec, trans_bit_8x8, lemma_word_of_bytes, lemma_bytes_of_word, lemma_trans_bit_8x8_involution};
use crate::filters::{byte_transpose, block_transpose, bit_rows, word_at, bitshuffled, transpose_bytes, transpose_blocks};
use crate::filters::lemma_bit_rows_prefix;

verus! {

/// Copies the first `size * elem_size` bytes of `input` to `output`.
pub fn bshuf_copy(input: &[u8], output: &mut [u8], size: usize, elem_size: usize) -> (r: i64)
    requires
        size * elem_size <= input.len(),
        size * elem_size <= old(output).len(),
    ensures
        r == (size * elem_size) as i64,
        final(output)@ == input@.subrange(0, size * elem_size) + old(output)@.skip(size * elem_size),
{
    let total = size * elem_size;
    let mut k: usize = 0;
    while k < total
        invariant
            k <= total,
            total <= input.len(),
            total <= output.len(),
            output.len() == old(output).len(),
            forall|j: int| 0 <= j < k ==> output@[j] == input@[j],
            forall|j: int| k <= j < output.len() ==> output@[j] == old(output)@[j],
        decreases total - k,
    {
        output[k] = input[k];
        k += 1;
    }
    assert(output@ =~= input@.subrange(0, total as int) + old(output)@.skip(total as int));
    total as i64
}

/// `old` with byte `j` of each item `i` in `start .. size` moved to `j * size + i`.
pub open spec fn byte_elem_from(old: Seq<u8>, input: Seq<u8>, size: nat, elem_size: nat, start: nat) -> Seq<u8> {
    Seq::new(old.len(), |k: int|
        if k < size * elem_size && k % (size as int) >= start {
            input[(k % (size as int)) * elem_size + k / (size as int)]
        } else {
            old[k]
        })
}

/// Transposes the bytes of the items from `start` on (which must be a multiple of eight) into
/// byte planes: byte `j` of item `i` goes to `j * size + i`.
pub fn bshuf_trans_byte_elem_remainder(input: &[u8], output: &mut [u8], size: usize, elem_size: usize, start: usize)
    -> (r: i64)
    requires
        size * elem_size <= input.len(),
        size * elem_size <= old(output).len(),
    ensures
        start % 8 != 0 ==> r == -80 && final(output)@ == old(output)@,
        start % 8 == 0 ==> r == (size * elem_size) as i64
            && final(output)@ == byte_elem_from(old(output)@, input@, size as nat, elem_size as nat, start as nat),
{
    if start % 8 != 0 {
        return -80;
    }
    let ghost spec_out = byte_elem_from(old(output)@, input@, size as nat, elem_size as nat, start as nat);
    let ghost n = size * elem_size;
    assert(size * elem_size == elem_size * size) by (nonlinear_arith);
    let mut ii: usize = start;
    if size <= start {
        assert(output@ =~= spec_out) by {
            assert forall|k: int| 0 <= k < output.len() implies output@[k] == spec_out[k] by {
                if k < n {
                    lemma_grid_split(k, elem_size as int, size as int);
                }
            }
        }
        return (size * elem_size) as i64;
    }
    while ii < size
        invariant
            start <= ii <= size,
            n == size * elem_size, n == elem_size * size,
            n <= input.len(), n <= output.len(),
            output.len() == old(output).len(),
            spec_out == byte_elem_from(old(output)@, input@, size as nat, elem_size as nat, start as nat),
            forall|k: int| 0 <= k < output.len() ==> #[trigger] output@[k]
                == if k < n && start <= k % (size as int) < ii { spec_out[k] } else { old(output)@[k] },
        decreases size - ii,
    {
        let mut jj: usize = 0;
        while jj < elem_size
            invariant
                start <= ii < size,
                jj <= elem_size,
                n == size * elem_size, n == elem_size * size,
                n <= input.len(), n <= output.len(),
                output.len() == old(output).len(),
                spec_out == byte_elem_from(old(output)@, input@, size as nat, elem_size as nat, start as nat),
                forall|k: int| 0 <= k < output.len() ==> #[trigger] output@[k]
                    == if k < n && (start <= k % (size as int) < ii || (k % (size as int) == ii && k / (size as int) < jj)) {
                        spec_out[k]
                    } else {
                        old(output)@[k]
                    },
            decreases elem_size - jj,
        {
            proof {
                lemma_grid_cell(jj as int, ii as int, elem_size as int, size as int);
                lemma_grid_cell(ii as int, jj as int, size as int, elem_size as int);
            }
            let d = jj * size + ii;
            let s = ii * elem_size + jj;
            let ghost before = output@;
            output[d] = input[s];
            proof {
                assert forall|k: int| 0 <= k < output.len() implies #[trigger] output@[k]
                    == if k < n && (start <= k % (size as int) < ii || (k % (size as int) == ii && k / (size as int) < jj + 1)) {
                        spec_out[k]
                    } else {
                        old(output)@[k]
                    } by {
                    if k != d {
                        assert(output@[k] == before[k]);
                        if k < n && k % (size as int) == ii && k / (size as int) == jj {
                            lemma_grid_split(k, elem_size as int, size as int);
                        }
                    }
                }
            }
            jj += 1;
        }
        proof {
            assert forall|k: int| 0 <= k < output.len() implies #[trigger] output@[k]
                == if k < n && start <= k % (size as int) < ii + 1 { spec_out[k] } else { old(output)@[k] } by {
                if k < n && k % (size as int) == ii {
                    lemma_grid_split(k, elem_size as int, size as int);
                }
            }
        }
        ii += 1;
    }
    assert(output@ =~= spec_out) by {
        assert forall|k: int| 0 <= k < output.len() implies output@[k] == spec_out[k] by {
            if k < n {
                lemma_grid_split(k, elem_size as int, size as int);
            }
        }
    }
    (size * elem_size) as i64
}

/// Transposes the bytes of all items into byte planes.
pub fn bshuf_trans_byte_elem_scal(input: &[u8], output: &mut [u8], size: usize, elem_size: usize) -> (r: i64)
    requires
        size * elem_size <= input.len(),
        size * elem_size <= old(output).len(),
    ensures
        r == (size * elem_size) as i64,
        final(output)@ == byte_elem_from(old(output)@, input@, size as nat, elem_size as nat, 0),
{
    bshuf_trans_byte_elem_remainder(input, output, size, elem_size, 0)
}

/// `old` with the bit rows of the words from `first` on: byte `kk * nrows + ii` is byte `kk`
/// of the bit-transposed word `ii`.
pub open spec fn bit_rows_from(old: Seq<u8>, input: Seq<u8>, nrows: nat, first: nat) -> Seq<u8> {
    Seq::new(old.len(), |k: int|
        if k < 8 * nrows && k % (nrows as int) >= first { bit_rows(input, nrows)[k] } else { old[k] })
}

/// Bit-transposes each 8-byte word from byte `start_byte` on (a multiple of eight, as must be
/// the `size * elem_size` bytes) and spreads the result over eight rows.
pub fn bshuf_trans_bit_byte_remainder(input: &[u8], output: &mut [u8], size: usize, elem_size: usize, start_byte: usize)
    -> (r: i64)
    requires
        size * elem_size <= input.len(),
        size * elem_size <= old(output).len(),
    ensures
        (size * elem_size) % 8 != 0 || start_byte % 8 != 0 ==> r == -80 && final(output)@ == old(output)@,
        (size * elem_size) % 8 == 0 && start_byte % 8 == 0 ==> r == (size * elem_size) as i64
            && final(output)@ == bit_rows_from(old(output)@, input@, ((size * elem_size) / 8) as nat, (start_byte / 8) as nat),
{
    let nbyte = elem_size * size;
    assert(nbyte == size * elem_size) by (nonlinear_arith)
        requires nbyte == elem_size * size;
    if nbyte % 8 != 0 {
        return -80;
    }
    if start_byte % 8 != 0 {
        return -80;
    }
    let nbr = nbyte / 8;
    let ghost r = nbr as int;
    let ghost spec_out = bit_rows_from(old(output)@, input@, nbr as nat, (start_byte / 8) as nat);
    let ghost rows = bit_rows(input@, nbr as nat);
    let first = start_byte / 8;
    let mut ii: usize = first;
    if nbr <= first {
        assert(output@ =~= spec_out) by {
            assert forall|k: int| 0 <= k < output.len() implies output@[k] == spec_out[k] by {
                if k < 8 * nbr {
                    lemma_grid_split(k, 8, r);
                }
            }
        }
        return (size * elem_size) as i64;
    }
    while ii < nbr
        invariant
            first <= ii <= nbr,
            r == nbr, 8 * nbr == nbyte,
            nbyte <= input.len(), nbyte <= output.len(),
            output.len() == old(output).len(),
            spec_out == bit_rows_from(old(output)@, input@, nbr as nat, first as nat),
            rows == bit_rows(input@, nbr as nat),
            forall|k: int| 0 <= k < output.len() ==> #[trigger] output@[k]
                == if k < 8 * r && first <= k % r < ii { rows[k] } else { old(output)@[k] },
        decreases nbr - ii,
    {
        let b = 8 * ii;
        let x = (input[b] as u64) | ((input[b + 1] as u64) << 8u64) | ((input[b + 2] as u64) << 16u64)
            | ((input[b + 3] as u64) << 24u64) | ((input[b + 4] as u64) << 32u64)
            | ((input[b + 5] as u64) << 40u64) | ((input[b + 6] as u64) << 48u64)
            | ((input[b + 7] as u64) << 56u64);
        assert(x == word_at(input@, ii as int));
        let x = trans_bit_8x8(x);
        let mut kk: usize = 0;
        while kk < 8
            invariant
                first <= ii < nbr,
                kk <= 8,
                r == nbr, 8 * nbr == nbyte,
                nbyte <= input.len(), nbyte <= output.len(),
                output.len() == old(output).len(),
                x == trans_bit_8x8_spec(word_at(input@, ii as int)),
                rows == bit_rows(input@, nbr as nat),
                forall|k: int| 0 <= k < output.len() ==> #[trigger] output@[k]
                    == if k < 8 * r && (first <= k % r < ii || (k % r == ii && k / r < kk)) { rows[k] } else { old(output)@[k] },
            decreases 8 - kk,
        {
            proof { lemma_grid_cell(kk as int, ii as int, 8, r); }
            let d = kk * nbr + ii;
            let ghost before = output@;
            output[d] = ((x >> ((8 * kk) as u64)) & 0xffu64) as u8;
            proof {
                assert forall|k: int| 0 <= k < output.len() implies #[trigger] output@[k]
                    == if k < 8 * r && (first <= k % r < ii || (k % r == ii && k / r < kk + 1)) { rows[k] } else { old(output)@[k] } by {
                    if k != d {
                        assert(output@[k] == before[k]);
                        if k < 8 * r && k % r == ii && k / r == kk {
                            lemma_grid_split(k, 8, r);
                        }
                    }
                }
            }
            kk += 1;
        }
        proof {
            assert forall|k: int| 0 <= k < output.len() implies #[trigger] output@[k]
                == if k < 8 * r && first <= k % r < ii + 1 { rows[k] } else { old(output)@[k] } by {
                if k < 8 * r && k % r == ii {
                    lemma_grid_split(k, 8, r);
                }
            }
        }
        ii += 1;
    }
    assert(output@ =~= spec_out);
    (size * elem_size) as i64
}

/// Bit-transposes every 8-byte word and spreads the result over eight rows.
pub fn bshuf_trans_bit_byte_scal(input: &[u8], output: &mut [u8], size: usize, elem_size: usize) -> (r: i64)
    requires
        size * elem_size <= input.len(),
        size * elem_size <= old(output).len(),
    ensures
        (size * elem_size) % 8 != 0 ==> r == -80 && final(output)@ == old(output)@,
        (size * elem_size) % 8 == 0 ==> r == (size * elem_size) as i64
            && final(output)@ == bit_rows_from(old(output)@, input@, ((size * elem_size) / 8) as nat, 0),
{
    bshuf_trans_bit_byte_remainder(input, output, size, elem_size, 0)
}

/// Transposes an `lda x ldb` matrix of `elem_size`-byte elements.
pub fn bshuf_trans_elem(input: &[u8], output: &mut [u8], lda: usize, ldb: usize, elem_size: usize) -> (r: i64)
    requires
        lda * ldb <= usize::MAX,
        lda * ldb * elem_size <= input.len(),
        lda * ldb * elem_size <= old(output).len(),
    ensures
        r == (lda * ldb * elem_size) as i64,
        final(output)@ == block_transpose(input@, lda as nat, ldb as nat, elem_size as nat)
            + old(output)@.skip(lda * ldb * elem_size),
{
    transpose_blocks(input, output, lda, ldb, elem_size);
    assert(output@ =~= output@.subrange(0, lda * ldb * elem_size) + old(output)@.skip(lda * ldb * elem_size));
    (lda * ldb * elem_size) as i64
}

/// Transposes the rows of bits (`size / 8` bytes each) within groups of eight.
pub fn bshuf_trans_bitrow_eight(input: &[u8], output: &mut [u8], size: usize, elem_size: usize) -> (r: i64)
    requires
        size * elem_size <= input.len(),
        size * elem_size <= old(output).len(),
        8 * elem_size <= usize::MAX,
    ensures
        size % 8 != 0 ==> r == -80 && final(output)@ == old(output)@,
        size % 8 == 0 ==> r == (size * elem_size) as i64
            && final(output)@ == block_transpose(input@, 8, elem_size as nat, (size / 8) as nat)
                + old(output)@.skip(size * elem_size),
{
    if size % 8 != 0 {
        return -80;
    }
    assert(8 * elem_size * (size / 8) == size * elem_size) by (nonlinear_arith)
        requires size % 8 == 0;
    bshuf_trans_elem(input, output, 8, elem_size, size / 8)
}

/// The whole bitshuffle: byte planes, bit transpose of each word, then the bit rows regrouped.
pub fn bshuf_trans_bit_elem_scal(input: &[u8], output: &mut [u8], size: usize, elem_size: usize) -> (r: i64)
    requires
        size * elem_size <= input.len(),
        size * elem_size <= old(output).len(),
        8 * elem_size <= usize::MAX,
    ensures
        size % 8 != 0 ==> r == -80 && final(output)@ == old(output)@,
        size % 8 == 0 ==> r == (size * elem_size) as i64
            && final(output)@ == bitshuffled(input@, elem_size as nat, (size * elem_size) as nat)
                + old(output)@.skip(size * elem_size),
{
    if size % 8 != 0 {
        return -80;
    }
    let total = size * elem_size;
    let mut tmp_buf = vec![0u8; total];
    bshuf_trans_byte_elem_scal(input, output, size, elem_size);
    let ghost out1 = output@;
    assert(total == 8 * ((size / 8) * elem_size)) by (nonlinear_arith)
        requires total == size * elem_size, size % 8 == 0;
    assert(total % 8 == 0);
    bshuf_trans_bit_byte_scal(output, &mut tmp_buf, size, elem_size);
    let ghost tmp = tmp_buf@;
    let count = bshuf_trans_bitrow_eight(&tmp_buf, output, size, elem_size);
    proof {
        let n = total as nat;
        assert(out1.subrange(0, total as int) =~= byte_transpose(input@, size as nat, elem_size as nat)) by {
            assert(size * elem_size == elem_size * size) by (nonlinear_arith);
        }
        assert(8 * (total / 8) == total);
        assert(tmp =~= bit_rows(out1, (total / 8) as nat)) by {
            assert forall|k: int| 0 <= k < tmp.len() implies tmp[k] == bit_rows(out1, (total / 8) as nat)[k] by {
                if total / 8 > 0 {
                    vstd::arithmetic::div_mod::lemma_mod_pos_bound(k, (total / 8) as int);
                }
            }
        }
        lemma_bit_rows_prefix(out1, (total / 8) as nat);
        assert(8 * elem_size * (size / 8) == total) by (nonlinear_arith)
            requires size % 8 == 0, total == size * elem_size;
        if elem_size > 0 {
            assert(total as nat / elem_size as nat == size) by (nonlinear_arith)
                requires total == size * elem_size, elem_size > 0;
            assert(output@ =~= bitshuffled(input@, elem_size as nat, n) + old(output)@.skip(total as int));
        } else {
            assert(total == 0);
            assert(bitshuffled(input@, elem_size as nat, n).len() == 0) by (nonlinear_arith)
                requires elem_size == 0;
            assert(output@ =~= bitshuffled(input@, elem_size as nat, n) + old(output)@.skip(total as int));
        }
    }
    count
}

/// Transposes bytes arranged as one row per bit (`8 * elem_size` rows of `size / 8` bytes).
pub fn bshuf_trans_byte_bitrow_scal(input: &[u8], output: &mut [u8], size: usize, elem_size: usize) -> (r: i64)
    requires
        size * elem_size <= input.len(),
        size * elem_size <= old(output).len(),
    ensures
        size % 8 != 0 ==> r == -80 && final(output)@ == old(output)@,
        size % 8 == 0 ==> r == (size * elem_size) as i64
            && final(output)@ == byte_transpose(input@, (8 * elem_size) as nat, (size / 8) as nat)
                + old(output)@.skip(size * elem_size),
{
    if size % 8 != 0 {
        return -80;
    }
    let nbyte_row = size / 8;
    assert(8 * elem_size * nbyte_row == size * elem_size) by (nonlinear_arith)
        requires size % 8 == 0, nbyte_row == size / 8;
    if nbyte_row == 0 {
        assert(byte_transpose(input@, (8 * elem_size) as nat, 0) =~= Seq::<u8>::empty()) by {
            assert((8 * elem_size) as nat * 0 == 0);
        }
        assert(output@ =~= Seq::<u8>::empty() + old(output)@.skip(0));
        return 0;
    }
    assert(8 * elem_size <= size * elem_size) by (nonlinear_arith)
        requires size >= 8;
    transpose_bytes(input, output, 8 * elem_size, nbyte_row);
    assert(output@ =~= output@.subrange(0, size * elem_size) + old(output)@.skip(size * elem_size));
    (size * elem_size) as i64
}

/// Where the bit-transposed word `m * elem_size + t` of a group of eight items puts its byte
/// `kk`: at `m * 8 * elem_size + kk * elem_size + t`.
pub open spec fn eight_pos(m: int, kk: int, t: int, es: int) -> int {
    m * (8 * es) + kk * es + t
}

/// Bits of each group of eight items put back in item order: byte `kk` of item `8 * m + kk`'s
/// slot `t` comes from the bit-transposed word `m * elem_size + t`.
pub open spec fn eightelem(input: Seq<u8>, size: nat, es: nat) -> Seq<u8> {
    Seq::new(size * es, |o: int| {
        let g = 8 * (es as int);
        let rr = o % g;
        byte_of(trans_bit_8x8_spec(word_at(input, (o / g) * es + rr % (es as int))), rr / (es as int))
    })
}

/// A position of [`eight_pos`] lies in the block and gives its coordinates back.
proof fn lemma_eight_pos_cell(m: int, kk: int, t: int, es: int, nm: int)
    requires
        0 <= m < nm,
        0 <= kk < 8,
        0 <= t < es,
    ensures
        0 <= eight_pos(m, kk, t, es) < nm * (8 * es),
        eight_pos(m, kk, t, es) / (8 * es) == m,
        (eight_pos(m, kk, t, es) % (8 * es)) / es == kk,
        (eight_pos(m, kk, t, es) % (8 * es)) % es == t,
        eight_pos(m, kk, t, es) % es == t,
{
    lemma_grid_cell(kk, t, 8, es);
    lemma_grid_cell(m, kk * es + t, nm, 8 * es);
    assert(m * (8 * es) + (kk * es + t) == (m * 8 + kk) * es + t) by (nonlinear_arith);
    lemma_grid_cell(m * 8 + kk, t, nm * 8, es);
}

/// Every position of a block of `nm` groups is an [`eight_pos`].
proof fn lemma_eight_pos_split(o: int, es: int, nm: int)
    requires
        0 <= o < nm * (8 * es),
        es > 0,
    ensures
        0 <= o / (8 * es) < nm,
        0 <= (o % (8 * es)) / es < 8,
        0 <= o % es < es,
        (o % (8 * es)) % es == o % es,
        o == eight_pos(o / (8 * es), (o % (8 * es)) / es, o % es, es),
{
    lemma_grid_split(o, nm, 8 * es);
    let rr = o % (8 * es);
    lemma_grid_split(rr, 8, es);
    let m = o / (8 * es);
    let kk = rr / es;
    let t = rr % es;
    assert(o == (m * 8 + kk) * es + t) by (nonlinear_arith)
        requires o == m * (8 * es) + rr, rr == kk * es + t;
    vstd::arithmetic::div_mod::lemma_fundamental_div_mod_converse(o, es, m * 8 + kk, t);
}

/// Undoes the bit transpose within each group of eight items, writing
/// [`eightelem`] over the first `size * elem_size` bytes of `output`.
pub fn bshuf_shuffle_bit_eightelem_scal(input: &[u8], output: &mut [u8], size: usize, elem_size: usize) -> (r: i64)
    requires
        size * elem_size <= input.len(),
        size * elem_size <= old(output).len(),
    ensures
        size % 8 != 0 ==> r == -80 && final(output)@ == old(output)@,
        size % 8 == 0 ==> r == (size * elem_size) as i64
            && final(output)@ == eightelem(input@, size as nat, elem_size as nat) + old(output)@.skip(size * elem_size),
{
    if size % 8 != 0 {
        return -80;
    }
    let nbyte = size * elem_size;
    let nm = size / 8;
    let ghost es = elem_size as int;
    let ghost spec_out = eightelem(input@, size as nat, elem_size as nat);
    assert(nbyte == nm * (8 * elem_size)) by (nonlinear_arith)
        requires nbyte == size * elem_size, size % 8 == 0, nm == size / 8;
    if nm == 0 || elem_size == 0 {
        assert((size as nat) * (elem_size as nat) == 0) by (nonlinear_arith)
            requires size == 0 || elem_size == 0;
        assert(spec_out =~= Seq::<u8>::empty());
        assert(output@ =~= spec_out + old(output)@.skip(0));
        return 0;
    }
    assert(8 * elem_size <= nbyte) by (nonlinear_arith)
        requires nm >= 1, nbyte == nm * (8 * elem_size);
    assert(size == 0 || elem_size == 0 ==> nbyte == 0) by (nonlinear_arith)
        requires nbyte == size * elem_size;
    let mut t: usize = 0;
    while t < elem_size
        invariant
            t <= elem_size,
            es == elem_size, es > 0,
            nbyte == size * elem_size, nbyte == nm * (8 * elem_size), 8 * elem_size <= nbyte,
            nbyte <= input.len(), nbyte <= output.len(),
            output.len() == old(output).len(),
            spec_out == eightelem(input@, size as nat, elem_size as nat),
            forall|o: int| 0 <= o < output.len() ==> #[trigger] output@[o]
                == if o < nbyte && o % es < t { spec_out[o] } else { old(output)@[o] },
        decreases elem_size - t,
    {
        let mut m: usize = 0;
        while m < nm
            invariant
                t < elem_size,
                m <= nm,
                es == elem_size, es > 0,
                nbyte == size * elem_size, nbyte == nm * (8 * elem_size), 8 * elem_size <= nbyte,
                nbyte <= input.len(), nbyte <= output.len(),
                output.len() == old(output).len(),
                spec_out == eightelem(input@, size as nat, elem_size as nat),
                forall|o: int| 0 <= o < output.len() ==> #[trigger] output@[o]
                    == if o < nbyte && (o % es < t || (o % es == t && o / (8 * es) < m)) { spec_out[o] } else { old(output)@[o] },
            decreases nm - m,
        {
            proof {
                lemma_eight_pos_cell(m as int, 7, t as int, es, nm as int);
                lemma_grid_cell(m as int, t as int, nm as int, es);
                assert(8 * (m * elem_size + t) + 8 <= nbyte) by (nonlinear_arith)
                    requires m * elem_size + t < nm * elem_size, nbyte == nm * (8 * elem_size);
            }
            let w = m * elem_size + t;
            let b = 8 * w;
            let x = (input[b] as u64) | ((input[b + 1] as u64) << 8u64) | ((input[b + 2] as u64) << 16u64)
                | ((input[b + 3] as u64) << 24u64) | ((input[b + 4] as u64) << 32u64)
                | ((input[b + 5] as u64) << 40u64) | ((input[b + 6] as u64) << 48u64)
                | ((input[b + 7] as u64) << 56u64);
            assert(x == word_at(input@, w as int));
            let x = trans_bit_8x8(x);
            let mut kk: usize = 0;
            while kk < 8
                invariant
                    t < elem_size,
                    m < nm,
                    kk <= 8,
                    es == elem_size, es > 0,
                    w == m * elem_size + t,
                    nbyte == size * elem_size, nbyte == nm * (8 * elem_size), 8 * elem_size <= nbyte,
                    nbyte <= input.len(), nbyte <= output.len(),
                    output.len() == old(output).len(),
                    x == trans_bit_8x8_spec(word_at(input@, w as int)),
                    spec_out == eightelem(input@, size as nat, elem_size as nat),
                    forall|o: int| 0 <= o < output.len() ==> #[trigger] output@[o]
                        == if o < nbyte && (o % es < t || (o % es == t && o / (8 * es) < m)
                            || (o % es == t && o / (8 * es) == m && (o % (8 * es)) / es < kk)) {
                            spec_out[o]
                        } else {
                            old(output)@[o]
                        },
                decreases 8 - kk,
            {
                proof { lemma_eight_pos_cell(m as int, kk as int, t as int, es, nm as int); }
                let d = m * (8 * elem_size) + kk * elem_size + t;
                let ghost before = output@;
                output[d] = ((x >> ((8 * kk) as u64)) & 0xffu64) as u8;
                proof {
                    assert(output@[d as int] == spec_out[d as int]);
                    assert forall|o: int| 0 <= o < output.len() implies #[trigger] output@[o]
                        == if o < nbyte && (o % es < t || (o % es == t && o / (8 * es) < m)
                            || (o % es == t && o / (8 * es) == m && (o % (8 * es)) / es < kk + 1)) {
                            spec_out[o]
                        } else {
                            old(output)@[o]
                        } by {
                        if o != d {
                            assert(output@[o] == before[o]);
                            if o < nbyte && o % es == t && o / (8 * es) == m && (o % (8 * es)) / es == kk {
                                lemma_eight_pos_split(o, es, nm as int);
                            }
                        }
                    }
                }
                kk += 1;
            }
            proof {
                assert forall|o: int| 0 <= o < output.len() implies #[trigger] output@[o]
                    == if o < nbyte && (o % es < t || (o % es == t && o / (8 * es) < m + 1)) { spec_out[o] } else { old(output)@[o] } by {
                    if o < nbyte && o % es == t && o / (8 * es) == m {
                        lemma_eight_pos_split(o, es, nm as int);
                    }
                }
            }
            m += 1;
        }
        proof {
            assert forall|o: int| 0 <= o < output.len() implies #[trigger] output@[o]
                == if o < nbyte && o % es < t + 1 { spec_out[o] } else { old(output)@[o] } by {
                if o < nbyte && o % es == t {
                    lemma_eight_pos_split(o, es, nm as int);
                }
            }
        }
        t += 1;
    }
    proof {
        assert forall|o: int| 0 <= o < nbyte implies output@[o] == spec_out[o] by {
            lemma_eight_pos_split(o, es, nm as int);
        }
    }
    assert(output@ =~= spec_out + old(output)@.skip(size * elem_size));
    (size * elem_size) as i64
}

/// The whole bit-unshuffle: bytes of the bit rows transposed, then the bit transpose undone
/// within each group of eight items.
pub fn bshuf_untrans_bit_elem_scal(input: &[u8], output: &mut [u8], size: usize, elem_size: usize) -> (r: i64)
    requires
        size * elem_size <= input.len(),
        size * elem_size <= old(output).len(),
    ensures
        size % 8 != 0 ==> r == -80 && final(output)@ == old(output)@,
        size % 8 == 0 ==> r == (size * elem_size) as i64
            && final(output)@ == eightelem(byte_transpose(input@, (8 * elem_size) as nat, (size / 8) as nat),
                size as nat, elem_size as nat) + old(output)@.skip(size * elem_size),
{
    if size % 8 != 0 {
        return -80;
    }
    let total = size * elem_size;
    let mut tmp_buf = vec![0u8; total];
    bshuf_trans_byte_bitrow_scal(input, &mut tmp_buf, size, elem_size);
    proof {
        assert(8 * elem_size * (size / 8) == total) by (nonlinear_arith)
            requires size % 8 == 0, total == size * elem_size;
        assert(tmp_buf@ =~= byte_transpose(input@, (8 * elem_size) as nat, (size / 8) as nat));
    }
    bshuf_shuffle_bit_eightelem_scal(&tmp_buf, output, size, elem_size)
}

/// Bit-unshuffling undoes bitshuffling: the kernels of [`bshuf_untrans_bit_elem_scal`] applied
/// to what [`bshuf_trans_bit_elem_scal`] wrote give back the `size` items.
pub proof fn lemma_bshuf_untrans_trans(x: Seq<u8>, size: nat, elem_size: nat)
    requires
        elem_size > 0,
        size % 8 == 0,
        x.len() >= size * elem_size,
    ensures
        eightelem(byte_transpose(bitshuffled(x, elem_size, size * elem_size), 8 * elem_size, size / 8),
            size, elem_size) == x.subrange(0, (size * elem_size) as int),
{
    let es = elem_size as int;
    let sz = size as int;
    let nb = sz / 8;
    let n = sz * es;
    vstd::arithmetic::div_mod::lemma_div_by_multiple(sz, es);
    assert((size * elem_size) / elem_size == size);
    assert(n == 8 * (nb * es)) by (nonlinear_arith) requires sz % 8 == 0, n == sz * es, nb == sz / 8;
    let nrows = nb * es;
    assert(n / 8 == nrows);
    let a = byte_transpose(x, size, elem_size);
    let b = bit_rows(a, (n / 8) as nat);
    let z = block_transpose(b, 8, elem_size, nb as nat);
    let y = byte_transpose(z, 8 * elem_size, nb as nat);
    let e = eightelem(y, size, elem_size);
    assert(bitshuffled(x, elem_size, size * elem_size) == z);
    assert(8 * es * nb == n) by (nonlinear_arith) requires n == 8 * (nb * es);
    assert(a.len() == n);
    assert(b.len() == n);
    assert(z.len() == n);
    assert(y.len() == n);
    assert(nb * (8 * es) == n) by (nonlinear_arith) requires n == 8 * (nb * es);
    assert forall|o: int| 0 <= o < n implies #[trigger] e[o] == x[o] by {
        lemma_eight_pos_split(o, es, nb);
        let g = 8 * es;
        let m = o / g;
        let kk = (o % g) / es;
        let t = o % es;
        let w = m * es + t;
        let p = t * nb + m;
        lemma_grid_cell(t, m, es, nb);
        assert(p < nrows) by (nonlinear_arith) requires p < es * nb, nrows == nb * es;
        let v = word_at(a, p);
        assert forall|j: int| 0 <= j < 8 implies #[trigger] y[8 * w + j] == byte_of(trans_bit_8x8_spec(v), j) by {
            let k = 8 * w + j;
            lemma_grid_cell(t, j, es, 8);
            assert(0 <= 8 * t + j < g) by (nonlinear_arith) requires t * 8 + j < es * 8, g == 8 * es, 0 <= t, 0 <= j;
            lemma_grid_cell(m, 8 * t + j, nb, g);
            assert(k == m * g + (8 * t + j)) by (nonlinear_arith) requires k == 8 * (m * es + t) + j, g == 8 * es;
            let k1 = (8 * t + j) * nb + m;
            lemma_grid_cell(8 * t + j, m, g, nb);
            assert(y[k] == z[k1]);
            assert((8 * t + j) % 8 == j && (8 * t + j) / 8 == t) by {
                lemma_grid_cell(t, j, es, 8);
                assert(t * 8 + j == 8 * t + j);
            }
            let k2 = (j * es + t) * nb + m;
            assert(k1 < g * nb);
            assert(z[k1] == b[k2]);
            assert(k2 == j * nrows + p) by (nonlinear_arith) requires k2 == (j * es + t) * nb + m, nrows == nb * es, p == t * nb + m;
            lemma_grid_cell(j, p, 8, nrows);
        }
        let tv = trans_bit_8x8_spec(v);
        lemma_word_of_bytes(tv);
        assert(word_at(y, w) == tv) by {
            assert(y[8 * w + 0] == byte_of(tv, 0));
            assert(y[8 * w + 1] == byte_of(tv, 1));
            assert(y[8 * w + 2] == byte_of(tv, 2));
            assert(y[8 * w + 3] == byte_of(tv, 3));
            assert(y[8 * w + 4] == byte_of(tv, 4));
            assert(y[8 * w + 5] == byte_of(tv, 5));
            assert(y[8 * w + 6] == byte_of(tv, 6));
            assert(y[8 * w + 7] == byte_of(tv, 7));
        }
        lemma_trans_bit_8x8_involution(v);
        assert(e[o] == byte_of(v, kk));
        lemma_bytes_of_word(a[8 * p], a[8 * p + 1], a[8 * p + 2], a[8 * p + 3], a[8 * p + 4],
            a[8 * p + 5], a[8 * p + 6], a[8 * p + 7]);
        let q = 8 * p + kk;
        assert(byte_of(v, kk) == a[q]);
        lemma_grid_cell(m, kk, nb, 8);
        assert(0 <= 8 * m + kk < sz) by (nonlinear_arith) requires m * 8 + kk < nb * 8, sz == 8 * nb, 0 <= m, 0 <= kk;
        assert(q == t * sz + (8 * m + kk)) by (nonlinear_arith) requires q == 8 * (t * nb + m) + kk, sz == 8 * nb;
        lemma_grid_cell(t, 8 * m + kk, es, sz);
        assert(o == (8 * m + kk) * es + t) by (nonlinear_arith) requires o == m * (8 * es) + kk * es + t;
    }
    assert(e =~= x.subrange(0, n));
}

} // verus!
