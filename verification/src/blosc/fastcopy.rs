//! Byte copies with `memcpy` semantics, done in 8-byte chunks where the length allows.
use vstd::prelude::*;

verus! {

/// Copies `from[from_pos .. from_pos + n]` to `out[out_pos .. out_pos + n]`.
pub(crate) fn copy_chunk(out: &mut [u8], out_pos: usize, from: &[u8], from_pos: usize, n: usize)
    requires
        out_pos + n <= old(out).len(),
        from_pos + n <= from.len(),
    ensures
        final(out)@ == old(out)@.subrange(0, out_pos as int) + from@.subrange(from_pos as int, from_pos + n)
            + old(out)@.skip(out_pos + n),
{
    let mut k: usize = 0;
    while k < n
        invariant
            k <= n,
            out_pos + n <= out.len(),
            from_pos + n <= from.len(),
            out.len() == old(out).len(),
            forall|j: int| 0 <= j < out_pos ==> out@[j] == old(out)@[j],
            forall|j: int| out_pos <= j < out_pos + k ==> out@[j] == from@[from_pos + (j - out_pos)],
            forall|j: int| out_pos + k <= j < out.len() ==> out@[j] == old(out)@[j],
        decreases n - k,
    {
        out[out_pos + k] = from[from_pos + k];
        k += 1;
    }
    assert(out@ =~= old(out)@.subrange(0, out_pos as int) + from@.subrange(from_pos as int, from_pos + n)
        + old(out)@.skip(out_pos + n));
}

/// Copies `len >= 8` bytes: first one 8-byte chunk, then 8-byte chunks from `len % 8` on, so
/// that every chunk is whole. Returns `len`.
fn chunk_memcpy(out: &mut [u8], from: &[u8], len: usize) -> (r: usize)
    requires
        8 <= len,
        len <= old(out).len(),
        len <= from.len(),
    ensures
        r == len,
        final(out)@ == from@.subrange(0, len as int) + old(out)@.skip(len as int),
{
    let rem = len % 8;
    copy_chunk(out, 0, from, 0, 8);
    let mut pos = rem;
    while pos < len
        invariant
            rem == len % 8,
            rem <= pos <= len,
            (pos - rem) % 8 == 0,
            len <= out.len(),
            len <= from.len(),
            out.len() == old(out).len(),
            forall|j: int| 0 <= j < 8 || 0 <= j < pos ==> out@[j] == from@[j],
            forall|j: int| 8 <= j < out.len() && pos <= j ==> out@[j] == old(out)@[j],
        decreases len - pos,
    {
        assert(pos + 8 <= len);
        copy_chunk(out, pos, from, pos, 8);
        pos += 8;
    }
    assert(out@ =~= from@.subrange(0, len as int) + old(out)@.skip(len as int));
    pos
}

/// Copies the first `len` bytes of `from` to the start of `out`, as `memcpy` does, and returns
/// `len`.
pub fn fastcopy(out: &mut [u8], from: &[u8], len: usize) -> (r: usize)
    requires
        len <= old(out).len(),
        len <= from.len(),
    ensures
        r == len,
        final(out)@ == from@.subrange(0, len as int) + old(out)@.skip(len as int),
{
    if len == 32 || len == 16 || len == 8 || len < 8 {
        copy_chunk(out, 0, from, 0, len);
        assert(out@ =~= from@.subrange(0, len as int) + old(out)@.skip(len as int));
        len
    } else {
        chunk_memcpy(out, from, len)
    }
}

/// Copies a run of `len` bytes like [`fastcopy`]. `out` and `from` are distinct borrows, so
/// they never overlap and the plain copy is the careful one.
pub fn copy_match(out: &mut [u8], from: &[u8], len: usize) -> (r: usize)
    requires
        len <= old(out).len(),
        len <= from.len(),
    ensures
        r == len,
        final(out)@ == from@.subrange(0, len as int) + old(out)@.skip(len as int),
{
    fastcopy(out, from, len)
}

} // verus!
