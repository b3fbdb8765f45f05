//! The n-dimensional layer: the metadata of an array in its MessagePack layout, index
//! conversions, and copies of a slice between two C-ordered buffers.
use vstd::prelude::*;
use vstd::string::StringSliceAdditionalSpecFns;
use vstd::utf8::{valid_utf8, decode_utf8};
use crate::internal::constants::BLOSC2_ERROR_FAILURE;

verus! {

/// The most dimensions an array can have.
pub const B2ND_MAX_DIM: usize = 16;
/// The version of the metadata layout.
pub const B2ND_METALAYER_VERSION: u8 = 0;

/// What `String::from_utf8_lossy` makes of `bytes`.
pub uninterp spec fn utf8_lossy(bytes: Seq<u8>) -> Seq<char>;

/// `String::from_utf8_lossy`, made an owned `String`: `bytes` read as UTF-8, with each invalid
/// sequence replaced. Valid UTF-8 is decoded unchanged; what replaces an invalid sequence is
/// left to the name.
#[verifier::external_body]
fn string_from_utf8_lossy(bytes: &[u8]) -> (r: String)
    ensures
        r@ == utf8_lossy(bytes@),
        valid_utf8(bytes@) ==> r@ == decode_utf8(bytes@),
{
    String::from_utf8_lossy(bytes).into_owned()
}

/// The eight bytes of `x`, most significant first.
pub open spec fn be64_bytes(x: i64) -> Seq<u8> {
    let u = x as u64;
    seq![(u >> 56u64) as u8, (u >> 48u64) as u8, (u >> 40u64) as u8, (u >> 32u64) as u8,
        (u >> 24u64) as u8, (u >> 16u64) as u8, (u >> 8u64) as u8, u as u8]
}

/// The four bytes of `x`, most significant first.
pub open spec fn be32_bytes(x: i32) -> Seq<u8> {
    let u = x as u32;
    seq![(u >> 24u32) as u8, (u >> 16u32) as u8, (u >> 8u32) as u8, u as u8]
}

/// The signed 64-bit value stored big-endian at `pos`.
pub open spec fn be_i64_at(s: Seq<u8>, pos: int) -> i64 {
    (((s[pos] as u64) << 56u64) | ((s[pos + 1] as u64) << 48u64) | ((s[pos + 2] as u64) << 40u64)
        | ((s[pos + 3] as u64) << 32u64) | ((s[pos + 4] as u64) << 24u64) | ((s[pos + 5] as u64) << 16u64)
        | ((s[pos + 6] as u64) << 8u64) | (s[pos + 7] as u64)) as i64
}

/// The signed 32-bit value stored big-endian at `pos`.
pub open spec fn be_i32_at(s: Seq<u8>, pos: int) -> i32 {
    (((s[pos] as u32) << 24u32) | ((s[pos + 1] as u32) << 16u32) | ((s[pos + 2] as u32) << 8u32)
        | (s[pos + 3] as u32)) as i32
}

/// Reading back the bytes of a 64-bit value gives the value.
pub proof fn lemma_be64_roundtrip(s: Seq<u8>, pos: int, x: i64)
    requires
        0 <= pos,
        pos + 8 <= s.len(),
        s.subrange(pos, pos + 8) == be64_bytes(x),
    ensures
        be_i64_at(s, pos) == x,
{
    let b = be64_bytes(x);
    assert(s[pos] == b[0] && s[pos + 1] == b[1] && s[pos + 2] == b[2] && s[pos + 3] == b[3]);
    assert(s[pos + 4] == b[4] && s[pos + 5] == b[5] && s[pos + 6] == b[6] && s[pos + 7] == b[7]);
    assert((((((x as u64) >> 56u64) as u8 as u64) << 56u64) | ((((x as u64) >> 48u64) as u8 as u64) << 48u64)
        | ((((x as u64) >> 40u64) as u8 as u64) << 40u64) | ((((x as u64) >> 32u64) as u8 as u64) << 32u64)
        | ((((x as u64) >> 24u64) as u8 as u64) << 24u64) | ((((x as u64) >> 16u64) as u8 as u64) << 16u64)
        | ((((x as u64) >> 8u64) as u8 as u64) << 8u64) | ((x as u64) as u8 as u64)) as i64 == x) by (bit_vector);
}

/// Reading back the bytes of a 32-bit value gives the value.
pub proof fn lemma_be32_roundtrip(s: Seq<u8>, pos: int, x: i32)
    requires
        0 <= pos,
        pos + 4 <= s.len(),
        s.subrange(pos, pos + 4) == be32_bytes(x),
    ensures
        be_i32_at(s, pos) == x,
{
    let b = be32_bytes(x);
    assert(s[pos] == b[0] && s[pos + 1] == b[1] && s[pos + 2] == b[2] && s[pos + 3] == b[3]);
    assert((((((x as u32) >> 24u32) as u8 as u32) << 24u32) | ((((x as u32) >> 16u32) as u8 as u32) << 16u32)
        | ((((x as u32) >> 8u32) as u8 as u32) << 8u32) | ((x as u32) as u8 as u32)) as i32 == x) by (bit_vector);
}

fn push_be64(v: &mut Vec<u8>, x: i64)
    ensures
        final(v)@ == old(v)@ + be64_bytes(x),
{
    let u = x as u64;
    v.push((u >> 56u64) as u8);
    v.push((u >> 48u64) as u8);
    v.push((u >> 40u64) as u8);
    v.push((u >> 32u64) as u8);
    v.push((u >> 24u64) as u8);
    v.push((u >> 16u64) as u8);
    v.push((u >> 8u64) as u8);
    v.push(u as u8);
    assert(v@ =~= old(v)@ + be64_bytes(x));
}

fn push_be32(v: &mut Vec<u8>, x: i32)
    ensures
        final(v)@ == old(v)@ + be32_bytes(x),
{
    let u = x as u32;
    v.push((u >> 24u32) as u8);
    v.push((u >> 16u32) as u8);
    v.push((u >> 8u32) as u8);
    v.push(u as u8);
    assert(v@ =~= old(v)@ + be32_bytes(x));
}

fn read_be64(s: &[u8], pos: usize) -> (r: i64)
    requires
        pos + 8 <= s.len(),
    ensures
        r == be_i64_at(s@, pos as int),
{
    (((s[pos] as u64) << 56u64) | ((s[pos + 1] as u64) << 48u64) | ((s[pos + 2] as u64) << 40u64)
        | ((s[pos + 3] as u64) << 32u64) | ((s[pos + 4] as u64) << 24u64) | ((s[pos + 5] as u64) << 16u64)
        | ((s[pos + 6] as u64) << 8u64) | (s[pos + 7] as u64)) as i64
}

fn read_be32(s: &[u8], pos: usize) -> (r: i32)
    requires
        pos + 4 <= s.len(),
    ensures
        r == be_i32_at(s@, pos as int),
{
    (((s[pos] as u32) << 24u32) | ((s[pos + 1] as u32) << 16u32) | ((s[pos + 2] as u32) << 8u32)
        | (s[pos + 3] as u32)) as i32
}

/// The first `n` entries of `vals` as MessagePack 64-bit integers: a marker byte, then the
/// value big-endian.
pub open spec fn entries64(vals: Seq<i64>, n: nat) -> Seq<u8>
    decreases n,
{
    if n == 0 { seq![] } else { entries64(vals, (n - 1) as nat) + seq![0xd3u8] + be64_bytes(vals[n - 1]) }
}

/// The first `n` entries of `vals` as MessagePack 32-bit integers.
pub open spec fn entries32(vals: Seq<i32>, n: nat) -> Seq<u8>
    decreases n,
{
    if n == 0 { seq![] } else { entries32(vals, (n - 1) as nat) + seq![0xd2u8] + be32_bytes(vals[n - 1]) }
}

/// The bytes of the default dtype, `|u1`.
pub open spec fn default_dtype() -> Seq<u8> {
    seq![124u8, 117u8, 49u8]
}

/// The bytes of the dtype: those of the string given, or those of `|u1`.
pub open spec fn dtype_bytes(dtype: Option<&str>) -> Seq<u8> {
    match dtype {
        Some(s) => s.spec_bytes(),
        None => default_dtype(),
    }
}

/// The metadata of an array: a MessagePack array of seven entries (the layout version, the
/// number of dimensions, the three shapes as arrays of integers, the dtype format and the
/// dtype as a string).
pub open spec fn b2nd_meta(ndim: i8, shape: Seq<i64>, chunkshape: Seq<i32>, blockshape: Seq<i32>,
    dtype: Seq<u8>, dtype_format: i8) -> Seq<u8>
{
    let d = ndim as nat;
    let arr = (0x90 + ndim) as u8;
    seq![0x97u8, B2ND_METALAYER_VERSION, ndim as u8, arr] + entries64(shape, d)
        + seq![arr] + entries32(chunkshape, d) + seq![arr] + entries32(blockshape, d)
        + seq![dtype_format as u8, 0xdbu8] + be32_bytes(dtype.len() as i32) + dtype
}

proof fn lemma_entries64(vals: Seq<i64>, n: nat)
    ensures
        entries64(vals, n).len() == 9 * n,
        forall|i: int| 0 <= i < n ==> #[trigger] entries64(vals, n).subrange(9 * i + 1, 9 * i + 9)
            == be64_bytes(vals[i]),
    decreases n,
{
    if n > 0 {
        lemma_entries64(vals, (n - 1) as nat);
        let prev = entries64(vals, (n - 1) as nat);
        let e = entries64(vals, n);
        assert forall|i: int| 0 <= i < n implies #[trigger] e.subrange(9 * i + 1, 9 * i + 9)
            == be64_bytes(vals[i]) by {
            if i < n - 1 {
                assert(e.subrange(9 * i + 1, 9 * i + 9) =~= prev.subrange(9 * i + 1, 9 * i + 9));
            } else {
                assert(e.subrange(9 * i + 1, 9 * i + 9) =~= be64_bytes(vals[i]));
            }
        }
    }
}

proof fn lemma_entries32(vals: Seq<i32>, n: nat)
    ensures
        entries32(vals, n).len() == 5 * n,
        forall|i: int| 0 <= i < n ==> #[trigger] entries32(vals, n).subrange(5 * i + 1, 5 * i + 5)
            == be32_bytes(vals[i]),
    decreases n,
{
    if n > 0 {
        lemma_entries32(vals, (n - 1) as nat);
        let prev = entries32(vals, (n - 1) as nat);
        let e = entries32(vals, n);
        assert forall|i: int| 0 <= i < n implies #[trigger] e.subrange(5 * i + 1, 5 * i + 5)
            == be32_bytes(vals[i]) by {
            if i < n - 1 {
                assert(e.subrange(5 * i + 1, 5 * i + 5) =~= prev.subrange(5 * i + 1, 5 * i + 5));
            } else {
                assert(e.subrange(5 * i + 1, 5 * i + 5) =~= be32_bytes(vals[i]));
            }
        }
    }
}

/// Writes the metadata of an array. Errors (`-1`): a negative dtype format, or a dtype of more
/// than `i32::MAX` bytes. A missing dtype is `|u1`.
pub fn b2nd_serialize_meta(ndim: i8, shape: &[i64], chunkshape: &[i32], blockshape: &[i32],
    dtype: Option<&str>, dtype_format: i8) -> (r: Result<Vec<u8>, i32>)
    requires
        0 <= ndim <= 111,
        shape.len() >= ndim,
        chunkshape.len() >= ndim,
        blockshape.len() >= ndim,
    ensures
        dtype_format < 0 || dtype_bytes(dtype).len() > i32::MAX ==> r == Err::<Vec<u8>, i32>(BLOSC2_ERROR_FAILURE),
        !(dtype_format < 0 || dtype_bytes(dtype).len() > i32::MAX) ==> r.is_ok() && r.unwrap()@
            == b2nd_meta(ndim, shape@, chunkshape@, blockshape@, dtype_bytes(dtype), dtype_format),
{
    let default: [u8; 3] = [124u8, 117u8, 49u8];
    let dt: &[u8] = match dtype {
        Some(s) => s.as_bytes(),
        None => default.as_slice(),
    };
    assert(dt@ == dtype_bytes(dtype));
    if dtype_format < 0 {
        return Err(BLOSC2_ERROR_FAILURE);
    }
    if dt.len() > 2147483647 {
        return Err(BLOSC2_ERROR_FAILURE);
    }
    let dtype_len = dt.len() as i32;
    let d = ndim as usize;
    let max_smeta_len = 3 + (1 + d * 9) + (1 + d * 5) + (1 + d * 5) + 1 + 1 + 4 + dt.len();
    let arr = 0x90u8 + (ndim as u8);
    let mut smeta: Vec<u8> = Vec::with_capacity(max_smeta_len);
    smeta.push(0x97u8);
    smeta.push(B2ND_METALAYER_VERSION);
    smeta.push(ndim as u8);
    smeta.push(arr);
    let ghost head = smeta@;
    let mut i: usize = 0;
    while i < d
        invariant
            i <= d, d == ndim, shape.len() >= d,
            smeta@ == head + entries64(shape@, i as nat),
        decreases d - i,
    {
        smeta.push(0xd3u8);
        push_be64(&mut smeta, shape[i]);
        i += 1;
        assert(smeta@ =~= head + entries64(shape@, i as nat));
    }
    smeta.push(arr);
    let ghost head2 = smeta@;
    i = 0;
    while i < d
        invariant
            i <= d, d == ndim, chunkshape.len() >= d,
            smeta@ == head2 + entries32(chunkshape@, i as nat),
        decreases d - i,
    {
        smeta.push(0xd2u8);
        push_be32(&mut smeta, chunkshape[i]);
        i += 1;
        assert(smeta@ =~= head2 + entries32(chunkshape@, i as nat));
    }
    smeta.push(arr);
    let ghost head3 = smeta@;
    i = 0;
    while i < d
        invariant
            i <= d, d == ndim, blockshape.len() >= d,
            smeta@ == head3 + entries32(blockshape@, i as nat),
        decreases d - i,
    {
        smeta.push(0xd2u8);
        push_be32(&mut smeta, blockshape[i]);
        i += 1;
        assert(smeta@ =~= head3 + entries32(blockshape@, i as nat));
    }
    smeta.push(dtype_format as u8);
    smeta.push(0xdbu8);
    push_be32(&mut smeta, dtype_len);
    let mut k: usize = 0;
    let ghost head4 = smeta@;
    while k < dt.len()
        invariant
            k <= dt.len(),
            smeta@ == head4 + dt@.subrange(0, k as int),
        decreases dt.len() - k,
    {
        smeta.push(dt[k]);
        k += 1;
        assert(smeta@ =~= head4 + dt@.subrange(0, k as int));
    }
    proof {
        lemma_entries64(shape@, d as nat);
        lemma_entries32(chunkshape@, d as nat);
        lemma_entries32(blockshape@, d as nat);
        assert(smeta@ =~= b2nd_meta(ndim, shape@, chunkshape@, blockshape@, dt@, dtype_format));
    }
    if max_smeta_len != smeta.len() {
        return Err(BLOSC2_ERROR_FAILURE);
    }
    Ok(smeta)
}

/// Where the dtype entry of metadata with `d` dimensions starts.
pub open spec fn meta_dtype_pos(d: nat) -> int {
    6 + 19 * (d as int)
}

/// Dimension `i` of the shape in metadata with `d` dimensions.
pub open spec fn meta_shape_at(smeta: Seq<u8>, d: nat, i: int) -> i64 {
    be_i64_at(smeta, 5 + 9 * i)
}

/// Dimension `i` of the chunk shape in metadata with `d` dimensions.
pub open spec fn meta_chunk_at(smeta: Seq<u8>, d: nat, i: int) -> i32 {
    be_i32_at(smeta, 6 + 9 * d + 5 * i)
}

/// Dimension `i` of the block shape in metadata with `d` dimensions.
pub open spec fn meta_block_at(smeta: Seq<u8>, d: nat, i: int) -> i32 {
    be_i32_at(smeta, 7 + 14 * d + 5 * i)
}

/// The length of the dtype string in metadata whose dtype entry starts at `p`.
pub open spec fn meta_dtype_len(smeta: Seq<u8>, p: int) -> i32 {
    be_i32_at(smeta, p + 2)
}

/// What the metadata needs so that reading it stays inside it: a dimension count under 128,
/// and the bytes of every entry that is read.
pub open spec fn meta_readable(smeta: Seq<u8>, want_dtype: bool, want_format: bool) -> bool {
    &&& smeta.len() >= 3
    &&& smeta[2] < 128
    &&& (smeta[2] > 0 ==> smeta.len() >= meta_dtype_pos(smeta[2] as nat))
    &&& ((want_dtype || want_format) && meta_dtype_pos(smeta[2] as nat) < smeta.len() ==> {
        let p = meta_dtype_pos(smeta[2] as nat);
        let dl = meta_dtype_len(smeta, p);
        &&& p + 6 <= smeta.len()
        &&& dl >= 0
        &&& (want_dtype ==> p + 6 + dl <= smeta.len())
    })
}

/// `old` with its first `d` entries replaced by `f`.
pub open spec fn with_prefix<T>(old: Seq<T>, d: nat, f: spec_fn(int) -> T) -> Seq<T> {
    Seq::new(old.len(), |i: int| if i < d { f(i) } else { old[i] })
}

/// Reads the metadata of an array: the number of dimensions, the three shapes and, where
/// asked for (`dtype` or `dtype_format` is `Some`), the dtype and its format. Returns the
/// number of bytes read. Where the metadata ends before the dtype entry, the dtype is `None`
/// and the format 0.
pub fn b2nd_deserialize_meta(smeta: &[u8], ndim: &mut i8, shape: &mut [i64], chunkshape: &mut [i32],
    blockshape: &mut [i32], dtype: &mut Option<String>, dtype_format: &mut Option<i8>) -> (r: Result<i32, i32>)
    requires
        meta_readable(smeta@, old(dtype).is_some(), old(dtype_format).is_some()),
        old(shape).len() >= smeta@[2],
        old(chunkshape).len() >= smeta@[2],
        old(blockshape).len() >= smeta@[2],
    ensures
        ({
            let s = smeta@;
            let d = s[2] as nat;
            let p = meta_dtype_pos(d);
            &&& *final(ndim) == s[2] as i8
            &&& final(shape)@ == with_prefix(old(shape)@, d, |i: int| meta_shape_at(s, d, i))
            &&& final(chunkshape)@ == with_prefix(old(chunkshape)@, d, |i: int| meta_chunk_at(s, d, i))
            &&& final(blockshape)@ == with_prefix(old(blockshape)@, d, |i: int| meta_block_at(s, d, i))
            &&& if old(dtype).is_none() && old(dtype_format).is_none() {
                &&& r == Ok::<i32, i32>(p as i32)
                &&& final(dtype).is_none() && final(dtype_format).is_none()
            } else if p < s.len() {
                let dl = meta_dtype_len(s, p);
                &&& r == Ok::<i32, i32>((p + 6 + dl) as i32)
                &&& *final(dtype_format) == if old(dtype_format).is_some() { Some(s[p] as i8) } else { None }
                &&& final(dtype).is_some() == old(dtype).is_some()
                &&& final(dtype).is_some() ==> final(dtype).unwrap()@ == utf8_lossy(s.subrange(p + 6, p + 6 + dl))
                &&& final(dtype).is_some() && valid_utf8(s.subrange(p + 6, p + 6 + dl))
                    ==> final(dtype).unwrap()@ == decode_utf8(s.subrange(p + 6, p + 6 + dl))
            } else {
                &&& r == Ok::<i32, i32>(p as i32)
                &&& final(dtype).is_none()
                &&& *final(dtype_format) == if old(dtype_format).is_some() { Some(0i8) } else { None }
            }
        }),
{
    let ghost s = smeta@;
    let mut pmeta: usize = 1;
    pmeta += 1;
    *ndim = smeta[pmeta] as i8;
    let d = smeta[pmeta] as usize;
    pmeta += 1;
    let ghost dn = d as nat;
    // shape entry
    pmeta += 1;
    let mut i: usize = 0;
    while i < d
        invariant
            i <= d, d == s[2], dn == d, s == smeta@, meta_readable(s, old(dtype).is_some(), old(dtype_format).is_some()),
            pmeta == 4 + 9 * i,
            shape.len() == old(shape).len(), shape.len() >= d,
            forall|j: int| 0 <= j < i ==> shape@[j] == meta_shape_at(s, dn, j),
            forall|j: int| i <= j < shape.len() ==> shape@[j] == old(shape)@[j],
        decreases d - i,
    {
        pmeta += 1;
        shape[i] = read_be64(smeta, pmeta);
        pmeta += 8;
        i += 1;
    }
    assert(shape@ =~= with_prefix(old(shape)@, dn, |j: int| meta_shape_at(s, dn, j)));
    // chunkshape entry
    pmeta += 1;
    i = 0;
    while i < d
        invariant
            i <= d, d == s[2], dn == d, s == smeta@, meta_readable(s, old(dtype).is_some(), old(dtype_format).is_some()),
            pmeta == 5 + 9 * d + 5 * i,
            chunkshape.len() == old(chunkshape).len(), chunkshape.len() >= d,
            forall|j: int| 0 <= j < i ==> chunkshape@[j] == meta_chunk_at(s, dn, j),
            forall|j: int| i <= j < chunkshape.len() ==> chunkshape@[j] == old(chunkshape)@[j],
        decreases d - i,
    {
        pmeta += 1;
        chunkshape[i] = read_be32(smeta, pmeta);
        pmeta += 4;
        i += 1;
    }
    assert(chunkshape@ =~= with_prefix(old(chunkshape)@, dn, |j: int| meta_chunk_at(s, dn, j)));
    // blockshape entry
    pmeta += 1;
    i = 0;
    while i < d
        invariant
            i <= d, d == s[2], dn == d, s == smeta@, meta_readable(s, old(dtype).is_some(), old(dtype_format).is_some()),
            pmeta == 6 + 14 * d + 5 * i,
            blockshape.len() == old(blockshape).len(), blockshape.len() >= d,
            forall|j: int| 0 <= j < i ==> blockshape@[j] == meta_block_at(s, dn, j),
            forall|j: int| i <= j < blockshape.len() ==> blockshape@[j] == old(blockshape)@[j],
        decreases d - i,
    {
        pmeta += 1;
        blockshape[i] = read_be32(smeta, pmeta);
        pmeta += 4;
        i += 1;
    }
    assert(blockshape@ =~= with_prefix(old(blockshape)@, dn, |j: int| meta_block_at(s, dn, j)));
    assert(pmeta == meta_dtype_pos(dn));
    // dtype entry
    if dtype.is_none() && dtype_format.is_none() {
        return Ok(pmeta as i32);
    }
    if pmeta < smeta.len() {
        if dtype_format.is_some() {
            *dtype_format = Some(smeta[pmeta] as i8);
        }
        pmeta += 1;
        pmeta += 1;
        let dtype_len = read_be32(smeta, pmeta) as usize;
        pmeta += 4;
        if dtype.is_some() {
            let mut bytes: Vec<u8> = Vec::new();
            let mut k: usize = 0;
            while k < dtype_len
                invariant
                    k <= dtype_len, pmeta + dtype_len <= smeta.len(),
                    bytes@ == smeta@.subrange(pmeta as int, pmeta + k),
                decreases dtype_len - k,
            {
                bytes.push(smeta[pmeta + k]);
                k += 1;
                assert(bytes@ =~= smeta@.subrange(pmeta as int, pmeta + k));
            }
            *dtype = Some(string_from_utf8_lossy(bytes.as_slice()));
        }
        pmeta += dtype_len;
    } else {
        *dtype = None;
        if dtype_format.is_some() {
            *dtype_format = Some(0);
        }
    }
    Ok(pmeta as i32)
}

/// Reading metadata that [`b2nd_serialize_meta`] wrote gives back what was written: the number
/// of dimensions, the three shapes, the dtype format and the dtype's bytes, and the count of
/// bytes read is the length of the metadata.
pub proof fn lemma_meta_roundtrip(ndim: i8, shape: Seq<i64>, chunkshape: Seq<i32>, blockshape: Seq<i32>,
    dtype: Seq<u8>, dtype_format: i8)
    requires
        0 <= ndim <= 111,
        shape.len() >= ndim,
        chunkshape.len() >= ndim,
        blockshape.len() >= ndim,
        0 <= dtype_format,
        dtype.len() <= i32::MAX,
    ensures
        ({
            let s = b2nd_meta(ndim, shape, chunkshape, blockshape, dtype, dtype_format);
            let d = ndim as nat;
            let p = meta_dtype_pos(d);
            &&& meta_readable(s, true, true)
            &&& s[2] as i8 == ndim
            &&& forall|i: int| 0 <= i < d ==> meta_shape_at(s, d, i) == shape[i]
            &&& forall|i: int| 0 <= i < d ==> meta_chunk_at(s, d, i) == chunkshape[i]
            &&& forall|i: int| 0 <= i < d ==> meta_block_at(s, d, i) == blockshape[i]
            &&& p < s.len()
            &&& s[p] as i8 == dtype_format
            &&& meta_dtype_len(s, p) == dtype.len()
            &&& s.subrange(p + 6, p + 6 + dtype.len()) == dtype
            &&& p + 6 + dtype.len() == s.len()
        }),
{
    let s = b2nd_meta(ndim, shape, chunkshape, blockshape, dtype, dtype_format);
    let d = ndim as nat;
    let p = meta_dtype_pos(d);
    lemma_entries64(shape, d);
    lemma_entries32(chunkshape, d);
    lemma_entries32(blockshape, d);
    let arr = (0x90 + ndim) as u8;
    let e1 = entries64(shape, d);
    let e2 = entries32(chunkshape, d);
    let e3 = entries32(blockshape, d);
    assert(s.len() == p + 6 + dtype.len());
    assert forall|i: int| 0 <= i < d implies meta_shape_at(s, d, i) == shape[i] by {
        assert(s.subrange(5 + 9 * i, 5 + 9 * i + 8) =~= e1.subrange(9 * i + 1, 9 * i + 9));
        lemma_be64_roundtrip(s, 5 + 9 * i, shape[i]);
    }
    assert forall|i: int| 0 <= i < d implies meta_chunk_at(s, d, i) == chunkshape[i] by {
        assert(s.subrange(6 + 9 * d + 5 * i, 6 + 9 * d + 5 * i + 4) =~= e2.subrange(5 * i + 1, 5 * i + 5));
        lemma_be32_roundtrip(s, 6 + 9 * d + 5 * i, chunkshape[i]);
    }
    assert forall|i: int| 0 <= i < d implies meta_block_at(s, d, i) == blockshape[i] by {
        assert(s.subrange(7 + 14 * d + 5 * i, 7 + 14 * d + 5 * i + 4) =~= e3.subrange(5 * i + 1, 5 * i + 5));
        lemma_be32_roundtrip(s, 7 + 14 * d + 5 * i, blockshape[i]);
    }
    assert(s.subrange(p + 2, p + 6) =~= be32_bytes(dtype.len() as i32));
    lemma_be32_roundtrip(s, p + 2, dtype.len() as i32);
    assert(s.subrange(p + 6, p + 6 + dtype.len()) =~= dtype);
    assert(s[2] == ndim as u8);
    assert(s[p] == dtype_format as u8);
}

/// Rust's division, which truncates toward zero, for a positive divisor.
pub open spec fn tdiv_pos(a: int, b: int) -> int {
    if a >= 0 { a / b } else { -((-a) / b) }
}

/// Rust's division, which truncates toward zero.
pub open spec fn tdiv(a: int, b: int) -> int {
    if b > 0 { tdiv_pos(a, b) } else { -tdiv_pos(a, -b) }
}

/// Rust's remainder, which takes the sign of the dividend.
pub open spec fn trem(a: int, b: int) -> int {
    if a >= 0 { a % b } else { -((-a) % b) }
}

fn trunc_div(a: i64, b: i64) -> (r: i64)
    requires
        b != 0,
        !(a == i64::MIN && b == -1),
    ensures
        r == tdiv(a as int, b as int),
{
    if b > 0 {
        a / b
    } else if b == i64::MIN {
        if a == i64::MIN { 1 } else { 0 }
    } else {
        let nb = -b;
        let q = a / nb;
        proof {
            if a >= 0 {
                vstd::arithmetic::div_mod::lemma_div_nonincreasing(a as int, nb as int);
                vstd::arithmetic::div_mod::lemma_div_pos_is_pos(a as int, nb as int);
            } else if a == i64::MIN {
                vstd::arithmetic::div_mod::lemma_div_is_ordered_by_denominator(-(a as int), 2, nb as int);
                vstd::arithmetic::div_mod::lemma_div_pos_is_pos(-(a as int), nb as int);
            } else {
                vstd::arithmetic::div_mod::lemma_div_nonincreasing(-(a as int), nb as int);
                vstd::arithmetic::div_mod::lemma_div_pos_is_pos(-(a as int), nb as int);
            }
        }
        -q
    }
}

fn trunc_rem(a: i64, b: i64) -> (r: i64)
    requires
        b != 0,
        !(a == i64::MIN && b == -1),
    ensures
        r == trem(a as int, b as int),
{
    a % b
}

/// `sum of index[j] * strides[j]` over the first `n` dimensions.
pub open spec fn dot(index: Seq<i64>, strides: Seq<i64>, n: nat) -> int
    decreases n,
{
    if n == 0 { 0 } else { dot(index, strides, (n - 1) as nat) + index[n - 1] * strides[n - 1] }
}

/// Whether every term and partial sum of [`dot`] over `n` dimensions fits in an `i64`.
pub open spec fn dot_fits(index: Seq<i64>, strides: Seq<i64>, n: nat) -> bool {
    forall|k: int| 0 < k <= n ==> {
        &&& i64::MIN <= #[trigger] dot(index, strides, k as nat) <= i64::MAX
        &&& i64::MIN <= index[k - 1] * strides[k - 1] <= i64::MAX
    }
}

/// Converts a multidimensional index into a linear one: the sum of `index[j] * strides[j]`.
pub fn blosc2_multidim_to_unidim(index: &[i64], ndim: i8, strides: &[i64]) -> (r: i64)
    requires
        ndim >= 0,
        index.len() >= ndim,
        strides.len() >= ndim,
        dot_fits(index@, strides@, ndim as nat),
    ensures
        r == dot(index@, strides@, ndim as nat),
{
    let n = ndim as usize;
    let mut i: i64 = 0;
    let mut j: usize = 0;
    while j < n
        invariant
            j <= n, n == ndim, index.len() >= n, strides.len() >= n,
            dot_fits(index@, strides@, n as nat),
            i == dot(index@, strides@, j as nat),
        decreases n - j,
    {
        assert(dot(index@, strides@, (j + 1) as nat) == dot(index@, strides@, j as nat) + index@[j as int] * strides@[j as int]);
        i = i + index[j] * strides[j];
        j += 1;
    }
    i
}

/// The product of `shape[from .. to]`.
pub open spec fn prod(shape: Seq<i64>, from: int, to: int) -> int
    decreases to - from,
{
    if from >= to { 1 } else { shape[from] * prod(shape, from + 1, to) }
}

/// The stride of dimension `j` of a C-ordered array of `ndim` dimensions.
pub open spec fn stride_of(shape: Seq<i64>, ndim: nat, j: int) -> int {
    prod(shape, j + 1, ndim as int)
}

/// Whether the strides of `shape` fit in an `i64` and can divide `i`.
pub open spec fn strides_divide(shape: Seq<i64>, ndim: nat, i: i64) -> bool {
    forall|j: int| 0 <= j < ndim ==> {
        &&& i64::MIN <= #[trigger] stride_of(shape, ndim, j) <= i64::MAX
        &&& stride_of(shape, ndim, j) != 0
        &&& (i == i64::MIN ==> stride_of(shape, ndim, j) != -1)
    }
}

/// Coordinate `j` of the linear index `i` in a C-ordered array of `ndim` dimensions.
pub open spec fn unidim_coord(shape: Seq<i64>, ndim: nat, i: i64, j: int) -> i64 {
    if j == 0 {
        tdiv(i as int, stride_of(shape, ndim, 0)) as i64
    } else {
        tdiv(trem(i as int, stride_of(shape, ndim, j - 1)), stride_of(shape, ndim, j)) as i64
    }
}

/// Converts a linear index into a multidimensional one, for a C-ordered array of `ndim`
/// dimensions and the given shape.
pub fn blosc2_unidim_to_multidim(ndim: usize, shape: &[i64], i: i64, index: &mut [i64])
    requires
        ndim <= B2ND_MAX_DIM,
        ndim >= 2 ==> shape.len() >= ndim,
        ndim >= 1 ==> old(index).len() >= ndim,
        strides_divide(shape@, ndim as nat, i),
    ensures
        final(index)@ == with_prefix(old(index)@, ndim as nat, |j: int| unidim_coord(shape@, ndim as nat, i, j)),
{
    if ndim == 0 {
        assert(index@ =~= with_prefix(old(index)@, 0, |j: int| unidim_coord(shape@, ndim as nat, i, j)));
        return;
    }
    let ghost nd = ndim as nat;
    let mut strides = [0i64; 16];
    strides[ndim - 1] = 1;
    let mut j: usize = ndim - 1;
    while j > 0
        invariant
            j < ndim, ndim <= 16, nd == ndim,
            ndim >= 2 ==> shape.len() >= ndim,
            strides_divide(shape@, nd, i),
            forall|m: int| j <= m < ndim ==> strides@[m] == stride_of(shape@, nd, m),
        decreases j,
    {
        j -= 1;
        assert(stride_of(shape@, nd, j as int) == shape@[j + 1] * stride_of(shape@, nd, j + 1));
        strides[j] = shape[j + 1] * strides[j + 1];
    }
    index[0] = trunc_div(i, strides[0]);
    let mut k: usize = 1;
    while k < ndim
        invariant
            1 <= k <= ndim, ndim <= 16, nd == ndim,
            index.len() == old(index).len(), index.len() >= ndim,
            strides_divide(shape@, nd, i),
            forall|m: int| 0 <= m < ndim ==> strides@[m] == stride_of(shape@, nd, m),
            forall|m: int| 0 <= m < k ==> index@[m] == unidim_coord(shape@, nd, i, m),
            forall|m: int| k <= m < index.len() ==> index@[m] == old(index)@[m],
        decreases ndim - k,
    {
        let r = trunc_rem(i, strides[k - 1]);
        proof {
            let s = stride_of(shape@, nd, k - 1);
            if r == i64::MIN {
                // a remainder is smaller than its divisor in magnitude
                if i >= 0 {
                    assert(0 <= (i as int) % s);
                } else {
                    assert(0 <= (-(i as int)) % s);
                    assert((-(i as int)) % s < if s > 0 { s } else { -s });
                }
            }
        }
        index[k] = trunc_div(r, strides[k]);
        k += 1;
    }
    assert(index@ =~= with_prefix(old(index)@, nd, |m: int| unidim_coord(shape@, nd, i, m)));
}

/// The shapes, item counts and strides of an n-dimensional array, as [`update_shape`] derives
/// them from its shape, chunk shape and block shape. Dimensions past `ndim` have extent 1.
pub struct B2ndShape {
    pub ndim: i8,
    pub shape: [i64; 16],
    pub chunkshape: [i32; 16],
    pub blockshape: [i32; 16],
    /// The shape rounded up to whole chunks.
    pub extshape: [i64; 16],
    /// The chunk shape rounded up to whole blocks.
    pub extchunkshape: [i32; 16],
    pub nitems: i64,
    pub chunknitems: i32,
    pub extnitems: i64,
    pub blocknitems: i32,
    pub extchunknitems: i64,
    pub item_array_strides: [i64; 16],
    pub item_extchunk_strides: [i64; 16],
    pub item_chunk_strides: [i64; 16],
    pub item_block_strides: [i64; 16],
    pub block_chunk_strides: [i64; 16],
    pub chunk_array_strides: [i64; 16],
}

/// Whether `x` fits in an `i64`.
pub open spec fn fits64(x: int) -> bool {
    i64::MIN <= x <= i64::MAX
}

/// Whether `x` fits in an `i32`.
pub open spec fn fits32(x: int) -> bool {
    i32::MIN <= x <= i32::MAX
}

/// `a` made a multiple of `m` the way the array layer does it: kept where `m` divides it, else
/// `a + m - a % m` with Rust's remainder.
pub open spec fn round_up(a: int, m: int) -> int {
    if trem(a, m) == 0 { a } else { a + m - trem(a, m) }
}

/// Extent `i` of a shape given for `ndim` dimensions: 1 past them.
pub open spec fn dim_at64(ndim: int, v: Seq<i64>, i: int) -> int {
    if i < ndim { v[i] as int } else { 1 }
}

/// Extent `i` of a chunk or block shape given for `ndim` dimensions: 1 past them.
pub open spec fn dim_at32(ndim: int, v: Seq<i32>, i: int) -> int {
    if i < ndim { v[i] as int } else { 1 }
}

/// Extent `i` of the shape rounded up to whole chunks (0 for an empty dimension).
pub open spec fn extshape_at(ndim: int, shape: Seq<i64>, chunk: Seq<i32>, i: int) -> int {
    if i < ndim {
        if shape[i] != 0 { round_up(shape[i] as int, chunk[i] as int) } else { 0 }
    } else {
        1
    }
}

/// Extent `i` of the chunk shape rounded up to whole blocks (kept for an empty dimension).
pub open spec fn extchunk_at(ndim: int, shape: Seq<i64>, chunk: Seq<i32>, block: Seq<i32>, i: int) -> int {
    if i < ndim {
        if shape[i] != 0 { round_up(chunk[i] as int, block[i] as int) } else { chunk[i] as int }
    } else {
        1
    }
}

/// The per-dimension factor of a count or a stride: the shape (kind 0), the rounded shape (1),
/// the rounded chunk shape (2), the chunk shape (3), the block shape (4), blocks per rounded
/// chunk (5) and chunks per rounded shape (6), with Rust's division.
pub open spec fn dim_factor(kind: nat, ndim: int, shape: Seq<i64>, chunk: Seq<i32>, block: Seq<i32>, j: int) -> int {
    if kind == 0 {
        dim_at64(ndim, shape, j)
    } else if kind == 1 {
        extshape_at(ndim, shape, chunk, j)
    } else if kind == 2 {
        extchunk_at(ndim, shape, chunk, block, j)
    } else if kind == 3 {
        dim_at32(ndim, chunk, j)
    } else if kind == 4 {
        dim_at32(ndim, block, j)
    } else if kind == 5 {
        tdiv(extchunk_at(ndim, shape, chunk, block, j), dim_at32(ndim, block, j))
    } else {
        tdiv(extshape_at(ndim, shape, chunk, j), dim_at32(ndim, chunk, j))
    }
}

/// The product of the factors of `kind` over the first `k` dimensions.
pub open spec fn prod_dims(kind: nat, ndim: int, shape: Seq<i64>, chunk: Seq<i32>, block: Seq<i32>, k: int) -> int
    decreases k,
{
    if k <= 0 {
        1
    } else {
        prod_dims(kind, ndim, shape, chunk, block, k - 1) * dim_factor(kind, ndim, shape, chunk, block, k - 1)
    }
}

/// The row-major stride of dimension `i` for the factors of `kind`: 1 for the last dimension,
/// else the next stride times the next factor, and 0 behind an empty dimension.
pub open spec fn stride_dims(kind: nat, ndim: int, shape: Seq<i64>, chunk: Seq<i32>, block: Seq<i32>, i: int) -> int
    decreases ndim - i,
{
    if i >= ndim - 1 {
        1
    } else if shape[i + 1] != 0 {
        stride_dims(kind, ndim, shape, chunk, block, i + 1) * dim_factor(kind, ndim, shape, chunk, block, i + 1)
    } else {
        0
    }
}

/// The inputs on which [`update_shape`] runs without a division by zero or an overflow: one to
/// `B2ND_MAX_DIM` dimensions given in full, and every rounded extent, count and stride in range.
pub open spec fn shape_computable(ndim: int, shape: Seq<i64>, chunk: Seq<i32>, block: Seq<i32>) -> bool {
    &&& 1 <= ndim <= 16
    &&& shape.len() >= ndim && chunk.len() >= ndim && block.len() >= ndim
    &&& forall|i: int| 0 <= i < ndim && #[trigger] shape[i] != 0 ==> {
        &&& chunk[i] != 0 && !(shape[i] == i64::MIN && chunk[i] == -1)
        &&& (trem(shape[i] as int, chunk[i] as int) != 0 ==> fits64(shape[i] + chunk[i])
            && fits64(round_up(shape[i] as int, chunk[i] as int)))
        &&& block[i] != 0 && !(chunk[i] == i32::MIN && block[i] == -1)
        &&& (trem(chunk[i] as int, block[i] as int) != 0 ==> fits32(chunk[i] + block[i])
            && fits32(round_up(chunk[i] as int, block[i] as int)))
    }
    &&& forall|k: int| 0 < k <= 16 ==> {
        &&& fits64(#[trigger] prod_dims(0, ndim, shape, chunk, block, k))
        &&& fits64(prod_dims(1, ndim, shape, chunk, block, k))
        &&& fits64(prod_dims(2, ndim, shape, chunk, block, k))
        &&& fits32(prod_dims(3, ndim, shape, chunk, block, k))
        &&& fits32(prod_dims(4, ndim, shape, chunk, block, k))
    }
    &&& forall|i: int| 0 <= i < ndim - 1 && #[trigger] shape[i + 1] != 0 ==> {
        &&& !(extchunk_at(ndim, shape, chunk, block, i + 1) == i32::MIN && block[i + 1] == -1)
        &&& !(extshape_at(ndim, shape, chunk, i + 1) == i64::MIN && chunk[i + 1] == -1)
        &&& fits64(stride_dims(0, ndim, shape, chunk, block, i))
        &&& fits64(stride_dims(2, ndim, shape, chunk, block, i))
        &&& fits64(stride_dims(3, ndim, shape, chunk, block, i))
        &&& fits64(stride_dims(4, ndim, shape, chunk, block, i))
        &&& fits64(stride_dims(5, ndim, shape, chunk, block, i))
        &&& fits64(stride_dims(6, ndim, shape, chunk, block, i))
    }
}

/// Derives the shapes, item counts and strides of an array of `ndim` dimensions: each extent
/// past `ndim` is 1; the shape is rounded up to whole chunks and the chunk shape to whole
/// blocks (an empty dimension gives 0 and the chunk shape); each count is the product of its
/// extents over all `B2ND_MAX_DIM` dimensions; the strides are row-major, 0 behind an empty
/// dimension, and 0 past `ndim`.
pub fn update_shape(ndim: i8, shape: &[i64], chunkshape: &[i32], blockshape: &[i32]) -> (r: B2ndShape)
    requires
        shape_computable(ndim as int, shape@, chunkshape@, blockshape@),
    ensures
        r.ndim == ndim,
        forall|i: int| 0 <= i < 16 ==> {
            &&& r.shape@[i] == dim_at64(ndim as int, shape@, i)
            &&& r.chunkshape@[i] == dim_at32(ndim as int, chunkshape@, i)
            &&& r.blockshape@[i] == dim_at32(ndim as int, blockshape@, i)
            &&& r.extshape@[i] == extshape_at(ndim as int, shape@, chunkshape@, i)
            &&& r.extchunkshape@[i] == extchunk_at(ndim as int, shape@, chunkshape@, blockshape@, i)
        },
        r.nitems == prod_dims(0, ndim as int, shape@, chunkshape@, blockshape@, 16),
        r.extnitems == prod_dims(1, ndim as int, shape@, chunkshape@, blockshape@, 16),
        r.extchunknitems == prod_dims(2, ndim as int, shape@, chunkshape@, blockshape@, 16),
        r.chunknitems == prod_dims(3, ndim as int, shape@, chunkshape@, blockshape@, 16),
        r.blocknitems == prod_dims(4, ndim as int, shape@, chunkshape@, blockshape@, 16),
        forall|i: int| 0 <= i < ndim ==> {
            &&& r.item_array_strides@[i] == stride_dims(0, ndim as int, shape@, chunkshape@, blockshape@, i)
            &&& r.item_extchunk_strides@[i] == stride_dims(2, ndim as int, shape@, chunkshape@, blockshape@, i)
            &&& r.item_chunk_strides@[i] == stride_dims(3, ndim as int, shape@, chunkshape@, blockshape@, i)
            &&& r.item_block_strides@[i] == stride_dims(4, ndim as int, shape@, chunkshape@, blockshape@, i)
            &&& r.block_chunk_strides@[i] == stride_dims(5, ndim as int, shape@, chunkshape@, blockshape@, i)
            &&& r.chunk_array_strides@[i] == stride_dims(6, ndim as int, shape@, chunkshape@, blockshape@, i)
        },
        forall|i: int| ndim <= i < 16 ==> {
            &&& r.item_array_strides@[i] == 0 && r.item_extchunk_strides@[i] == 0
            &&& r.item_chunk_strides@[i] == 0 && r.item_block_strides@[i] == 0
            &&& r.block_chunk_strides@[i] == 0 && r.chunk_array_strides@[i] == 0
        },
{
    let n = ndim as usize;
    let ghost nd = ndim as int;
    let mut sh = [1i64; 16];
    let mut ch = [1i32; 16];
    let mut bl = [1i32; 16];
    let mut ext = [1i64; 16];
    let mut extch = [1i32; 16];
    let mut nitems: i64 = 1;
    let mut extnitems: i64 = 1;
    let mut extchunknitems: i64 = 1;
    let mut chunknitems: i32 = 1;
    let mut blocknitems: i32 = 1;
    let mut i: usize = 0;
    while i < 16
        invariant
            i <= 16, n == nd, shape_computable(nd, shape@, chunkshape@, blockshape@),
            forall|m: int| 0 <= m < i ==> {
                &&& sh@[m] == dim_at64(nd, shape@, m)
                &&& ch@[m] == dim_at32(nd, chunkshape@, m)
                &&& bl@[m] == dim_at32(nd, blockshape@, m)
                &&& ext@[m] == extshape_at(nd, shape@, chunkshape@, m)
                &&& extch@[m] == extchunk_at(nd, shape@, chunkshape@, blockshape@, m)
            },
            forall|m: int| i <= m < 16 ==> sh@[m] == 1 && ch@[m] == 1 && bl@[m] == 1 && ext@[m] == 1 && extch@[m] == 1,
            nitems == prod_dims(0, nd, shape@, chunkshape@, blockshape@, i as int),
            extnitems == prod_dims(1, nd, shape@, chunkshape@, blockshape@, i as int),
            extchunknitems == prod_dims(2, nd, shape@, chunkshape@, blockshape@, i as int),
            chunknitems == prod_dims(3, nd, shape@, chunkshape@, blockshape@, i as int),
            blocknitems == prod_dims(4, nd, shape@, chunkshape@, blockshape@, i as int),
        decreases 16 - i,
    {
        if i < n {
            let s = shape[i];
            let c = chunkshape[i];
            let b = blockshape[i];
            sh[i] = s;
            ch[i] = c;
            bl[i] = b;
            if s != 0 {
                let rem = trunc_rem(s, c as i64);
                ext[i] = if rem == 0 { s } else { s + c as i64 - rem };
                let crem = trunc_rem(c as i64, b as i64);
                extch[i] = if crem == 0 { c } else { (c as i64 + b as i64 - crem) as i32 };
            } else {
                extch[i] = c;
                ext[i] = 0;
            }
        }
        proof {
            assert(fits64(prod_dims(0, nd, shape@, chunkshape@, blockshape@, i + 1)));
        }
        nitems = nitems * sh[i];
        extnitems = extnitems * ext[i];
        extchunknitems = extchunknitems * (extch[i] as i64);
        chunknitems = chunknitems * ch[i];
        blocknitems = blocknitems * bl[i];
        i += 1;
    }
    let mut ias = [0i64; 16];
    let mut iecs = [0i64; 16];
    let mut ics = [0i64; 16];
    let mut ibs = [0i64; 16];
    let mut bcs = [0i64; 16];
    let mut cas = [0i64; 16];
    ias[n - 1] = 1;
    iecs[n - 1] = 1;
    ics[n - 1] = 1;
    ibs[n - 1] = 1;
    bcs[n - 1] = 1;
    cas[n - 1] = 1;
    let mut j: usize = n - 1;
    while j > 0
        invariant
            j < n, n == nd, 1 <= nd <= 16, shape_computable(nd, shape@, chunkshape@, blockshape@),
            forall|m: int| 0 <= m < 16 ==> {
                &&& sh@[m] == dim_at64(nd, shape@, m)
                &&& ch@[m] == dim_at32(nd, chunkshape@, m)
                &&& bl@[m] == dim_at32(nd, blockshape@, m)
                &&& ext@[m] == extshape_at(nd, shape@, chunkshape@, m)
                &&& extch@[m] == extchunk_at(nd, shape@, chunkshape@, blockshape@, m)
            },
            forall|m: int| j <= m < n ==> {
                &&& ias@[m] == stride_dims(0, nd, shape@, chunkshape@, blockshape@, m)
                &&& iecs@[m] == stride_dims(2, nd, shape@, chunkshape@, blockshape@, m)
                &&& ics@[m] == stride_dims(3, nd, shape@, chunkshape@, blockshape@, m)
                &&& ibs@[m] == stride_dims(4, nd, shape@, chunkshape@, blockshape@, m)
                &&& bcs@[m] == stride_dims(5, nd, shape@, chunkshape@, blockshape@, m)
                &&& cas@[m] == stride_dims(6, nd, shape@, chunkshape@, blockshape@, m)
            },
            forall|m: int| n <= m < 16 ==> ias@[m] == 0 && iecs@[m] == 0 && ics@[m] == 0 && ibs@[m] == 0
                && bcs@[m] == 0 && cas@[m] == 0,
        decreases j,
    {
        j -= 1;
        if shape[j + 1] != 0 {
            proof {
                let jj = j as int;
                assert(shape@[jj + 1] != 0);
            }
            ias[j] = ias[j + 1] * sh[j + 1];
            iecs[j] = iecs[j + 1] * (extch[j + 1] as i64);
            ics[j] = ics[j + 1] * (ch[j + 1] as i64);
            ibs[j] = ibs[j + 1] * (bl[j + 1] as i64);
            bcs[j] = bcs[j + 1] * trunc_div(extch[j + 1] as i64, bl[j + 1] as i64);
            cas[j] = cas[j + 1] * trunc_div(ext[j + 1], ch[j + 1] as i64);
        } else {
            ias[j] = 0;
            iecs[j] = 0;
            ics[j] = 0;
            ibs[j] = 0;
            bcs[j] = 0;
            cas[j] = 0;
        }
    }
    B2ndShape {
        ndim,
        shape: sh,
        chunkshape: ch,
        blockshape: bl,
        extshape: ext,
        extchunkshape: extch,
        nitems,
        chunknitems,
        extnitems,
        blocknitems,
        extchunknitems,
        item_array_strides: ias,
        item_extchunk_strides: iecs,
        item_chunk_strides: ics,
        item_block_strides: ibs,
        block_chunk_strides: bcs,
        chunk_array_strides: cas,
    }
}

} // verus!
