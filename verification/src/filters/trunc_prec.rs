//! The precision-truncation filter: clears the low bits of the mantissa of 32-bit or 64-bit
//! floating-point items, working on their bit patterns as integers. Positive `prec_bits` keep
//! that many mantissa bits; negative ones clear that many.
use vstd::prelude::*;
use crate::blosc::byteorder::is_little_endian;

verus! {

/// Mantissa bits of a 32-bit float.
pub const BITS_MANTISSA_FLOAT: i8 = 23;
/// Mantissa bits of a 64-bit float.
pub const BITS_MANTISSA_DOUBLE: i8 = 52;

/// Whether `prec_bits` is accepted for a mantissa of `m` bits: it keeps at least one bit and
/// clears fewer than `m`.
pub open spec fn prec_ok(prec_bits: i8, m: int) -> bool {
    (0 < prec_bits <= m) || (-m < prec_bits < 0)
}

/// How many low bits `prec_bits` clears in a mantissa of `m` bits.
pub open spec fn zeroed_bits(prec_bits: i8, m: int) -> int {
    if prec_bits >= 0 { m - prec_bits } else { -prec_bits }
}

/// The 64-bit mask that clears the low `zb` bits.
pub open spec fn keep_mask(zb: u64) -> u64 {
    !(((1u64 << zb) - 1u64) as u64)
}

fn keep_mask_of(zb: u64) -> (r: u64)
    requires
        zb < 64,
    ensures
        r == keep_mask(zb),
{
    assert(1u64 << zb >= 1u64) by (bit_vector) requires zb < 64;
    !((1u64 << zb) - 1u64)
}

fn checked_zeroed_bits(prec_bits: i8, m: i8) -> (r: Option<u64>)
    requires
        prec_bits != i8::MIN,
        m == 23 || m == 52,
    ensures
        r == if prec_ok(prec_bits, m as int) { Some(zeroed_bits(prec_bits, m as int) as u64) } else { None },
{
    let a: i8 = if prec_bits < 0 { -prec_bits } else { prec_bits };
    if a > m {
        return None;
    }
    let zb: i8 = if prec_bits >= 0 { m - prec_bits } else { -prec_bits };
    if zb >= m {
        return None;
    }
    Some(zb as u64)
}

/// Clears the low bits of the mantissa of `nelems` 32-bit items; `-1` (and nothing written)
/// where `prec_bits` is out of range.
pub fn truncate_precision32(prec_bits: i8, nelems: i32, src: &[i32], dest: &mut [i32]) -> (r: i32)
    requires
        prec_bits != i8::MIN,
        prec_ok(prec_bits, 23) ==> 0 <= nelems && nelems <= src.len() && nelems <= old(dest).len(),
    ensures
        !prec_ok(prec_bits, 23) ==> r == -1 && final(dest)@ == old(dest)@,
        prec_ok(prec_bits, 23) ==> r == 0 && final(dest)@ == Seq::new(old(dest)@.len(), |i: int|
            if i < nelems {
                ((src@[i] as u32) & (keep_mask(zeroed_bits(prec_bits, 23) as u64) as u32)) as i32
            } else {
                old(dest)@[i]
            }),
{
    let zb = match checked_zeroed_bits(prec_bits, BITS_MANTISSA_FLOAT) {
        Some(z) => z,
        None => return -1,
    };
    let mask = keep_mask_of(zb) as u32;
    let n = nelems as usize;
    let mut i: usize = 0;
    while i < n
        invariant
            i <= n, n == nelems, n <= src.len(), n <= dest.len(), dest.len() == old(dest).len(),
            mask == keep_mask(zb) as u32, zb == zeroed_bits(prec_bits, 23),
            forall|j: int| 0 <= j < i ==> dest@[j] == ((src@[j] as u32) & mask) as i32,
            forall|j: int| i <= j < dest.len() ==> dest@[j] == old(dest)@[j],
        decreases n - i,
    {
        dest[i] = ((src[i] as u32) & mask) as i32;
        i += 1;
    }
    assert(dest@ =~= Seq::new(old(dest)@.len(), |j: int|
        if j < nelems { ((src@[j] as u32) & (keep_mask(zeroed_bits(prec_bits, 23) as u64) as u32)) as i32 }
        else { old(dest)@[j] }));
    0
}

/// Clears the low bits of the mantissa of `nelems` 64-bit items; `-1` (and nothing written)
/// where `prec_bits` is out of range.
pub fn truncate_precision64(prec_bits: i8, nelems: i32, src: &[i64], dest: &mut [i64]) -> (r: i32)
    requires
        prec_bits != i8::MIN,
        prec_ok(prec_bits, 52) ==> 0 <= nelems && nelems <= src.len() && nelems <= old(dest).len(),
    ensures
        !prec_ok(prec_bits, 52) ==> r == -1 && final(dest)@ == old(dest)@,
        prec_ok(prec_bits, 52) ==> r == 0 && final(dest)@ == Seq::new(old(dest)@.len(), |i: int|
            if i < nelems {
                ((src@[i] as u64) & keep_mask(zeroed_bits(prec_bits, 52) as u64)) as i64
            } else {
                old(dest)@[i]
            }),
{
    let zb = match checked_zeroed_bits(prec_bits, BITS_MANTISSA_DOUBLE) {
        Some(z) => z,
        None => return -1,
    };
    let mask: u64 = keep_mask_of(zb);
    let n = nelems as usize;
    let mut i: usize = 0;
    while i < n
        invariant
            i <= n, n == nelems, n <= src.len(), n <= dest.len(), dest.len() == old(dest).len(),
            mask == keep_mask(zb), zb == zeroed_bits(prec_bits, 52),
            forall|j: int| 0 <= j < i ==> dest@[j] == ((src@[j] as u64) & mask) as i64,
            forall|j: int| i <= j < dest.len() ==> dest@[j] == old(dest)@[j],
        decreases n - i,
    {
        dest[i] = ((src[i] as u64) & mask) as i64;
        i += 1;
    }
    assert(dest@ =~= Seq::new(old(dest)@.len(), |j: int|
        if j < nelems { ((src@[j] as u64) & keep_mask(zeroed_bits(prec_bits, 52) as u64)) as i64 }
        else { old(dest)@[j] }));
    0
}

/// Byte `j` (0 the least significant) of the mask that clears the low `zb` bits.
pub open spec fn mask_byte(zb: u64, j: int) -> u8 {
    ((keep_mask(zb) >> ((8 * j) as u64)) & 0xffu64) as u8
}

/// The item size and the mantissa size that the filter handles for `typesize`.
pub open spec fn mantissa_of(typesize: i32) -> int {
    if typesize == 4 { 23 } else { 52 }
}

/// `src` with the low mantissa bits of its first `nelems` items of `ws` bytes cleared, the
/// items read in the byte order given by `little` (least significant byte first where it
/// holds); bytes past those items are those of `old`.
pub open spec fn truncated_bytes(little: bool, src: Seq<u8>, ws: int, nelems: int, zb: u64, old: Seq<u8>) -> Seq<u8> {
    Seq::new(old.len(), |p: int|
        if p < nelems * ws {
            src[p] & mask_byte(zb, if little { p % ws } else { ws - 1 - p % ws })
        } else {
            old[p]
        })
}

/// [`truncate_precision`] for items stored in the byte order given by `little`.
pub fn truncate_precision_in_order(little: bool, prec_bits: i8, typesize: i32, nbytes: i32, src: &[u8],
    dest: &mut [u8]) -> (r: i32)
    requires
        (typesize == 4 || typesize == 8) ==> prec_bits != i8::MIN,
        (typesize == 4 || typesize == 8) && prec_ok(prec_bits, mantissa_of(typesize)) ==>
            0 <= nbytes && (nbytes / typesize) * typesize <= src.len()
                && (nbytes / typesize) * typesize <= old(dest).len(),
    ensures
        !((typesize == 4 || typesize == 8) && prec_ok(prec_bits, mantissa_of(typesize)))
            ==> r == -1 && final(dest)@ == old(dest)@,
        (typesize == 4 || typesize == 8) && prec_ok(prec_bits, mantissa_of(typesize)) ==> r == 0
            && final(dest)@ == truncated_bytes(little, src@, typesize as int, nbytes / typesize,
                zeroed_bits(prec_bits, mantissa_of(typesize)) as u64, old(dest)@),
{
    if typesize != 4 && typesize != 8 {
        return -1;
    }
    let m: i8 = if typesize == 4 { BITS_MANTISSA_FLOAT } else { BITS_MANTISSA_DOUBLE };
    let zb = match checked_zeroed_bits(prec_bits, m) {
        Some(z) => z,
        None => return -1,
    };
    let ws = typesize as usize;
    let nelems = (nbytes / typesize) as usize;
    let total = nelems * ws;
    let mask: u64 = keep_mask_of(zb);
    let mut p: usize = 0;
    while p < total
        invariant
            p <= total, total == nelems * ws, ws == typesize, ws == 4 || ws == 8,
            nelems == nbytes / typesize,
            total <= src.len(), total <= dest.len(), dest.len() == old(dest).len(),
            mask == keep_mask(zb),
            forall|j: int| 0 <= j < p ==> dest@[j] == truncated_bytes(little, src@, ws as int, nelems as int, zb, old(dest)@)[j],
            forall|j: int| p <= j < dest.len() ==> dest@[j] == old(dest)@[j],
        decreases total - p,
    {
        let k = if little { p % ws } else { ws - 1 - p % ws };
        let b = ((mask >> ((8 * k) as u64)) & 0xffu64) as u8;
        dest[p] = src[p] & b;
        p += 1;
    }
    assert(dest@ =~= truncated_bytes(little, src@, ws as int, nelems as int, zb, old(dest)@));
    0
}

/// Clears the low mantissa bits of the 4-byte (float) or 8-byte (double) items of the first
/// `nbytes` bytes of `src` into `dest`, items taken in the machine's byte order; `-1` (and
/// nothing written) for another item size or a `prec_bits` out of range.
pub fn truncate_precision(prec_bits: i8, typesize: i32, nbytes: i32, src: &[u8], dest: &mut [u8]) -> (r: i32)
    requires
        (typesize == 4 || typesize == 8) ==> prec_bits != i8::MIN,
        (typesize == 4 || typesize == 8) && prec_ok(prec_bits, mantissa_of(typesize)) ==>
            0 <= nbytes && (nbytes / typesize) * typesize <= src.len()
                && (nbytes / typesize) * typesize <= old(dest).len(),
    ensures
        !((typesize == 4 || typesize == 8) && prec_ok(prec_bits, mantissa_of(typesize)))
            ==> r == -1 && final(dest)@ == old(dest)@,
        (typesize == 4 || typesize == 8) && prec_ok(prec_bits, mantissa_of(typesize)) ==> r == 0 && (
            final(dest)@ == truncated_bytes(true, src@, typesize as int, nbytes / typesize,
                zeroed_bits(prec_bits, mantissa_of(typesize)) as u64, old(dest)@)
            || final(dest)@ == truncated_bytes(false, src@, typesize as int, nbytes / typesize,
                zeroed_bits(prec_bits, mantissa_of(typesize)) as u64, old(dest)@)),
{
    let little = is_little_endian();
    truncate_precision_in_order(little, prec_bits, typesize, nbytes, src, dest)
}

} // verus!
