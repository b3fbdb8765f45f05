//! Byte-order helpers: copies that put a value of 1, 2, 4 or 8 bytes into little- or big-endian
//! order, and 32-bit reads and writes that are little-endian on every machine.
use vstd::prelude::*;
use crate::codecs::blosclz::u32_le_at;
use crate::internal::writer::le32_bytes;

verus! {

/// `i32::to_ne_bytes`: the four bytes of `x` in the byte order of the machine. The machine is
/// little-endian or big-endian, so the bytes are those of one of the two orders; which one is
/// a property of the machine and is not stated.
#[verifier::external_body]
fn native_bytes(x: i32) -> (r: [u8; 4])
    ensures
        r@ == le32_bytes(x as u32) || r@ == le32_bytes(x as u32).reverse(),
{
    x.to_ne_bytes()
}

/// Whether the machine stores the low byte of a word first.
pub fn is_little_endian() -> bool {
    let p = native_bytes(1);
    p[0] == 1
}

/// The first `size` bytes of `pa` in reverse order, for the sizes of 1, 2, 4 and 8 bytes; for
/// another size up to eight, `size` zero bytes.
pub open spec fn swapped(pa: Seq<u8>, size: nat) -> Seq<u8> {
    if size == 1 || size == 2 || size == 4 || size == 8 {
        pa.subrange(0, size as int).reverse()
    } else {
        Seq::new(size, |i: int| 0u8)
    }
}

/// Writes the first `size` bytes of `pa` into `dest`, as they are or, where `swap`, as
/// [`swapped`] gives them.
pub fn endian_store(swap: bool, dest: &mut [u8], pa: &[u8], size: usize)
    requires
        size <= 8,
        size <= pa.len(),
        size <= old(dest).len(),
    ensures
        !swap ==> final(dest)@ == pa@.subrange(0, size as int) + old(dest)@.skip(size as int),
        swap ==> final(dest)@ == swapped(pa@, size as nat) + old(dest)@.skip(size as int),
{
    let mut pa2 = [0u8; 8];
    if !swap {
        pa2[0] = 0;
    } else if size == 8 {
        pa2[0] = pa[7];
        pa2[1] = pa[6];
        pa2[2] = pa[5];
        pa2[3] = pa[4];
        pa2[4] = pa[3];
        pa2[5] = pa[2];
        pa2[6] = pa[1];
        pa2[7] = pa[0];
    } else if size == 4 {
        pa2[0] = pa[3];
        pa2[1] = pa[2];
        pa2[2] = pa[1];
        pa2[3] = pa[0];
    } else if size == 2 {
        pa2[0] = pa[1];
        pa2[1] = pa[0];
    } else if size == 1 {
        pa2[0] = pa[0];
    }
    let ghost want = if swap { swapped(pa@, size as nat) } else { pa@.subrange(0, size as int) };
    assert(forall|i: int| 0 <= i < size ==> #[trigger] want[i] == (if swap { pa2@[i] } else { pa@[i] }));
    let mut k: usize = 0;
    while k < size
        invariant
            k <= size, size <= 8, size <= pa.len(), size <= dest.len(),
            dest.len() == old(dest).len(),
            want.len() == size,
            forall|i: int| 0 <= i < size ==> #[trigger] want[i] == (if swap { pa2@[i] } else { pa@[i] }),
            forall|i: int| 0 <= i < k ==> dest@[i] == want[i],
            forall|i: int| k <= i < dest.len() ==> dest@[i] == old(dest)@[i],
        decreases size - k,
    {
        if swap {
            dest[k] = pa2[k];
        } else {
            dest[k] = pa[k];
        }
        k += 1;
    }
    assert(dest@ =~= want + old(dest)@.skip(size as int));
}

/// Copies `size` bytes from `pa` to `dest`, reversing them where the order of the machine is
/// not the one asked for (`little`).
fn endian_handler(little: bool, dest: &mut [u8], pa: &[u8], size: usize)
    requires
        size <= 8,
        size <= pa.len(),
        size <= old(dest).len(),
    ensures
        final(dest)@ == pa@.subrange(0, size as int) + old(dest)@.skip(size as int)
            || final(dest)@ == swapped(pa@, size as nat) + old(dest)@.skip(size as int),
{
    let little_endian = is_little_endian();
    endian_store(little_endian != little, dest, pa, size);
}

/// Stores `size` bytes of a value in little-endian order: a copy on a little-endian machine,
/// the bytes reversed on a big-endian one.
pub fn to_little(dest: &mut [u8], src: &[u8], itemsize: usize)
    requires
        itemsize <= 8,
        itemsize <= src.len(),
        itemsize <= old(dest).len(),
    ensures
        final(dest)@ == src@.subrange(0, itemsize as int) + old(dest)@.skip(itemsize as int)
            || final(dest)@ == swapped(src@, itemsize as nat) + old(dest)@.skip(itemsize as int),
{
    endian_handler(true, dest, src, itemsize);
}

/// Reads `size` bytes of a little-endian value into the order of the machine.
pub fn from_little(dest: &mut [u8], src: &[u8], itemsize: usize)
    requires
        itemsize <= 8,
        itemsize <= src.len(),
        itemsize <= old(dest).len(),
    ensures
        final(dest)@ == src@.subrange(0, itemsize as int) + old(dest)@.skip(itemsize as int)
            || final(dest)@ == swapped(src@, itemsize as nat) + old(dest)@.skip(itemsize as int),
{
    endian_handler(true, dest, src, itemsize);
}

/// Stores `size` bytes of a value in big-endian order.
pub fn to_big(dest: &mut [u8], src: &[u8], itemsize: usize)
    requires
        itemsize <= 8,
        itemsize <= src.len(),
        itemsize <= old(dest).len(),
    ensures
        final(dest)@ == src@.subrange(0, itemsize as int) + old(dest)@.skip(itemsize as int)
            || final(dest)@ == swapped(src@, itemsize as nat) + old(dest)@.skip(itemsize as int),
{
    endian_handler(false, dest, src, itemsize);
}

/// Reads `size` bytes of a big-endian value into the order of the machine.
pub fn from_big(dest: &mut [u8], src: &[u8], itemsize: usize)
    requires
        itemsize <= 8,
        itemsize <= src.len(),
        itemsize <= old(dest).len(),
    ensures
        final(dest)@ == src@.subrange(0, itemsize as int) + old(dest)@.skip(itemsize as int)
            || final(dest)@ == swapped(src@, itemsize as nat) + old(dest)@.skip(itemsize as int),
{
    endian_handler(false, dest, src, itemsize);
}

/// Swapping a value of 1, 2, 4 or 8 bytes twice gives it back.
pub proof fn lemma_swapped_twice(pa: Seq<u8>, size: nat)
    requires
        size == 1 || size == 2 || size == 4 || size == 8,
        size <= pa.len(),
    ensures
        swapped(swapped(pa, size), size) == pa.subrange(0, size as int),
{
    let s = swapped(pa, size);
    assert(s.subrange(0, size as int) =~= s);
    assert(s.reverse() =~= pa.subrange(0, size as int));
}

/// The 32-bit word with the bytes of `x` in reverse order.
pub open spec fn swap32(x: u32) -> u32 {
    ((x & 0xffu32) << 24u32) | ((x & 0xff00u32) << 8u32) | ((x & 0xff0000u32) >> 8u32)
        | ((x & 0xff000000u32) >> 24u32)
}

/// Reverses the byte order of a 32-bit integer.
pub fn bswap32_(a: i32) -> (r: i32)
    ensures
        r as u32 == swap32(a as u32),
{
    let x = a as u32;
    let y = ((x & 0xffu32) << 24u32) | ((x & 0xff00u32) << 8u32) | ((x & 0xff0000u32) >> 8u32)
        | ((x & 0xff000000u32) >> 24u32);
    assert(y as i32 as u32 == y) by (bit_vector);
    y as i32
}

/// The signed 32-bit value of the little-endian word at `pos`.
pub open spec fn i32_le_at(s: Seq<u8>, pos: int) -> i32 {
    u32_le_at(s, pos) as u32 as i32
}

/// Reads the 32-bit integer stored little-endian in the first four bytes of `pa`: read
/// directly on a little-endian machine, read big-endian and byte-swapped on another.
pub fn sw32_(pa: &[u8]) -> (r: i32)
    requires
        4 <= pa.len(),
    ensures
        r == i32_le_at(pa@, 0),
{
    let b0 = pa[0] as u32;
    let b1 = pa[1] as u32;
    let b2 = pa[2] as u32;
    let b3 = pa[3] as u32;
    let le = b0 | (b1 << 8u32) | (b2 << 16u32) | (b3 << 24u32);
    assert(le == b0 + b1 * 256 + b2 * 65536 + b3 * 16777216) by (bit_vector)
        requires b0 < 256, b1 < 256, b2 < 256, b3 < 256, le == b0 | (b1 << 8u32) | (b2 << 16u32) | (b3 << 24u32);
    if is_little_endian() {
        le as i32
    } else {
        let be = (b0 << 24u32) | (b1 << 16u32) | (b2 << 8u32) | b3;
        assert(swap32(be) == le) by (bit_vector)
            requires b0 < 256, b1 < 256, b2 < 256, b3 < 256, le == b0 | (b1 << 8u32) | (b2 << 16u32) | (b3 << 24u32),
                be == (b0 << 24u32) | (b1 << 16u32) | (b2 << 8u32) | b3;
        let r = bswap32_(be as i32);
        assert(be as i32 as u32 == be) by (bit_vector);
        assert(r as u32 as i32 == r) by (bit_vector);
        r
    }
}

/// Writes `a` little-endian into the first four bytes of `dest`: directly on a little-endian
/// machine, from the big-endian bytes in reverse on another.
pub fn _sw32(dest: &mut [u8], a: i32)
    requires
        4 <= old(dest).len(),
    ensures
        final(dest)@ == le32_bytes(a as u32) + old(dest)@.skip(4),
{
    let x = a as u32;
    if is_little_endian() {
        dest[0] = (x % 256) as u8;
        dest[1] = ((x / 256) % 256) as u8;
        dest[2] = ((x / 65536) % 256) as u8;
        dest[3] = (x / 16777216) as u8;
    } else {
        let be: [u8; 4] = [(x / 16777216) as u8, ((x / 65536) % 256) as u8, ((x / 256) % 256) as u8, (x % 256) as u8];
        dest[0] = be[3];
        dest[1] = be[2];
        dest[2] = be[1];
        dest[3] = be[0];
    }
    assert(dest@ =~= le32_bytes(a as u32) + old(dest)@.skip(4));
}

} // verus!
