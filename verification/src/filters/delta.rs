//! The delta filter: each element is XORed with an element of a reference block. In the
//! reference block itself (offset zero) an element is XORed with the reference element before
//! it; in the other blocks, with the reference element at the same place. Elements are 1, 2, 4
//! or 8 bytes wide, so the XOR of two elements is the XOR of their bytes.
use vstd::prelude::*;
use crate::arith::lemma_div_mul_le;

verus! {

/// The element width the filter works in for a type size.
pub open spec fn delta_width(typesize: i32) -> nat {
    if typesize == 1 || typesize == 2 || typesize == 4 || typesize == 8 {
        typesize as nat
    } else if typesize % 8 == 0 {
        8
    } else {
        1
    }
}

/// The bytes that the filter covers: the whole elements of `nbytes` bytes.
pub open spec fn delta_span(nbytes: nat, width: nat) -> nat {
    (nbytes / width) * width
}

/// The bytes that the encoder writes: the whole elements, and in the reference block at least
/// the first element, which is copied from the reference.
pub open spec fn delta_cover(reference: bool, nbytes: nat, width: nat) -> nat {
    if reference && nbytes < width { width } else { delta_span(nbytes, width) }
}

/// What [`delta_encoder`] leaves in `old`.
pub open spec fn delta_encoded(dref: Seq<u8>, src: Seq<u8>, reference: bool, nbytes: nat, width: nat,
    old: Seq<u8>) -> Seq<u8>
{
    Seq::new(old.len(), |i: int|
        if i < delta_cover(reference, nbytes, width) {
            if reference {
                if i < width { dref[i] } else { src[i] ^ dref[i - width] }
            } else {
                src[i] ^ dref[i]
            }
        } else {
            old[i]
        })
}

/// What [`delta_decoder`] makes of `dest`.
pub open spec fn delta_decoded(dref: Seq<u8>, dest: Seq<u8>, reference: bool, nbytes: nat, width: nat) -> Seq<u8> {
    Seq::new(dest.len(), |i: int|
        if i < delta_span(nbytes, width) {
            if reference {
                if i < width { dest[i] } else { dest[i] ^ dref[i - width] }
            } else {
                dest[i] ^ dref[i]
            }
        } else {
            dest[i]
        })
}

fn width_of(typesize: i32) -> (w: usize)
    ensures
        w == delta_width(typesize),
        1 <= w <= 8,
{
    if typesize == 1 || typesize == 2 || typesize == 4 || typesize == 8 {
        typesize as usize
    } else if typesize % 8 == 0 {
        8
    } else {
        1
    }
}

/// Applies the delta filter to the first `nbytes` bytes of `src`, against `dref`, into `dest`.
/// In the reference block (`offset == 0`) the first element is copied from `dref`.
pub fn delta_encoder(dref: &[u8], offset: i32, nbytes: i32, typesize: i32, src: &[u8], dest: &mut [u8])
    requires
        nbytes >= 0,
        offset == 0 ==> nbytes >= delta_width(typesize) || delta_width(typesize) == 1,
        src.len() >= delta_span(nbytes as nat, delta_width(typesize)),
        dref.len() >= delta_cover(offset == 0, nbytes as nat, delta_width(typesize)),
        old(dest).len() >= delta_cover(offset == 0, nbytes as nat, delta_width(typesize)),
    ensures
        final(dest)@ == delta_encoded(dref@, src@, offset == 0, nbytes as nat,
            delta_width(typesize), old(dest)@),
{
    let w = width_of(typesize);
    let n = nbytes as usize;
    let span = n / w * w;
    proof { lemma_div_mul_le(n as int, w as int); }
    let ghost reference = offset == 0;
    let ghost spec_out = delta_encoded(dref@, src@, reference, n as nat, w as nat, old(dest)@);
    let mut i: usize = 0;
    if offset == 0 {
        proof {
            if n >= w {
                vstd::arithmetic::div_mod::lemma_div_is_ordered(w as int, n as int, w as int);
                vstd::arithmetic::div_mod::lemma_div_by_multiple(1, w as int);
                assert(span >= w) by (nonlinear_arith) requires span == (n / w) * w, n / w >= 1, w >= 1;
            } else {
                assert(w == 1 && n == 0);
            }
        }
        while i < w
            invariant
                i <= w, w == delta_width(typesize), reference,
                dref.len() >= w, dest.len() >= w, dest.len() == old(dest).len(),
                delta_cover(reference, n as nat, w as nat) >= w,
                spec_out == delta_encoded(dref@, src@, reference, n as nat, w as nat, old(dest)@),
                forall|j: int| 0 <= j < i ==> dest@[j] == spec_out[j],
                forall|j: int| i <= j < dest.len() ==> dest@[j] == old(dest)@[j],
            decreases w - i,
        {
            dest[i] = dref[i];
            i += 1;
        }
        while i < span
            invariant
                w <= i, i <= span || span < w, span == n / w * w, w == delta_width(typesize),
                reference, 1 <= w, span >= w ==> delta_cover(reference, n as nat, w as nat) == span,
                src.len() >= span, dref.len() >= span, dest.len() >= span, dest.len() == old(dest).len(),
                spec_out == delta_encoded(dref@, src@, reference, n as nat, w as nat, old(dest)@),
                forall|j: int| 0 <= j < i ==> dest@[j] == spec_out[j],
                forall|j: int| i <= j < dest.len() ==> dest@[j] == old(dest)@[j],
            decreases span - i,
        {
            dest[i] = src[i] ^ dref[i - w];
            i += 1;
        }
    } else {
        while i < span
            invariant
                i <= span, span == n / w * w, w == delta_width(typesize), !reference, 1 <= w,
                src.len() >= span, dref.len() >= span, dest.len() >= span, dest.len() == old(dest).len(),
                spec_out == delta_encoded(dref@, src@, reference, n as nat, w as nat, old(dest)@),
                forall|j: int| 0 <= j < i ==> dest@[j] == spec_out[j],
                forall|j: int| i <= j < dest.len() ==> dest@[j] == old(dest)@[j],
            decreases span - i,
        {
            dest[i] = src[i] ^ dref[i];
            i += 1;
        }
    }
    assert(dest@ =~= spec_out);
}

/// Undoes the delta filter in place on the first `nbytes` bytes of `dest`, against `dref`.
pub fn delta_decoder(dref: &[u8], offset: i32, nbytes: i32, typesize: i32, dest: &mut [u8])
    requires
        nbytes >= 0,
        dref.len() >= delta_span(nbytes as nat, delta_width(typesize)),
        old(dest).len() >= delta_span(nbytes as nat, delta_width(typesize)),
    ensures
        final(dest)@ == delta_decoded(dref@, old(dest)@, offset == 0, nbytes as nat,
            delta_width(typesize)),
{
    let w = width_of(typesize);
    let n = nbytes as usize;
    let span = n / w * w;
    proof { lemma_div_mul_le(n as int, w as int); }
    let ghost reference = offset == 0;
    let ghost spec_out = delta_decoded(dref@, old(dest)@, reference, n as nat, w as nat);
    let mut i: usize = if offset == 0 { w } else { 0 };
    while i < span
        invariant
            reference ==> w <= i, !reference ==> 0 <= i,
            i <= span || (reference && span < w && i == w),
            span == n / w * w, w == delta_width(typesize), 1 <= w,
            reference == (offset == 0),
            dref.len() >= span, dest.len() >= span, dest.len() == old(dest).len(),
            spec_out == delta_decoded(dref@, old(dest)@, reference, n as nat, w as nat),
            forall|j: int| 0 <= j < i && j < span ==> dest@[j] == spec_out[j],
            forall|j: int| i <= j < dest.len() ==> dest@[j] == old(dest)@[j],
            forall|j: int| 0 <= j < i && j >= span ==> dest@[j] == old(dest)@[j],
        decreases span - i,
    {
        if offset == 0 {
            dest[i] = dest[i] ^ dref[i - w];
        } else {
            dest[i] = dest[i] ^ dref[i];
        }
        i += 1;
    }
    assert(dest@ =~= spec_out);
}

/// Decoding what the encoder wrote gives back the covered bytes of the source, provided that
/// in the reference block the first element of the reference is that of the source.
pub proof fn lemma_delta_roundtrip(dref: Seq<u8>, src: Seq<u8>, reference: bool, nbytes: nat, typesize: i32,
    old: Seq<u8>)
    requires
        src.len() >= delta_span(nbytes, delta_width(typesize)),
        dref.len() >= delta_cover(reference, nbytes, delta_width(typesize)),
        old.len() >= delta_cover(reference, nbytes, delta_width(typesize)),
        reference ==> nbytes >= delta_width(typesize),
        reference ==> dref.subrange(0, delta_width(typesize) as int) == src.subrange(0, delta_width(typesize) as int),
    ensures
        ({
            let w = delta_width(typesize);
            let span = delta_span(nbytes, w) as int;
            delta_decoded(dref, delta_encoded(dref, src, reference, nbytes, w, old), reference, nbytes, w)
                .subrange(0, span) == src.subrange(0, span)
        }),
{
    let w = delta_width(typesize);
    let span = delta_span(nbytes, w) as int;
    lemma_div_mul_le(nbytes as int, w as int);
    if reference {
        vstd::arithmetic::div_mod::lemma_div_is_ordered(w as int, nbytes as int, w as int);
        vstd::arithmetic::div_mod::lemma_div_by_multiple(1, w as int);
        assert(span >= w) by (nonlinear_arith) requires span == (nbytes / w) * w, nbytes / w >= 1, w >= 1;
    }
    let e = delta_encoded(dref, src, reference, nbytes, w, old);
    let d = delta_decoded(dref, e, reference, nbytes, w);
    assert forall|i: int| 0 <= i < span implies #[trigger] d[i] == src[i] by {
        if reference && i < w {
            assert(dref.subrange(0, w as int)[i] == src.subrange(0, w as int)[i]);
        } else {
            let a = src[i];
            let b = if reference { dref[i - w] } else { dref[i] };
            assert((a ^ b) ^ b == a) by (bit_vector);
        }
    }
    assert(d.subrange(0, span) =~= src.subrange(0, span));
}

} // verus!
