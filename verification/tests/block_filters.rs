use blusc::blosc::byteorder::is_little_endian;
use blusc::filters::delta::{delta_decoder, delta_encoder};
use blusc::filters::trunc_prec::{truncate_precision, truncate_precision32, truncate_precision64};
use blusc::filters::dispatch::{
    blosc2_bitshuffle, blosc2_bitunshuffle, blosc2_shuffle, blosc2_unshuffle, shuffle_generic, unshuffle_generic,
};

#[test]
fn shuffle_dispatch_groups_bytes() {
    let src: Vec<u8> = (0u8..10).collect();
    let mut dest = vec![0xaau8; 12];
    assert_eq!(blosc2_shuffle(4, 10, &src, &mut dest), 10);
    assert_eq!(dest, vec![0, 4, 1, 5, 2, 6, 3, 7, 8, 9, 0xaa, 0xaa]);
    let mut back = vec![0u8; 10];
    assert_eq!(blosc2_unshuffle(4, 10, &dest, &mut back), 10);
    assert_eq!(back, src);
}

#[test]
fn shuffle_dispatch_rejects_parameters() {
    let src = vec![1u8; 16];
    let mut dest = vec![7u8; 16];
    assert_eq!(blosc2_shuffle(0, 16, &src, &mut dest), -12);
    assert_eq!(blosc2_shuffle(257, 16, &src, &mut dest), -12);
    assert_eq!(blosc2_shuffle(4, -1, &src, &mut dest), -12);
    assert_eq!(blosc2_unshuffle(0, 16, &src, &mut dest), -12);
    assert_eq!(blosc2_bitshuffle(-4, 16, &src, &mut dest), -12);
    assert_eq!(blosc2_bitshuffle(300, 16, &src, &mut dest), -12);
    assert_eq!(dest, vec![7u8; 16]);
}

#[test]
fn generic_shuffle_roundtrip() {
    let src: Vec<u8> = (0u8..23).collect();
    let mut shuffled = vec![0u8; 23];
    let mut back = vec![0u8; 23];
    shuffle_generic(3, 23, &src, &mut shuffled);
    assert_eq!(&shuffled[..7], &[0, 3, 6, 9, 12, 15, 18]);
    assert_eq!(&shuffled[21..], &[21, 22]);
    unshuffle_generic(3, 23, &shuffled, &mut back);
    assert_eq!(back, src);
}

#[test]
fn bitshuffle_dispatch_known_planes() {
    let src = vec![0xffu8, 0, 0, 0, 0, 0, 0, 0];
    let mut dest = vec![0u8; 8];
    assert_eq!(blosc2_bitshuffle(1, 8, &src, &mut dest), 8);
    assert_eq!(dest, vec![1u8; 8]);
}

#[test]
fn bitshuffle_dispatch_roundtrip_with_leftovers() {
    for &(ts, bs) in &[(1i32, 17i32), (4, 100), (8, 1000), (3, 77), (2, 6)] {
        let src: Vec<u8> = (0..bs).map(|i| (i * 37 % 251) as u8).collect();
        let mut shuffled = vec![0u8; bs as usize];
        let mut back = vec![0u8; bs as usize];
        assert_eq!(blosc2_bitshuffle(ts, bs, &src, &mut shuffled), bs);
        let covered = ((bs / ts) / 8 * 8 * ts) as usize;
        assert_eq!(&shuffled[covered..], &src[covered..]);
        assert_eq!(blosc2_bitunshuffle(ts, bs, &shuffled, &mut back), bs);
        assert_eq!(back, src);
    }
}

#[test]
fn bitunshuffle_negative_typesize_copies() {
    let src = vec![9u8, 8, 7];
    let mut dest = vec![0u8; 4];
    assert_eq!(blosc2_bitunshuffle(-5, 3, &src, &mut dest), 3);
    assert_eq!(dest, vec![9, 8, 7, 0]);
}

#[test]
fn delta_reference_block_roundtrip() {
    let src = vec![1u8, 2, 3, 4];
    let mut dest = vec![0u8; 4];
    delta_encoder(&src, 0, 4, 1, &src, &mut dest);
    assert_eq!(dest, vec![1, 3, 1, 7]);
    delta_decoder(&src, 0, 4, 1, &mut dest);
    assert_eq!(dest, src);
}

#[test]
fn delta_other_block_uses_same_place() {
    let dref = vec![0xf0u8, 0x0f, 0xff, 0x00, 0x55];
    let src = vec![0x01u8, 0x02, 0x03, 0x04, 0x05];
    let mut dest = vec![0xeeu8; 5];
    delta_encoder(&dref, 1, 5, 2, &src, &mut dest);
    assert_eq!(dest, vec![0xf1, 0x0d, 0xfc, 0x04, 0xee]);
    delta_decoder(&dref, 1, 5, 2, &mut dest);
    assert_eq!(&dest[..4], &src[..4]);
    assert_eq!(dest[4], 0xee);
}

#[test]
fn delta_widths_for_odd_typesizes() {
    // typesize 16 works in 8-byte elements; typesize 3 in single bytes
    let src: Vec<u8> = (1u8..=16).collect();
    let mut dest = vec![0u8; 16];
    delta_encoder(&src, 0, 16, 16, &src, &mut dest);
    assert_eq!(&dest[..8], &src[..8]);
    assert_eq!(dest[8], 9 ^ 1);
    let mut dest3 = vec![0u8; 16];
    delta_encoder(&src, 0, 16, 3, &src, &mut dest3);
    assert_eq!(dest3[0], 1);
    assert_eq!(dest3[1], 2 ^ 1);
    delta_decoder(&src, 0, 16, 3, &mut dest3);
    assert_eq!(dest3, src);
}

#[test]
fn truncate_precision_words() {
    let src = [0x7fffffffi32, -1, 12345];
    let mut dest = [0i32; 3];
    assert_eq!(truncate_precision32(10, 2, &src, &mut dest), 0);
    assert_eq!(dest, [0x7fffe000, -8192, 0]);
    assert_eq!(truncate_precision32(0, 2, &src, &mut dest), -1);
    assert_eq!(truncate_precision32(24, 2, &src, &mut dest), -1);
    assert_eq!(truncate_precision32(-23, 2, &src, &mut dest), -1);
    assert_eq!(truncate_precision32(-22, 1, &src, &mut dest), 0);
    assert_eq!(dest[0], 0x7fc00000);
    let src64 = [-1i64, 0x0123456789abcdef];
    let mut d64 = [0i64; 2];
    assert_eq!(truncate_precision64(52, 2, &src64, &mut d64), 0);
    assert_eq!(d64, src64);
    assert_eq!(truncate_precision64(-4, 2, &src64, &mut d64), 0);
    assert_eq!(d64, [-16, 0x0123456789abcde0]);
    assert_eq!(truncate_precision64(53, 2, &src64, &mut d64), -1);
}

#[test]
fn truncate_precision_bytes() {
    let mut src = Vec::new();
    src.extend_from_slice(&0x7fffffffi32.to_ne_bytes());
    src.extend_from_slice(&(-1i32).to_ne_bytes());
    src.push(0xab);
    let mut dest = vec![0x55u8; 9];
    assert_eq!(truncate_precision(10, 4, 9, &src, &mut dest), 0);
    let mut expected = Vec::new();
    expected.extend_from_slice(&0x7fffe000i32.to_ne_bytes());
    expected.extend_from_slice(&(-8192i32).to_ne_bytes());
    expected.push(0x55);
    assert_eq!(dest, expected);
    assert!(is_little_endian() == (dest[0] == 0x00 && dest[1] == 0xe0));
    let mut d2 = vec![0u8; 9];
    assert_eq!(truncate_precision(10, 2, 9, &src, &mut d2), -1);
    assert_eq!(d2, vec![0u8; 9]);
}
