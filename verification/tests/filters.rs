use blusc::filters::{bitshuffle, bitunshuffle, shuffle, unshuffle};

#[test]
fn mod_test_bitshuffle_roundtrip() {
    let size = 128;
    let typesize = 4;
    let blocksize = size * typesize;
    let mut src = vec![0u8; blocksize];
    for i in 0..blocksize {
        src[i] = (i % 255) as u8;
    }
    let mut dest = vec![0u8; blocksize];
    let mut recovered = vec![0u8; blocksize];

    bitshuffle(typesize, blocksize, &src, &mut dest).unwrap();
    bitunshuffle(typesize, blocksize, &dest, &mut recovered).unwrap();

    assert_eq!(src, recovered);
}

#[test]
fn tests_test_bitshuffle_roundtrip() {
    let size = 128;
    let typesize = 4;
    let blocksize = size * typesize;
    let mut src = vec![0u8; blocksize];
    for i in 0..blocksize {
        src[i] = (i % 255) as u8;
    }
    let mut dest = vec![0u8; blocksize];
    let mut recovered = vec![0u8; blocksize];

    bitshuffle(typesize, blocksize, &src, &mut dest).unwrap();
    bitunshuffle(typesize, blocksize, &dest, &mut recovered).unwrap();

    assert_eq!(src, recovered);
}

/// Bit-plane layout: row `b * 8 + k` holds bit `k` of byte `b` of every item, LSB first.
fn bitshuffle_reference(src: &[u8], typesize: usize) -> Vec<u8> {
    let size = src.len() / typesize;
    let mut out = vec![0u8; size * typesize];
    for i in 0..size {
        for b in 0..typesize {
            for k in 0..8 {
                let bit = (src[i * typesize + b] >> k) & 1;
                let row = b * 8 + k;
                let pos = row * size + i;
                out[pos / 8] |= bit << (pos % 8);
            }
        }
    }
    out
}

#[test]
fn bitshuffle_matches_bit_planes() {
    for typesize in [1usize, 2, 3, 4, 8] {
        let size = 64;
        let src: Vec<u8> = (0..size * typesize).map(|i| ((i * 37 + 11) % 256) as u8).collect();
        let mut dest = vec![0u8; src.len()];
        bitshuffle(typesize, src.len(), &src, &mut dest).unwrap();
        assert_eq!(dest, bitshuffle_reference(&src, typesize), "typesize {}", typesize);
    }
}

#[test]
fn bitshuffle_single_set_byte() {
    let src = [0xFFu8, 0, 0, 0, 0, 0, 0, 0];
    let mut dest = [0u8; 8];
    bitshuffle(1, 8, &src, &mut dest).unwrap();
    assert_eq!(dest, [1u8; 8]);
}

#[test]
fn bitshuffle_rejects_partial_group_of_eight() {
    let src = vec![7u8; 40];
    let mut dest = vec![9u8; 40];
    assert_eq!(bitshuffle(4, 40, &src, &mut dest), Err(-80));
    assert_eq!(dest, vec![9u8; 40]);
    assert_eq!(bitunshuffle(4, 40, &src, &mut dest), Err(-80));
    assert_eq!(dest, vec![9u8; 40]);
}

#[test]
fn bitshuffle_leaves_trailing_bytes() {
    // 67 bytes of 8-byte items: 8 whole items, 3 trailing bytes that are not written.
    let src: Vec<u8> = (0..67u32).map(|i| (i * 3) as u8).collect();
    let mut dest = vec![0xEEu8; 67];
    bitshuffle(8, 67, &src, &mut dest).unwrap();
    assert_eq!(&dest[64..], &[0xEE, 0xEE, 0xEE]);
    let mut back = vec![0u8; 67];
    bitunshuffle(8, 67, &dest, &mut back).unwrap();
    assert_eq!(&back[..64], &src[..64]);
    assert_eq!(&back[64..], &[0, 0, 0]);
}

#[test]
fn shuffle_groups_bytes_by_position() {
    let src = [1u8, 2, 3, 4, 5, 6, 7, 8, 9, 10, 11, 12, 13];
    let mut dest = [0u8; 13];
    shuffle(4, 13, &src, &mut dest);
    assert_eq!(dest, [1, 5, 9, 2, 6, 10, 3, 7, 11, 4, 8, 12, 13]);
    let mut back = [0u8; 13];
    unshuffle(4, 13, &dest, &mut back);
    assert_eq!(back, src);
}

#[test]
fn shuffle_leaves_bytes_past_blocksize() {
    let src = [1u8, 2, 3, 4, 5, 6];
    let mut dest = [0u8, 0, 0, 0, 77, 88];
    shuffle(2, 4, &src, &mut dest);
    assert_eq!(dest, [1, 3, 2, 4, 77, 88]);
}

#[test]
fn shuffle_of_one_byte_items_is_identity() {
    let src: Vec<u8> = (0..50u8).collect();
    let mut dest = vec![0u8; 50];
    shuffle(1, 50, &src, &mut dest);
    assert_eq!(dest, src);
}
