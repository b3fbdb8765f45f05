use blusc::filters::bitshuffle;
use blusc::filters::bitshuffle_generic::{
    bshuf_copy, bshuf_shuffle_bit_eightelem_scal, bshuf_trans_bit_byte_scal, bshuf_trans_bit_elem_scal,
    bshuf_trans_bitrow_eight, bshuf_trans_byte_bitrow_scal, bshuf_trans_byte_elem_scal, bshuf_trans_elem,
    bshuf_untrans_bit_elem_scal,
};

fn sample(n: usize) -> Vec<u8> {
    (0..n).map(|i| (i * 29 % 253) as u8).collect()
}

#[test]
fn kernel_copy_and_byte_planes() {
    let input: Vec<u8> = (0u8..16).collect();
    let mut out = vec![0xffu8; 20];
    assert_eq!(bshuf_copy(&input, &mut out, 8, 2), 16);
    assert_eq!(&out[..16], &input[..]);
    assert_eq!(&out[16..], &[0xff; 4]);
    let mut planes = vec![0u8; 16];
    assert_eq!(bshuf_trans_byte_elem_scal(&input, &mut planes, 8, 2), 16);
    assert_eq!(planes, vec![0, 2, 4, 6, 8, 10, 12, 14, 1, 3, 5, 7, 9, 11, 13, 15]);
}

#[test]
fn kernel_element_transpose() {
    let input = vec![0u8, 1, 2, 3, 4, 5];
    let mut out = vec![0u8; 6];
    assert_eq!(bshuf_trans_elem(&input, &mut out, 2, 3, 1), 6);
    assert_eq!(out, vec![0, 3, 1, 4, 2, 5]);
    let mut out2 = vec![0u8; 16];
    let input2: Vec<u8> = (0u8..16).collect();
    assert_eq!(bshuf_trans_bitrow_eight(&input2, &mut out2, 8, 2), 16);
    assert_eq!(&out2[..4], &[0, 2, 4, 6]);
}

#[test]
fn kernel_bit_transpose_of_words() {
    let input = vec![0xffu8, 0, 0, 0, 0, 0, 0, 0];
    let mut out = vec![0u8; 8];
    assert_eq!(bshuf_trans_bit_byte_scal(&input, &mut out, 8, 1), 8);
    assert_eq!(out, vec![1u8; 8]);
    let mut out = vec![0u8; 8];
    assert_eq!(bshuf_trans_bit_byte_scal(&input, &mut out, 3, 1), -80);
    assert_eq!(out, vec![0u8; 8]);
}

#[test]
fn kernels_reject_counts_not_multiple_of_eight() {
    let input = sample(64);
    let mut out = vec![5u8; 64];
    assert_eq!(bshuf_trans_bit_elem_scal(&input, &mut out, 12, 4), -80);
    assert_eq!(bshuf_untrans_bit_elem_scal(&input, &mut out, 12, 4), -80);
    assert_eq!(bshuf_trans_bitrow_eight(&input, &mut out, 4, 4), -80);
    assert_eq!(bshuf_trans_byte_bitrow_scal(&input, &mut out, 4, 4), -80);
    assert_eq!(bshuf_shuffle_bit_eightelem_scal(&input, &mut out, 4, 4), -80);
    assert_eq!(out, vec![5u8; 64]);
}

#[test]
fn kernel_bitshuffle_matches_filter_and_undoes() {
    for &(size, es) in &[(8usize, 1usize), (16, 4), (64, 8), (24, 3)] {
        let n = size * es;
        let input = sample(n);
        let mut shuffled = vec![0u8; n];
        assert_eq!(bshuf_trans_bit_elem_scal(&input, &mut shuffled, size, es), n as i64);
        let mut expected = vec![0u8; n];
        bitshuffle(es, n, &input, &mut expected).unwrap();
        assert_eq!(shuffled, expected);
        let mut back = vec![0u8; n];
        assert_eq!(bshuf_untrans_bit_elem_scal(&shuffled, &mut back, size, es), n as i64);
        assert_eq!(back, input);
    }
}
