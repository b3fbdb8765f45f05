use blusc::blosc::b2nd::{
    b2nd_deserialize_meta, b2nd_serialize_meta, blosc2_multidim_to_unidim, blosc2_unidim_to_multidim,
};
use blusc::blosc::b2nd_copy::{b2nd_copy_buffer, b2nd_copy_buffer2};
use blusc::blosc::byteorder::{
    _sw32, bswap32_, endian_store, from_big, from_little, is_little_endian, sw32_, to_big, to_little,
};
use blusc::blosc::blosclz::blosclz_decompress;
use blusc::blosc::fastcopy::{copy_match, fastcopy};
use blusc::blosc::header::read_chunk_header;
use blusc::blosc::stune::{
    blosc_stune_free, blosc_stune_init, blosc_stune_next_blocksize, blosc_stune_next_cparams, split_block, TunerContext,
};

#[test]
fn fastcopy_copies_every_length() {
    let from: Vec<u8> = (0u8..64).collect();
    for len in [0usize, 1, 5, 7, 8, 9, 13, 16, 24, 32, 33, 63] {
        let mut out = vec![0xffu8; 64];
        assert_eq!(fastcopy(&mut out, &from, len), len);
        assert_eq!(&out[..len], &from[..len]);
        assert!(out[len..].iter().all(|&b| b == 0xff));
    }
    let mut out = vec![0u8; 20];
    assert_eq!(copy_match(&mut out, &from[10..], 20), 20);
    assert_eq!(&out[..], &from[10..30]);
}

#[test]
fn byte_order_helpers() {
    let src = [1u8, 2, 3, 4, 5, 6, 7, 8];
    let mut le = [0u8; 8];
    let mut be = [0u8; 8];
    to_little(&mut le, &src, 4);
    to_big(&mut be, &src, 4);
    if is_little_endian() {
        assert_eq!(&le[..4], &[1, 2, 3, 4]);
        assert_eq!(&be[..4], &[4, 3, 2, 1]);
    } else {
        assert_eq!(&le[..4], &[4, 3, 2, 1]);
        assert_eq!(&be[..4], &[1, 2, 3, 4]);
    }
    let mut back = [0u8; 8];
    from_big(&mut back, &be, 4);
    assert_eq!(&back[..4], &[1, 2, 3, 4]);
    from_little(&mut back, &le, 4);
    assert_eq!(&back[..4], &[1, 2, 3, 4]);
    let mut d = [9u8; 4];
    endian_store(true, &mut d, &src, 3);
    assert_eq!(d, [0, 0, 0, 9]);
    endian_store(true, &mut d, &src, 4);
    assert_eq!(d, [4, 3, 2, 1]);
}

#[test]
fn little_endian_words() {
    assert_eq!(sw32_(&[1, 0, 0, 0]), 1);
    assert_eq!(sw32_(&[0x78, 0x56, 0x34, 0x12, 0xaa]), 0x12345678);
    assert_eq!(sw32_(&[0xff, 0xff, 0xff, 0xff]), -1);
    let mut d = [0u8; 6];
    _sw32(&mut d, 0x01020304);
    assert_eq!(d, [4, 3, 2, 1, 0, 0]);
    _sw32(&mut d, -2);
    assert_eq!(&d[..4], &[0xfe, 0xff, 0xff, 0xff]);
    assert_eq!(bswap32_(0x01020304), 0x04030201);
    assert_eq!(bswap32_(0x000000ff), -16777216);
}

fn header(version: u8, flags: u8, typesize: u8, nbytes: i32, blocksize: i32, cbytes: i32) -> Vec<u8> {
    let mut h = vec![version, 1, flags, typesize];
    h.extend_from_slice(&nbytes.to_le_bytes());
    h.extend_from_slice(&blocksize.to_le_bytes());
    h.extend_from_slice(&cbytes.to_le_bytes());
    h
}

#[test]
fn chunk_header_fields_and_errors() {
    let h = read_chunk_header(&header(5, 1, 4, 100, 100, 116), false).unwrap();
    assert_eq!((h.version, h.versionlz, h.flags, h.typesize), (5, 1, 1, 4));
    assert_eq!((h.nbytes, h.blocksize, h.cbytes), (100, 100, 116));
    assert_eq!(h.filters, [0u8; 6]);
    assert_eq!(read_chunk_header(&header(5, 1, 4, 100, 100, 116)[..15], false).unwrap_err(), -5);
    assert_eq!(read_chunk_header(&header(6, 1, 4, 100, 100, 116), false).unwrap_err(), -10);
    assert_eq!(read_chunk_header(&header(5, 1, 4, 100, 100, 15), false).unwrap_err(), -11);
    assert_eq!(read_chunk_header(&header(5, 1, 4, 100, 0, 116), false).unwrap_err(), -11);
    assert_eq!(read_chunk_header(&header(5, 1, 4, 100, 200, 116), false).unwrap_err(), -11);
    assert_eq!(read_chunk_header(&header(5, 1, 0, 100, 100, 116), false).unwrap_err(), -11);
    // a size of zero bytes leaves the block size unbounded by it
    assert!(read_chunk_header(&header(5, 1, 4, 0, 100, 16), false).is_ok());
}

#[test]
fn extended_chunk_header() {
    let mut h = header(5, 0x5, 8, 64, 64, 40);
    h.extend((16u8..32).collect::<Vec<u8>>());
    let x = read_chunk_header(&h, true).unwrap();
    assert_eq!(x.filters, [16, 17, 18, 19, 20, 21]);
    assert_eq!((x.udcompcode, x.compcode_meta), (22, 23));
    assert_eq!(x.filters_meta, [24, 25, 26, 27, 28, 29]);
    assert_eq!((x.reserved2, x.blosc2_flags), (30, 31));
    // without asking for the extended part, it is not read
    assert_eq!(read_chunk_header(&h, false).unwrap().filters, [0u8; 6]);
    assert_eq!(read_chunk_header(&h[..20], true).unwrap_err(), -5);
    assert_eq!(read_chunk_header(&header(5, 0x5, 8, 64, 64, 20), true).unwrap_err(), -11);
}

#[test]
fn b2nd_meta_layout_and_roundtrip() {
    let meta = b2nd_serialize_meta(2, &[10, 20], &[5, 5], &[2, 2], Some("|u1"), 0).unwrap();
    let mut expected = vec![0x97u8, 0, 2, 0x92];
    expected.extend_from_slice(&[0xd3, 0, 0, 0, 0, 0, 0, 0, 10, 0xd3, 0, 0, 0, 0, 0, 0, 0, 20]);
    expected.extend_from_slice(&[0x92, 0xd2, 0, 0, 0, 5, 0xd2, 0, 0, 0, 5]);
    expected.extend_from_slice(&[0x92, 0xd2, 0, 0, 0, 2, 0xd2, 0, 0, 0, 2]);
    expected.extend_from_slice(&[0, 0xdb, 0, 0, 0, 3, b'|', b'u', b'1']);
    assert_eq!(meta, expected);
    assert_eq!(meta.len(), 53);

    let mut ndim = 0i8;
    let mut shape = [0i64; 8];
    let mut chunkshape = [0i32; 8];
    let mut blockshape = [0i32; 8];
    let mut dtype = Some(String::new());
    let mut fmt = Some(7i8);
    let used = b2nd_deserialize_meta(&meta, &mut ndim, &mut shape, &mut chunkshape, &mut blockshape,
        &mut dtype, &mut fmt).unwrap();
    assert_eq!(used, 53);
    assert_eq!(ndim, 2);
    assert_eq!(&shape[..2], &[10, 20]);
    assert_eq!(&chunkshape[..2], &[5, 5]);
    assert_eq!(&blockshape[..2], &[2, 2]);
    assert_eq!(dtype.as_deref(), Some("|u1"));
    assert_eq!(fmt, Some(0));
}

#[test]
fn b2nd_meta_defaults_and_errors() {
    let meta = b2nd_serialize_meta(1, &[-3], &[4], &[1], None, 2).unwrap();
    assert_eq!(&meta[meta.len() - 3..], b"|u1");
    assert_eq!(b2nd_serialize_meta(1, &[3], &[4], &[1], None, -1).unwrap_err(), -1);
    let mut ndim = 0i8;
    let mut shape = [0i64; 1];
    let mut c = [0i32; 1];
    let mut b = [0i32; 1];
    let mut dtype: Option<String> = None;
    let mut fmt: Option<i8> = None;
    let used = b2nd_deserialize_meta(&meta, &mut ndim, &mut shape, &mut c, &mut b, &mut dtype, &mut fmt).unwrap();
    assert_eq!(used, 25);
    assert_eq!(shape[0], -3);
    assert_eq!(dtype, None);
    // metadata that ends before its dtype entry: no dtype, format 0
    let mut dtype = Some(String::from("x"));
    let mut fmt = Some(5i8);
    let used = b2nd_deserialize_meta(&meta[..25], &mut ndim, &mut shape, &mut c, &mut b, &mut dtype, &mut fmt).unwrap();
    assert_eq!(used, 25);
    assert_eq!(dtype, None);
    assert_eq!(fmt, Some(0));
}

#[test]
fn index_conversions() {
    assert_eq!(blosc2_multidim_to_unidim(&[1, 2, 3], 3, &[12, 4, 1]), 23);
    assert_eq!(blosc2_multidim_to_unidim(&[1, 2, 3], 0, &[12, 4, 1]), 0);
    let mut idx = [9i64; 4];
    blosc2_unidim_to_multidim(3, &[2, 3, 4], 23, &mut idx);
    assert_eq!(idx, [1, 2, 3, 9]);
    blosc2_unidim_to_multidim(2, &[5, 4], -7, &mut idx);
    assert_eq!(&idx[..2], &[-1, -3]);
    for i in 0..24i64 {
        let mut c = [0i64; 3];
        blosc2_unidim_to_multidim(3, &[2, 3, 4], i, &mut c);
        assert!(c[0] < 2 && c[1] < 3 && c[2] < 4);
        assert_eq!(blosc2_multidim_to_unidim(&c, 3, &[12, 4, 1]), i);
    }
}

#[test]
fn copy_slice_between_arrays() {
    let src: Vec<u8> = (0u8..12).collect();
    let mut dst = vec![0u8; 4];
    assert_eq!(b2nd_copy_buffer2(2, 1, &src, &[3, 4], &[1, 1], &[3, 3], &mut dst, &[2, 2], &[0, 0]), 0);
    assert_eq!(dst, vec![5, 6, 9, 10]);
    let mut dst2 = vec![0u8; 18];
    assert_eq!(b2nd_copy_buffer(2, 2, &src, &[2, 3], &[0, 1], &[2, 3], &mut dst2, &[3, 3], &[1, 0]), 0);
    // rows of two 2-byte items land in rows 1 and 2 of the destination
    assert_eq!(&dst2[6..10], &[2, 3, 4, 5]);
    assert_eq!(&dst2[12..16], &[8, 9, 10, 11]);
    let mut dst3 = vec![7u8; 4];
    assert_eq!(b2nd_copy_buffer2(1, 1, &src, &[12], &[3], &[3], &mut dst3, &[4], &[0]), 0);
    assert_eq!(dst3, vec![7u8; 4]);
    assert_eq!(b2nd_copy_buffer2(1, 1, &src, &[12], &[3], &[6], &mut dst3, &[4], &[1]), 0);
    assert_eq!(dst3, vec![7, 3, 4, 5]);
}

#[test]
fn bounded_blosclz_decoder() {
    let mut out = vec![0u8; 8];
    assert_eq!(blosclz_decompress(b"\x02abc", 4, &mut out, 8), 3);
    assert_eq!(&out[..3], b"abc");
    // a run: one literal, then four bytes from one back, then a literal
    let stream = [0u8, b'a', 64, 0, 0, b'z'];
    let mut out = vec![0u8; 8];
    assert_eq!(blosclz_decompress(&stream, 6, &mut out, 8), 6);
    assert_eq!(&out[..6], b"aaaaaz");
    // a shortest match: three bytes from one back
    let stream = [0x00u8, 0x61, 0x20, 0x00, 0x00, 0x62];
    let mut out = vec![0u8; 5];
    assert_eq!(blosclz_decompress(&stream, 6, &mut out, 5), 5);
    assert_eq!(&out[..], b"aaaab");
    // a match that reaches before the start of the output fails
    let stream = [0u8, b'a', 64, 1, 0, b'z'];
    let mut out = vec![9u8; 8];
    assert_eq!(blosclz_decompress(&stream, 6, &mut out, 8), 0);
    // a match needs a byte after its code
    let mut out = vec![0u8; 8];
    assert_eq!(blosclz_decompress(&stream[..4], 4, &mut out, 8), 0);
    // a long match that is the last token is not applied
    let mut out = vec![0u8; 16];
    assert_eq!(blosclz_decompress(&[0u8, b'a', 224, 0, 0], 5, &mut out, 16), 1);
    assert_eq!(out[1], 0);
    // too little room, and no input
    let mut out = vec![7u8; 4];
    assert_eq!(blosclz_decompress(b"\x02abc", 4, &mut out, 2), 0);
    assert_eq!(out, vec![7u8; 4]);
    assert_eq!(blosclz_decompress(b"\x02abc", 0, &mut out, 4), 0);
}

fn tuner(compcode: i32, clevel: i32, typesize: i32, sourcesize: i32, blocksize: i32, splitmode: i32, flags: u8) -> TunerContext {
    TunerContext { compcode, clevel, typesize, sourcesize, blocksize, splitmode, filter_flags: flags }
}

#[test]
fn tuner_block_sizes() {
    let mut c = tuner(0, 5, 4, 1_000_000, 0, 4, 1);
    assert_eq!(blosc_stune_next_blocksize(&mut c), 0);
    assert_eq!(c.blocksize, 262144);
    let mut c = tuner(0, 5, 4, 1_000_000, 0, 4, 0);
    blosc_stune_next_blocksize(&mut c);
    assert_eq!(c.blocksize, 131072);
    let mut c = tuner(0, 5, 4, 2, 0, 4, 1);
    blosc_stune_next_blocksize(&mut c);
    assert_eq!(c.blocksize, 1);
    let mut c = tuner(0, 5, 3, 5000, 1000, 4, 1);
    blosc_stune_next_blocksize(&mut c);
    assert_eq!(c.blocksize, 999);
    let mut c = tuner(5, 9, 8, 10_000_000, 0, 2, 1);
    blosc_stune_next_blocksize(&mut c);
    assert_eq!(c.blocksize, 1048576);
    assert_eq!(c.clevel, 9);
    let c = tuner(1, 5, 4, 64, 0, 4, 1);
    assert_eq!(split_block(&c, 4, 64), 0);
    assert_eq!(split_block(&c, 4, 128), 1);
    assert_eq!(split_block(&tuner(1, 5, 4, 64, 0, 1, 0), 4, 64), 1);
    assert_eq!(split_block(&tuner(1, 5, 4, 64, 0, 2, 1), 4, 4096), 0);
    let mut c = tuner(1, 5, 4, 64, 0, 4, 1);
    assert_eq!(blosc_stune_init(), 0);
    assert_eq!(blosc_stune_next_cparams(&mut c), 0);
    assert_eq!(blosc_stune_free(&mut c), 0);
    assert_eq!(c.blocksize, 0);
}
