use blusc::api::{
    blosc2_compress as blusc_blosc2_compress, blosc2_compress_ctx as blusc_blosc2_compress_ctx,
    blosc2_create_cctx as blusc_blosc2_create_cctx, blosc2_decompress as blusc_blosc2_decompress, Blosc2Cparams,
};
use blusc::{BLOSC2_MAX_FILTERS, BLOSC2_MAX_OVERHEAD, BLOSC_BITSHUFFLE, BLOSC_BLOSCLZ};

fn fill_buffer(buf: &mut [u8]) {
    let num_ints = buf.len() / 4;
    for i in 0..num_ints {
        let val = i as u32;
        buf[i * 4..i * 4 + 4].copy_from_slice(&val.to_ne_bytes());
    }
    for i in num_ints * 4..buf.len() {
        buf[i] = i as u8;
    }
}

fn bitshuffle_roundtrip(buffer_size: usize, typesize: usize, clevel: i32) {
    let mut src = vec![0u8; buffer_size];
    fill_buffer(&mut src);
    let mut compressed = vec![0u8; buffer_size + BLOSC2_MAX_OVERHEAD];
    let csize = blusc_blosc2_compress(clevel, BLOSC_BITSHUFFLE as i32, typesize, &src, &mut compressed);
    assert!(csize > 0, "Bitshuffle typesize={} compression failed: csize={}", typesize, csize);
    compressed.truncate(csize as usize);
    let mut decompressed = vec![0u8; buffer_size];
    let dsize = blusc_blosc2_decompress(&compressed, &mut decompressed);
    assert_eq!(dsize as usize, buffer_size, "Bitshuffle typesize={} decompression size mismatch", typesize);
    assert_eq!(src, decompressed, "Bitshuffle typesize={} roundtrip data mismatch", typesize);
}

#[test]
fn bitshuffle_leftovers_typesize4() {
    bitshuffle_roundtrip(641_092, 4, 9);
}

#[test]
fn bitshuffle_leftovers_typesize8() {
    bitshuffle_roundtrip(641_092, 8, 9);
}

#[test]
fn bitshuffle_leftovers_various_sizes() {
    let sizes = [
        100, 101, 255, 256, 257, 500, 511, 512, 513, 1000, 1023, 1024, 1025, 4095, 4096, 4097, 10001, 65535,
    ];
    for &size in &sizes {
        for typesize in [1, 2, 4, 8] {
            let mut src = vec![0u8; size];
            for (i, byte) in src.iter_mut().enumerate() {
                *byte = (i % 251) as u8;
            }
            let mut compressed = vec![0u8; size + BLOSC2_MAX_OVERHEAD];
            let csize = blusc_blosc2_compress(5, BLOSC_BITSHUFFLE as i32, typesize, &src, &mut compressed);
            assert!(csize > 0, "Compression failed for size={}, typesize={}", size, typesize);
            compressed.truncate(csize as usize);
            let mut decompressed = vec![0u8; size];
            let dsize = blusc_blosc2_decompress(&compressed, &mut decompressed);
            assert_eq!(dsize as usize, size, "Decompression size mismatch for size={}, typesize={}", size, typesize);
            assert_eq!(src, decompressed, "Data mismatch for size={}, typesize={}", size, typesize);
        }
    }
}

#[test]
fn bitshuffle_leftovers_context_api() {
    let buffer_size = 641_092;
    for typesize in [4usize, 8] {
        let mut src = vec![0u8; buffer_size];
        fill_buffer(&mut src);
        let mut cparams = Blosc2Cparams::default();
        cparams.clevel = 9;
        cparams.typesize = typesize as i32;
        cparams.compcode = BLOSC_BLOSCLZ;
        cparams.filters[BLOSC2_MAX_FILTERS as usize - 1] = BLOSC_BITSHUFFLE;
        let cctx = blusc_blosc2_create_cctx(cparams);
        let mut compressed = vec![0u8; buffer_size + BLOSC2_MAX_OVERHEAD];
        let csize = blusc_blosc2_compress_ctx(&cctx, &src, &mut compressed);
        assert!(csize > 0, "Context bitshuffle compression failed for typesize={}", typesize);
        compressed.truncate(csize as usize);
        let mut decompressed = vec![0u8; buffer_size];
        let dsize = blusc_blosc2_decompress(&compressed, &mut decompressed);
        assert_eq!(dsize as usize, buffer_size, "Context bitshuffle decompression size mismatch for typesize={}", typesize);
        assert_eq!(src, decompressed, "Context bitshuffle roundtrip mismatch for typesize={}", typesize);
    }
}

fn run_compress_roundtrip(type_size: usize, num_elements: usize, clevel: i32, doshuffle: i32) {
    let buffer_size = type_size * num_elements;
    let mut original = vec![0u8; buffer_size];
    for (k, byte) in original.iter_mut().enumerate() {
        *byte = k as u8;
    }
    let mut compressed = vec![0u8; buffer_size + BLOSC2_MAX_OVERHEAD];
    let csize = blusc_blosc2_compress(clevel, doshuffle, type_size, &original, &mut compressed);
    assert!(csize > 0, "compression failed for type_size={}, num_elements={}, clevel={}, doshuffle={}",
        type_size, num_elements, clevel, doshuffle);
    compressed.truncate(csize as usize);
    let mut decompressed = vec![0u8; buffer_size];
    let dsize = blusc_blosc2_decompress(&compressed, &mut decompressed);
    assert_eq!(dsize as usize, buffer_size);
    assert_eq!(original, decompressed, "Roundtrip data mismatch for type_size={}, num_elements={}", type_size, num_elements);
}

const TYPE_SIZES: &[usize] = &[1, 2, 3, 4, 5, 6, 7, 8, 11, 16, 22, 30, 32, 42, 48, 52, 53, 64, 80];
const NUM_ELEMENTS: &[usize] = &[7, 192, 1792, 500, 8000, 100000, 702713];

#[test]
fn compress_roundtrip_noshuffle() {
    for &ts in TYPE_SIZES {
        for &ne in NUM_ELEMENTS {
            run_compress_roundtrip(ts, ne, 5, 0);
        }
    }
}

#[test]
fn compress_roundtrip_shuffle() {
    for &ts in TYPE_SIZES {
        for &ne in NUM_ELEMENTS {
            run_compress_roundtrip(ts, ne, 5, 1);
        }
    }
}

#[test]
fn compress_roundtrip_clevel_0() {
    for &ts in &[1usize, 4, 8] {
        run_compress_roundtrip(ts, 8000, 0, 0);
        run_compress_roundtrip(ts, 8000, 0, 1);
    }
}

#[test]
fn compress_roundtrip_clevel_1() {
    for &ts in &[1usize, 4, 8] {
        run_compress_roundtrip(ts, 8000, 1, 0);
        run_compress_roundtrip(ts, 8000, 1, 1);
    }
}

#[test]
fn compress_roundtrip_clevel_9() {
    for &ts in &[1usize, 4, 8] {
        run_compress_roundtrip(ts, 8000, 9, 0);
        run_compress_roundtrip(ts, 8000, 9, 1);
    }
}

fn run_roundtrip(type_size: usize, num_elements: usize, clevel: i32, doshuffle: i32) {
    let buffer_size = type_size * num_elements;
    let mut original = vec![0u8; buffer_size];
    for j in 0..buffer_size {
        original[j] = (j % 255) as u8;
    }
    let mut intermediate = vec![0u8; buffer_size + BLOSC2_MAX_OVERHEAD];
    let mut result = vec![0u8; buffer_size];
    let csize = blusc_blosc2_compress(clevel, doshuffle, type_size, &original, &mut intermediate);
    assert!(csize > 0, "Compression failed");
    intermediate.truncate(csize as usize);
    let dsize = blusc_blosc2_decompress(&intermediate, &mut result);
    assert_eq!(dsize, buffer_size as i32, "Decompression size mismatch");
    assert_eq!(original, result, "Data mismatch after roundtrip");
}

#[test]
fn test_roundtrip_small_1() {
    run_roundtrip(1, 7, 5, 0);
}

#[test]
fn test_roundtrip_small_2() {
    run_roundtrip(2, 7, 5, 0);
}

#[test]
fn test_roundtrip_small_4() {
    run_roundtrip(4, 7, 5, 0);
}

#[test]
fn test_roundtrip_small_8() {
    run_roundtrip(8, 7, 5, 0);
}

#[test]
fn test_roundtrip_large_1() {
    run_roundtrip(1, 10000, 5, 0);
}

#[test]
fn test_roundtrip_large_shuffle() {
    run_roundtrip(4, 10000, 5, 1);
}

#[test]
fn test_roundtrip_large_bitshuffle() {
    run_roundtrip(8, 10000, 5, 2);
}

#[test]
fn test_roundtrip_clevel_1() {
    run_roundtrip(4, 5000, 1, 1);
}

#[test]
fn test_roundtrip_clevel_9() {
    run_roundtrip(4, 5000, 9, 1);
}

#[test]
fn test_roundtrip_odd_3() {
    run_roundtrip(3, 1000, 5, 1);
}

#[test]
fn test_roundtrip_odd_16() {
    run_roundtrip(16, 1000, 5, 1);
}

#[test]
fn test_roundtrip_odd_33() {
    run_roundtrip(33, 100, 5, 0);
}

#[test]
fn test_roundtrip_csv_case() {
    run_roundtrip(1, 702713, 5, 0);
}

#[test]
fn test_codec_blosc_round_trip_snappy() {
    let src: Vec<u8> = vec![0, 0, 1, 0, 2, 0, 3, 0, 4, 0, 5, 0, 6, 0, 7, 0, 8, 0, 9, 0, 10, 0, 11, 0, 12, 0, 13, 0, 14,
        0, 15, 0, 16, 0, 17, 0, 18, 0, 19, 0, 20, 0, 21, 0, 22, 0, 23, 0, 24, 0, 25, 0, 26, 0, 27, 0, 28, 0, 29, 0, 30,
        0, 31, 0];
    let mut dest: Vec<u8> = vec![0; src.len() + BLOSC2_MAX_OVERHEAD];
    let mut cparams = Blosc2Cparams::default();
    cparams.typesize = 0;
    cparams.clevel = 4;
    cparams.nthreads = 1;
    cparams.blocksize = 0;
    cparams.compcode = 3;
    cparams.filters[5] = 0;
    let context = blusc_blosc2_create_cctx(cparams);
    let destsize = blusc_blosc2_compress_ctx(&context, &src, &mut dest);
    assert!(destsize > 0, "Compression failed");
}

#[test]
fn bitshuffle_partial_group_scenario() {
    let src: Vec<u8> = (0..100u8).collect();
    let mut dest = vec![0u8; 132];
    let mut out = vec![0u8; 100];
    let r = blusc_blosc2_compress(5, BLOSC_BITSHUFFLE as i32, 1, &src, &mut dest);
    assert!(r > 0);
    assert_eq!(blusc_blosc2_decompress(&dest[..r as usize], &mut out), 100);
    assert_eq!(out, src);
}

#[test]
fn split_tail_scenario() {
    let src = vec![0u8; 131201];
    let mut dest = vec![0u8; src.len() + BLOSC2_MAX_OVERHEAD];
    let r = blusc_blosc2_compress(5, 1, 4, &src, &mut dest);
    assert!(r > 0);
    let mut out = vec![7u8; src.len()];
    assert_eq!(blusc_blosc2_decompress(&dest[..r as usize], &mut out), 131201);
    assert_eq!(out, src);
}

#[test]
fn roundtrip() {
    let text = "I am here writing some very cool and novel words which I will compress and decompress";
    let bytes = text.as_bytes();
    let mut compressed = vec![0; bytes.len() * 2];
    let stat = blusc_blosc2_compress(9, 0, std::mem::size_of::<u8>(), bytes, &mut compressed);
    assert!(stat > 0);
    let mut outtext = vec![0_u8; bytes.len()];
    let stat = blusc_blosc2_decompress(&compressed, &mut outtext);
    assert!(stat > 0);
    assert_eq!(text, std::str::from_utf8(&outtext).unwrap());
}

#[test]
fn floats_roundtrip() {
    let src: Vec<f32> = (0..10000).map(|num| ((num * 8923) % 100) as f32 / 2f32).collect();
    let src_bytes: Vec<u8> = src.iter().flat_map(|f| f.to_ne_bytes()).collect();
    let typesize = std::mem::size_of::<f32>();
    let dest_size = src_bytes.len() + BLOSC2_MAX_OVERHEAD;
    let mut dest = vec![0u8; dest_size];
    let mut cparams = Blosc2Cparams::default();
    cparams.typesize = typesize as i32;
    cparams.compcode = 0;
    cparams.filters[5] = 2;
    let context = blusc_blosc2_create_cctx(cparams);
    let rsize = blusc_blosc2_compress_ctx(&context, &src_bytes, &mut dest);
    assert!(rsize > 0);
    dest.truncate(rsize as usize);
    assert!(src_bytes.len() > dest.len());
    let (nbytes, _cbytes, _blocksize) = blusc::api::blosc2_cbuffer_sizes(&dest);
    assert!(nbytes != 0);
    let mut result_bytes = vec![0u8; nbytes];
    let error = blusc_blosc2_decompress(&dest, &mut result_bytes);
    assert!(error >= 1);
    let result: Vec<f32> = result_bytes.chunks(4).map(|c| f32::from_ne_bytes([c[0], c[1], c[2], c[3]])).collect();
    assert_eq!(src, result);
}
