use blusc::api::{
    blosc1_getitem as blusc_blosc1_getitem, blosc2_compress_ctx as blusc_blosc2_compress_ctx,
    blosc2_create_cctx as blusc_blosc2_create_cctx, blosc2_create_dctx as blusc_blosc2_create_dctx,
    blosc2_decompress_ctx as blusc_blosc2_decompress_ctx, Blosc2Cparams, Blosc2Dparams,
};
use blusc::BLOSC2_MAX_OVERHEAD;

const SIZE: usize = 500 * 1000;

fn i32_bytes(values: &[i32]) -> Vec<u8> {
    let mut out = Vec::with_capacity(values.len() * 4);
    for v in values {
        out.extend_from_slice(&v.to_le_bytes());
    }
    out
}

#[test]
fn context_compress_decompress_i32() {
    let src: Vec<i32> = (0..SIZE as i32).collect();
    let src_bytes = i32_bytes(&src);
    let isize = SIZE * std::mem::size_of::<i32>();

    let mut cparams = Blosc2Cparams::default();
    cparams.typesize = std::mem::size_of::<i32>() as i32;
    cparams.compcode = 0;
    cparams.filters[5] = 1;
    cparams.clevel = 5;
    let cctx = blusc_blosc2_create_cctx(cparams);

    let mut compressed = vec![0u8; isize + BLOSC2_MAX_OVERHEAD];
    let csize = blusc_blosc2_compress_ctx(&cctx, &src_bytes, &mut compressed);
    assert!(csize > 0, "Context compression failed: csize={}", csize);
    assert!((csize as usize) < isize, "Data should compress");
    compressed.truncate(csize as usize);

    let dparams = Blosc2Dparams::default();
    let dctx = blusc_blosc2_create_dctx(dparams);
    let mut decompressed = vec![0u8; isize];
    let dsize = blusc_blosc2_decompress_ctx(&dctx, &compressed, &mut decompressed);
    assert_eq!(dsize as usize, isize, "Decompression size mismatch");
    assert_eq!(&src_bytes[..], &decompressed[..], "Decompressed data mismatch");

    let subset_start = 5;
    let subset_count = 5;
    let subset_bytes = subset_count * std::mem::size_of::<i32>();
    let mut subset = vec![0u8; subset_bytes];
    let gsize = blusc_blosc1_getitem(&compressed, subset_start, subset_count as i32, &mut subset);
    assert!(gsize > 0, "getitem failed");

    let expected: Vec<i32> = (5..10).collect();
    let expected_bytes = i32_bytes(&expected);
    assert_eq!(&subset[..], &expected_bytes[..], "getitem data mismatch");
}

#[test]
fn context_clevels() {
    let src: Vec<i32> = (0..10000i32).collect();
    let src_bytes = i32_bytes(&src);
    let isize = src.len() * 4;

    for clevel in 0..=9u8 {
        let mut cparams = Blosc2Cparams::default();
        cparams.typesize = 4;
        cparams.compcode = 0;
        cparams.filters[5] = 1;
        cparams.clevel = clevel;
        let cctx = blusc_blosc2_create_cctx(cparams);

        let mut compressed = vec![0u8; isize + BLOSC2_MAX_OVERHEAD];
        let csize = blusc_blosc2_compress_ctx(&cctx, &src_bytes, &mut compressed);
        assert!(csize > 0, "Compression failed at clevel={}", clevel);
        compressed.truncate(csize as usize);

        let dparams = Blosc2Dparams::default();
        let dctx = blusc_blosc2_create_dctx(dparams);
        let mut decompressed = vec![0u8; isize];
        let dsize = blusc_blosc2_decompress_ctx(&dctx, &compressed, &mut decompressed);
        assert_eq!(dsize as usize, isize, "Decompression size mismatch at clevel={}", clevel);
        assert_eq!(&src_bytes[..], &decompressed[..], "Roundtrip failed at clevel={}", clevel);
    }
}

#[test]
fn context_bitshuffle() {
    let src: Vec<f64> = (0..10000).map(|i| i as f64).collect();
    let mut src_bytes = Vec::with_capacity(src.len() * 8);
    for v in &src {
        src_bytes.extend_from_slice(&v.to_le_bytes());
    }
    let isize = src.len() * 8;

    let mut cparams = Blosc2Cparams::default();
    cparams.typesize = 8;
    cparams.compcode = 0;
    cparams.filters[5] = 2;
    cparams.clevel = 5;
    let cctx = blusc_blosc2_create_cctx(cparams);

    let mut compressed = vec![0u8; isize + BLOSC2_MAX_OVERHEAD];
    let csize = blusc_blosc2_compress_ctx(&cctx, &src_bytes, &mut compressed);
    assert!(csize > 0, "Bitshuffle compression failed");
    compressed.truncate(csize as usize);

    let dparams = Blosc2Dparams::default();
    let dctx = blusc_blosc2_create_dctx(dparams);
    let mut decompressed = vec![0u8; isize];
    let dsize = blusc_blosc2_decompress_ctx(&dctx, &compressed, &mut decompressed);
    assert_eq!(dsize as usize, isize, "Bitshuffle decompression size mismatch");
    assert_eq!(&src_bytes[..], &decompressed[..], "Bitshuffle roundtrip failed");
}
