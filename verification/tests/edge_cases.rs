use blusc::api::{
    blosc1_cbuffer_metainfo as blusc_blosc1_cbuffer_metainfo,
    blosc1_cbuffer_sizes as blusc_blosc1_cbuffer_sizes,
    blosc1_cbuffer_validate as blusc_blosc1_cbuffer_validate, blosc2_compress as blusc_blosc2_compress,
    blosc2_compress_ctx as blusc_blosc2_compress_ctx, blosc2_create_cctx as blusc_blosc2_create_cctx,
    blosc2_create_dctx as blusc_blosc2_create_dctx, blosc2_decompress as blusc_blosc2_decompress,
    blosc2_decompress_ctx as blusc_blosc2_decompress_ctx, Blosc2Cparams, Blosc2Dparams,
};
use blusc::BLOSC2_MAX_OVERHEAD;

#[test]
fn small_buffer_2_bytes() {
    let src: Vec<u8> = vec![0, 1];
    let mut compressed = vec![0u8; src.len() + BLOSC2_MAX_OVERHEAD];

    let mut cparams = Blosc2Cparams::default();
    cparams.typesize = 1;
    let cctx = blusc_blosc2_create_cctx(cparams);
    let csize = blusc_blosc2_compress_ctx(&cctx, &src, &mut compressed);
    assert!(csize > 0, "Small buffer compression failed: csize={}", csize);
    compressed.truncate(csize as usize);

    let dparams = Blosc2Dparams::default();
    let dctx = blusc_blosc2_create_dctx(dparams);
    let mut decompressed = vec![0u8; src.len()];
    let dsize = blusc_blosc2_decompress_ctx(&dctx, &compressed, &mut decompressed);
    assert_eq!(dsize as usize, src.len(), "Small buffer decompression size mismatch");
    assert_eq!(src, decompressed, "Small buffer data mismatch");
}

#[test]
fn small_buffer_2_bytes_direct() {
    let src: Vec<u8> = vec![0, 1];
    let mut compressed = vec![0u8; src.len() + BLOSC2_MAX_OVERHEAD];

    let csize = blusc_blosc2_compress(9, 1, 1, &src, &mut compressed);
    assert!(csize > 0, "Small buffer direct compression failed");
    compressed.truncate(csize as usize);

    let mut decompressed = vec![0u8; src.len()];
    let dsize = blusc_blosc2_decompress(&compressed, &mut decompressed);
    assert_eq!(dsize as usize, src.len());
    assert_eq!(src, decompressed);
}

#[test]
fn buffer_at_min_buffersize() {
    let src = vec![42u8; 32];
    let mut compressed = vec![0u8; src.len() + BLOSC2_MAX_OVERHEAD];

    let csize = blusc_blosc2_compress(5, 0, 1, &src, &mut compressed);
    assert!(csize > 0, "Compression at min buffersize failed");
    compressed.truncate(csize as usize);

    let mut decompressed = vec![0u8; src.len()];
    let dsize = blusc_blosc2_decompress(&compressed, &mut decompressed);
    assert_eq!(dsize as usize, 32);
    assert_eq!(src, decompressed);
}

#[test]
fn buffer_below_min_buffersize() {
    for size in [1, 2, 4, 8, 15, 16, 31] {
        let src: Vec<u8> = (0..size as u8).collect();
        let mut compressed = vec![0u8; src.len() + BLOSC2_MAX_OVERHEAD];

        let csize = blusc_blosc2_compress(5, 0, 1, &src, &mut compressed);
        assert!(csize > 0, "Compression failed for size={}", size);
        compressed.truncate(csize as usize);

        let mut decompressed = vec![0u8; src.len()];
        let dsize = blusc_blosc2_decompress(&compressed, &mut decompressed);
        assert_eq!(dsize as usize, size, "Decompression size mismatch for size={}", size);
        assert_eq!(src, decompressed, "Data mismatch for size={}", size);
    }
}

#[test]
fn all_zeros_buffer() {
    let src = vec![0u8; 100_000];
    let mut compressed = vec![0u8; src.len() + BLOSC2_MAX_OVERHEAD];

    let csize = blusc_blosc2_compress(5, 1, 4, &src, &mut compressed);
    assert!(csize > 0, "All-zeros compression failed");
    assert!(
        (csize as usize) < src.len() / 10,
        "All-zeros should compress very well: csize={}, src_len={}",
        csize,
        src.len()
    );
    compressed.truncate(csize as usize);

    let mut decompressed = vec![0u8; src.len()];
    let dsize = blusc_blosc2_decompress(&compressed, &mut decompressed);
    assert_eq!(dsize as usize, src.len());
    assert_eq!(src, decompressed);
}

#[test]
fn all_ones_buffer() {
    let src = vec![0xFFu8; 100_000];
    let mut compressed = vec![0u8; src.len() + BLOSC2_MAX_OVERHEAD];

    let csize = blusc_blosc2_compress(5, 1, 4, &src, &mut compressed);
    assert!(csize > 0);
    compressed.truncate(csize as usize);

    let mut decompressed = vec![0u8; src.len()];
    let dsize = blusc_blosc2_decompress(&compressed, &mut decompressed);
    assert_eq!(dsize as usize, src.len());
    assert_eq!(src, decompressed);
}

#[test]
fn cbuffer_info_functions() {
    let src: Vec<u8> = (0..1000).map(|i| (i % 256) as u8).collect();
    let mut compressed = vec![0u8; src.len() + BLOSC2_MAX_OVERHEAD];

    let csize = blusc_blosc2_compress(5, 1, 4, &src, &mut compressed);
    assert!(csize > 0);
    compressed.truncate(csize as usize);

    let (nbytes, cbytes, blocksize) = blusc_blosc1_cbuffer_sizes(&compressed);
    assert_eq!(nbytes, 1000, "nbytes mismatch");
    assert_eq!(cbytes, csize as usize, "cbytes mismatch");
    assert!(blocksize > 0, "blocksize should be > 0");

    let info = blusc_blosc1_cbuffer_metainfo(&compressed);
    assert!(info.is_some(), "metainfo should succeed");
    let (typesize, _flags) = info.unwrap();
    assert_eq!(typesize, 4, "typesize mismatch");

    let valid = blusc_blosc1_cbuffer_validate(&compressed, csize as usize);
    assert!(valid.is_ok(), "validate should succeed");
}
