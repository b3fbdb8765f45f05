use blusc::api::{
    blosc1_cbuffer_metainfo, blosc1_cbuffer_sizes, blosc1_cbuffer_validate, blosc1_getitem, blosc2_cbuffer_sizes,
    blosc2_compress, blosc2_compress_ctx, blosc2_create_cctx, blosc2_create_dctx, blosc2_decompress,
    blosc2_decompress_ctx, blosc2_get_complib_info, Blosc2Cparams, Blosc2Dparams,
};
use blusc::BLOSC2_MAX_OVERHEAD;

#[test]
fn complib_info() {
    assert_eq!(blosc2_get_complib_info("blosclz"), Some(("BloscLZ", "2.5.1", 0)));
    assert_eq!(blosc2_get_complib_info("lz4"), Some(("LZ4", "1.9.4", 1)));
    assert_eq!(blosc2_get_complib_info("lz4hc"), Some(("LZ4", "1.9.4", 1)));
    assert_eq!(blosc2_get_complib_info("snappy"), Some(("Snappy", "1.1.9", 2)));
    assert_eq!(blosc2_get_complib_info("zlib"), Some(("Zlib", "1.2.11", 3)));
    assert_eq!(blosc2_get_complib_info("zstd"), Some(("Zstd", "1.5.2", 4)));
    assert_eq!(blosc2_get_complib_info("zstd2"), None);
    assert_eq!(blosc2_get_complib_info(""), None);
}

#[test]
fn header_readers_on_short_buffers() {
    assert_eq!(blosc1_cbuffer_metainfo(&[0u8; 15]), None);
    assert_eq!(blosc1_cbuffer_validate(&[0u8; 15], 0), Err(()));
    assert_eq!(blosc2_cbuffer_sizes(&[0u8; 15]), (0, 0, 0));
    assert_eq!(blosc1_cbuffer_sizes(&[0u8; 3]), (0, 0, 0));
    let mut dest = vec![3u8; 4];
    assert_eq!(blosc1_getitem(&[0u8; 12], 0, 1, &mut dest), 0);
    assert_eq!(dest, vec![3u8; 4]);
}

#[test]
fn header_readers_on_a_header() {
    let h = [2u8, 1, 0x21, 4, 0x10, 0x27, 0, 0, 0x00, 0x10, 0, 0, 0x2C, 0x01, 0, 0];
    assert_eq!(blosc1_cbuffer_metainfo(&h), Some((4, 0x21)));
    assert_eq!(blosc2_cbuffer_sizes(&h), (10_000, 300, 4096));
    assert_eq!(blosc1_cbuffer_validate(&h, 300), Ok(10_000));
    assert_eq!(blosc1_cbuffer_validate(&h, 301), Err(()));
}

#[test]
fn api_roundtrip_with_every_codec_through_contexts() {
    let src: Vec<u8> = (0..40_000u32).map(|i| ((i / 5) % 17) as u8).collect();
    for compcode in [0u8, 1, 3, 4, 5] {
        let mut cparams = Blosc2Cparams::default();
        cparams.compcode = compcode;
        cparams.typesize = 2;
        cparams.filters[0] = 1;
        let cctx = blosc2_create_cctx(cparams);
        let mut compressed = vec![0u8; 2 * src.len() + BLOSC2_MAX_OVERHEAD];
        let csize = blosc2_compress_ctx(&cctx, &src, &mut compressed);
        assert!(csize > 0 && (csize as usize) < src.len() / 4, "codec {}", compcode);
        compressed.truncate(csize as usize);
        let dctx = blosc2_create_dctx(Blosc2Dparams::default());
        let mut out = vec![0u8; src.len()];
        assert_eq!(blosc2_decompress_ctx(&dctx, &compressed, &mut out), src.len() as i32);
        assert_eq!(out, src);
    }
}

#[test]
fn api_errors() {
    let src = vec![1u8; 100];
    let mut cparams = Blosc2Cparams::default();
    cparams.compcode = 2;
    let cctx = blosc2_create_cctx(cparams);
    let mut compressed = vec![0u8; src.len() + BLOSC2_MAX_OVERHEAD];
    assert_eq!(blosc2_compress_ctx(&cctx, &src, &mut compressed), 0);
    let mut out = vec![0u8; 10];
    assert_eq!(blosc2_decompress(&[0u8; 4], &mut out), -1);
    let c = blosc2_compress(5, 1, 4, &src, &mut compressed);
    assert!(c > 0);
    assert_eq!(blosc2_decompress(&compressed[..c as usize], &mut out), -1);
}

#[test]
fn contexts_carry_parameters() {
    let mut cparams = Blosc2Cparams::default();
    assert_eq!(cparams.clevel, 5);
    assert_eq!(cparams.typesize, 8);
    assert_eq!(cparams.compcode, 0);
    cparams.clevel = 7;
    let cctx = blosc2_create_cctx(cparams);
    assert_eq!(cctx.cparams.clevel, 7);
    assert_eq!(cctx.dparams.nthreads, 1);
    let dctx = blosc2_create_dctx(Blosc2Dparams { nthreads: 3 });
    assert_eq!(dctx.dparams.nthreads, 3);
    assert_eq!(dctx.cparams.clevel, 5);
}

#[test]
fn last_filter_slot_decides_the_context_filter() {
    let src: Vec<u8> = (0..8000u32).map(|i| (i % 251) as u8).collect();
    let mut cparams = Blosc2Cparams::default();
    cparams.typesize = 4;
    cparams.filters = [2, 0, 0, 1, 0, 0];
    let cctx = blosc2_create_cctx(cparams);
    let mut compressed = vec![0u8; src.len() + BLOSC2_MAX_OVERHEAD];
    let csize = blosc2_compress_ctx(&cctx, &src, &mut compressed);
    assert!(csize > 0);
    let mut out = vec![0u8; src.len()];
    assert_eq!(blosc2_decompress(&compressed[..csize as usize], &mut out), src.len() as i32);
    assert_eq!(out, src);
}

#[test]
fn level_zero_stores_the_data_as_is() {
    let src: Vec<u8> = (0..256u32).map(|i| (i * 7) as u8).collect();
    let mut dest = vec![0u8; 288];
    assert_eq!(blosc2_compress(0, 0, 1, &src, &mut dest), 288);
    assert_ne!(dest[2] & 0x2, 0);
    assert_eq!(&dest[32..288], &src[..]);
    let mut short = vec![0u8; 287];
    assert_eq!(blosc2_compress(0, 0, 1, &src, &mut short), 0);
}
