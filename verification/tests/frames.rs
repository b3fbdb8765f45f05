use blusc::internal::frame::DecompressError;
use blusc::internal::writer::{compute_blocksize, filters_to_flags, split_block};
use blusc::internal::{compress, compress_extended, decompress, getitem};

fn sample(n: usize) -> Vec<u8> {
    (0..n).map(|i| ((i / 7) % 13) as u8).collect()
}

fn noise(n: usize) -> Vec<u8> {
    let mut x: u64 = 0x9E3779B97F4A7C15;
    (0..n)
        .map(|_| {
            x ^= x << 13;
            x ^= x >> 7;
            x ^= x << 17;
            (x >> 24) as u8
        })
        .collect()
}

fn roundtrip_with(compressor: u8, clevel: i32, doshuffle: i32, typesize: usize, src: &[u8]) -> Vec<u8> {
    let mut dest = vec![0u8; 2 * src.len() + 64];
    let c = compress(clevel, doshuffle, typesize, src, &mut dest, compressor).expect("compress failed");
    dest.truncate(c);
    let mut out = vec![0u8; src.len()];
    assert_eq!(decompress(&dest, &mut out), Ok(src.len()));
    assert_eq!(out, src);
    dest
}

fn le32(s: &[u8], pos: usize) -> usize {
    u32::from_le_bytes([s[pos], s[pos + 1], s[pos + 2], s[pos + 3]]) as usize
}

#[test]
fn every_codec_compresses_and_reads_back() {
    let src = sample(50_000);
    for compressor in [0u8, 1, 3, 4, 5] {
        let frame = roundtrip_with(compressor, 5, 1, 4, &src);
        assert_eq!(frame[2] & 0x2, 0, "codec {} stored the data as is", compressor);
        assert_eq!((frame[2] >> 5) & 7, compressor);
        assert!(frame.len() < src.len() / 4, "codec {} did not shrink the data", compressor);
    }
}

#[test]
fn every_codec_reads_back_without_filter_and_with_bitshuffle() {
    let src = sample(64_000);
    for compressor in [0u8, 1, 3, 4, 5] {
        roundtrip_with(compressor, 3, 0, 1, &src);
        roundtrip_with(compressor, 7, 2, 8, &src);
    }
}

#[test]
fn snappy_needs_room_for_its_worst_case() {
    // Snappy refuses an output buffer smaller than its worst case, so with only the
    // recommended overhead the data is stored as is.
    let src = sample(50_000);
    let mut dest = vec![0u8; src.len() + 32];
    let c = compress(5, 1, 4, &src, &mut dest, 3).expect("compress failed");
    assert_eq!(dest[2] & 0x2, 0x2);
    assert_eq!(c, 16 + src.len());
}

#[test]
fn incompressible_data_is_stored() {
    let src = noise(5000);
    let mut dest = vec![0u8; src.len() + 32];
    let c = compress(5, 0, 1, &src, &mut dest, 0).expect("compress failed");
    let frame = &dest[..c];
    assert_eq!(frame[2] & 0x2, 0x2);
    assert_eq!(frame.len(), 16 + src.len());
    assert_eq!(&frame[16..], &src[..]);
}

fn runs(n: usize) -> Vec<u8> {
    (0..n).map(|i| (i / 64) as u8).collect()
}

#[test]
fn header_fields_are_written() {
    let src = runs(1000);
    let frame = roundtrip_with(0, 5, 1, 4, &src);
    assert_eq!(frame[0], 2);
    assert_eq!(frame[1], 1);
    assert_eq!(frame[2] & 0x1, 0x1);
    assert_eq!(frame[3], 4);
    assert_eq!(le32(&frame, 4), 1000);
    assert_eq!(le32(&frame, 8), 1000);
    assert_eq!(le32(&frame, 12), frame.len());
    assert_eq!(le32(&frame, 16), 20);
}

#[test]
fn extended_header_records_filters() {
    let src = runs(3000);
    let filters = [0u8, 0, 0, 0, 0, 1];
    let meta = [9u8, 8, 7, 6, 5, 4];
    let mut dest = vec![0u8; src.len() + 32];
    let c = compress_extended(5, 1, 4, &src, &mut dest, 1, &filters, &meta).expect("compress failed");
    assert_eq!(dest[0], 5);
    assert_eq!(dest[2] & 0x5, 0x5);
    assert_eq!(&dest[16..22], &filters);
    assert_eq!(dest[22], 1);
    assert_eq!(&dest[24..30], &meta);
    let mut out = vec![0u8; src.len()];
    assert_eq!(decompress(&dest[..c], &mut out), Ok(src.len()));
    assert_eq!(out, src);
}

#[test]
fn compression_errors() {
    let src = sample(4000);
    let mut dest = vec![0u8; src.len() + 32];
    // LZ4HC and unknown codecs are not written by this library.
    assert_eq!(compress(5, 0, 1, &src, &mut dest, 2), Err(-1));
    assert_eq!(compress(5, 0, 1, &src, &mut dest, 7), Err(-1));
    // Bitshuffle of nine items: the ninth is copied as it is.
    let nine_items = sample(36);
    let c = compress(5, 2, 4, &nine_items, &mut dest, 0).unwrap();
    let mut back = vec![0u8; 36];
    assert_eq!(decompress(&dest[..c], &mut back), Ok(36));
    assert_eq!(back, nine_items);
    // The data does not fit after the header and does not compress.
    let rnd = noise(100);
    let mut small = vec![0u8; 50];
    assert_eq!(compress(5, 0, 1, &rnd, &mut small, 0), Err(-1));
}

#[test]
fn block_size_choice() {
    assert_eq!(compute_blocksize(5, 4, 100_000, 0), 100_000);
    assert_eq!(compute_blocksize(5, 3, 100_000, 0), 99_999);
    assert_eq!(compute_blocksize(0, 8, 1_000_000, 0), 8192);
    assert_eq!(compute_blocksize(1, 8, 1_000_000, 0), 16_384);
    assert_eq!(compute_blocksize(3, 8, 1_000_000, 0), 65_536);
    assert_eq!(compute_blocksize(9, 8, 10_000_000, 5), 1_048_576);
    assert_eq!(compute_blocksize(9, 8, 10_000_000, 1), 262_144);
    assert_eq!(compute_blocksize(5, 8, 3, 0), 3);
    assert_eq!(compute_blocksize(5, 8, 0, 0), 1);
    assert_eq!(compute_blocksize(12, 8, 1_000_000, 0), 32_768);
}

#[test]
fn block_split_choice() {
    assert!(split_block(0, 5, 4, 4096, 1));
    assert!(!split_block(0, 5, 4, 100, 1));
    assert!(!split_block(0, 5, 4, 4096, 0));
    assert!(!split_block(4, 5, 4, 4096, 1));
    assert!(split_block(5, 5, 4, 4096, 1));
    assert!(!split_block(5, 6, 4, 4096, 1));
    assert!(!split_block(0, 5, 32, 4096, 1));
}

#[test]
fn filter_flags() {
    assert_eq!(filters_to_flags(&[0, 0, 0, 0, 0, 1]), 1);
    assert_eq!(filters_to_flags(&[2, 0, 0, 0, 0, 0]), 4);
    assert_eq!(filters_to_flags(&[1, 0, 3, 0, 2, 0]), 5);
    assert_eq!(filters_to_flags(&[0, 0, 0, 0, 0, 0]), 0);
}

fn header(version: u8, flags: u8, compressor: u8, typesize: u8, nbytes: u32, blocksize: u32, cbytes: u32) -> Vec<u8> {
    let mut h = vec![version, 1, flags | (compressor << 5), typesize];
    h.extend_from_slice(&nbytes.to_le_bytes());
    h.extend_from_slice(&blocksize.to_le_bytes());
    h.extend_from_slice(&cbytes.to_le_bytes());
    h
}

fn one_block(flags: u8, compressor: u8, typesize: u8, nbytes: u32, chunks: &[u8], cbytes: Option<u32>) -> Vec<u8> {
    let total = 20 + chunks.len() as u32;
    let mut f = header(2, flags, compressor, typesize, nbytes, nbytes, cbytes.unwrap_or(total));
    f.extend_from_slice(&20u32.to_le_bytes());
    f.extend_from_slice(chunks);
    f
}

#[test]
fn every_decompression_error() {
    let mut out = vec![0u8; 64];
    assert_eq!(decompress(&[0u8; 10], &mut out), Err(DecompressError::HeaderTooSmall));
    let mut v2 = header(5, 0, 0, 1, 4, 4, 20);
    v2.extend_from_slice(&[0, 0, 0, 0]);
    assert_eq!(decompress(&v2, &mut out), Err(DecompressError::ExtendedHeaderTooSmall));
    let stored = header(2, 0x2, 0, 1, 10, 10, 26);
    assert_eq!(decompress(&stored, &mut out[..5]), Err(DecompressError::DestinationTooSmall));
    assert_eq!(decompress(&stored, &mut out), Err(DecompressError::StoredDataTruncated));
    let no_table = header(2, 0, 0, 1, 10, 10, 16);
    assert_eq!(decompress(&no_table, &mut out), Err(DecompressError::BstartsTruncated));
    let mut backwards = header(2, 0, 0, 1, 10, 10, 20);
    backwards.extend_from_slice(&30u32.to_le_bytes());
    assert_eq!(decompress(&backwards, &mut out), Err(DecompressError::BlockOutOfOrder));
    let beyond = one_block(0, 0, 1, 10, &[0, 0, 0, 0], Some(100));
    assert_eq!(decompress(&beyond, &mut out), Err(DecompressError::BlockTruncated));
    let short_size = one_block(0, 0, 1, 10, &[1, 0], None);
    assert_eq!(decompress(&short_size, &mut out), Err(DecompressError::ChunkHeaderTruncated));
    let overrun = one_block(0, 0, 1, 10, &[50, 0, 0, 0, 1, 2], None);
    assert_eq!(decompress(&overrun, &mut out), Err(DecompressError::ChunkOverrun));
    let bad_lz4 = one_block(0, 1, 1, 10, &[1, 0, 0, 0, 0xF0], None);
    assert_eq!(decompress(&bad_lz4, &mut out), Err(DecompressError::CodecFailed));
    let unknown = one_block(0, 6, 1, 10, &[1, 0, 0, 0, 0], None);
    assert_eq!(decompress(&unknown, &mut out), Err(DecompressError::UnsupportedCompressor));
    let empty_stream = one_block(0, 0, 1, 10, &[0, 0, 0, 0], None);
    assert_eq!(decompress(&empty_stream, &mut out), Err(DecompressError::SizeMismatch));
    let mut literal12 = vec![13u8, 0, 0, 0, 11];
    literal12.extend(1u8..=12);
    // three 4-byte items: no whole group of eight, so the block is copied
    let bits = one_block(0x4, 0, 4, 12, &literal12, None);
    assert_eq!(decompress(&bits, &mut out), Ok(12));
    assert_eq!(&out[..12], &[1u8, 2, 3, 4, 5, 6, 7, 8, 9, 10, 11, 12]);
    let bits0 = one_block(0x4, 0, 0, 12, &literal12, None);
    assert_eq!(decompress(&bits0, &mut out), Err(DecompressError::BitunshuffleFailed));
    let plain = one_block(0, 0, 4, 12, &literal12, None);
    assert_eq!(decompress(&plain, &mut out), Ok(12));
    assert_eq!(&out[..12], &[1u8, 2, 3, 4, 5, 6, 7, 8, 9, 10, 11, 12]);
}

#[test]
fn decompress_keeps_bytes_past_the_data() {
    let src = runs(500);
    let mut dest = vec![0u8; 600];
    let c = compress(5, 1, 4, &src, &mut dest, 0).expect("compress failed");
    let mut out = vec![0xA5u8; 520];
    assert_eq!(decompress(&dest[..c], &mut out), Ok(500));
    assert_eq!(&out[..500], &src[..]);
    assert_eq!(&out[500..], &[0xA5u8; 20]);
}

#[test]
fn getitem_matches_decompression_across_blocks() {
    let src = sample(300_000);
    let mut dest = vec![0u8; src.len() + 32];
    let c = compress(0, 1, 4, &src, &mut dest, 1).expect("compress failed");
    let frame = &dest[..c];
    let bs = le32(frame, 8);
    assert!(bs < src.len());
    let mut items = vec![0u8; 40_000];
    let n = getitem(frame, 1000, 10_000, &mut items).expect("getitem failed");
    assert_eq!(n, 40_000);
    assert_eq!(&items[..], &src[4000..44_000]);
}

#[test]
fn getitem_errors_and_edges() {
    let src = runs(1000);
    let frame = roundtrip_with(0, 5, 1, 4, &src);
    let mut dest = vec![7u8; 16];
    assert_eq!(getitem(&frame[..10], 0, 1, &mut dest), Err(-1));
    assert_eq!(getitem(&frame[..frame.len() - 1], 0, 1, &mut dest), Err(-1));
    assert_eq!(getitem(&frame, 249, 2, &mut dest), Err(-1));
    assert_eq!(getitem(&frame, 0, 5, &mut dest), Err(-1));
    assert_eq!(dest, vec![7u8; 16]);
    assert_eq!(getitem(&frame, 3, 0, &mut dest), Ok(0));
    assert_eq!(getitem(&frame, 10, 4, &mut dest), Ok(16));
    assert_eq!(&dest[..], &src[40..56]);
    let rnd = noise(64);
    let mut stored = vec![0u8; 96];
    let c = compress(5, 0, 1, &rnd, &mut stored, 0).expect("compress failed");
    stored.truncate(c);
    assert_eq!(stored[2] & 0x2, 0x2);
    let mut two = vec![0u8; 4];
    assert_eq!(getitem(&stored, 5, 2, &mut two), Ok(2));
    assert_eq!(&two[..2], &rnd[5..7]);
    assert_eq!(&two[2..], &[0, 0]);
}

#[test]
fn level_zero_stores() {
    let src = vec![0u8; 4000];
    let mut dest = vec![0u8; src.len() + 32];
    let c = compress(0, 1, 4, &src, &mut dest, 0).unwrap();
    assert_eq!(c, 16 + src.len());
    assert!(dest[2] & 0x2 != 0);
    assert_eq!(&dest[16..c], &src[..]);
    let mut small = vec![0u8; 100];
    assert_eq!(compress(0, 1, 4, &src, &mut small, 0), Err(-1));
}

#[test]
fn block_offsets_increase_and_end_inside_the_buffer() {
    let src = sample(300_000);
    let frame = roundtrip_with(0, 5, 1, 4, &src);
    assert_eq!(frame[2] & 0x2, 0);
    let bs = le32(&frame, 8);
    let nb = (src.len() + bs - 1) / bs;
    assert!(nb > 1);
    assert_eq!(le32(&frame, 16), 16 + 4 * nb);
    for t in 0..nb {
        let off = le32(&frame, 16 + 4 * t);
        assert!(off < frame.len());
        if t + 1 < nb {
            assert!(off < le32(&frame, 16 + 4 * (t + 1)));
        }
    }
}

#[test]
fn compressed_data_fits_where_the_stored_form_would_not() {
    let src = vec![0u8; 10_000];
    let mut dest = vec![0u8; 300];
    let c = compress(5, 1, 4, &src, &mut dest, 0).expect("compress failed");
    assert_eq!(dest[2] & 0x2, 0);
    assert!(c < 300);
    let mut out = vec![1u8; src.len()];
    assert_eq!(decompress(&dest[..c], &mut out), Ok(src.len()));
    assert_eq!(out, src);
}

#[test]
fn level_zero_needs_room_for_the_data() {
    let src = sample(1000);
    let mut dest = vec![0u8; 1015];
    assert!(compress(0, 1, 4, &src, &mut dest, 0).is_err());
    let mut dest = vec![0u8; 1016];
    assert_eq!(compress(0, 1, 4, &src, &mut dest, 0), Ok(1016));
    assert_eq!(&dest[16..], &src[..]);
}

#[test]
fn items_read_from_a_compressed_buffer_are_the_data() {
    let src = sample(40_000);
    let frame = roundtrip_with(0, 5, 1, 4, &src);
    assert_eq!(frame[2] & 0x2, 0);
    let mut out = vec![0u8; 200];
    assert_eq!(getitem(&frame, 1000, 50, &mut out), Ok(200));
    assert_eq!(&out[..], &src[4000..4200]);
}
