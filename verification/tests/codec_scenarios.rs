use blusc::codecs::blosclz;
use blusc::filters::{bitshuffle, bitunshuffle};

#[test]
fn debug_bitshuffle_large() {
    let size = 200000;
    let typesize = 8;
    let blocksize = size * typesize;
    let mut src = vec![0u8; blocksize];
    for i in 0..size {
        let val = i as f64;
        let bytes = val.to_le_bytes();
        for j in 0..8 {
            src[i * 8 + j] = bytes[j];
        }
    }
    let mut dest = vec![0u8; blocksize];
    bitshuffle(typesize, blocksize, &src, &mut dest).unwrap();
    let mut compressed = vec![0u8; size + size / 2];
    for split_idx in [6usize, 7, 0] {
        let start = split_idx * size;
        let chunk = &dest[start..start + size];
        let csize = blosclz::compress(1, chunk, &mut compressed);
        println!("Split {} compressed size: {}", split_idx, csize);
    }
}

#[test]
fn test_very_simple() {
    let input = b"abcdefghijklmnop";
    let mut compressed = vec![0u8; 1000];
    let comp_size = blosclz::compress(5, input, &mut compressed);
    assert!(comp_size > 0);
    let mut decompressed = vec![0u8; input.len()];
    let decomp_size = blosclz::decompress(&compressed[0..comp_size], &mut decompressed);
    assert_eq!(decomp_size, input.len());
    assert_eq!(&decompressed[0..decomp_size], input);
}

#[test]
fn test_c_decompress_rust_compressed() {
    let input: Vec<f32> = (0..10000).map(|i| (i % 100) as f32 + (i / 100) as f32 * 0.1).collect();
    let input_bytes: Vec<u8> = input.iter().flat_map(|f| f.to_le_bytes()).collect();
    let mut compressed = vec![0u8; input_bytes.len() * 2];
    let compressed_size = blosclz::compress(9, &input_bytes, &mut compressed);
    if compressed_size == 0 {
        panic!("Compression failed");
    }
    compressed.truncate(compressed_size);
    let mut decompressed = vec![0u8; input_bytes.len()];
    let decompressed_size = blosclz::decompress(&compressed, &mut decompressed);
    if decompressed_size == 0 {
        panic!("Rust decompression failed");
    }
    assert_eq!(&decompressed[..input_bytes.len()], &input_bytes[..]);
}

#[test]
fn debug_compression_first_match() {
    let src: Vec<f32> = (0..10000).map(|num| ((num * 8923) % 100) as f32 / 2f32).collect();
    let src_bytes: Vec<u8> = src.iter().flat_map(|f| f.to_ne_bytes()).collect();
    let mut compressed = vec![0u8; src_bytes.len() * 2];
    let result = blosclz::compress(0, &src_bytes, &mut compressed);
    println!("Compressed {} bytes to {} bytes", src_bytes.len(), result);
    let seq_0 = u32::from_le_bytes([src_bytes[0], src_bytes[1], src_bytes[2], src_bytes[3]]);
    let seq_7936 = u32::from_le_bytes([src_bytes[7936], src_bytes[7937], src_bytes[7938], src_bytes[7939]]);
    println!("Match: {}", seq_0 == seq_7936);
    if result > 0 {
        let ctrl = compressed[0] & 31;
        println!("First control byte: 0x{:02x}", ctrl);
    }
}

#[test]
fn test_simple_compress() {
    let mut input = Vec::new();
    for _i in 0..100 {
        input.extend_from_slice(&(42.0f32).to_le_bytes());
    }
    let mut output = vec![0u8; input.len() * 2];
    let compressed_size = blosclz::compress(5, &input, &mut output);
    let mut input2 = Vec::new();
    for i in 0..100 {
        input2.extend_from_slice(&(i as f32).to_le_bytes());
    }
    let compressed_size2 = blosclz::compress(5, &input2, &mut output);
    println!("Compressed sizes: {} {}", compressed_size, compressed_size2);
    assert!(compressed_size > 0, "Compression failed");
    assert!(compressed_size < input.len() / 2, "Repeated data should compress to <50%");
}

#[test]
fn test_bitshuffle_large() {
    let size = 10000;
    let typesize = 8;
    let blocksize = size * typesize;
    let mut src = vec![0u8; blocksize];
    for i in 0..blocksize {
        src[i] = (i % 255) as u8;
    }
    let mut dest = vec![0u8; blocksize];
    let mut recovered = vec![0u8; blocksize];
    let result = bitshuffle(typesize, blocksize, &src, &mut dest);
    assert!(result.is_ok(), "Bitshuffle failed: {:?}", result);
    let result2 = bitunshuffle(typesize, blocksize, &dest, &mut recovered);
    assert!(result2.is_ok(), "Bitunshuffle failed: {:?}", result2);
    assert_eq!(src, recovered, "Bitshuffle roundtrip failed");
}

#[test]
fn test_bitshuffle_pattern() {
    let type_size = 8;
    let num_elements = 10000;
    let buffer_size = type_size * num_elements;
    let mut original = vec![0u8; buffer_size];
    for j in 0..buffer_size {
        original[j] = (j % 255) as u8;
    }
    let mut dest = vec![0u8; buffer_size];
    let result = bitshuffle(type_size, buffer_size, &original, &mut dest);
    assert!(result.is_ok());
    let mut run_count = 0;
    let mut prev = dest[0];
    for &b in &dest[1..1000] {
        if b == prev {
            run_count += 1;
        }
        prev = b;
    }
    println!("Runs of identical bytes in first 1000: {}", run_count);
}

#[test]
fn test_blosclz_on_bitshuffled_data() {
    let type_size = 8;
    let num_elements = 10000;
    let buffer_size = type_size * num_elements;
    let mut original = vec![0u8; buffer_size];
    for j in 0..buffer_size {
        original[j] = (j % 255) as u8;
    }
    let mut bitshuffled = vec![0u8; buffer_size];
    let result = bitshuffle(type_size, buffer_size, &original, &mut bitshuffled);
    assert!(result.is_ok());
    let mut compressed = vec![0u8; buffer_size * 2];
    let csize = blosclz::compress(5, &bitshuffled, &mut compressed);
    let expected_ratio = 36.0;
    let actual_ratio = buffer_size as f64 / csize as f64;
    if actual_ratio < expected_ratio / 2.0 {
        panic!("Compression ratio is too low! Expected ~{:.1}:1, got {:.2}:1", expected_ratio, actual_ratio);
    }
}

#[test]
fn test_blosclz_compression_ratio() {
    let mut data = vec![0u8; 10000];
    for i in 0..10000 {
        data[i] = (i / 100) as u8;
    }
    let mut compressed = vec![0u8; 20000];
    let csize = blosclz::compress(5, &data, &mut compressed);
    assert!(csize < data.len() / 2, "Compression should be better than 2:1 for this data");
}
