use blusc::codecs::blosclz::{compress, decompress};

#[test]
fn blosclz_roundtrip_at_every_level() {
    let src: Vec<u8> = (0..20_000u32).map(|i| ((i / 40) % 97) as u8).collect();
    for clevel in 1..=9 {
        let mut out = vec![0u8; src.len() + 100];
        let n = compress(clevel, &src, &mut out);
        assert!(n > 0 && n < src.len(), "level {}", clevel);
        let mut back = vec![0u8; src.len()];
        assert_eq!(decompress(&out[..n], &mut back), src.len());
        assert_eq!(back, src);
    }
}

#[test]
fn blosclz_refuses_tiny_buffers() {
    let src = vec![0u8; 15];
    let mut out = vec![0u8; 200];
    assert_eq!(compress(5, &src, &mut out), 0);
    let src = vec![0u8; 1000];
    let mut out = vec![0u8; 65];
    assert_eq!(compress(5, &src, &mut out), 0);
}

#[test]
fn blosclz_decodes_literals_and_rejects_garbage() {
    let stream = [4u8, 10, 20, 30, 40, 50];
    let mut out = [0u8; 5];
    assert_eq!(decompress(&stream, &mut out), 5);
    assert_eq!(out, [10, 20, 30, 40, 50]);
    let mut small = [0u8; 4];
    assert_eq!(decompress(&stream, &mut small), 0);
    assert_eq!(decompress(&[], &mut small), 0);
}

#[test]
fn blosclz_shrinks_runs() {
    let src = vec![9u8; 10_000];
    let mut out = vec![0u8; 10_100];
    let n = compress(9, &src, &mut out);
    assert!(n > 0 && n < 200);
}

#[test]
fn blosclz_decompress_leaves_tail() {
    let src: Vec<u8> = (0..2000u32).map(|i| (i / 10) as u8).collect();
    let mut comp = vec![0u8; 3000];
    let n = compress(5, &src, &mut comp);
    assert!(n > 0 && n < src.len());
    let mut out = vec![0xeeu8; 2100];
    assert_eq!(decompress(&comp[..n], &mut out), 2000);
    assert_eq!(&out[..2000], &src[..]);
    assert!(out[2000..].iter().all(|&b| b == 0xee));
}

#[test]
fn blosclz_exact_streams() {
    let mut out = vec![0u8; 66];
    let n = compress(5, &[0u8; 32], &mut out);
    assert_eq!(n, 12);
    assert_eq!(&out[..12], &[0x23, 0x00, 0x00, 0x00, 0x00, 0xE0, 0x10, 0x03, 0x02, 0x00, 0x00, 0x00]);
    let mut out = vec![0u8; 1000];
    let input = *b"abcdefghijklmnop";
    let n = compress(5, &input, &mut out);
    assert_eq!(n, 17);
    assert_eq!(out[0], 0x2F);
    assert_eq!(&out[1..17], &input[..]);
}
