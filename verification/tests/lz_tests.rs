use dpc::codec::{lz_frame_bytes, parse_lz_frame, LZLZ4, LZLZSS};
use dpc::lz::{lzss_decompress, lzss_decompress_checked, LzError};
use dpc::lz_chain::lzss_compress;
use dpc::lz_opt::{lzss_compress_optimized, lzss_compress_optimized_checked};

fn sample(n: usize) -> Vec<u8> {
    let text = b"the quick brown fox jumps over the lazy dog; the lazy dog sleeps. ";
    let mut v = Vec::new();
    for i in 0..n {
        v.push(text[i % text.len()] ^ ((i / 97) as u8 & 3));
    }
    v
}

#[test]
fn decompress_literals_and_back_reference() {
    // two literals, then a back reference of length 6 at distance 2
    let stream = [0x20, 0x00, 0x00, 0x00, b'a', b'b', 0xC0, 0x01];
    let mut out = vec![0u8; 8];
    let r = lzss_decompress(&stream, stream.len(), &mut out, 8, false);
    assert_eq!(r, Ok(8));
    assert_eq!(&out, b"abababab");
}

#[test]
fn decompress_stops_at_requested_size() {
    let stream = [0x00, 0x00, 0x00, 0x00, b'x', b'y', b'z'];
    let mut out = vec![7u8; 5];
    let r = lzss_decompress(&stream, stream.len(), &mut out, 2, false);
    assert_eq!(r, Ok(2));
    assert_eq!(out, vec![b'x', b'y', 7, 7, 7]);
}

#[test]
fn decompress_full_buffer_is_write_zero() {
    let stream = [0x20, 0x00, 0x00, 0x00, b'a', b'b', 0xC0, 0x01];
    let mut out = vec![0u8; 4];
    let r = lzss_decompress(&stream, stream.len(), &mut out, 8, false);
    assert_eq!(r, Err(LzError::WriteZero));
    assert_eq!(&out, b"abab");
}

#[test]
fn decompress_truncated_stream_is_malformed() {
    let stream = [0x00, 0x00, 0x00];
    let mut out = vec![0u8; 4];
    assert_eq!(lzss_decompress_checked(&stream, &mut out, 4, false), Err(LzError::Malformed));
    // a back reference before the start of the output
    let stream = [0x80, 0x00, 0x00, 0x00, 0x00, 0x05];
    assert_eq!(lzss_decompress_checked(&stream, &mut out, 4, false), Err(LzError::Malformed));
}

#[test]
fn optimized_roundtrip() {
    for n in [1usize, 2, 3, 29, 30, 31, 100, 1000, 5000] {
        let x = sample(n);
        let mut c = vec![0u8; 2 * n + 8];
        let len = lzss_compress_optimized(&x, n, &mut c, 2 * n + 8).unwrap();
        let mut y = vec![0u8; n];
        assert_eq!(lzss_decompress(&c[..len], len, &mut y, n, false), Ok(n));
        assert_eq!(x, y);
    }
}

#[test]
fn optimized_compresses_repetition() {
    let x = vec![0x55u8; 4096];
    let mut c = vec![0u8; 8192];
    let len = lzss_compress_optimized(&x, x.len(), &mut c, 8192).unwrap();
    assert!(len < 600);
}

#[test]
fn optimized_small_buffer_errors() {
    let x = sample(64);
    let mut c = vec![0u8; 2];
    assert_eq!(
        lzss_compress_optimized_checked(&x, 64, &mut c),
        Err(LzError::FlagOutOfBounds)
    );
    let mut c = vec![0u8; 10];
    assert_eq!(lzss_compress_optimized_checked(&x, 64, &mut c), Err(LzError::WriteZero));
}

#[test]
fn hash_chain_roundtrip() {
    for n in [1usize, 2, 5, 31, 300, 4000, 20000] {
        let x = sample(n);
        let mut padded = x.clone();
        padded.push(0);
        padded.push(0);
        let mut c = vec![0u8; 2 * n + 8];
        let len = lzss_compress(&padded, n, &mut c, 2 * n + 8).unwrap();
        let mut y = vec![0u8; n];
        assert_eq!(lzss_decompress(&c[..len], len, &mut y, n, false), Ok(n));
        assert_eq!(x, y);
    }
}

#[test]
fn frame_roundtrip_and_errors() {
    let f = lz_frame_bytes(10, &[1, 2, 3]);
    assert_eq!(f, vec![10, 0, 0, 0, 11, 0, 0, 0, 1, 2, 3]);
    let fr = parse_lz_frame(&f).ok().unwrap();
    assert_eq!(fr.decompressed_len, 10);
    assert_eq!(fr.compressed, vec![1, 2, 3]);
    assert_eq!(parse_lz_frame(&[1, 2, 3]).err(), Some(LzError::Truncated));
    assert_eq!(parse_lz_frame(&[0, 0, 0, 0, 7, 0, 0, 0]).err(), Some(LzError::BadLength));
    // a short file is read into a zeroed buffer
    let fr = parse_lz_frame(&[0, 0, 0, 0, 12, 0, 0, 0, 9]).ok().unwrap();
    assert_eq!(fr.compressed, vec![9, 0, 0, 0]);
}

#[test]
fn lzss_file_roundtrip() {
    let codec = LZLZSS {};
    let x = sample(3000);
    let f = codec.compress_bytes(&x).unwrap();
    assert_eq!(&f[0..4], &(3000u32).to_le_bytes());
    assert_eq!(u32::from_le_bytes([f[4], f[5], f[6], f[7]]) as usize, f.len());
    assert_eq!(codec.decompress_bytes(&f).unwrap(), x);
}

#[test]
fn lzss_file_tiny_input_overflows() {
    let codec = LZLZSS {};
    assert_eq!(codec.compress_bytes(&vec![42u8]), Err(LzError::WriteZero));
}

#[test]
fn lzss_compress_internal_keeps_input() {
    let codec = LZLZSS {};
    let mut x = sample(500);
    let original = x.clone();
    let mut c = vec![0u8; 1000];
    codec.compress_internal(&mut x, &mut c).unwrap();
    assert_eq!(x, original);
    assert!(c.len() < 1000);
    let mut y = vec![0u8; 500];
    codec.decompress_internal(&c, &mut y).unwrap();
    assert_eq!(y, original);
}

#[test]
fn lz4_roundtrip() {
    let codec = LZLZ4 {};
    let x = sample(10000);
    let f = codec.compress_bytes(&x).unwrap();
    assert_ne!(&f[8..], &x[..]);
    let y = codec.decompress_bytes(&f).unwrap();
    assert_eq!(y, x);
}

#[test]
fn lz4_internal_overwrites_start() {
    let codec = LZLZ4 {};
    let mut x = sample(4000);
    let mut c = vec![0u8; 8000];
    codec.compress_internal(&mut x, &mut c).unwrap();
    assert_eq!(c.len(), 8000);
    assert_eq!(&c[0..4], &[0x04, 0x22, 0x4d, 0x18]);
    let mut y = vec![0u8; 4000];
    codec.decompress_internal(&c, &mut y).unwrap();
    assert_eq!(y, x);
}

#[test]
fn lz4_garbage_is_codec_error() {
    let codec = LZLZ4 {};
    let mut y = vec![0u8; 16];
    assert_eq!(codec.decompress_internal(&vec![1, 2, 3, 4, 5, 6, 7, 8, 9, 10, 11, 12], &mut y), Err(LzError::Codec));
}

#[test]
fn lzss_file_of_four_bytes_compresses() {
    let codec = LZLZSS {};
    for n in 4..64usize {
        let x: Vec<u8> = (0..n).map(|i| (i * 7 + 3) as u8).collect();
        let f = codec.compress_bytes(&x).unwrap();
        assert!(f.len() <= 8 + n + 4 * ((n + 29) / 30));
        assert_eq!(codec.decompress_bytes(&f).unwrap(), x);
    }
}
