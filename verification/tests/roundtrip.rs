use crypt_compress_axum_server::codec::{decode, encode, round_trip};
use crypt_compress_axum_server::config::CryptoStreamConfig;

fn round_trip_bytes(data: &[u8]) -> Vec<u8> {
    let config = CryptoStreamConfig::process_default();
    let encoded = encode(&config, data).expect("encode should succeed");
    decode(&config, &encoded).expect("decode of encoded stream should succeed")
}

/// Deterministic incompressible-looking bytes, without a randomness source.
fn noise(len: usize, seed: u64) -> Vec<u8> {
    let mut state = seed.wrapping_mul(6364136223846793005).wrapping_add(1442695040888963407);
    let mut out = Vec::with_capacity(len);
    for _ in 0..len {
        state = state.wrapping_mul(6364136223846793005).wrapping_add(1442695040888963407);
        out.push((state >> 33) as u8);
    }
    out
}

#[test]
fn empty_round_trips_and_stream_is_non_empty() {
    let config = CryptoStreamConfig::process_default();
    let encoded = encode(&config, b"").expect("encode of empty input should succeed");
    assert!(!encoded.is_empty());
    let decoded = decode(&config, &encoded).expect("decode should succeed");
    assert_eq!(decoded, b"".to_vec());
}

#[test]
fn hello_round_trips_with_frame_overhead() {
    let config = CryptoStreamConfig::process_default();
    let plain = b"hello";
    let encoded = encode(&config, plain).expect("encode should succeed");
    let compressed = zstd::stream::encode_all(&plain[..], 1).expect("zstd");
    // One frame: 4-byte length prefix and a 16-byte tag on top of the
    // compressed payload.
    assert_eq!(encoded.len(), compressed.len() + 20);
    assert!(encoded.len() >= compressed.len() + 20);
    let decoded = decode(&config, &encoded).expect("decode should succeed");
    assert_eq!(decoded, plain.to_vec());
}

#[test]
fn single_byte_round_trips() {
    assert_eq!(round_trip_bytes(b"x"), b"x".to_vec());
}

#[test]
fn sizes_around_duplex_capacity_round_trip() {
    for len in [8191usize, 8192, 8193] {
        let data = noise(len, len as u64);
        assert_eq!(round_trip_bytes(&data), data, "length {len}");
    }
}

#[test]
fn multi_frame_stream_round_trips() {
    // Incompressible input well past one 1024-byte frame payload.
    let data = noise(64 * 1024, 7);
    assert_eq!(round_trip_bytes(&data), data);
}

#[test]
fn megabyte_of_zeroes_compresses_small_and_round_trips() {
    let config = CryptoStreamConfig::process_default();
    let data = vec![0u8; 1_048_576];
    let encoded = encode(&config, &data).expect("encode should succeed");
    assert!(encoded.len() < 4096, "highly compressible input should stay small, got {}", encoded.len());
    let decoded = decode(&config, &encoded).expect("decode should succeed");
    assert_eq!(decoded, data);
}

#[test]
fn round_trip_composition_returns_the_input() {
    let config = CryptoStreamConfig::process_default();
    let data = noise(10_000, 3);
    let back = round_trip(&config, &data).expect("round trip");
    assert_eq!(back, data);
}

#[test]
fn multi_frame_overhead_is_exactly_twenty_bytes_per_frame() {
    let config = CryptoStreamConfig::process_default();
    let data = noise(32 * 1024, 5);
    let encoded = encode(&config, &data).expect("encode");
    let compressed = zstd::stream::encode_all(&data[..], 1).expect("zstd");
    let frames = compressed.len().div_ceil(1024).max(1);
    assert_eq!(encoded.len(), compressed.len() + 20 * frames);
}

#[test]
fn encode_is_deterministic_across_runs() {
    let config = CryptoStreamConfig::process_default();
    let data = noise(3000, 42);
    let one = encode(&config, &data).expect("encode");
    let two = encode(&config, &data).expect("encode");
    assert_eq!(one, two);
}

#[test]
fn hundred_distinct_payloads_round_trip_without_cross_talk() {
    let config = CryptoStreamConfig::process_default();
    let mut encodings = Vec::new();
    for i in 0..100u64 {
        let data = noise(64 * 1024, i);
        let encoded = encode(&config, &data).expect("encode");
        encodings.push((data, encoded));
    }
    for (data, encoded) in &encodings {
        let decoded = decode(&config, encoded).expect("decode");
        assert_eq!(&decoded, data);
    }
}
