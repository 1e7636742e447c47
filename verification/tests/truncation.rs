use crypt_compress_axum_server::codec::{decode, encode, DecodeError};
use crypt_compress_axum_server::config::CryptoStreamConfig;

/// Deterministic incompressible-looking bytes, without a randomness source.
fn noise(len: usize, seed: u64) -> Vec<u8> {
    let mut state = seed.wrapping_mul(6364136223846793005).wrapping_add(1442695040888963407);
    let mut out = Vec::with_capacity(len);
    for _ in 0..len {
        state = state.wrapping_mul(6364136223846793005).wrapping_add(1442695040888963407);
        out.push((state >> 33) as u8);
    }
    out
}

#[test]
fn sixteen_byte_prefix_yields_no_plaintext() {
    let config = CryptoStreamConfig::process_default();
    let encoded = encode(&config, b"payload").expect("encode");
    assert!(encoded.len() > 16);
    let r = decode(&config, &encoded[..16]);
    assert!(matches!(r, Err(DecodeError::Truncated)));
}

#[test]
fn empty_input_is_rejected_as_truncated() {
    let config = CryptoStreamConfig::process_default();
    let r = decode(&config, b"");
    assert!(matches!(r, Err(DecodeError::Truncated)));
}

#[test]
fn anything_shorter_than_one_complete_frame_is_rejected() {
    // A complete frame is at least 20 bytes: the 4-byte length prefix
    // and a tag-only sealed chunk.
    let config = CryptoStreamConfig::process_default();
    for len in 0..20usize {
        let r = decode(&config, &vec![0u8; len]);
        assert!(r.is_err(), "input of {len} bytes was accepted");
    }
}

#[test]
fn every_strict_prefix_is_rejected() {
    let config = CryptoStreamConfig::process_default();
    // Incompressible input long enough for several frames.
    let data = noise(3000, 11);
    let encoded = encode(&config, &data).expect("encode");
    for cut in 0..encoded.len() {
        let r = decode(&config, &encoded[..cut]);
        assert!(r.is_err(), "strict prefix of length {cut} was accepted");
    }
}
