use crypt_compress_axum_server::codec::{decode, encode, DecodeError};
use crypt_compress_axum_server::config::CryptoStreamConfig;

#[test]
fn flipped_byte_ten_fails_authentication() {
    let config = CryptoStreamConfig::process_default();
    let mut encoded = encode(&config, b"the quick brown fox").expect("encode");
    encoded[10] ^= 0x01;
    let r = decode(&config, &encoded);
    assert!(matches!(r, Err(DecodeError::Auth)));
}

#[test]
fn every_single_bit_flip_is_rejected() {
    let config = CryptoStreamConfig::process_default();
    let plain = b"the quick brown fox jumps over the lazy dog";
    let encoded = encode(&config, plain).expect("encode");
    for i in 0..encoded.len() {
        for bit in 0..8 {
            let mut tampered = encoded.clone();
            tampered[i] ^= 1u8 << bit;
            let r = decode(&config, &tampered);
            assert!(r.is_err(), "flip of bit {bit} in byte {i} was accepted");
        }
    }
}

#[test]
fn wrong_key_fails_authentication() {
    let config = CryptoStreamConfig::process_default();
    let encoded = encode(&config, b"secret payload").expect("encode");
    let mut other_key = vec![0u8; 32];
    other_key[0] = 1;
    let other = CryptoStreamConfig::new(other_key, config.nonce.clone()).expect("config");
    let r = decode(&other, &encoded);
    assert!(matches!(r, Err(DecodeError::Auth)));
}
