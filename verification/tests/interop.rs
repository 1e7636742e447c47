use chacha20poly1305::aead::generic_array::GenericArray;
use chacha20poly1305::aead::stream::{DecryptorLE31, EncryptorLE31};
use chacha20poly1305::{KeyInit, XChaCha20Poly1305};
use crypt_compress_axum_server::codec::{decode, encode};
use crypt_compress_axum_server::config::{default_key, default_nonce, CryptoStreamConfig};

const KEY: &[u8; 32] = b"01234567012345670123456701234567";
const NONCE: &[u8; 20] = b"unique_nonce_20_byte";

/// Frames `payload` exactly as the wire format prescribes — length
/// prefix, 1024-byte chunks, last frame sealed with the last-frame flag —
/// driving the stream construction of the AEAD crate directly. This
/// checks the codec against the construction itself, the form the design
/// prescribes; the served pipeline's write half seals every frame with
/// the next-frame flag and so differs at the final frame.
fn reference_stream(payload: &[u8]) -> Vec<u8> {
    let compressed = zstd::stream::encode_all(payload, 1).expect("zstd");
    let mut encryptor: EncryptorLE31<XChaCha20Poly1305> = EncryptorLE31::from_aead(
        XChaCha20Poly1305::new(GenericArray::from_slice(KEY)),
        GenericArray::from_slice(NONCE),
    );
    let chunks: Vec<&[u8]> = if compressed.is_empty() {
        vec![&compressed[..]]
    } else {
        compressed.chunks(1024).collect()
    };
    let mut out = Vec::new();
    for (i, chunk) in chunks.iter().enumerate() {
        let sealed = if i + 1 == chunks.len() {
            break;
        } else {
            encryptor.encrypt_next(*chunk).expect("seal")
        };
        out.extend_from_slice(&(sealed.len() as u32).to_le_bytes());
        out.extend_from_slice(&sealed);
    }
    let last = chunks[chunks.len() - 1];
    let sealed = encryptor.encrypt_last(last).expect("seal last");
    out.extend_from_slice(&(sealed.len() as u32).to_le_bytes());
    out.extend_from_slice(&sealed);
    out
}

#[test]
fn default_material_matches_the_process_constants() {
    assert_eq!(default_key(), KEY.to_vec());
    assert_eq!(default_nonce(), NONCE.to_vec());
}

#[test]
fn encode_matches_the_reference_construction_byte_for_byte() {
    let config = CryptoStreamConfig::process_default();
    for payload in [
        &b""[..],
        &b"hello"[..],
        &[7u8; 5000][..],
    ] {
        let ours = encode(&config, payload).expect("encode");
        let reference = reference_stream(payload);
        assert_eq!(ours, reference, "payload length {}", payload.len());
    }
}

#[test]
fn decode_accepts_a_stream_the_reference_construction_sealed() {
    let config = CryptoStreamConfig::process_default();
    let payload = b"interoperability across implementations";
    let reference = reference_stream(payload);
    let decoded = decode(&config, &reference).expect("decode");
    assert_eq!(decoded, payload.to_vec());
}

#[test]
fn reference_decryptor_opens_an_encoded_stream() {
    let config = CryptoStreamConfig::process_default();
    let payload = vec![3u8; 4000];
    let encoded = encode(&config, &payload).expect("encode");
    let mut decryptor: DecryptorLE31<XChaCha20Poly1305> = DecryptorLE31::from_aead(
        XChaCha20Poly1305::new(GenericArray::from_slice(KEY)),
        GenericArray::from_slice(NONCE),
    );
    let mut compressed = Vec::new();
    let mut at = 0usize;
    while at < encoded.len() {
        let mut len_bytes = [0u8; 4];
        len_bytes.copy_from_slice(&encoded[at..at + 4]);
        let len = u32::from_le_bytes(len_bytes) as usize;
        let frame = &encoded[at + 4..at + 4 + len];
        at += 4 + len;
        let opened = if at == encoded.len() {
            break;
        } else {
            decryptor.decrypt_next(frame).expect("open")
        };
        compressed.extend_from_slice(&opened);
    }
    // Reopen the last frame with the last-frame flag.
    let mut len_bytes = [0u8; 4];
    let tail_start = {
        // Find the start of the last frame again by re-walking the stream.
        let mut at = 0usize;
        let mut last = 0usize;
        while at < encoded.len() {
            last = at;
            len_bytes.copy_from_slice(&encoded[at..at + 4]);
            at += 4 + u32::from_le_bytes(len_bytes) as usize;
        }
        last
    };
    len_bytes.copy_from_slice(&encoded[tail_start..tail_start + 4]);
    let len = u32::from_le_bytes(len_bytes) as usize;
    let opened = decryptor
        .decrypt_last(&encoded[tail_start + 4..tail_start + 4 + len])
        .expect("open last");
    compressed.extend_from_slice(&opened);
    let recovered = zstd::stream::decode_all(&compressed[..]).expect("zstd");
    assert_eq!(recovered, payload);
}
