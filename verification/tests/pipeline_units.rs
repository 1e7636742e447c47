use crypt_compress_axum_server::cipher::seal_frame;
use crypt_compress_axum_server::codec::{decode, encode, DecodeError};
use crypt_compress_axum_server::config::{ConfigError, CryptoStreamConfig};
use crypt_compress_axum_server::duplex::DuplexChannel;
use crypt_compress_axum_server::producer::{
    producer_step, ProducerAction, ProducerEvent, ProducerState,
};
use crypt_compress_axum_server::response::{
    streaming_response_content_type, streaming_response_status,
};
use crypt_compress_axum_server::DUPLEX_CAPACITY;

#[test]
fn duplex_keeps_fifo_order_and_respects_capacity() {
    let mut ch = DuplexChannel::new(8);
    let n = ch.write(b"abcdef");
    assert_eq!(n, 6);
    // Only two bytes of room are left: the write is clamped.
    let n = ch.write(b"ghijk");
    assert_eq!(n, 2);
    let first = ch.read(4);
    assert_eq!(first, b"abcd".to_vec());
    let n = ch.write(b"ijk");
    assert_eq!(n, 3);
    let rest = ch.read(100);
    assert_eq!(rest, b"efghijk".to_vec());
}

#[test]
fn duplex_close_drains_then_ends() {
    let mut ch = DuplexChannel::new(4);
    ch.write(b"hi");
    ch.close();
    assert!(!ch.at_end());
    assert_eq!(ch.read(10), b"hi".to_vec());
    assert!(ch.at_end());
    assert_eq!(ch.read(10), Vec::<u8>::new());
}

#[test]
fn duplex_capacity_matches_the_encode_path() {
    assert_eq!(DUPLEX_CAPACITY, 8192);
    assert_eq!(crypt_compress_axum_server::duplex_capacity(), 8192);
}

#[test]
fn producer_writes_chunks_and_finalizes_on_every_exit() {
    let (state, action) = producer_step(
        ProducerState::Pulling,
        ProducerEvent::ChunkArrived(b"data".to_vec()),
    );
    assert_eq!(state, ProducerState::Pulling);
    assert!(matches!(action, ProducerAction::WriteChunk(b) if b == b"data".to_vec()));

    for event in [
        ProducerEvent::IngressFailed,
        ProducerEvent::WriteFailed,
        ProducerEvent::BodyFinished,
    ] {
        let (state, action) = producer_step(ProducerState::Pulling, event);
        assert_eq!(state, ProducerState::Stopped);
        assert!(matches!(action, ProducerAction::Finalize));
    }
}

#[test]
fn streaming_responses_are_ok_and_octet_stream() {
    assert_eq!(streaming_response_status(), 200);
    assert_eq!(streaming_response_content_type(), "application/octet-stream");
}

#[test]
fn config_rejects_wrong_lengths() {
    assert!(matches!(
        CryptoStreamConfig::new(vec![0u8; 31], vec![0u8; 20]),
        Err(ConfigError::BadKeyLength)
    ));
    assert!(matches!(
        CryptoStreamConfig::new(vec![0u8; 32], vec![0u8; 19]),
        Err(ConfigError::BadNonceLength)
    ));
    assert!(CryptoStreamConfig::new(vec![0u8; 32], vec![0u8; 20]).is_ok());
}

#[test]
fn ordinary_inputs_encode_without_error() {
    let config = CryptoStreamConfig::process_default();
    assert!(encode(&config, b"ordinary").is_ok());
}

#[test]
fn authentic_frames_around_a_non_zstd_payload_yield_a_format_error() {
    let config = CryptoStreamConfig::process_default();
    // A correctly sealed single last frame whose payload is not a
    // compressed stream: the frames open, decompression fails.
    let sealed = seal_frame(&config, 0, true, b"not a zstd stream");
    let mut stream = (sealed.len() as u32).to_le_bytes().to_vec();
    stream.extend_from_slice(&sealed);
    assert!(matches!(decode(&config, &stream), Err(DecodeError::Format)));
}
