use vstd::prelude::*;

use chacha20poly1305::KeyInit;
use chacha20poly1305::aead::generic_array::GenericArray;
use chacha20poly1305::aead::stream::{NewStream, StreamLE31, StreamPrimitive};

verus! {

/// Greatest frame counter the LE31 stream primitive accepts: positions
/// beyond it cannot be encoded in the 4 nonce bytes that carry the
/// counter and the last-frame flag.
pub const MAX_FRAME_COUNTER: u32 = 0xfffffff;

/// Ciphertext frame the LE31 stream construction over XChaCha20-Poly1305
/// seals `plaintext` into at `position` of the stream bound to `key` and
/// `nonce`, with the last-frame flag set to `last`. The frame is a
/// function of these five values alone.
pub uninterp spec fn aead_frame(
    key: Seq<u8>,
    nonce: Seq<u8>,
    position: int,
    last: bool,
    plaintext: Seq<u8>,
) -> Seq<u8>;

/// Relies on `aead::stream::StreamLE31::<XChaCha20Poly1305>::encrypt`
/// (reached through `chacha20poly1305`): sealing a frame is deterministic
/// in key, nonce, position, last-frame flag and plaintext, never fails for
/// the admitted lengths and positions, and appends the 16-byte
/// Poly1305 tag to the plaintext.
#[verifier::external_body]
fn encrypt_frame_at(key: &[u8], nonce: &[u8], position: u32, last: bool, plaintext: &[u8]) -> (r:
    Vec<u8>)
    requires
        key@.len() == 32,
        nonce@.len() == 20,
        position <= MAX_FRAME_COUNTER,
        plaintext@.len() <= 0xffffffff,
    ensures
        r@ == aead_frame(key@, nonce@, position as int, last, plaintext@),
        r@.len() == plaintext@.len() + 16,
{
    let aead = chacha20poly1305::XChaCha20Poly1305::new(GenericArray::from_slice(key));
    let stream: StreamLE31<chacha20poly1305::XChaCha20Poly1305> = StreamLE31::from_aead(
        aead,
        GenericArray::from_slice(nonce),
    );
    stream.encrypt(position, last, plaintext).expect("sealing a bounded frame cannot fail")
}

/// Relies on `aead::stream::StreamLE31::<XChaCha20Poly1305>::decrypt`
/// (reached through `chacha20poly1305`): opening inverts sealing — a frame
/// sealed at this position with this key, nonce and last-frame flag opens
/// to exactly the plaintext it was sealed from — and a frame that opens at
/// all is one that sealing some plaintext here produces, the
/// authentication guarantee of the AEAD.
#[verifier::external_body]
pub(crate) fn decrypt_frame_at(
    key: &[u8],
    nonce: &[u8],
    position: u32,
    last: bool,
    frame: &[u8],
) -> (r: Option<Vec<u8>>)
    requires
        key@.len() == 32,
        nonce@.len() == 20,
        position <= MAX_FRAME_COUNTER,
    ensures
        r is None ==> forall|pt: Seq<u8>|
            frame@ != aead_frame(key@, nonce@, position as int, last, pt),
        r matches Some(p) ==> frame@ == aead_frame(key@, nonce@, position as int, last, p@)
            && frame@.len() == p@.len() + 16 && (forall|pt: Seq<u8>|
                frame@ == aead_frame(key@, nonce@, position as int, last, pt) ==> pt == p@),
{
    let aead = chacha20poly1305::XChaCha20Poly1305::new(GenericArray::from_slice(key));
    let stream: StreamLE31<chacha20poly1305::XChaCha20Poly1305> = StreamLE31::from_aead(
        aead,
        GenericArray::from_slice(nonce),
    );
    stream.decrypt(position, last, frame).ok()
}

/// Seals one frame of the stream a well-formed configuration describes.
pub fn seal_frame(
    config: &crate::config::CryptoStreamConfig,
    position: u32,
    last: bool,
    plaintext: &[u8],
) -> (r: Vec<u8>)
    requires
        config.wf(),
        position <= MAX_FRAME_COUNTER,
        plaintext@.len() <= 0xffffffff,
    ensures
        r@ == aead_frame(config.key@, config.nonce@, position as int, last, plaintext@),
        r@.len() == plaintext@.len() + 16,
{
    encrypt_frame_at(config.key.as_slice(), config.nonce.as_slice(), position, last, plaintext)
}

/// Opens one frame of the stream a well-formed configuration describes,
/// returning `None` when authentication fails.
pub fn open_frame(
    config: &crate::config::CryptoStreamConfig,
    position: u32,
    last: bool,
    frame: &[u8],
) -> (r: Option<Vec<u8>>)
    requires
        config.wf(),
        position <= MAX_FRAME_COUNTER,
    ensures
        forall|pt: Seq<u8>|
            frame@ == aead_frame(config.key@, config.nonce@, position as int, last, pt) ==> (
            r matches Some(p) && p@ == pt),
        r matches Some(p) ==> frame@ == aead_frame(config.key@, config.nonce@, position as int,
            last, p@) && frame@.len() == p@.len() + 16,
{
    decrypt_frame_at(config.key.as_slice(), config.nonce.as_slice(), position, last, frame)
}

} // verus!
