use vstd::prelude::*;

verus! {

/// Length in bytes of the symmetric key the stream cipher is built with.
pub const KEY_LEN: usize = 32;

/// Length in bytes of the initial nonce of the LE31 stream construction
/// over XChaCha20-Poly1305: the cipher's 24-byte nonce less the 4 bytes
/// that carry the frame counter and the last-frame flag.
pub const NONCE_LEN: usize = 20;

/// The process-wide key: the 32 ASCII digits `01234567` repeated four times.
pub open spec fn spec_default_key() -> Seq<u8> {
    Seq::new(32, |i: int| (48 + (i % 8)) as u8)
}

/// The process-wide initial nonce: the 20 ASCII bytes `unique_nonce_20_byte`.
pub open spec fn spec_default_nonce() -> Seq<u8> {
    seq![
        117u8, 110u8, 105u8, 113u8, 117u8, 101u8, 95u8, 110u8, 111u8, 110u8,
        99u8, 101u8, 95u8, 50u8, 48u8, 95u8, 98u8, 121u8, 116u8, 101u8,
    ]
}

/// Builds the compile-time key as a byte vector.
pub fn default_key() -> (r: Vec<u8>)
    ensures
        r@ == spec_default_key(),
        r@.len() == KEY_LEN,
{
    let mut key: Vec<u8> = Vec::new();
    let mut i: usize = 0;
    while i < 32
        invariant
            i <= 32,
            key@.len() == i,
            forall|j: int| 0 <= j < i ==> key@[j] == (48 + (j % 8)) as u8,
        decreases 32 - i,
    {
        key.push(48 + (i % 8) as u8);
        i += 1;
    }
    proof {
        assert(key@ =~= spec_default_key());
    }
    key
}

/// Builds the compile-time initial nonce as a byte vector.
pub fn default_nonce() -> (r: Vec<u8>)
    ensures
        r@ == spec_default_nonce(),
        r@.len() == NONCE_LEN,
{
    let mut nonce: Vec<u8> = Vec::new();
    nonce.push(117);
    nonce.push(110);
    nonce.push(105);
    nonce.push(113);
    nonce.push(117);
    nonce.push(101);
    nonce.push(95);
    nonce.push(110);
    nonce.push(111);
    nonce.push(110);
    nonce.push(99);
    nonce.push(101);
    nonce.push(95);
    nonce.push(50);
    nonce.push(48);
    nonce.push(95);
    nonce.push(98);
    nonce.push(121);
    nonce.push(116);
    nonce.push(101);
    proof {
        assert(nonce@ =~= spec_default_nonce());
    }
    nonce
}

/// Error raised when a crypto stream is requested with key or nonce
/// material of the wrong length.
#[derive(Clone, Copy, Debug, PartialEq, Eq, Structural)]
pub enum ConfigError {
    BadKeyLength,
    BadNonceLength,
}

/// Key and nonce a crypto stream pair is bound to.
///
/// A well-formed configuration always holds a 32-byte key and a 20-byte
/// nonce; `new` is the only constructor that accepts raw material and it
/// rejects any other lengths.
pub struct CryptoStreamConfig {
    pub key: Vec<u8>,
    pub nonce: Vec<u8>,
}

impl CryptoStreamConfig {
    /// Well-formedness: the key and nonce have the lengths the LE31
    /// construction over XChaCha20-Poly1305 demands.
    pub open spec fn wf(self) -> bool {
        &&& self.key@.len() == KEY_LEN
        &&& self.nonce@.len() == NONCE_LEN
    }

    /// Accepts key and nonce material, rejecting wrong lengths.
    pub fn new(key: Vec<u8>, nonce: Vec<u8>) -> (r: Result<CryptoStreamConfig, ConfigError>)
        ensures
            key@.len() == KEY_LEN && nonce@.len() == NONCE_LEN <==> r is Ok,
            r matches Ok(c) ==> c.wf() && c.key@ == key@ && c.nonce@ == nonce@,
            r matches Err(e) ==> (e == ConfigError::BadKeyLength <==> key@.len() != KEY_LEN),
    {
        if key.len() != KEY_LEN {
            Err(ConfigError::BadKeyLength)
        } else if nonce.len() != NONCE_LEN {
            Err(ConfigError::BadNonceLength)
        } else {
            Ok(CryptoStreamConfig { key, nonce })
        }
    }

    /// The configuration every request of the service shares: the
    /// compile-time key and nonce.
    pub fn process_default() -> (r: CryptoStreamConfig)
        ensures
            r.wf(),
            r.key@ == spec_default_key(),
            r.nonce@ == spec_default_nonce(),
    {
        CryptoStreamConfig { key: default_key(), nonce: default_nonce() }
    }
}

} // verus!
