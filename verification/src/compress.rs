use vstd::prelude::*;

verus! {

/// Compression level the encode path uses: the fastest preset that still
/// compresses (level 1 of the codec).
pub const ZSTD_FASTEST_LEVEL: i32 = 1;

/// The zstd frame the codec emits for `data` at `level`: a function of
/// the two alone.
pub uninterp spec fn zstd_compress_of(level: int, data: Seq<u8>) -> Seq<u8>;

/// What the codec recovers from `data`: the decompressed bytes, or
/// nothing when `data` is not a well-formed zstd frame sequence. A
/// function of `data` alone.
pub uninterp spec fn zstd_decompress_of(data: Seq<u8>) -> Option<Seq<u8>>;

/// Relies on `zstd::stream::encode_all`: compression is a pure function
/// of the input bytes and the level; compressing an in-memory slice into
/// a vector cannot fail (allocation failure aside); and — the codec
/// being lossless — `zstd::stream::decode_all` recovers exactly the
/// input from its output.
#[verifier::external_body]
pub(crate) fn zstd_compress(data: &[u8], level: i32) -> (r: Vec<u8>)
    ensures
        r@ == zstd_compress_of(level as int, data@),
        zstd_decompress_of(r@) == Some(data@),
{
    zstd::stream::encode_all(data, level).expect("compressing a slice cannot fail")
}

/// Relies on `zstd::stream::decode_all`: decompression, and whether it
/// fails, is a pure function of the input bytes.
#[verifier::external_body]
pub(crate) fn zstd_decompress(data: &[u8]) -> (r: Option<Vec<u8>>)
    ensures
        r matches Some(v) ==> zstd_decompress_of(data@) == Some(v@),
        r is None ==> zstd_decompress_of(data@) is None,
{
    zstd::stream::decode_all(data).ok()
}

} // verus!
