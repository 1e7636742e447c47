use vstd::prelude::*;
use vstd::bytes::{spec_u32_to_le_bytes, lemma_auto_spec_u32_to_from_le_bytes};
use vstd::bytes::{u32_from_le_bytes, u32_to_le_bytes};
use vstd::slice::slice_subrange;

use crate::cipher::{aead_frame, open_frame, seal_frame, MAX_FRAME_COUNTER};
use crate::compress::{zstd_compress, zstd_compress_of, zstd_decompress, zstd_decompress_of,
    ZSTD_FASTEST_LEVEL};
use crate::config::CryptoStreamConfig;

verus! {

/// Bytes of plaintext a single ciphertext frame carries at most.
pub const FRAME_CHUNK_SIZE: usize = 1024;

/// Bytes the Poly1305 tag adds to each frame.
pub const FRAME_TAG_SIZE: usize = 16;

/// Bytes the length prefix adds to each frame.
pub const FRAME_LEN_PREFIX_SIZE: usize = 4;

/// Greatest compressed payload the batch encode accepts. The bound is
/// this codec's own, not the service's (the streaming path applies no
/// request-body limit): one gibibyte keeps the frame count around a
/// million, far below the counter space of the stream construction, and
/// keeps every offset comfortably inside `usize`.
pub const MAX_COMPRESSED_LEN: usize = 0x40000000;

/// How the compressed stream is cut into frame payloads: chunks of
/// `FRAME_CHUNK_SIZE` bytes, the remainder last; empty input is carried
/// by one empty chunk, so a stream always holds at least one frame.
pub open spec fn spec_chunks(data: Seq<u8>) -> Seq<Seq<u8>>
    decreases data.len(),
{
    if data.len() <= FRAME_CHUNK_SIZE {
        seq![data]
    } else {
        seq![data.take(FRAME_CHUNK_SIZE as int)] + spec_chunks(data.skip(FRAME_CHUNK_SIZE as int))
    }
}

/// The payload bytes of a chunk sequence, in order.
pub open spec fn concat_chunks(chunks: Seq<Seq<u8>>) -> Seq<u8>
    decreases chunks.len(),
{
    if chunks.len() == 0 {
        Seq::empty()
    } else {
        chunks[0] + concat_chunks(chunks.drop_first())
    }
}

/// A chunk fits a frame: its sealed form's length is representable in
/// the 4-byte length prefix.
pub open spec fn wf_chunk(pt: Seq<u8>) -> bool {
    pt.len() + FRAME_TAG_SIZE <= 0xffffffff
}

/// A chunk sequence the wire format can carry: non-empty, every chunk
/// representable.
pub open spec fn wf_chunks(chunks: Seq<Seq<u8>>) -> bool {
    &&& chunks.len() >= 1
    &&& forall|i: int| 0 <= i < chunks.len() ==> wf_chunk(#[trigger] chunks[i])
}

/// Whether chunk `i` of a sequence of `n` frames carries the last-frame flag.
pub open spec fn is_last_index(i: int, n: int) -> bool {
    i == n - 1
}

/// The sealed frames of a chunk sequence have the length sealing gives
/// them: chunk length plus the tag. Sealing establishes this; opening
/// depends on it to cut the stream at the right places.
pub open spec fn frames_wf(key: Seq<u8>, nonce: Seq<u8>, position: int, chunks: Seq<Seq<u8>>) -> bool {
    forall|i: int| 0 <= i < chunks.len()
        ==> (#[trigger] aead_frame(key, nonce, position + i, is_last_index(i, chunks.len() as int),
            chunks[i])).len() == chunks[i].len() + FRAME_TAG_SIZE
}

/// One frame on the wire: the sealed chunk's length as a little-endian
/// 32-bit prefix, then the sealed chunk.
pub open spec fn frame_block(key: Seq<u8>, nonce: Seq<u8>, position: int, last: bool, pt: Seq<u8>) -> Seq<u8> {
    spec_u32_to_le_bytes((pt.len() + FRAME_TAG_SIZE) as u32) + aead_frame(key, nonce, position, last, pt)
}

/// The whole wire stream of a chunk sequence, first frame at `position`,
/// the last frame flagged as last.
pub open spec fn spec_frames(key: Seq<u8>, nonce: Seq<u8>, position: int, chunks: Seq<Seq<u8>>) -> Seq<u8>
    decreases chunks.len(),
{
    if chunks.len() == 0 {
        Seq::empty()
    } else if chunks.len() == 1 {
        frame_block(key, nonce, position, true, chunks[0])
    } else {
        frame_block(key, nonce, position, false, chunks[0])
            + spec_frames(key, nonce, position + 1, chunks.drop_first())
    }
}

/// What a successful encode of plaintext `p` under `key` and `nonce` is:
/// the framed sealing of the compressed stream, together with the facts
/// the sealing and the codec guarantee of it.
pub open spec fn encode_ok(key: Seq<u8>, nonce: Seq<u8>, p: Seq<u8>, c: Seq<u8>) -> bool {
    let comp = zstd_compress_of(ZSTD_FASTEST_LEVEL as int, p);
    &&& c == spec_frames(key, nonce, 0, spec_chunks(comp))
    &&& frames_wf(key, nonce, 0, spec_chunks(comp))
    &&& zstd_decompress_of(comp) == Some(p)
    &&& comp.len() <= MAX_COMPRESSED_LEN
}

/// Every chunk the cut produces is at most `FRAME_CHUNK_SIZE` long, the
/// sequence is never empty, and it concatenates back to the input.
pub proof fn lemma_spec_chunks_props(data: Seq<u8>)
    ensures
        spec_chunks(data).len() >= 1,
        forall|i: int| 0 <= i < spec_chunks(data).len()
            ==> (#[trigger] spec_chunks(data)[i]).len() <= FRAME_CHUNK_SIZE,
        concat_chunks(spec_chunks(data)) == data,
        (spec_chunks(data).len() - 1) * FRAME_CHUNK_SIZE <= data.len(),
    decreases data.len(),
{
    if data.len() <= FRAME_CHUNK_SIZE {
        let chunks = spec_chunks(data);
        assert(chunks.drop_first() =~= Seq::<Seq<u8>>::empty());
        assert(concat_chunks(Seq::<Seq<u8>>::empty()) == Seq::<u8>::empty());
        assert(concat_chunks(chunks) == chunks[0] + concat_chunks(Seq::<Seq<u8>>::empty()));
        assert(concat_chunks(chunks) =~= data);
    } else {
        let rest = data.skip(FRAME_CHUNK_SIZE as int);
        lemma_spec_chunks_props(rest);
        let chunks = spec_chunks(data);
        assert(chunks.drop_first() =~= spec_chunks(rest));
        assert(concat_chunks(chunks) == chunks[0] + concat_chunks(spec_chunks(rest)));
        assert(concat_chunks(chunks) =~= data);
        assert(chunks.len() == spec_chunks(rest).len() + 1);
        assert((chunks.len() - 1) * FRAME_CHUNK_SIZE
            == (spec_chunks(rest).len() - 1) * FRAME_CHUNK_SIZE + FRAME_CHUNK_SIZE)
            by (nonlinear_arith)
            requires
                chunks.len() == spec_chunks(rest).len() + 1,
        ;
    }
}

/// Seals the chunks of `data` from `start` on, the first at `position`,
/// and appends the framed stream to `out`.
fn encode_frames(
    config: &CryptoStreamConfig,
    position: u32,
    data: &[u8],
    start: usize,
    out: &mut Vec<u8>,
)
    requires
        config.wf(),
        start <= data@.len(),
        position + spec_chunks(data@.skip(start as int)).len() - 1 <= MAX_FRAME_COUNTER,
    ensures
        final(out)@ == old(out)@ + spec_frames(config.key@, config.nonce@, position as int,
            spec_chunks(data@.skip(start as int))),
        frames_wf(config.key@, config.nonce@, position as int, spec_chunks(data@.skip(start as int))),
    decreases data@.len() - start,
{
    let ghost chunks = spec_chunks(data@.skip(start as int));
    let remaining = data.len() - start;
    if remaining <= FRAME_CHUNK_SIZE {
        let chunk = slice_subrange(data, start, data.len());
        proof {
            assert(chunk@ =~= data@.skip(start as int));
            assert(chunks =~= seq![chunk@]);
        }
        let sealed = seal_frame(config, position, true, chunk);
        let mut prefix = u32_to_le_bytes(sealed.len() as u32);
        out.append(&mut prefix);
        let mut sealed = sealed;
        out.append(&mut sealed);
        proof {
            assert(chunks[0] == chunk@);
            assert(is_last_index(0, chunks.len() as int));
            assert(frames_wf(config.key@, config.nonce@, position as int, chunks));
            assert(out@ =~= old(out)@ + spec_frames(config.key@, config.nonce@, position as int,
                chunks));
        }
    } else {
        let chunk = slice_subrange(data, start, start + FRAME_CHUNK_SIZE);
        proof {
            assert(chunk@ =~= data@.skip(start as int).take(FRAME_CHUNK_SIZE as int));
            assert(data@.skip((start + FRAME_CHUNK_SIZE) as int)
                =~= data@.skip(start as int).skip(FRAME_CHUNK_SIZE as int));
            assert(chunks.drop_first() =~= spec_chunks(data@.skip((start + FRAME_CHUNK_SIZE) as int)));
        }
        let sealed = seal_frame(config, position, false, chunk);
        let mut prefix = u32_to_le_bytes(sealed.len() as u32);
        out.append(&mut prefix);
        let mut sealed = sealed;
        out.append(&mut sealed);
        let ghost mid = out@;
        encode_frames(config, position + 1, data, start + FRAME_CHUNK_SIZE, out);
        proof {
            let key = config.key@;
            let nonce = config.nonce@;
            let rest = chunks.drop_first();
            assert(chunks.len() >= 2);
            assert(chunks[0] == chunk@);
            assert(frames_wf(key, nonce, position + 1, rest));
            assert forall|i: int| 0 <= i < chunks.len() implies (#[trigger] aead_frame(key, nonce,
                position + i, is_last_index(i, chunks.len() as int), chunks[i])).len()
                == chunks[i].len() + FRAME_TAG_SIZE by {
                if i == 0 {
                    assert(!is_last_index(0, chunks.len() as int));
                } else {
                    assert(rest[i - 1] == chunks[i]);
                    assert(is_last_index(i - 1, rest.len() as int)
                        == is_last_index(i, chunks.len() as int));
                    assert(aead_frame(key, nonce, (position + 1) + (i - 1),
                        is_last_index(i - 1, rest.len() as int), rest[i - 1]).len()
                        == rest[i - 1].len() + FRAME_TAG_SIZE);
                }
            }
            assert(out@ =~= old(out)@ + spec_frames(key, nonce, position as int, chunks));
        }
    }
}

/// Errors of the encode path.
#[derive(Clone, Copy, Debug, PartialEq, Eq, Structural)]
pub enum EncodeError {
    /// The compressed stream is too large to frame.
    TooLarge,
}

/// Compresses `p` at the fastest level, then seals the compressed stream
/// into the framed wire format, first frame at position 0, last frame
/// flagged. Succeeds on exactly the inputs whose compressed stream fits
/// the frame budget.
///
/// Law (determinism): a successful result is a function of the key, the
/// nonce and the plaintext alone — see `encode_ok` and
/// `lemma_encode_deterministic`.
pub fn encode(config: &CryptoStreamConfig, p: &[u8]) -> (r: Result<Vec<u8>, EncodeError>)
    requires
        config.wf(),
    ensures
        r matches Ok(c) ==> encode_ok(config.key@, config.nonce@, p@, c@),
        r is Ok <==> zstd_compress_of(ZSTD_FASTEST_LEVEL as int, p@).len()
            <= MAX_COMPRESSED_LEN,
{
    let comp = zstd_compress(p, ZSTD_FASTEST_LEVEL);
    if comp.len() > MAX_COMPRESSED_LEN {
        Err(EncodeError::TooLarge)
    } else {
        proof {
            lemma_spec_chunks_props(comp@);
            assert(comp@.skip(0) =~= comp@);
            assert((spec_chunks(comp@).len() - 1) * FRAME_CHUNK_SIZE <= MAX_COMPRESSED_LEN);
            assert(spec_chunks(comp@).len() - 1 <= MAX_FRAME_COUNTER) by (nonlinear_arith)
                requires
                    (spec_chunks(comp@).len() - 1) * FRAME_CHUNK_SIZE <= MAX_COMPRESSED_LEN,
            ;
        }
        let mut out: Vec<u8> = Vec::new();
        encode_frames(config, 0, comp.as_slice(), 0, &mut out);
        Ok(out)
    }
}

/// How the head frame of a non-empty well-formed stream lies in the bytes:
/// the first four bytes carry the sealed length, the sealed chunk follows,
/// and the remaining frames follow that.
proof fn lemma_frames_head(key: Seq<u8>, nonce: Seq<u8>, position: int, chunks: Seq<Seq<u8>>)
    requires
        wf_chunks(chunks),
        frames_wf(key, nonce, position, chunks),
    ensures
        spec_frames(key, nonce, position, chunks).len() == 4 + chunks[0].len() + FRAME_TAG_SIZE
            + spec_frames(key, nonce, position + 1, chunks.drop_first()).len(),
        spec_frames(key, nonce, position, chunks).take(4)
            == spec_u32_to_le_bytes((chunks[0].len() + FRAME_TAG_SIZE) as u32),
        spec_frames(key, nonce, position, chunks).subrange(4,
            4 + chunks[0].len() + FRAME_TAG_SIZE as int)
            == aead_frame(key, nonce, position, chunks.len() == 1, chunks[0]),
        chunks.len() == 1 ==> spec_frames(key, nonce, position + 1, chunks.drop_first()).len()
            == 0,
        chunks.len() >= 2 ==> spec_frames(key, nonce, position + 1, chunks.drop_first()).len() >= 4,
        chunks.len() >= 2 ==> spec_frames(key, nonce, position, chunks).skip(
            4 + chunks[0].len() + FRAME_TAG_SIZE as int)
            == spec_frames(key, nonce, position + 1, chunks.drop_first()),
{
    lemma_auto_spec_u32_to_from_le_bytes();
    let n = chunks.len() as int;
    assert(is_last_index(0, n) == (n == 1));
    assert(aead_frame(key, nonce, position + 0, is_last_index(0, n), chunks[0]).len()
        == chunks[0].len() + FRAME_TAG_SIZE);
    assert(aead_frame(key, nonce, position, n == 1, chunks[0]).len()
        == chunks[0].len() + FRAME_TAG_SIZE);
    let block = frame_block(key, nonce, position, n == 1, chunks[0]);
    let stream = spec_frames(key, nonce, position, chunks);
    let rest = spec_frames(key, nonce, position + 1, chunks.drop_first());
    if n == 1 {
        assert(chunks.drop_first().len() == 0);
        assert(rest == Seq::<u8>::empty());
        assert(stream == block);
    } else {
        assert(stream == block + rest);
        let restc = chunks.drop_first();
        assert(restc.len() >= 1);
        assert(rest == frame_block(key, nonce, position + 1, restc.len() == 1, restc[0])
            + if restc.len() == 1 { Seq::<u8>::empty() } else {
                spec_frames(key, nonce, position + 2, restc.drop_first())
            });
        assert(rest.len() >= 4);
    }
    assert(stream.take(4) =~= spec_u32_to_le_bytes((chunks[0].len() + FRAME_TAG_SIZE) as u32));
    assert(stream.subrange(4, 4 + chunks[0].len() + FRAME_TAG_SIZE as int)
        =~= aead_frame(key, nonce, position, n == 1, chunks[0]));
    if n >= 2 {
        assert(stream.skip(4 + chunks[0].len() + FRAME_TAG_SIZE as int) =~= rest);
    }
}

/// Dropping the head frame keeps the remaining frames well-formed.
proof fn lemma_frames_wf_rest(key: Seq<u8>, nonce: Seq<u8>, position: int, chunks: Seq<Seq<u8>>)
    requires
        chunks.len() >= 2,
        frames_wf(key, nonce, position, chunks),
    ensures
        frames_wf(key, nonce, position + 1, chunks.drop_first()),
{
    let rest = chunks.drop_first();
    assert forall|i: int| 0 <= i < rest.len() implies (#[trigger] aead_frame(key, nonce,
        position + 1 + i, is_last_index(i, rest.len() as int), rest[i])).len()
        == rest[i].len() + FRAME_TAG_SIZE by {
        assert(rest[i] == chunks[i + 1]);
        assert(is_last_index(i, rest.len() as int) == is_last_index(i + 1, chunks.len() as int));
        assert(aead_frame(key, nonce, position + (i + 1), is_last_index(i + 1,
            chunks.len() as int), chunks[i + 1]).len() == chunks[i + 1].len() + FRAME_TAG_SIZE);
    }
}

/// A head chunk whose sealed frame has the sealed length, put before an
/// already well-formed rest, keeps the whole sequence well-formed.
proof fn lemma_frames_wf_cons(key: Seq<u8>, nonce: Seq<u8>, position: int, head: Seq<u8>, rest: Seq<Seq<u8>>)
    requires
        rest.len() >= 1,
        aead_frame(key, nonce, position, false, head).len() == head.len() + FRAME_TAG_SIZE,
        frames_wf(key, nonce, position + 1, rest),
    ensures
        frames_wf(key, nonce, position, seq![head] + rest),
{
    let cons = seq![head] + rest;
    let n = cons.len() as int;
    assert forall|i: int| 0 <= i < n implies (#[trigger] aead_frame(key, nonce, position + i,
        is_last_index(i, n), cons[i])).len() == cons[i].len() + FRAME_TAG_SIZE by {
        if i == 0 {
            assert(cons[0] == head);
            assert(!is_last_index(0, n));
            assert(aead_frame(key, nonce, position + 0, is_last_index(0, n), cons[0])
                == aead_frame(key, nonce, position, false, head));
        } else {
            assert(cons[i] == rest[i - 1]);
            assert(is_last_index(i - 1, rest.len() as int) == is_last_index(i, n));
            assert(aead_frame(key, nonce, (position + 1) + (i - 1), is_last_index(i - 1,
                rest.len() as int), rest[i - 1]).len() == rest[i - 1].len() + FRAME_TAG_SIZE);
        }
    }
}

/// Errors of the decode path, each tied to the inputs that raise it.
#[derive(Clone, Copy, Debug, PartialEq, Eq, Structural)]
pub enum DecodeError {
    /// The stream ends inside a frame, or before any frame.
    Truncated,
    /// The stream holds more frames than the counter space admits.
    CounterExhausted,
    /// A frame failed authentication.
    Auth,
    /// The recovered stream is not a well-formed compressed stream.
    Format,
}

/// Opens the frames of `c` from `start` on, the first at `position`, and
/// appends the recovered chunk payloads to `out`.
///
/// The first postcondition is the inverse law at the frame level: on the
/// framed sealing of any chunk sequence, opening succeeds and returns
/// exactly the chunks' bytes. The second says opening never invents
/// bytes: whatever it returns is carried by some sealed chunk sequence
/// that reads back as exactly the input.
fn decode_frames(
    config: &CryptoStreamConfig,
    position: u32,
    c: &[u8],
    start: usize,
    out: &mut Vec<u8>,
) -> (r: Result<(), DecodeError>)
    requires
        config.wf(),
        position <= MAX_FRAME_COUNTER,
        start <= c@.len(),
    ensures
        forall|chunks: Seq<Seq<u8>>|
            wf_chunks(chunks) && frames_wf(config.key@, config.nonce@, position as int, chunks)
                && position + chunks.len() - 1 <= MAX_FRAME_COUNTER
                && c@.skip(start as int) == spec_frames(config.key@, config.nonce@,
                position as int, chunks)
                ==> (r is Ok && final(out)@ == old(out)@ + concat_chunks(chunks)),
        r is Ok ==> exists|chunks: Seq<Seq<u8>>|
            wf_chunks(chunks) && frames_wf(config.key@, config.nonce@, position as int, chunks)
                && c@.skip(start as int) == spec_frames(config.key@, config.nonce@,
                position as int, chunks)
                && final(out)@ == old(out)@ + concat_chunks(chunks),
        c@.len() - start < 4 ==> r == Err::<(), DecodeError>(DecodeError::Truncated),
    decreases c@.len() - start,
{
    let ghost key = config.key@;
    let ghost nonce = config.nonce@;
    let ghost tail = c@.skip(start as int);
    let len = c.len();
    proof {
        lemma_auto_spec_u32_to_from_le_bytes();
    }
    if len - start < 4 {
        proof {
            assert forall|chunks: Seq<Seq<u8>>|
                wf_chunks(chunks) && frames_wf(key, nonce, position as int, chunks)
                    && tail == spec_frames(key, nonce, position as int, chunks) implies false by {
                lemma_frames_head(key, nonce, position as int, chunks);
            }
        }
        return Err(DecodeError::Truncated);
    }
    let prefix = slice_subrange(c, start, start + 4);
    proof {
        assert(prefix@ =~= tail.take(4));
    }
    let l32 = u32_from_le_bytes(prefix);
    let l = l32 as usize;
    if l > len - start - 4 {
        proof {
            assert forall|chunks: Seq<Seq<u8>>|
                wf_chunks(chunks) && frames_wf(key, nonce, position as int, chunks)
                    && tail == spec_frames(key, nonce, position as int, chunks) implies false by {
                lemma_frames_head(key, nonce, position as int, chunks);
                assert(tail.take(4) == spec_u32_to_le_bytes((chunks[0].len()
                    + FRAME_TAG_SIZE) as u32));
                assert(l32 == chunks[0].len() + FRAME_TAG_SIZE);
            }
        }
        return Err(DecodeError::Truncated);
    }
    let frame = slice_subrange(c, start + 4, start + 4 + l);
    let last = start + 4 + l == len;
    proof {
        assert(frame@ =~= tail.subrange(4, 4 + l as int));
    }
    if !last && position == MAX_FRAME_COUNTER {
        proof {
            assert forall|chunks: Seq<Seq<u8>>|
                wf_chunks(chunks) && frames_wf(key, nonce, position as int, chunks)
                    && position + chunks.len() - 1 <= MAX_FRAME_COUNTER
                    && tail == spec_frames(key, nonce, position as int, chunks) implies false by {
                lemma_frames_head(key, nonce, position as int, chunks);
                assert(l32 == chunks[0].len() + FRAME_TAG_SIZE);
                assert(chunks.len() >= 2);
            }
        }
        return Err(DecodeError::CounterExhausted);
    }
    match open_frame(config, position, last, frame) {
        None => {
            proof {
                assert forall|chunks: Seq<Seq<u8>>|
                    wf_chunks(chunks) && frames_wf(key, nonce, position as int, chunks)
                        && tail == spec_frames(key, nonce, position as int, chunks) implies
                    false by {
                    lemma_frames_head(key, nonce, position as int, chunks);
                    assert(l32 == chunks[0].len() + FRAME_TAG_SIZE);
                    assert(last == (chunks.len() == 1));
                    assert(frame@ == aead_frame(key, nonce, position as int, last, chunks[0]));
                }
            }
            Err(DecodeError::Auth)
        },
        Some(pt) => {
            let ghost pt_view = pt@;
            let mut pt = pt;
            out.append(&mut pt);
            if last {
                proof {
                    let witness = seq![pt_view];
                    assert(witness.drop_first() =~= Seq::<Seq<u8>>::empty());
                    assert(concat_chunks(witness) == pt_view
                        + concat_chunks(Seq::<Seq<u8>>::empty()));
                    assert(concat_chunks(witness) =~= pt_view);
                    assert(spec_frames(key, nonce, position as int, witness)
                        == frame_block(key, nonce, position as int, true, pt_view));
                    assert(tail =~= tail.take(4) + tail.subrange(4, 4 + l as int));
                    assert(spec_u32_to_le_bytes(l32) == tail.take(4));
                    assert(l32 == pt_view.len() + FRAME_TAG_SIZE);
                    assert(tail == spec_frames(key, nonce, position as int, witness));
                    assert(wf_chunks(witness));
                    assert forall|i: int| 0 <= i < witness.len() implies (#[trigger] aead_frame(
                        key, nonce, position as int + i, is_last_index(i, witness.len() as int),
                        witness[i])).len() == witness[i].len() + FRAME_TAG_SIZE by {
                        assert(i == 0);
                        assert(is_last_index(0, witness.len() as int));
                        assert(aead_frame(key, nonce, position as int + 0, is_last_index(0,
                            witness.len() as int), witness[0]) == aead_frame(key, nonce,
                            position as int, true, pt_view));
                    }
                    assert(frames_wf(key, nonce, position as int, witness));
                    assert forall|chunks: Seq<Seq<u8>>|
                        wf_chunks(chunks) && frames_wf(key, nonce, position as int, chunks)
                            && tail == spec_frames(key, nonce, position as int, chunks) implies
                        out@ == old(out)@ + concat_chunks(chunks) by {
                        lemma_frames_head(key, nonce, position as int, chunks);
                        assert(l32 == chunks[0].len() + FRAME_TAG_SIZE);
                        assert(last == (chunks.len() == 1));
                        assert(frame@ == aead_frame(key, nonce, position as int, last, chunks[0]));
                        assert(pt_view == chunks[0]);
                        assert(chunks =~= seq![pt_view]);
                        assert(concat_chunks(chunks) == chunks[0]
                            + concat_chunks(chunks.drop_first()));
                        assert(chunks.drop_first() =~= Seq::<Seq<u8>>::empty());
                        assert(out@ =~= old(out)@ + concat_chunks(chunks));
                    }
                }
                Ok(())
            } else {
                let ghost mid = out@;
                let r = decode_frames(config, position + 1, c, start + 4 + l, out);
                proof {
                    let tail2 = c@.skip((start + 4 + l) as int);
                    assert(tail2 =~= tail.skip(4 + l as int));
                    assert forall|chunks: Seq<Seq<u8>>|
                        wf_chunks(chunks) && frames_wf(key, nonce, position as int, chunks)
                            && position + chunks.len() - 1 <= MAX_FRAME_COUNTER
                            && tail == spec_frames(key, nonce, position as int, chunks) implies (
                        r is Ok && out@ == old(out)@ + concat_chunks(chunks)) by {
                        lemma_frames_head(key, nonce, position as int, chunks);
                        assert(l32 == chunks[0].len() + FRAME_TAG_SIZE);
                        assert(last == (chunks.len() == 1));
                        assert(chunks.len() >= 2);
                        assert(frame@ == aead_frame(key, nonce, position as int, last, chunks[0]));
                        lemma_frames_wf_rest(key, nonce, position as int, chunks);
                        let restc = chunks.drop_first();
                        assert(wf_chunks(restc));
                        assert(tail2 == spec_frames(key, nonce, position as int + 1, restc));
                        assert(r is Ok && out@ == mid + concat_chunks(restc));
                        assert(pt_view == chunks[0]);
                        assert(concat_chunks(chunks) == chunks[0] + concat_chunks(restc));
                        assert(out@ =~= old(out)@ + concat_chunks(chunks));
                    }
                    if r is Ok {
                        let restc = choose|restc: Seq<Seq<u8>>|
                            wf_chunks(restc) && frames_wf(key, nonce, position as int + 1, restc)
                                && tail2 == spec_frames(key, nonce, position as int + 1, restc)
                                && out@ == mid + concat_chunks(restc);
                        let witness = seq![pt_view] + restc;
                        assert(witness.len() >= 2);
                        assert(witness[0] == pt_view);
                        assert(witness.drop_first() =~= restc);
                        assert(wf_chunks(witness));
                        lemma_frames_wf_cons(key, nonce, position as int, pt_view, restc);
                        assert(frames_wf(key, nonce, position as int, witness));
                        assert(spec_frames(key, nonce, position as int, witness)
                            == frame_block(key, nonce, position as int, false, pt_view)
                            + spec_frames(key, nonce, position as int + 1, restc));
                        assert(spec_u32_to_le_bytes(l32) == tail.take(4));
                        assert(l32 == pt_view.len() + FRAME_TAG_SIZE);
                        assert(tail =~= tail.take(4) + tail.subrange(4, 4 + l as int) + tail.skip(
                            4 + l as int));
                        assert(tail == spec_frames(key, nonce, position as int, witness));
                        assert(concat_chunks(witness) == pt_view + concat_chunks(restc));
                        assert(out@ =~= old(out)@ + concat_chunks(witness));
                    }
                }
                r
            }
        },
    }
}

/// Opens the framed stream `c` and decompresses the recovered payload.
///
/// Law (round-trip, at the byte level): the first postcondition says that
/// on exactly the streams a successful encode under the same key and
/// nonce produces, decoding succeeds and returns the encoded plaintext.
/// The second says decoding never invents bytes: a successful result is
/// the decompression of the payload of some sealed chunk sequence that
/// reads back as exactly the input stream. No stream shorter than one
/// complete frame — its length prefix and one tag — ever decodes.
pub fn decode(config: &CryptoStreamConfig, c: &[u8]) -> (r: Result<Vec<u8>, DecodeError>)
    requires
        config.wf(),
    ensures
        forall|p: Seq<u8>|
            encode_ok(config.key@, config.nonce@, p, c@) ==> (r matches Ok(q) && q@ == p),
        r matches Ok(q) ==> exists|chunks: Seq<Seq<u8>>|
            wf_chunks(chunks) && frames_wf(config.key@, config.nonce@, 0, chunks)
                && c@ == spec_frames(config.key@, config.nonce@, 0, chunks)
                && zstd_decompress_of(concat_chunks(chunks)) == Some(q@),
        r is Ok ==> c@.len() >= FRAME_LEN_PREFIX_SIZE + FRAME_TAG_SIZE,
        c@.len() < 4 ==> r == Err::<Vec<u8>, DecodeError>(DecodeError::Truncated),
{
    let ghost key = config.key@;
    let ghost nonce = config.nonce@;
    let mut payload: Vec<u8> = Vec::new();
    let r = decode_frames(config, 0, c, 0, &mut payload);
    proof {
        assert(c@.skip(0) =~= c@);
    }
    match r {
        Err(e) => {
            proof {
                assert forall|p: Seq<u8>| encode_ok(key, nonce, p, c@) implies false by {
                    lemma_encode_frames_hyp(key, nonce, p, c@);
                    let comp = zstd_compress_of(ZSTD_FASTEST_LEVEL as int, p);
                    let chunks = spec_chunks(comp);
                    assert(wf_chunks(chunks) && frames_wf(key, nonce, 0, chunks)
                        && 0 + chunks.len() - 1 <= MAX_FRAME_COUNTER
                        && c@.skip(0) == spec_frames(key, nonce, 0, chunks));
                }
            }
            Err(e)
        },
        Ok(()) => {
            let d = zstd_decompress(payload.as_slice());
            proof {
                assert forall|p: Seq<u8>| encode_ok(key, nonce, p, c@) implies payload@
                    == zstd_compress_of(ZSTD_FASTEST_LEVEL as int, p) by {
                    lemma_encode_frames_hyp(key, nonce, p, c@);
                    let comp = zstd_compress_of(ZSTD_FASTEST_LEVEL as int, p);
                    let chunks = spec_chunks(comp);
                    lemma_spec_chunks_props(comp);
                    assert(wf_chunks(chunks) && frames_wf(key, nonce, 0, chunks)
                        && 0 + chunks.len() - 1 <= MAX_FRAME_COUNTER
                        && c@.skip(0) == spec_frames(key, nonce, 0, chunks));
                    assert(payload@ == Seq::<u8>::empty() + concat_chunks(chunks));
                    assert(Seq::<u8>::empty() + concat_chunks(chunks) =~= concat_chunks(chunks));
                }
            }
            match d {
                None => {
                    proof {
                        assert forall|p: Seq<u8>| encode_ok(key, nonce, p, c@) implies false by {
                        }
                    }
                    Err(DecodeError::Format)
                },
                Some(v) => {
                    proof {
                        let chunks = choose|chunks: Seq<Seq<u8>>|
                            wf_chunks(chunks) && frames_wf(key, nonce, 0, chunks)
                                && c@.skip(0) == spec_frames(key, nonce, 0, chunks)
                                && payload@ == Seq::<u8>::empty() + concat_chunks(chunks);
                        lemma_frames_stream_len(key, nonce, 0, chunks);
                        assert(Seq::<u8>::empty() + concat_chunks(chunks)
                            =~= concat_chunks(chunks));
                        assert((FRAME_LEN_PREFIX_SIZE + FRAME_TAG_SIZE) * chunks.len()
                            >= FRAME_LEN_PREFIX_SIZE + FRAME_TAG_SIZE) by (nonlinear_arith)
                            requires
                                chunks.len() >= 1,
                        ;
                    }
                    Ok(v)
                },
            }
        },
    }
}

/// The hypotheses `decode_frames` discharges hold of every successful
/// encode: its chunks are well-formed and few enough for the counter.
proof fn lemma_encode_frames_hyp(key: Seq<u8>, nonce: Seq<u8>, p: Seq<u8>, c: Seq<u8>)
    requires
        encode_ok(key, nonce, p, c),
    ensures
        wf_chunks(spec_chunks(zstd_compress_of(ZSTD_FASTEST_LEVEL as int, p))),
        spec_chunks(zstd_compress_of(ZSTD_FASTEST_LEVEL as int, p)).len() - 1
            <= MAX_FRAME_COUNTER,
{
    let comp = zstd_compress_of(ZSTD_FASTEST_LEVEL as int, p);
    lemma_spec_chunks_props(comp);
    assert((spec_chunks(comp).len() - 1) * FRAME_CHUNK_SIZE <= MAX_COMPRESSED_LEN);
    assert(spec_chunks(comp).len() - 1 <= MAX_FRAME_COUNTER) by (nonlinear_arith)
        requires
            (spec_chunks(comp).len() - 1) * FRAME_CHUNK_SIZE <= MAX_COMPRESSED_LEN,
    ;
}

/// Law (round-trip): decoding what encode produced recovers the
/// plaintext exactly; whenever the compressed stream fits the frame
/// budget, the whole trip succeeds.
pub fn round_trip(config: &CryptoStreamConfig, p: &[u8]) -> (r: Result<Vec<u8>, EncodeError>)
    requires
        config.wf(),
    ensures
        r matches Ok(v) ==> v@ == p@,
        r is Ok <==> zstd_compress_of(ZSTD_FASTEST_LEVEL as int, p@).len()
            <= MAX_COMPRESSED_LEN,
{
    match encode(config, p) {
        Err(e) => Err(e),
        Ok(c) => {
            match decode(config, c.as_slice()) {
                Ok(v) => Ok(v),
                Err(_) => {
                    proof {
                        assert(false);
                    }
                    Err(EncodeError::TooLarge)
                },
            }
        },
    }
}

/// Each frame on the wire costs its chunk's bytes plus the length prefix
/// and the tag.
proof fn lemma_frames_stream_len(key: Seq<u8>, nonce: Seq<u8>, position: int, chunks: Seq<Seq<u8>>)
    requires
        frames_wf(key, nonce, position, chunks),
    ensures
        spec_frames(key, nonce, position, chunks).len() == concat_chunks(chunks).len()
            + (FRAME_LEN_PREFIX_SIZE + FRAME_TAG_SIZE) * chunks.len(),
    decreases chunks.len(),
{
    lemma_auto_spec_u32_to_from_le_bytes();
    let n = chunks.len() as int;
    if n == 0 {
        assert(concat_chunks(chunks).len() == 0);
    } else {
        assert(aead_frame(key, nonce, position + 0, is_last_index(0, n), chunks[0]).len()
            == chunks[0].len() + FRAME_TAG_SIZE);
        assert(frame_block(key, nonce, position, is_last_index(0, n), chunks[0]).len()
            == chunks[0].len() + FRAME_LEN_PREFIX_SIZE + FRAME_TAG_SIZE);
        if n == 1 {
            assert(chunks.drop_first().len() == 0);
            assert(concat_chunks(chunks) == chunks[0] + concat_chunks(chunks.drop_first()));
        } else {
            lemma_frames_wf_rest(key, nonce, position, chunks);
            lemma_frames_stream_len(key, nonce, position + 1, chunks.drop_first());
            assert(concat_chunks(chunks) == chunks[0] + concat_chunks(chunks.drop_first()));
        }
    }
}

/// Law: an encoded stream is never empty — even the empty plaintext is
/// carried by one last-flagged frame — and it costs exactly the length
/// prefix and the tag per frame on top of the compressed payload.
pub proof fn lemma_encode_overhead(key: Seq<u8>, nonce: Seq<u8>, p: Seq<u8>, c: Seq<u8>)
    requires
        encode_ok(key, nonce, p, c),
    ensures
        c.len() == zstd_compress_of(ZSTD_FASTEST_LEVEL as int, p).len()
            + (FRAME_LEN_PREFIX_SIZE + FRAME_TAG_SIZE) * spec_chunks(zstd_compress_of(
            ZSTD_FASTEST_LEVEL as int, p)).len(),
        c.len() >= zstd_compress_of(ZSTD_FASTEST_LEVEL as int, p).len() + FRAME_LEN_PREFIX_SIZE
            + FRAME_TAG_SIZE,
        c.len() >= FRAME_LEN_PREFIX_SIZE + FRAME_TAG_SIZE,
{
    let comp = zstd_compress_of(ZSTD_FASTEST_LEVEL as int, p);
    lemma_spec_chunks_props(comp);
    lemma_frames_stream_len(key, nonce, 0, spec_chunks(comp));
    assert((FRAME_LEN_PREFIX_SIZE + FRAME_TAG_SIZE) * spec_chunks(comp).len()
        >= FRAME_LEN_PREFIX_SIZE + FRAME_TAG_SIZE) by (nonlinear_arith)
        requires
            spec_chunks(comp).len() >= 1,
    ;
}

/// Law: with a fixed key and nonce, encoding a plaintext admits exactly
/// one output byte stream.
pub proof fn lemma_encode_deterministic(
    key: Seq<u8>,
    nonce: Seq<u8>,
    p: Seq<u8>,
    c1: Seq<u8>,
    c2: Seq<u8>,
)
    requires
        encode_ok(key, nonce, p, c1),
        encode_ok(key, nonce, p, c2),
    ensures
        c1 == c2,
{
}

} // verus!
