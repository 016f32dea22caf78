//! Authenticated encryption of a byte stream with AES-256-GCM.
//!
//! Each chunk of input (one read, at most `BUFFER_SIZE` bytes) becomes one
//! frame `nonce (12) | sealed_len (u64 le) | ciphertext and tag`, sealed under
//! a nonce drawn afresh for that frame.
use aes_gcm::aead::{Aead, AeadCore, KeyInit, OsRng};
use aes_gcm::{Aes256Gcm, Key, Nonce};
use vstd::bytes::*;
use vstd::prelude::*;

use crate::wire::{append_bytes, chunks_of, joined, le64, lemma_joined_push, lemma_le64};
use crate::{KeyError, BUFFER_SIZE};

verus! {

/// Bytes in a nonce.
pub const NONCE_SIZE: usize = 12;

/// Bytes in an authentication tag.
pub const TAG_SIZE: usize = 16;

/// Largest sealed length that a decoder accepts in one frame.
pub const MAX_SEALED_LEN: usize = BUFFER_SIZE + TAG_SIZE;

/// A 256-bit AES key shared by the two ends of a session.
pub type CipherKey = [u8; 32];

#[verifier::external_type_specification]
#[verifier::external_body]
pub struct ExAeadError(aes_gcm::Error);

/// What AES-256-GCM, without associated data, seals a plaintext to.
pub uninterp spec fn gcm_seal_of(key: Seq<u8>, nonce: Seq<u8>, plain: Seq<u8>) -> Seq<u8>;

/// What AES-256-GCM, without associated data, opens a sealed text to, if
/// its tag checks.
pub uninterp spec fn gcm_open_of(key: Seq<u8>, nonce: Seq<u8>, sealed: Seq<u8>) -> Option<
    Seq<u8>,
>;

/// Relies on `Aead::encrypt` of `aes_gcm::Aes256Gcm`: the ciphertext with
/// the 16-byte tag after it, a function of key, nonce and plaintext, which
/// `Aead::decrypt` with the same key and nonce opens back to the plaintext.
/// It fails only on plaintexts longer than 2^36 bytes.
#[verifier::external_body]
fn gcm_seal(key: &[u8; 32], nonce: &[u8; 12], plain: &[u8]) -> (r: Result<Vec<u8>, aes_gcm::Error>)
    requires
        plain@.len() <= BUFFER_SIZE,
    ensures
        r is Ok,
        match r {
            Ok(v) => v@ == gcm_seal_of(key@, nonce@, plain@) && v@.len() == plain@.len() + 16
                && gcm_open_of(key@, nonce@, v@) == Some(plain@),
            Err(_) => true,
        },
{
    Aes256Gcm::new(Key::<Aes256Gcm>::from_slice(key)).encrypt(Nonce::from_slice(nonce), plain)
}

/// Relies on `Aead::decrypt` of `aes_gcm::Aes256Gcm`: the outcome depends
/// on key, nonce and sealed text alone.
#[verifier::external_body]
fn gcm_open(key: &[u8; 32], nonce: &[u8], sealed: &[u8]) -> (r: Result<Vec<u8>, aes_gcm::Error>)
    requires
        nonce@.len() == 12,
    ensures
        match r {
            Ok(v) => gcm_open_of(key@, nonce@, sealed@) == Some(v@),
            Err(_) => gcm_open_of(key@, nonce@, sealed@) is None,
        },
{
    Aes256Gcm::new(Key::<Aes256Gcm>::from_slice(key)).decrypt(Nonce::from_slice(nonce), sealed)
}

/// Relies on `AeadCore::generate_nonce` with the OS random source: twelve
/// random bytes.
#[verifier::external_body]
fn random_nonce() -> (r: [u8; 12]) {
    Aes256Gcm::generate_nonce(&mut OsRng).into()
}

/// Relies on `KeyInit::generate_key` with the OS random source: a fresh
/// random 256-bit key.
#[verifier::external_body]
pub fn generate_key() -> (r: CipherKey) {
    Aes256Gcm::generate_key(&mut OsRng).into()
}

/// A cipher key from the contents of its key file, which must be exactly
/// 32 bytes.
pub fn read_key(bytes: &[u8]) -> (r: Result<CipherKey, KeyError>)
    ensures
        match r {
            Ok(k) => bytes@.len() == 32 && k@ == bytes@,
            Err(e) => bytes@.len() != 32 && e == KeyError::InvalidLength,
        },
{
    if bytes.len() != 32 {
        return Err(KeyError::InvalidLength);
    }
    let mut key = [0u8; 32];
    let mut i: usize = 0;
    while i < 32
        invariant
            bytes@.len() == 32,
            i <= 32,
            forall|j: int| 0 <= j < i ==> key@[j] == bytes@[j],
        decreases 32 - i,
    {
        key[i] = bytes[i];
        i = i + 1;
    }
    assert(key@ =~= bytes@);
    Ok(key)
}

/// Why an encrypted stream was refused.
#[derive(PartialEq, Eq, Structural, Debug, Clone, Copy)]
pub enum CipherError {
    /// The input ended inside a frame.
    Truncated,
    /// A frame announces more than `MAX_SEALED_LEN` sealed bytes.
    FrameTooLarge,
    /// A frame's tag does not check under the key and its nonce.
    DecryptionFailed,
}

/// One frame: a nonce, the sealed length, the sealed bytes.
pub open spec fn cipher_frame(nonce: Seq<u8>, sealed: Seq<u8>) -> Seq<u8> {
    nonce + le64(sealed.len()) + sealed
}

/// `f` is a frame that opens, under `key`, to `chunk`, with the shape that
/// the encoder gives it.
pub open spec fn frame_opens_to(key: Seq<u8>, f: Seq<u8>, chunk: Seq<u8>) -> bool {
    &&& f.len() == chunk.len() + 36
    &&& chunk.len() <= BUFFER_SIZE
    &&& f == cipher_frame(f.subrange(0, 12), f.subrange(20, f.len() as int))
    &&& gcm_open_of(key, f.subrange(0, 12), f.subrange(20, f.len() as int)) == Some(chunk)
}

/// Each frame opens to the chunk at the same place.
pub open spec fn frames_open_to(key: Seq<u8>, frames: Seq<Seq<u8>>, chunks: Seq<Seq<u8>>) -> bool {
    &&& frames.len() == chunks.len()
    &&& forall|i: int| 0 <= i < frames.len() ==> frame_opens_to(key, #[trigger] frames[i], chunks[i])
}

/// What reading a frame from the front of `s` gives; `eof` tells whether `s`
/// is all that is left of the stream.
pub ghost enum CipherParse {
    End,
    NeedMore,
    Frame { len: int },
    TooLarge,
    Truncated,
}

pub open spec fn parse_cipher(s: Seq<u8>, eof: bool) -> CipherParse {
    if s.len() < 12 {
        if eof {
            CipherParse::End
        } else {
            CipherParse::NeedMore
        }
    } else if s.len() < 20 {
        if eof {
            CipherParse::Truncated
        } else {
            CipherParse::NeedMore
        }
    } else {
        let n = spec_u64_from_le_bytes(s.subrange(12, 20)) as int;
        if n == 0 {
            CipherParse::End
        } else if n > MAX_SEALED_LEN {
            CipherParse::TooLarge
        } else if s.len() < n + 20 {
            if eof {
                CipherParse::Truncated
            } else {
                CipherParse::NeedMore
            }
        } else {
            CipherParse::Frame { len: n }
        }
    }
}

/// Puts decrypted bytes in front of what the rest of a stream decrypts to.
pub open spec fn prepend_plain(a: Seq<u8>, r: Result<Seq<u8>, CipherError>) -> Result<
    Seq<u8>,
    CipherError,
> {
    match r {
        Ok(rest) => Ok(a + rest),
        Err(e) => Err(e),
    }
}

/// What a whole encrypted stream decrypts to under `key`. A stream ends
/// cleanly at a frame boundary, inside a nonce, or at a frame whose sealed
/// length is zero.
pub open spec fn decode_cipher(key: Seq<u8>, s: Seq<u8>) -> Result<Seq<u8>, CipherError>
    decreases s.len(),
{
    match parse_cipher(s, true) {
        CipherParse::Frame { len } => match gcm_open_of(
            key,
            s.subrange(0, 12),
            s.subrange(20, len + 20),
        ) {
            Some(p) => prepend_plain(p, decode_cipher(key, s.subrange(len + 20, s.len() as int))),
            None => Err(CipherError::DecryptionFailed),
        },
        CipherParse::Truncated => Err(CipherError::Truncated),
        CipherParse::TooLarge => Err(CipherError::FrameTooLarge),
        _ => Ok(Seq::empty()),
    }
}


/// What `parse_cipher_frame` returns.
#[derive(Debug, PartialEq, Eq, Structural, Clone, Copy)]
pub enum CipherStep {
    /// The stream ended cleanly.
    End,
    /// The frame is not complete yet; read more.
    NeedMore,
    /// A complete frame: its nonce is the first 12 bytes, its sealed text the
    /// `len` bytes after the 20-byte head.
    Frame { len: usize },
    /// A frame announces more than `MAX_SEALED_LEN` sealed bytes.
    TooLarge,
    /// The stream ended inside a frame.
    Truncated,
}

/// Whether an executable frame step is the spec parse `p`.
pub open spec fn cipher_step_is(r: CipherStep, p: CipherParse) -> bool {
    match r {
        CipherStep::End => p is End,
        CipherStep::NeedMore => p is NeedMore,
        CipherStep::Frame { len } => p == CipherParse::Frame { len: len as int },
        CipherStep::TooLarge => p is TooLarge,
        CipherStep::Truncated => p is Truncated,
    }
}

/// Seals one chunk under a given nonce into one frame.
pub fn seal_chunk(key: &CipherKey, nonce: &[u8; 12], chunk: &[u8]) -> (r: Vec<u8>)
    requires
        chunk@.len() <= BUFFER_SIZE,
    ensures
        r@ == cipher_frame(nonce@, gcm_seal_of(key@, nonce@, chunk@)),
        frame_opens_to(key@, r@, chunk@),
{
    let sealed = match gcm_seal(key, nonce, chunk) {
        Ok(v) => v,
        Err(_) => {
            proof {
                assert(false);
            }
            Vec::new()
        },
    };
    let mut out: Vec<u8> = Vec::new();
    append_bytes(&mut out, nonce.as_slice());
    let size = u64_to_le_bytes(sealed.len() as u64);
    append_bytes(&mut out, size.as_slice());
    append_bytes(&mut out, sealed.as_slice());
    proof {
        lemma_le64(sealed@.len());
        assert(out@.subrange(0, 12) =~= nonce@);
        assert(out@.subrange(20, out@.len() as int) =~= sealed@);
    }
    out
}

/// Encrypts one chunk into one frame under a fresh random nonce.
pub fn cipher_chunk(key: &CipherKey, chunk: &[u8]) -> (r: Vec<u8>)
    requires
        chunk@.len() <= BUFFER_SIZE,
    ensures
        r@ == cipher_frame(r@.subrange(0, 12), gcm_seal_of(key@, r@.subrange(0, 12), chunk@)),
        frame_opens_to(key@, r@, chunk@),
{
    let nonce = random_nonce();
    let r = seal_chunk(key, &nonce, chunk);
    proof {
        lemma_le64(gcm_seal_of(key@, nonce@, chunk@).len());
        assert(r@.subrange(0, 12) =~= nonce@);
    }
    r
}

/// Reads a frame's head from the front of `buf`; `at_eof` tells whether the
/// source has nothing more to give.
pub fn parse_cipher_frame(buf: &[u8], at_eof: bool) -> (r: CipherStep)
    ensures
        cipher_step_is(r, parse_cipher(buf@, at_eof)),
{
    if buf.len() < 12 {
        if at_eof {
            return CipherStep::End;
        } else {
            return CipherStep::NeedMore;
        }
    }
    if buf.len() < 20 {
        if at_eof {
            return CipherStep::Truncated;
        } else {
            return CipherStep::NeedMore;
        }
    }
    let n = u64_from_le_bytes(&buf[12..20]);
    if n == 0 {
        CipherStep::End
    } else if n > MAX_SEALED_LEN as u64 {
        CipherStep::TooLarge
    } else if buf.len() - 20 < n as usize {
        if at_eof {
            CipherStep::Truncated
        } else {
            CipherStep::NeedMore
        }
    } else {
        CipherStep::Frame { len: n as usize }
    }
}

/// Opens the sealed text of one frame under its nonce.
pub fn open_sealed(key: &CipherKey, nonce: &[u8], sealed: &[u8]) -> (r: Result<Vec<u8>, CipherError>)
    requires
        nonce@.len() == 12,
    ensures
        match r {
            Ok(v) => gcm_open_of(key@, nonce@, sealed@) == Some(v@),
            Err(e) => gcm_open_of(key@, nonce@, sealed@) is None && e == CipherError::DecryptionFailed,
        },
{
    match gcm_open(key, nonce, sealed) {
        Ok(v) => Ok(v),
        Err(_) => Err(CipherError::DecryptionFailed),
    }
}

/// Decrypting frames that open to some chunks, followed by any tail, gives
/// those chunks followed by what the tail decrypts to.
pub proof fn lemma_decode_cipher_then(
    key: Seq<u8>,
    frames: Seq<Seq<u8>>,
    chunks: Seq<Seq<u8>>,
    tail: Seq<u8>,
)
    requires
        frames_open_to(key, frames, chunks),
    ensures
        decode_cipher(key, joined(frames) + tail) == prepend_plain(
            joined(chunks),
            decode_cipher(key, tail),
        ),
    decreases frames.len(),
{
    if frames.len() == 0 {
        assert(joined(frames) + tail =~= tail);
        assert(joined(chunks) =~= Seq::<u8>::empty());
        if let Ok(x) = decode_cipher(key, tail) {
            assert(Seq::<u8>::empty() + x =~= x);
        }
    } else {
        let f = frames[0];
        let rest_f = frames.drop_first();
        let rest_c = chunks.drop_first();
        assert(frames_open_to(key, rest_f, rest_c)) by {
            assert forall|i: int| 0 <= i < rest_f.len() implies frame_opens_to(
                key,
                #[trigger] rest_f[i],
                rest_c[i],
            ) by {
                assert(rest_f[i] == frames[i + 1]);
            }
        }
        assert(frame_opens_to(key, f, chunks[0]));
        let sealed = f.subrange(20, f.len() as int);
        let t2 = joined(rest_f) + tail;
        let s = joined(frames) + tail;
        lemma_le64(sealed.len());
        assert(s =~= f + t2);
        assert(f =~= f.subrange(0, 12) + le64(sealed.len()) + sealed);
        assert(s.subrange(0, 12) =~= f.subrange(0, 12));
        assert(s.subrange(12, 20) =~= le64(sealed.len()));
        assert(s.subrange(20, sealed.len() as int + 20) =~= sealed);
        assert(s.subrange(sealed.len() as int + 20, s.len() as int) =~= t2);
        lemma_decode_cipher_then(key, rest_f, rest_c, tail);
        if let Ok(x) = decode_cipher(key, tail) {
            assert(chunks[0] + (joined(rest_c) + x) =~= joined(chunks) + x);
        }
    }
}

/// Round trip: frames that each open to a chunk under `key` decrypt, as a
/// stream, to those chunks joined in order.
pub proof fn lemma_cipher_round_trip(key: Seq<u8>, frames: Seq<Seq<u8>>, chunks: Seq<Seq<u8>>)
    requires
        frames_open_to(key, frames, chunks),
    ensures
        decode_cipher(key, joined(frames)) == Ok::<_, CipherError>(joined(chunks)),
{
    lemma_decode_cipher_then(key, frames, chunks, Seq::empty());
    assert(joined(frames) + Seq::<u8>::empty() =~= joined(frames));
    assert(joined(chunks) + Seq::<u8>::empty() =~= joined(chunks));
}

/// Reading more never changes a decision: once the bytes read so far give a
/// frame, an end or a refusal without knowing where the stream ends, the same
/// bytes followed by anything give the same, at the end of the stream or not.
pub proof fn lemma_cipher_parse_stable(s: Seq<u8>, more: Seq<u8>, eof: bool)
    requires
        !(parse_cipher(s, false) is NeedMore),
    ensures
        parse_cipher(s + more, eof) == parse_cipher(s, false),
{
    assert((s + more).subrange(12, 20) =~= s.subrange(12, 20));
}

/// Whole frames followed by a frame cut after its nonce and before its end
/// are refused as truncated.
pub proof fn lemma_cipher_cut_inside_frame(
    key: Seq<u8>,
    frames: Seq<Seq<u8>>,
    chunks: Seq<Seq<u8>>,
    last: Seq<u8>,
    last_chunk: Seq<u8>,
    cut: int,
)
    requires
        frames_open_to(key, frames, chunks),
        frame_opens_to(key, last, last_chunk),
        12 <= cut < last.len(),
    ensures
        decode_cipher(key, joined(frames) + last.subrange(0, cut)) == Err::<Seq<u8>, _>(
            CipherError::Truncated,
        ),
{
    let t = last.subrange(0, cut);
    lemma_decode_cipher_then(key, frames, chunks, t);
    let sealed = last.subrange(20, last.len() as int);
    lemma_le64(sealed.len());
    if cut >= 20 {
        assert(last =~= last.subrange(0, 12) + le64(sealed.len()) + sealed);
        assert(t.subrange(12, 20) =~= le64(sealed.len()));
    }
}

/// Encrypts a whole byte string under `key`, one frame per `BUFFER_SIZE`
/// chunk, each under a fresh nonce; the result decrypts back to the input.
pub fn cipher_all(key: &CipherKey, data: &[u8]) -> (r: Vec<u8>)
    ensures
        exists|frames: Seq<Seq<u8>>|
            r@ == joined(frames) && frames_open_to(key@, frames, chunks_of(data@, BUFFER_SIZE as nat)),
        decode_cipher(key@, r@) == Ok::<_, CipherError>(data@),
{
    let mut out: Vec<u8> = Vec::new();
    let mut pos: usize = 0;
    let ghost mut frames: Seq<Seq<u8>> = Seq::empty();
    let ghost mut chunks: Seq<Seq<u8>> = Seq::empty();
    assert(out@ =~= joined(frames));
    assert(joined(chunks) =~= data@.subrange(0, 0));
    assert(data@.subrange(0, data@.len() as int) =~= data@);
    assert(chunks + chunks_of(data@, BUFFER_SIZE as nat) =~= chunks_of(data@, BUFFER_SIZE as nat));
    while pos < data.len()
        invariant
            pos <= data@.len(),
            out@ == joined(frames),
            chunks + chunks_of(data@.subrange(pos as int, data@.len() as int), BUFFER_SIZE as nat)
                == chunks_of(data@, BUFFER_SIZE as nat),
            frames_open_to(key@, frames, chunks),
            joined(chunks) == data@.subrange(0, pos as int),
        decreases data@.len() - pos,
    {
        let end = if data.len() - pos > BUFFER_SIZE {
            pos + BUFFER_SIZE
        } else {
            data.len()
        };
        let chunk = &data[pos..end];
        let frame = cipher_chunk(key, chunk);
        append_bytes(&mut out, frame.as_slice());
        proof {
            let of = frames;
            let oc = chunks;
            let rest = data@.subrange(pos as int, data@.len() as int);
            let after = data@.subrange(end as int, data@.len() as int);
            if rest.len() <= BUFFER_SIZE {
                assert(chunk@ =~= rest);
                assert(after =~= Seq::<u8>::empty());
                assert(chunks_of(after, BUFFER_SIZE as nat) =~= Seq::<Seq<u8>>::empty());
            } else {
                assert(chunk@ =~= rest.subrange(0, BUFFER_SIZE as int));
                assert(after =~= rest.subrange(BUFFER_SIZE as int, rest.len() as int));
            }
            assert(chunks_of(rest, BUFFER_SIZE as nat) =~= seq![chunk@] + chunks_of(after, BUFFER_SIZE as nat));
            assert(oc.push(chunk@) + chunks_of(after, BUFFER_SIZE as nat) =~= oc + chunks_of(rest, BUFFER_SIZE as nat));
            lemma_joined_push(frames, frame@);
            lemma_joined_push(chunks, chunk@);
            assert(data@.subrange(0, end as int) =~= data@.subrange(0, pos as int) + chunk@);
            frames = frames.push(frame@);
            chunks = chunks.push(chunk@);
            assert(frames_open_to(key@, frames, chunks)) by {
                assert forall|i: int| 0 <= i < frames.len() implies frame_opens_to(
                    key@,
                    #[trigger] frames[i],
                    chunks[i],
                ) by {
                    if i < frames.len() - 1 {
                        assert(frames[i] == of[i] && chunks[i] == oc[i]);
                    }
                }
            }
        }
        pos = end;
    }
    proof {
        lemma_cipher_round_trip(key@, frames, chunks);
        assert(data@.subrange(0, data@.len() as int) =~= data@);
        let tail = data@.subrange(data@.len() as int, data@.len() as int);
        assert(chunks_of(tail, BUFFER_SIZE as nat) =~= Seq::<Seq<u8>>::empty());
        assert(chunks + Seq::<Seq<u8>>::empty() =~= chunks);
    }
    out
}

/// Decrypts a whole encrypted stream under `key`.
pub fn decipher_all(key: &CipherKey, data: &[u8]) -> (r: Result<Vec<u8>, CipherError>)
    ensures
        match r {
            Ok(v) => decode_cipher(key@, data@) == Ok::<_, CipherError>(v@),
            Err(e) => decode_cipher(key@, data@) == Err::<Seq<u8>, _>(e),
        },
{
    let mut out: Vec<u8> = Vec::new();
    let mut pos: usize = 0;
    assert(data@.subrange(0, data@.len() as int) =~= data@);
    assert(out@ =~= Seq::<u8>::empty());
    proof {
        if let Ok(x) = decode_cipher(key@, data@) {
            assert(Seq::<u8>::empty() + x =~= x);
        }
    }
    loop
        invariant
            pos <= data@.len(),
            decode_cipher(key@, data@) == prepend_plain(
                out@,
                decode_cipher(key@, data@.subrange(pos as int, data@.len() as int)),
            ),
        decreases data@.len() - pos,
    {
        let ghost rest = data@.subrange(pos as int, data@.len() as int);
        let tail = &data[pos..data.len()];
        match parse_cipher_frame(tail, true) {
            CipherStep::Frame { len } => {
                let plain = open_sealed(key, &tail[0..12], &tail[20..len + 20])?;
                let ghost before = out@;
                append_bytes(&mut out, plain.as_slice());
                assert(tail@ == rest);
                assert(rest.subrange(len + 20, rest.len() as int) =~= data@.subrange(
                    pos + len + 20,
                    data@.len() as int,
                ));
                proof {
                    let next = decode_cipher(
                        key@,
                        data@.subrange(pos + len + 20, data@.len() as int),
                    );
                    if let Ok(x) = next {
                        assert(before + (plain@ + x) =~= out@ + x);
                    }
                }
                pos = pos + len + 20;
            },
            CipherStep::Truncated => {
                return Err(CipherError::Truncated);
            },
            CipherStep::TooLarge => {
                return Err(CipherError::FrameTooLarge);
            },
            _ => {
                assert(out@ + Seq::<u8>::empty() =~= out@);
                return Ok(out);
            },
        }
    }
}

} // verus!
