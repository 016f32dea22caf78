//! Block compression of a byte stream.
//!
//! Each chunk of input (one read, at most `BUFFER_SIZE` bytes) becomes one
//! frame `frame_len (u64 le) | block`, where the block is the chunk in LZ4
//! block form with its uncompressed size in front.
use lz4_flex::block::DecompressError;
use vstd::bytes::*;
use vstd::prelude::*;

use crate::wire::{append_bytes, chunks_of, joined, le64, lemma_joined_push, lemma_le64};
use crate::BUFFER_SIZE;

verus! {

#[verifier::external_type_specification]
#[verifier::external_body]
pub struct ExDecompressError(lz4_flex::block::DecompressError);

/// The size-prepended LZ4 block of a chunk.
pub uninterp spec fn lz4_block_of(data: Seq<u8>) -> Seq<u8>;

/// What a size-prepended LZ4 block decompresses to, if it is well formed.
pub uninterp spec fn lz4_unblock_of(block: Seq<u8>) -> Option<Seq<u8>>;

/// Relies on `lz4_flex::block::compress_prepend_size`: the block depends on
/// the input alone, and `decompress_size_prepended` gives the input back
/// (the size prefix is a `u32`, hence the bound).
#[verifier::external_body]
fn lz4_compress(data: &[u8]) -> (r: Vec<u8>)
    requires
        data@.len() <= u32::MAX,
    ensures
        r@ == lz4_block_of(data@),
        lz4_unblock_of(r@) == Some(data@),
{
    lz4_flex::block::compress_prepend_size(data)
}

/// Relies on `lz4_flex::block::decompress_size_prepended`: the outcome
/// depends on the block alone.
#[verifier::external_body]
fn lz4_decompress(block: &[u8]) -> (r: Result<Vec<u8>, DecompressError>)
    ensures
        match r {
            Ok(v) => lz4_unblock_of(block@) == Some(v@),
            Err(_) => lz4_unblock_of(block@) is None,
        },
{
    lz4_flex::block::decompress_size_prepended(block)
}

/// Why a compressed stream was refused.
#[derive(PartialEq, Eq, Structural, Debug, Clone, Copy)]
pub enum FceError {
    /// The input ended inside a frame.
    Truncated,
    /// A frame's block is not a well-formed LZ4 block.
    InvalidData,
}

/// One frame around a block.
pub open spec fn frame_of(block: Seq<u8>) -> Seq<u8> {
    le64(block.len()) + block
}

/// The frames around a list of blocks, in order.
pub open spec fn frames_of(blocks: Seq<Seq<u8>>) -> Seq<u8> {
    joined(blocks.map_values(|b: Seq<u8>| frame_of(b)))
}

/// Each block decompresses to the chunk at the same place, and fits a frame.
pub open spec fn blocks_decode_to(blocks: Seq<Seq<u8>>, chunks: Seq<Seq<u8>>) -> bool {
    &&& blocks.len() == chunks.len()
    &&& forall|i: int|
        0 <= i < blocks.len() ==> lz4_unblock_of(#[trigger] blocks[i]) == Some(chunks[i])
            && blocks[i].len() <= u64::MAX
}

/// What reading a frame from the front of `s` gives; `eof` tells whether `s`
/// is all that is left of the stream.
pub ghost enum FrameParse {
    End,
    NeedMore,
    Frame { len: int },
    Truncated,
}

pub open spec fn parse_frame(s: Seq<u8>, eof: bool) -> FrameParse {
    if s.len() < 8 {
        if eof {
            FrameParse::End
        } else {
            FrameParse::NeedMore
        }
    } else {
        let n = spec_u64_from_le_bytes(s.subrange(0, 8)) as int;
        if s.len() < n + 8 {
            if eof {
                FrameParse::Truncated
            } else {
                FrameParse::NeedMore
            }
        } else {
            FrameParse::Frame { len: n }
        }
    }
}

/// Puts decoded bytes in front of what the rest of a stream decodes to.
pub open spec fn prepend_bytes(a: Seq<u8>, r: Result<Seq<u8>, FceError>) -> Result<
    Seq<u8>,
    FceError,
> {
    match r {
        Ok(rest) => Ok(a + rest),
        Err(e) => Err(e),
    }
}

/// What a whole compressed stream decompresses to. A stream that ends at a
/// frame boundary, or inside the length prefix of a frame, ends cleanly.
pub open spec fn decode_fce(s: Seq<u8>) -> Result<Seq<u8>, FceError>
    decreases s.len(),
{
    match parse_frame(s, true) {
        FrameParse::Frame { len } => match lz4_unblock_of(s.subrange(8, len + 8)) {
            Some(d) => prepend_bytes(d, decode_fce(s.subrange(len + 8, s.len() as int))),
            None => Err(FceError::InvalidData),
        },
        FrameParse::Truncated => Err(FceError::Truncated),
        _ => Ok(Seq::empty()),
    }
}

/// What `parse_compressed_frame` returns.
#[derive(Debug, PartialEq, Eq, Structural, Clone, Copy)]
pub enum FrameStep {
    /// The stream ended cleanly at a frame boundary.
    End,
    /// The frame is not complete yet; read more.
    NeedMore,
    /// A complete frame whose block is the `len` bytes after the 8-byte prefix.
    Frame { len: usize },
    /// The stream ended inside a frame.
    Truncated,
}

/// Whether an executable frame step is the spec parse `p`.
pub open spec fn frame_step_is(r: FrameStep, p: FrameParse) -> bool {
    match r {
        FrameStep::End => p is End,
        FrameStep::NeedMore => p is NeedMore,
        FrameStep::Frame { len } => p == FrameParse::Frame { len: len as int },
        FrameStep::Truncated => p is Truncated,
    }
}

/// Compresses one chunk into one frame.
pub fn compress_chunk(chunk: &[u8]) -> (r: Vec<u8>)
    requires
        chunk@.len() <= BUFFER_SIZE,
    ensures
        r@ == frame_of(lz4_block_of(chunk@)),
        lz4_unblock_of(lz4_block_of(chunk@)) == Some(chunk@),
        lz4_block_of(chunk@).len() <= u64::MAX,
{
    let block = lz4_compress(chunk);
    let mut out = u64_to_le_bytes(block.len() as u64);
    append_bytes(&mut out, block.as_slice());
    out
}

/// Decompresses the block of one frame.
pub fn decompress_block(block: &[u8]) -> (r: Result<Vec<u8>, FceError>)
    ensures
        match r {
            Ok(v) => lz4_unblock_of(block@) == Some(v@),
            Err(e) => lz4_unblock_of(block@) is None && e == FceError::InvalidData,
        },
{
    match lz4_decompress(block) {
        Ok(v) => Ok(v),
        Err(_) => Err(FceError::InvalidData),
    }
}

/// Reads a frame's length prefix from the front of `buf`; `at_eof` tells
/// whether the source has nothing more to give.
pub fn parse_compressed_frame(buf: &[u8], at_eof: bool) -> (r: FrameStep)
    ensures
        frame_step_is(r, parse_frame(buf@, at_eof)),
{
    if buf.len() < 8 {
        if at_eof {
            return FrameStep::End;
        } else {
            return FrameStep::NeedMore;
        }
    }
    let n = u64_from_le_bytes(&buf[0..8]);
    if ((buf.len() - 8) as u64) < n {
        if at_eof {
            FrameStep::Truncated
        } else {
            FrameStep::NeedMore
        }
    } else {
        FrameStep::Frame { len: n as usize }
    }
}

proof fn lemma_frames_push(blocks: Seq<Seq<u8>>, b: Seq<u8>)
    ensures
        frames_of(blocks.push(b)) == frames_of(blocks) + frame_of(b),
{
    assert(blocks.push(b).map_values(|b: Seq<u8>| frame_of(b)) =~= blocks.map_values(
        |b: Seq<u8>| frame_of(b),
    ).push(frame_of(b)));
    lemma_joined_push(blocks.map_values(|b: Seq<u8>| frame_of(b)), frame_of(b));
}

/// Decoding the frames of blocks that decompress to some chunks, followed by
/// any tail, gives those chunks followed by what the tail decodes to.
pub proof fn lemma_decode_frames_then(blocks: Seq<Seq<u8>>, chunks: Seq<Seq<u8>>, tail: Seq<u8>)
    requires
        blocks_decode_to(blocks, chunks),
    ensures
        decode_fce(frames_of(blocks) + tail) == prepend_bytes(joined(chunks), decode_fce(tail)),
    decreases blocks.len(),
{
    if blocks.len() == 0 {
        assert(frames_of(blocks) + tail =~= tail);
        assert(joined(chunks) =~= Seq::<u8>::empty());
        if let Ok(x) = decode_fce(tail) {
            assert(Seq::<u8>::empty() + x =~= x);
        }
    } else {
        let b = blocks[0];
        let rest_b = blocks.drop_first();
        let rest_c = chunks.drop_first();
        assert(blocks_decode_to(rest_b, rest_c)) by {
            assert forall|i: int| 0 <= i < rest_b.len() implies lz4_unblock_of(
                #[trigger] rest_b[i],
            ) == Some(rest_c[i]) && rest_b[i].len() <= u64::MAX by {
                assert(rest_b[i] == blocks[i + 1]);
            }
        }
        assert(lz4_unblock_of(blocks[0]) == Some(chunks[0]) && blocks[0].len() <= u64::MAX);
        assert(blocks.map_values(|b: Seq<u8>| frame_of(b)).drop_first() =~= rest_b.map_values(
            |b: Seq<u8>| frame_of(b),
        ));
        let t2 = frames_of(rest_b) + tail;
        let s = frames_of(blocks) + tail;
        lemma_le64(b.len());
        assert(s =~= le64(b.len()) + b + t2);
        assert(s.subrange(0, 8) =~= le64(b.len()));
        assert(s.subrange(8, b.len() as int + 8) =~= b);
        assert(s.subrange(b.len() as int + 8, s.len() as int) =~= t2);
        lemma_decode_frames_then(rest_b, rest_c, tail);
        if let Ok(x) = decode_fce(tail) {
            assert(chunks[0] + (joined(rest_c) + x) =~= joined(chunks) + x);
        }
    }
}

/// Round trip: the frames of blocks that each decompress to a chunk
/// decompress, as a stream, to those chunks joined in order.
pub proof fn lemma_fce_round_trip(blocks: Seq<Seq<u8>>, chunks: Seq<Seq<u8>>)
    requires
        blocks_decode_to(blocks, chunks),
    ensures
        decode_fce(frames_of(blocks)) == Ok::<_, FceError>(joined(chunks)),
{
    lemma_decode_frames_then(blocks, chunks, Seq::empty());
    assert(frames_of(blocks) + Seq::<u8>::empty() =~= frames_of(blocks));
    assert(joined(chunks) + Seq::<u8>::empty() =~= joined(chunks));
}

/// Reading more never changes a decision: once the bytes read so far give a
/// whole frame without knowing where the stream ends, the same bytes followed
/// by anything give the same frame, at the end of the stream or not.
pub proof fn lemma_frame_parse_stable(s: Seq<u8>, more: Seq<u8>, eof: bool)
    requires
        !(parse_frame(s, false) is NeedMore),
    ensures
        parse_frame(s + more, eof) == parse_frame(s, false),
{
    assert((s + more).subrange(0, 8) =~= s.subrange(0, 8));
}

/// Whole frames followed by a frame cut after its length prefix and before
/// its end are refused as truncated.
pub proof fn lemma_fce_cut_inside_frame(
    blocks: Seq<Seq<u8>>,
    chunks: Seq<Seq<u8>>,
    last: Seq<u8>,
    cut: int,
)
    requires
        blocks_decode_to(blocks, chunks),
        last.len() <= u64::MAX,
        8 <= cut < frame_of(last).len(),
    ensures
        decode_fce(frames_of(blocks) + frame_of(last).subrange(0, cut)) == Err::<Seq<u8>, _>(
            FceError::Truncated,
        ),
{
    let t = frame_of(last).subrange(0, cut);
    lemma_decode_frames_then(blocks, chunks, t);
    lemma_le64(last.len());
    assert(t.subrange(0, 8) =~= le64(last.len()));
}

/// The blocks of a list of chunks.
pub open spec fn blocks_of(chunks: Seq<Seq<u8>>) -> Seq<Seq<u8>> {
    chunks.map_values(|c: Seq<u8>| lz4_block_of(c))
}

/// Compresses a whole byte string, one frame per `BUFFER_SIZE` chunk; the
/// result decompresses back to the input.
pub fn compress_all(data: &[u8]) -> (r: Vec<u8>)
    ensures
        r@ == frames_of(blocks_of(chunks_of(data@, BUFFER_SIZE as nat))),
        decode_fce(r@) == Ok::<_, FceError>(data@),
{
    let mut out: Vec<u8> = Vec::new();
    let mut pos: usize = 0;
    let ghost mut blocks: Seq<Seq<u8>> = Seq::empty();
    let ghost mut chunks: Seq<Seq<u8>> = Seq::empty();
    assert(out@ =~= frames_of(blocks));
    assert(joined(chunks) =~= data@.subrange(0, 0));
    assert(data@.subrange(0, data@.len() as int) =~= data@);
    assert(chunks + chunks_of(data@, BUFFER_SIZE as nat) =~= chunks_of(data@, BUFFER_SIZE as nat));
    while pos < data.len()
        invariant
            pos <= data@.len(),
            out@ == frames_of(blocks),
            blocks == blocks_of(chunks),
            chunks + chunks_of(data@.subrange(pos as int, data@.len() as int), BUFFER_SIZE as nat)
                == chunks_of(data@, BUFFER_SIZE as nat),
            blocks_decode_to(blocks, chunks),
            joined(chunks) == data@.subrange(0, pos as int),
        decreases data@.len() - pos,
    {
        let end = if data.len() - pos > BUFFER_SIZE {
            pos + BUFFER_SIZE
        } else {
            data.len()
        };
        let chunk = &data[pos..end];
        let frame = compress_chunk(chunk);
        append_bytes(&mut out, frame.as_slice());
        proof {
            let b = lz4_block_of(chunk@);
            let ob = blocks;
            let oc = chunks;
            let rest = data@.subrange(pos as int, data@.len() as int);
            let after = data@.subrange(end as int, data@.len() as int);
            if rest.len() <= BUFFER_SIZE {
                assert(chunk@ =~= rest);
                assert(after =~= Seq::<u8>::empty());
                assert(chunks_of(after, BUFFER_SIZE as nat) =~= Seq::<Seq<u8>>::empty());
            } else {
                assert(chunk@ =~= rest.subrange(0, BUFFER_SIZE as int));
                assert(after =~= rest.subrange(BUFFER_SIZE as int, rest.len() as int));
            }
            assert(chunks_of(rest, BUFFER_SIZE as nat) =~= seq![chunk@] + chunks_of(after, BUFFER_SIZE as nat));
            assert(oc.push(chunk@) + chunks_of(after, BUFFER_SIZE as nat) =~= oc + chunks_of(rest, BUFFER_SIZE as nat));
            assert(blocks_of(oc.push(chunk@)) =~= blocks_of(oc).push(b));
            lemma_frames_push(blocks, b);
            lemma_joined_push(chunks, chunk@);
            assert(data@.subrange(0, end as int) =~= data@.subrange(0, pos as int) + chunk@);
            blocks = blocks.push(b);
            chunks = chunks.push(chunk@);
            assert(blocks_decode_to(blocks, chunks)) by {
                assert forall|i: int| 0 <= i < blocks.len() implies lz4_unblock_of(
                    #[trigger] blocks[i],
                ) == Some(chunks[i]) && blocks[i].len() <= u64::MAX by {
                    if i < blocks.len() - 1 {
                        assert(blocks[i] == ob[i] && chunks[i] == oc[i]);
                    }
                }
            }
        }
        pos = end;
    }
    proof {
        lemma_fce_round_trip(blocks, chunks);
        assert(data@.subrange(0, data@.len() as int) =~= data@);
        let tail = data@.subrange(data@.len() as int, data@.len() as int);
        assert(chunks_of(tail, BUFFER_SIZE as nat) =~= Seq::<Seq<u8>>::empty());
        assert(chunks + Seq::<Seq<u8>>::empty() =~= chunks);
    }
    out
}

/// Decompresses a whole compressed stream.
pub fn decompress_all(data: &[u8]) -> (r: Result<Vec<u8>, FceError>)
    ensures
        match r {
            Ok(v) => decode_fce(data@) == Ok::<_, FceError>(v@),
            Err(e) => decode_fce(data@) == Err::<Seq<u8>, _>(e),
        },
{
    let mut out: Vec<u8> = Vec::new();
    let mut pos: usize = 0;
    assert(data@.subrange(0, data@.len() as int) =~= data@);
    assert(out@ =~= Seq::<u8>::empty());
    proof {
        if let Ok(x) = decode_fce(data@) {
            assert(Seq::<u8>::empty() + x =~= x);
        }
    }
    loop
        invariant
            pos <= data@.len(),
            decode_fce(data@) == prepend_bytes(
                out@,
                decode_fce(data@.subrange(pos as int, data@.len() as int)),
            ),
        decreases data@.len() - pos,
    {
        let ghost rest = data@.subrange(pos as int, data@.len() as int);
        let tail = &data[pos..data.len()];
        match parse_compressed_frame(tail, true) {
            FrameStep::Frame { len } => {
                let block = &tail[8..len + 8];
                let plain = decompress_block(block)?;
                let ghost before = out@;
                append_bytes(&mut out, plain.as_slice());
                assert(tail@ == rest);
                assert(rest.subrange(len + 8, rest.len() as int) =~= data@.subrange(
                    pos + len + 8,
                    data@.len() as int,
                ));
                proof {
                    let next = decode_fce(data@.subrange(pos + len + 8, data@.len() as int));
                    if let Ok(x) = next {
                        assert(before + (plain@ + x) =~= out@ + x);
                    }
                }
                pos = pos + len + 8;
            },
            FrameStep::Truncated => {
                return Err(FceError::Truncated);
            },
            _ => {
                assert(out@ + Seq::<u8>::empty() =~= out@);
                return Ok(out);
            },
        }
    }
}

} // verus!
