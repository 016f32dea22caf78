//! Directory framing: a tree of regular files as a flat byte stream.
//!
//! Each file is one entry `path_len (u64 le) | path | file_size (u64 le) |
//! contents`; a stream is zero or more entries, ended by the end of input.
use vstd::bytes::*;
use vstd::prelude::*;

use crate::wire::{append_bytes, le64, lemma_le64};

verus! {

/// Longest path, in bytes, that a decoder accepts.
pub const MAX_PATH_LEN: usize = 260;

/// Why a directory stream was refused.
#[derive(PartialEq, Eq, Structural, Debug, Clone, Copy)]
pub enum FadcError {
    /// A path length prefix above `MAX_PATH_LEN`.
    PathTooLong,
    /// The input ended inside an entry.
    Truncated,
}

/// One regular file: its path relative to the tree's root, and its contents.
#[derive(Debug)]
pub struct FileEntry {
    pub path: Vec<u8>,
    pub data: Vec<u8>,
}

impl View for FileEntry {
    type V = (Seq<u8>, Seq<u8>);

    open spec fn view(&self) -> (Seq<u8>, Seq<u8>) {
        (self.path@, self.data@)
    }
}

/// The abstract value of a list of entries.
pub open spec fn entries_view(v: Seq<FileEntry>) -> Seq<(Seq<u8>, Seq<u8>)> {
    v.map_values(|e: FileEntry| e@)
}

/// The bytes that precede a file's contents.
pub open spec fn header_bytes(path: Seq<u8>, size: nat) -> Seq<u8> {
    le64(path.len()) + path + le64(size)
}

/// The encoding of one file.
pub open spec fn entry_bytes(path: Seq<u8>, data: Seq<u8>) -> Seq<u8> {
    header_bytes(path, data.len()) + data
}

/// The encoding of a list of files, in order.
pub open spec fn entries_bytes(es: Seq<(Seq<u8>, Seq<u8>)>) -> Seq<u8>
    decreases es.len(),
{
    if es.len() == 0 {
        Seq::empty()
    } else {
        entry_bytes(es[0].0, es[0].1) + entries_bytes(es.drop_first())
    }
}

/// A file whose entry a decoder takes back: its path fits the path cap and
/// its lengths fit the 64-bit prefixes.
pub open spec fn entry_ok(e: (Seq<u8>, Seq<u8>)) -> bool {
    e.0.len() <= MAX_PATH_LEN && e.1.len() <= u64::MAX
}

/// What reading an entry header from the front of `s` gives; `eof` tells
/// whether `s` is all that is left of the stream.
pub ghost enum HeaderParse {
    End,
    NeedMore,
    Header { path: Seq<u8>, size: int, used: int },
    Failed { e: FadcError },
}

pub open spec fn parse_header(s: Seq<u8>, eof: bool) -> HeaderParse {
    if s.len() < 8 {
        if eof {
            HeaderParse::End
        } else {
            HeaderParse::NeedMore
        }
    } else {
        let plen = spec_u64_from_le_bytes(s.subrange(0, 8)) as int;
        if plen > MAX_PATH_LEN {
            HeaderParse::Failed { e: FadcError::PathTooLong }
        } else if s.len() < plen + 16 {
            if eof {
                HeaderParse::Failed { e: FadcError::Truncated }
            } else {
                HeaderParse::NeedMore
            }
        } else {
            HeaderParse::Header {
                path: s.subrange(8, plen + 8),
                size: spec_u64_from_le_bytes(s.subrange(plen + 8, plen + 16)) as int,
                used: plen + 16,
            }
        }
    }
}

/// Puts decoded entries in front of what the rest of the stream decodes to.
pub open spec fn prepend_entries(
    es: Seq<(Seq<u8>, Seq<u8>)>,
    r: Result<Seq<(Seq<u8>, Seq<u8>)>, FadcError>,
) -> Result<Seq<(Seq<u8>, Seq<u8>)>, FadcError> {
    match r {
        Ok(rest) => Ok(es + rest),
        Err(e) => Err(e),
    }
}

proof fn lemma_prepend_empty(r: Result<Seq<(Seq<u8>, Seq<u8>)>, FadcError>)
    ensures
        prepend_entries(Seq::empty(), r) == r,
{
    if let Ok(rest) = r {
        assert(Seq::<(Seq<u8>, Seq<u8>)>::empty() + rest =~= rest);
    }
}

proof fn lemma_prepend_assoc(
    a: Seq<(Seq<u8>, Seq<u8>)>,
    b: Seq<(Seq<u8>, Seq<u8>)>,
    r: Result<Seq<(Seq<u8>, Seq<u8>)>, FadcError>,
)
    ensures
        prepend_entries(a, prepend_entries(b, r)) == prepend_entries(a + b, r),
{
    if let Ok(rest) = r {
        assert(a + (b + rest) =~= (a + b) + rest);
    }
}

/// What a whole directory stream decodes to. A stream that ends at an entry
/// boundary, or inside the first length prefix of an entry, ends cleanly; one
/// that ends anywhere else inside an entry is truncated.
pub open spec fn decode_dir(s: Seq<u8>) -> Result<Seq<(Seq<u8>, Seq<u8>)>, FadcError>
    decreases s.len(),
{
    match parse_header(s, true) {
        HeaderParse::Header { path, size, used } => {
            if s.len() < used + size {
                Err(FadcError::Truncated)
            } else {
                prepend_entries(
                    seq![(path, s.subrange(used, used + size))],
                    decode_dir(s.subrange(used + size, s.len() as int)),
                )
            }
        },
        HeaderParse::Failed { e } => Err(e),
        _ => Ok(Seq::empty()),
    }
}


/// What a directory walk does with one entry.
#[derive(PartialEq, Eq, Structural, Debug, Clone, Copy)]
pub enum WalkAction {
    /// Send the file as one entry.
    SendFile,
    /// Walk into the directory.
    Descend,
    /// Leave it out, with a warning: symbolic links (never followed, so no
    /// cycle can arise) and special files.
    Skip,
}

/// What the walk does with an entry, from its own metadata (links not
/// followed).
pub fn classify_entry(is_file: bool, is_dir: bool, is_symlink: bool) -> (r: WalkAction)
    ensures
        r == (if is_symlink {
            WalkAction::Skip
        } else if is_file {
            WalkAction::SendFile
        } else if is_dir {
            WalkAction::Descend
        } else {
            WalkAction::Skip
        }),
{
    if is_symlink {
        WalkAction::Skip
    } else if is_file {
        WalkAction::SendFile
    } else if is_dir {
        WalkAction::Descend
    } else {
        WalkAction::Skip
    }
}

/// What `parse_entry_header` returns.
#[derive(Debug)]
pub enum HeaderStep {
    /// The stream ended cleanly at an entry boundary.
    End,
    /// The header is not complete yet; read more.
    NeedMore,
    /// A complete header: the path, the size of the contents that follow,
    /// and how many bytes of the buffer the header took.
    Header { path: Vec<u8>, file_size: u64, used: usize },
    /// The stream is refused.
    Failed(FadcError),
}

/// Whether an executable header step is the spec parse `p`.
pub open spec fn step_is(r: HeaderStep, p: HeaderParse) -> bool {
    match r {
        HeaderStep::End => p is End,
        HeaderStep::NeedMore => p is NeedMore,
        HeaderStep::Header { path, file_size, used } => p matches HeaderParse::Header {
            path: pp,
            size,
            used: u,
        } && pp == path@ && size == file_size as int && u == used as int,
        HeaderStep::Failed(e) => p == HeaderParse::Failed { e },
    }
}

/// The header of a file entry: the path's length, the path and the size of
/// the contents that follow it.
pub fn entry_header(path: &[u8], file_size: u64) -> (r: Vec<u8>)
    ensures
        r@ == header_bytes(path@, file_size as nat),
{
    let mut out = u64_to_le_bytes(path.len() as u64);
    append_bytes(&mut out, path);
    let size = u64_to_le_bytes(file_size);
    append_bytes(&mut out, size.as_slice());
    out
}

/// Encodes a list of files, in order, as one directory stream.
pub fn encode_entries(entries: &Vec<FileEntry>) -> (r: Vec<u8>)
    ensures
        r@ == entries_bytes(entries_view(entries@)),
{
    let mut out: Vec<u8> = Vec::new();
    let mut i: usize = 0;
    assert(entries_view(entries@).subrange(0, entries@.len() as int) =~= entries_view(entries@));
    assert(out@ + entries_bytes(entries_view(entries@)) =~= entries_bytes(entries_view(entries@)));
    while i < entries.len()
        invariant
            i <= entries@.len(),
            out@ + entries_bytes(entries_view(entries@).subrange(i as int, entries@.len() as int))
                == entries_bytes(entries_view(entries@)),
        decreases entries@.len() - i,
    {
        let ghost es = entries_view(entries@);
        let ghost rest = es.subrange(i as int, es.len() as int);
        assert(rest.drop_first() =~= es.subrange(i + 1, es.len() as int));
        let e = &entries[i];
        let header = entry_header(e.path.as_slice(), e.data.len() as u64);
        append_bytes(&mut out, header.as_slice());
        append_bytes(&mut out, e.data.as_slice());
        i = i + 1;
        assert(out@ + entries_bytes(es.subrange(i as int, es.len() as int)) =~= entries_bytes(es));
    }
    assert(entries_view(entries@).subrange(entries@.len() as int, entries@.len() as int)
        =~= Seq::<(Seq<u8>, Seq<u8>)>::empty());
    assert(out@ + Seq::<u8>::empty() =~= out@);
    out
}

/// Reads an entry header from the front of `buf`; `at_eof` tells whether the
/// source has nothing more to give.
pub fn parse_entry_header(buf: &[u8], at_eof: bool) -> (r: HeaderStep)
    ensures
        step_is(r, parse_header(buf@, at_eof)),
{
    if buf.len() < 8 {
        if at_eof {
            return HeaderStep::End;
        } else {
            return HeaderStep::NeedMore;
        }
    }
    let plen = u64_from_le_bytes(&buf[0..8]);
    if plen > MAX_PATH_LEN as u64 {
        return HeaderStep::Failed(FadcError::PathTooLong);
    }
    let plen = plen as usize;
    if buf.len() < plen + 16 {
        if at_eof {
            return HeaderStep::Failed(FadcError::Truncated);
        } else {
            return HeaderStep::NeedMore;
        }
    }
    let mut path: Vec<u8> = Vec::new();
    append_bytes(&mut path, &buf[8..plen + 8]);
    let file_size = u64_from_le_bytes(&buf[plen + 8..plen + 16]);
    HeaderStep::Header { path, file_size, used: plen + 16 }
}

/// Decodes a whole directory stream into its files, in order.
pub fn decode_entries(data: &[u8]) -> (r: Result<Vec<FileEntry>, FadcError>)
    ensures
        match r {
            Ok(v) => decode_dir(data@) == Ok::<_, FadcError>(entries_view(v@)),
            Err(e) => decode_dir(data@) == Err::<Seq<(Seq<u8>, Seq<u8>)>, _>(e),
        },
{
    let mut out: Vec<FileEntry> = Vec::new();
    let mut pos: usize = 0;
    assert(data@.subrange(0, data@.len() as int) =~= data@);
    assert(entries_view(out@) =~= Seq::empty());
    proof {
        lemma_prepend_empty(decode_dir(data@));
    }
    loop
        invariant
            pos <= data@.len(),
            decode_dir(data@) == prepend_entries(
                entries_view(out@),
                decode_dir(data@.subrange(pos as int, data@.len() as int)),
            ),
        decreases data@.len() - pos,
    {
        let ghost rest = data@.subrange(pos as int, data@.len() as int);
        let tail = &data[pos..data.len()];
        match parse_entry_header(tail, true) {
            HeaderStep::Header { path, file_size, used } => {
                if ((tail.len() - used) as u64) < file_size {
                    return Err(FadcError::Truncated);
                }
                let size = file_size as usize;
                let mut contents: Vec<u8> = Vec::new();
                append_bytes(&mut contents, &tail[used..used + size]);
                let ghost before = entries_view(out@);
                let ghost e = (path@, contents@);
                out.push(FileEntry { path, data: contents });
                assert(entries_view(out@) =~= before + seq![e]);
                assert(tail@ == rest);
                assert(contents@ =~= rest.subrange(used as int, used + size));
                assert(rest.subrange(used + size, rest.len() as int)
                    =~= data@.subrange(pos + used + size, data@.len() as int));
                proof {
                    lemma_prepend_assoc(
                        before,
                        seq![e],
                        decode_dir(data@.subrange(pos + used + size, data@.len() as int)),
                    );
                }
                pos = pos + used + size;
            },
            HeaderStep::Failed(e) => {
                return Err(e);
            },
            _ => {
                assert(entries_view(out@) + Seq::empty() =~= entries_view(out@));
                return Ok(out);
            },
        }
    }
}


/// Decoding encoded entries followed by any tail gives those entries followed
/// by what the tail decodes to.
pub proof fn lemma_decode_entries_then(es: Seq<(Seq<u8>, Seq<u8>)>, tail: Seq<u8>)
    requires
        forall|i: int| 0 <= i < es.len() ==> entry_ok(#[trigger] es[i]),
    ensures
        decode_dir(entries_bytes(es) + tail) == prepend_entries(es, decode_dir(tail)),
    decreases es.len(),
{
    if es.len() == 0 {
        assert(entries_bytes(es) + tail =~= tail);
        lemma_prepend_empty(decode_dir(tail));
        assert(es =~= Seq::empty());
    } else {
        let p = es[0].0;
        let d = es[0].1;
        assert(entry_ok(es[0]));
        let rest_es = es.drop_first();
        assert forall|i: int| 0 <= i < rest_es.len() implies entry_ok(#[trigger] rest_es[i]) by {
            assert(rest_es[i] == es[i + 1]);
        }
        let t2 = entries_bytes(rest_es) + tail;
        let s = entries_bytes(es) + tail;
        lemma_le64(p.len());
        lemma_le64(d.len());
        let plen = p.len() as int;
        assert(s =~= le64(p.len()) + p + le64(d.len()) + d + t2);
        assert(s.subrange(0, 8) =~= le64(p.len()));
        assert(s.subrange(8, plen + 8) =~= p);
        assert(s.subrange(plen + 8, plen + 16) =~= le64(d.len()));
        assert(s.subrange(plen + 16, plen + 16 + d.len()) =~= d);
        assert(s.subrange(plen + 16 + d.len(), s.len() as int) =~= t2);
        lemma_decode_entries_then(rest_es, tail);
        lemma_prepend_assoc(seq![es[0]], rest_es, decode_dir(tail));
        assert(seq![es[0]] + rest_es =~= es);
    }
}

/// Round trip: a list of files whose paths fit the path cap decodes back to
/// exactly the same files, paths and contents, in the same order.
pub proof fn lemma_dir_round_trip(es: Seq<(Seq<u8>, Seq<u8>)>)
    requires
        forall|i: int| 0 <= i < es.len() ==> entry_ok(#[trigger] es[i]),
    ensures
        decode_dir(entries_bytes(es)) == Ok::<_, FadcError>(es),
{
    lemma_decode_entries_then(es, Seq::empty());
    assert(entries_bytes(es) + Seq::<u8>::empty() =~= entries_bytes(es));
    assert(es + Seq::empty() =~= es);
}

/// Reading more never changes a decision: once the bytes read so far give a
/// header or a refusal without knowing where the stream ends, the same bytes
/// followed by anything give the same, at the end of the stream or not.
pub proof fn lemma_header_parse_stable(s: Seq<u8>, more: Seq<u8>, eof: bool)
    requires
        !(parse_header(s, false) is NeedMore),
    ensures
        parse_header(s + more, eof) == parse_header(s, false),
{
    let t = s + more;
    assert(t.subrange(0, 8) =~= s.subrange(0, 8));
    let plen = spec_u64_from_le_bytes(s.subrange(0, 8)) as int;
    if plen <= MAX_PATH_LEN && s.len() >= plen + 16 {
        assert(t.subrange(8, plen + 8) =~= s.subrange(8, plen + 8));
        assert(t.subrange(plen + 8, plen + 16) =~= s.subrange(plen + 8, plen + 16));
    }
}

/// A stream of whole entries followed by a cut-off entry, cut after its
/// first length prefix and before its end, is refused as truncated.
pub proof fn lemma_dir_cut_inside_entry(
    es: Seq<(Seq<u8>, Seq<u8>)>,
    last: (Seq<u8>, Seq<u8>),
    cut: int,
)
    requires
        forall|i: int| 0 <= i < es.len() ==> entry_ok(#[trigger] es[i]),
        entry_ok(last),
        8 <= cut < entry_bytes(last.0, last.1).len(),
    ensures
        decode_dir(entries_bytes(es) + entry_bytes(last.0, last.1).subrange(0, cut))
            == Err::<Seq<(Seq<u8>, Seq<u8>)>, _>(FadcError::Truncated),
{
    let p = last.0;
    let d = last.1;
    let full = entry_bytes(p, d);
    let t = full.subrange(0, cut);
    lemma_decode_entries_then(es, t);
    lemma_le64(p.len());
    lemma_le64(d.len());
    let plen = p.len() as int;
    assert(full =~= le64(p.len()) + p + le64(d.len()) + d);
    assert(t.subrange(0, 8) =~= le64(p.len()));
    if cut >= plen + 16 {
        assert(t.subrange(plen + 8, plen + 16) =~= le64(d.len()));
    }
}

} // verus!
