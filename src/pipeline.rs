//! How the codecs compose along a backup and a restore.
//!
//! A client frames its tree and encrypts the framed stream chunk by chunk; the
//! server decrypts it and compresses what comes out, chunk by chunk, into the
//! archive; a restore decompresses the archive and decodes the tree.
use vstd::prelude::*;

use crate::fadc::{decode_dir, entries_bytes, entry_ok, lemma_dir_round_trip};
use crate::fce::{blocks_decode_to, decode_fce, frames_of, lemma_fce_round_trip};
use crate::fdgse::{decode_cipher, frames_open_to, lemma_cipher_round_trip};
use crate::wire::joined;

verus! {

/// Composition: whatever the chunking on either side, a tree that is framed,
/// encrypted under `key`, decrypted under `key`, compressed, decompressed and
/// decoded comes back unchanged. `frames` are the encrypted frames of the
/// `sent` chunks of the framed tree; `blocks` are the compressed blocks of the
/// `stored` chunks of what decryption gave.
pub proof fn lemma_backup_round_trip(
    es: Seq<(Seq<u8>, Seq<u8>)>,
    key: Seq<u8>,
    frames: Seq<Seq<u8>>,
    sent: Seq<Seq<u8>>,
    blocks: Seq<Seq<u8>>,
    stored: Seq<Seq<u8>>,
)
    requires
        forall|i: int| 0 <= i < es.len() ==> entry_ok(#[trigger] es[i]),
        frames_open_to(key, frames, sent),
        joined(sent) == entries_bytes(es),
        blocks_decode_to(blocks, stored),
        decode_cipher(key, joined(frames)) == Ok::<_, crate::fdgse::CipherError>(joined(stored)),
    ensures
        decode_cipher(key, joined(frames)) == Ok::<_, crate::fdgse::CipherError>(entries_bytes(es)),
        decode_fce(frames_of(blocks)) == Ok::<_, crate::fce::FceError>(entries_bytes(es)),
        decode_dir(entries_bytes(es)) == Ok::<_, crate::fadc::FadcError>(es),
{
    lemma_cipher_round_trip(key, frames, sent);
    lemma_fce_round_trip(blocks, stored);
    lemma_dir_round_trip(es);
}

} // verus!
