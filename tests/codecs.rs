use forgedbackup::fadc::{
    classify_entry, decode_entries, encode_entries, entry_header, parse_entry_header, FadcError,
    FileEntry, HeaderStep, WalkAction,
};
use forgedbackup::fce::{
    compress_all, compress_chunk, decompress_all, decompress_block, parse_compressed_frame,
    FceError, FrameStep,
};
use forgedbackup::fdgse::{
    cipher_all, cipher_chunk, decipher_all, open_sealed, parse_cipher_frame, read_key,
    seal_chunk, CipherError, CipherStep,
};
use forgedbackup::{KeyError, BUFFER_SIZE};

fn pseudo_random(n: usize, seed: u64) -> Vec<u8> {
    let mut x = seed;
    let mut out = Vec::with_capacity(n);
    for _ in 0..n {
        x = x.wrapping_mul(6364136223846793005).wrapping_add(1442695040888963407);
        out.push((x >> 33) as u8);
    }
    out
}

fn sample_tree() -> Vec<FileEntry> {
    vec![
        FileEntry { path: b"a.txt".to_vec(), data: b"hello".to_vec() },
        FileEntry { path: b"sub/b.bin".to_vec(), data: pseudo_random(64 * 1024, 7) },
    ]
}

fn same_tree(a: &[FileEntry], b: &[FileEntry]) -> bool {
    a.len() == b.len() && a.iter().zip(b).all(|(x, y)| x.path == y.path && x.data == y.data)
}

#[test]
fn entry_header_layout() {
    let h = entry_header(b"a.txt", 5);
    let mut want = vec![5, 0, 0, 0, 0, 0, 0, 0];
    want.extend_from_slice(b"a.txt");
    want.extend_from_slice(&[5, 0, 0, 0, 0, 0, 0, 0]);
    assert_eq!(h, want);
}

#[test]
fn dir_round_trip() {
    let tree = sample_tree();
    let bytes = encode_entries(&tree);
    assert_eq!(bytes.len(), 8 + 5 + 8 + 5 + 8 + 9 + 8 + 64 * 1024);
    let back = decode_entries(&bytes).unwrap();
    assert!(same_tree(&tree, &back));
}

#[test]
fn empty_dir_stream() {
    let bytes = encode_entries(&Vec::new());
    assert!(bytes.is_empty());
    assert!(decode_entries(&bytes).unwrap().is_empty());
}

#[test]
fn dir_partial_length_prefix_is_clean_end() {
    let mut bytes = encode_entries(&sample_tree());
    bytes.extend_from_slice(&[1, 2, 3]);
    let back = decode_entries(&bytes).unwrap();
    assert!(same_tree(&sample_tree(), &back));
}

#[test]
fn dir_cut_inside_entry_is_truncated() {
    let bytes = encode_entries(&sample_tree());
    for cut in [8usize, 12, 20, 25, 34, 40, bytes.len() - 1] {
        assert_eq!(decode_entries(&bytes[..cut]).unwrap_err(), FadcError::Truncated, "cut {cut}");
    }
}

#[test]
fn dir_path_too_long() {
    let entry = FileEntry { path: vec![b'x'; 261], data: vec![1] };
    let bytes = encode_entries(&vec![entry]);
    assert_eq!(decode_entries(&bytes).unwrap_err(), FadcError::PathTooLong);
    let ok = FileEntry { path: vec![b'x'; 260], data: vec![1] };
    assert_eq!(decode_entries(&encode_entries(&vec![ok])).unwrap().len(), 1);
}

#[test]
fn header_steps() {
    let h = entry_header(b"dir/f", 3);
    assert!(matches!(parse_entry_header(&h[..4], false), HeaderStep::NeedMore));
    assert!(matches!(parse_entry_header(&h[..4], true), HeaderStep::End));
    assert!(matches!(parse_entry_header(&h[..10], false), HeaderStep::NeedMore));
    assert!(matches!(parse_entry_header(&h[..10], true), HeaderStep::Failed(FadcError::Truncated)));
    match parse_entry_header(&h, false) {
        HeaderStep::Header { path, file_size, used } => {
            assert_eq!(path, b"dir/f".to_vec());
            assert_eq!(file_size, 3);
            assert_eq!(used, 21);
        }
        other => panic!("unexpected {other:?}"),
    }
}

#[test]
fn walk_actions() {
    assert_eq!(classify_entry(true, false, false), WalkAction::SendFile);
    assert_eq!(classify_entry(false, true, false), WalkAction::Descend);
    assert_eq!(classify_entry(false, false, true), WalkAction::Skip);
    assert_eq!(classify_entry(false, false, false), WalkAction::Skip);
}

#[test]
fn compress_chunk_frame_layout() {
    let frame = compress_chunk(b"hello");
    let mut want = vec![10, 0, 0, 0, 0, 0, 0, 0, 5, 0, 0, 0, 0x50];
    want.extend_from_slice(b"hello");
    assert_eq!(frame, want);
    assert_eq!(decompress_block(&frame[8..]).unwrap(), b"hello".to_vec());
}

#[test]
fn compression_shrinks_repetitive_data() {
    let data = vec![b'z'; BUFFER_SIZE];
    let frame = compress_chunk(&data);
    assert!(frame.len() < data.len() / 10);
}

#[test]
fn fce_round_trip() {
    for data in [Vec::new(), b"hello".to_vec(), pseudo_random(3 * BUFFER_SIZE + 17, 3), vec![0u8; 100_000]] {
        let archive = compress_all(&data);
        assert_eq!(decompress_all(&archive).unwrap(), data);
    }
}

#[test]
fn fce_empty_stream() {
    assert!(compress_all(&[]).is_empty());
    assert_eq!(decompress_all(&[]).unwrap(), Vec::<u8>::new());
}

#[test]
fn fce_cut_inside_frame_is_truncated() {
    let archive = compress_all(b"some bytes to compress");
    assert_eq!(decompress_all(&archive[..archive.len() - 1]).unwrap_err(), FceError::Truncated);
    assert_eq!(decompress_all(&archive[..8]).unwrap_err(), FceError::Truncated);
    assert_eq!(decompress_all(&archive[..5]).unwrap(), Vec::<u8>::new());
}

#[test]
fn fce_invalid_block() {
    let mut bad = vec![3, 0, 0, 0, 0, 0, 0, 0];
    bad.extend_from_slice(&[1, 2, 3]);
    assert_eq!(decompress_all(&bad).unwrap_err(), FceError::InvalidData);
}

#[test]
fn fce_frame_steps() {
    let frame = compress_chunk(b"abc");
    assert_eq!(parse_compressed_frame(&frame[..3], false), FrameStep::NeedMore);
    assert_eq!(parse_compressed_frame(&frame[..3], true), FrameStep::End);
    assert_eq!(parse_compressed_frame(&frame[..9], false), FrameStep::NeedMore);
    assert_eq!(parse_compressed_frame(&frame[..9], true), FrameStep::Truncated);
    assert_eq!(parse_compressed_frame(&frame, true), FrameStep::Frame { len: frame.len() - 8 });
}

#[test]
fn cipher_frame_layout() {
    let key = [7u8; 32];
    let nonce = [1u8; 12];
    let frame = seal_chunk(&key, &nonce, b"hello");
    assert_eq!(frame.len(), 12 + 8 + 5 + 16);
    assert_eq!(&frame[..12], &nonce);
    assert_eq!(&frame[12..20], &[21, 0, 0, 0, 0, 0, 0, 0]);
    assert_ne!(&frame[20..25], b"hello");
    assert_eq!(open_sealed(&key, &frame[..12], &frame[20..]).unwrap(), b"hello".to_vec());
    assert_eq!(seal_chunk(&key, &nonce, b"hello"), frame);
}

#[test]
fn cipher_round_trip() {
    let key = [9u8; 32];
    for data in [Vec::new(), b"x".to_vec(), pseudo_random(2 * BUFFER_SIZE + 5, 11)] {
        let wire = cipher_all(&key, &data);
        assert_eq!(decipher_all(&key, &wire).unwrap(), data);
    }
}

#[test]
fn cipher_wrong_key_fails() {
    let wire = cipher_all(&[1u8; 32], b"secret");
    assert_eq!(decipher_all(&[2u8; 32], &wire).unwrap_err(), CipherError::DecryptionFailed);
}

#[test]
fn cipher_tamper_any_bit_fails() {
    let key = [3u8; 32];
    let wire = cipher_chunk(&key, b"tamper me");
    for i in (0..12).chain(20..wire.len()) {
        for bit in 0..8 {
            let mut t = wire.clone();
            t[i] ^= 1 << bit;
            assert_eq!(decipher_all(&key, &t).unwrap_err(), CipherError::DecryptionFailed);
        }
    }
}

#[test]
fn cipher_cut_and_bounds() {
    let key = [4u8; 32];
    let wire = cipher_all(&key, b"abcdef");
    assert_eq!(decipher_all(&key, &wire[..5]).unwrap(), Vec::<u8>::new());
    assert_eq!(decipher_all(&key, &wire[..12]).unwrap_err(), CipherError::Truncated);
    assert_eq!(decipher_all(&key, &wire[..wire.len() - 1]).unwrap_err(), CipherError::Truncated);
    let mut zero = vec![0u8; 20];
    zero.extend_from_slice(&wire);
    assert_eq!(decipher_all(&key, &zero).unwrap(), Vec::<u8>::new());
    let mut big = vec![0u8; 12];
    big.extend_from_slice(&((BUFFER_SIZE + 17) as u64).to_le_bytes());
    assert_eq!(decipher_all(&key, &big).unwrap_err(), CipherError::FrameTooLarge);
    assert_eq!(parse_cipher_frame(&big, false), CipherStep::TooLarge);
    assert_eq!(parse_cipher_frame(&wire[..15], false), CipherStep::NeedMore);
    assert_eq!(parse_cipher_frame(&wire, true), CipherStep::Frame { len: 6 + 16 });
}

#[test]
fn nonces_are_distinct() {
    let key = [5u8; 32];
    let mut seen = std::collections::HashSet::new();
    for _ in 0..100_000 {
        let frame = cipher_chunk(&key, b"n");
        assert!(seen.insert(frame[..12].to_vec()));
    }
}

#[test]
fn read_key_lengths() {
    assert_eq!(read_key(&[8u8; 32]).unwrap(), [8u8; 32]);
    assert_eq!(read_key(&[8u8; 31]).unwrap_err(), KeyError::InvalidLength);
    assert_eq!(read_key(&[8u8; 33]).unwrap_err(), KeyError::InvalidLength);
}

#[test]
fn backup_and_restore_in_memory() {
    let key = [6u8; 32];
    let tree = sample_tree();
    let wire = cipher_all(&key, &encode_entries(&tree));
    let plain = decipher_all(&key, &wire).unwrap();
    let archive = compress_all(&plain);
    let restored = decode_entries(&decompress_all(&archive).unwrap()).unwrap();
    assert!(same_tree(&tree, &restored));
}

#[test]
fn empty_tree_backup() {
    let key = [6u8; 32];
    let wire = cipher_all(&key, &encode_entries(&Vec::new()));
    let archive = compress_all(&decipher_all(&key, &wire).unwrap());
    assert!(decode_entries(&decompress_all(&archive).unwrap()).unwrap().is_empty());
}

#[test]
fn archive_byte_flip_is_detected() {
    let tree = sample_tree();
    let mut archive = compress_all(&encode_entries(&tree));
    archive[12] ^= 0xff;
    match decompress_all(&archive) {
        Err(_) => {}
        Ok(plain) => match decode_entries(&plain) {
            Err(_) => {}
            Ok(back) => assert!(!same_tree(&tree, &back)),
        },
    }
}
