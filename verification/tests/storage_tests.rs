use sha1::{Digest, Sha1};

use rsbt_core::info::{Piece, TorrentInfo, TorrentInfoFile};
use rsbt_core::storage::{RsbtError, TorrentStorage};

fn digest_of(data: &[u8]) -> Piece {
    Piece(Sha1::digest(data).to_vec())
}

/// A single 250-byte file cut in pieces of 100 bytes.
fn single_file_info(contents: &[Vec<u8>]) -> TorrentInfo {
    TorrentInfo {
        piece_length: 100,
        default_blocks_count: 1,
        last_piece_length: 50,
        last_piece_blocks_count: 1,
        pieces: contents.iter().map(|c| digest_of(c)).collect(),
        length: 250,
        files: vec![TorrentInfoFile {
            path: "a.bin".into(),
            length: 250,
        }],
    }
}

#[test]
fn single_file_three_pieces_round_trip() {
    let piece0 = vec![1u8; 100];
    let piece1 = vec![2u8; 100];
    let piece2 = vec![3u8; 50];
    let info = single_file_info(&[piece0.clone(), piece1.clone(), piece2.clone()]);
    let mut storage = TorrentStorage::new(info);
    assert_eq!(storage.pieces_count(), 3);
    assert_eq!(storage.pieces_left(), 3);

    assert_eq!(storage.save(0, piece0.clone()), Ok(()));
    assert_eq!(storage.save(1, piece1.clone()), Ok(()));
    assert_eq!(storage.save(2, piece2.clone()), Ok(()));
    assert_eq!(storage.pieces_left(), 0);
    assert_eq!(storage.state().bytes_write, 250);

    // the file read back is the concatenation of the pieces
    let mut file = Vec::new();
    file.extend(storage.load(0, 0, 100).unwrap());
    file.extend(storage.load(1, 0, 100).unwrap());
    file.extend(storage.load(2, 0, 50).unwrap());
    let mut expected = Vec::new();
    expected.extend(piece0);
    expected.extend(piece1);
    expected.extend(piece2);
    assert_eq!(file.len(), 250);
    assert_eq!(file, expected);
    assert_eq!(storage.state().bytes_read, 250);
}

#[test]
fn save_verifies_against_known_digest() {
    // SHA-1 of "abc" is a9993e364706816aba3e25717850c26c9cd0d89d
    let expected = vec![
        0xa9, 0x99, 0x3e, 0x36, 0x47, 0x06, 0x81, 0x6a, 0xba, 0x3e, 0x25, 0x71, 0x78, 0x50, 0xc2,
        0x6c, 0x9c, 0xd0, 0xd8, 0x9d,
    ];
    let info = TorrentInfo {
        piece_length: 3,
        default_blocks_count: 1,
        last_piece_length: 3,
        last_piece_blocks_count: 1,
        pieces: vec![Piece(expected)],
        length: 3,
        files: vec![TorrentInfoFile {
            path: "abc.txt".into(),
            length: 3,
        }],
    };
    let mut storage = TorrentStorage::new(info);
    assert_eq!(storage.save(0, b"abd".to_vec()), Err(RsbtError::PieceVerification));
    assert_eq!(storage.save(0, b"abc".to_vec()), Ok(()));
    assert_eq!(storage.load(0, 0, 3).unwrap(), b"abc".to_vec());
}

#[test]
fn bad_piece_changes_nothing() {
    let piece0 = vec![1u8; 100];
    let piece1 = vec![2u8; 100];
    let piece2 = vec![3u8; 50];
    let info = single_file_info(&[piece0, piece1, piece2]);
    let mut storage = TorrentStorage::new(info);

    // wrong bytes: the digest cannot match
    assert_eq!(
        storage.save(0, vec![9u8; 100]),
        Err(RsbtError::PieceVerification)
    );
    // wrong length: rejected before anything happens
    assert_eq!(
        storage.save(0, vec![1u8; 99]),
        Err(RsbtError::PieceVerification)
    );
    assert_eq!(storage.pieces_left(), 3);
    assert_eq!(storage.state().bytes_write, 0);
    let downloaded = storage.downloaded().clone();
    assert!(downloaded.iter().all(|b| *b == 0));
}

#[test]
fn load_slices_a_piece() {
    let piece0 = (0u8..100).collect::<Vec<u8>>();
    let piece1 = vec![2u8; 100];
    let piece2 = vec![3u8; 50];
    let info = single_file_info(&[piece0.clone(), piece1, piece2]);
    let mut storage = TorrentStorage::new(info);
    assert_eq!(storage.save(0, piece0.clone()), Ok(()));
    assert_eq!(storage.load(0, 10, 5).unwrap(), vec![10, 11, 12, 13, 14]);
    // out of range requests are refused
    assert_eq!(storage.load(0, 90, 20), Err(RsbtError::InvalidRange));
    assert_eq!(storage.load(3, 0, 1), Err(RsbtError::InvalidRange));
}

#[test]
fn duplicate_save_is_ignored() {
    let piece0 = vec![1u8; 100];
    let piece1 = vec![2u8; 100];
    let piece2 = vec![3u8; 50];
    let info = single_file_info(&[piece0.clone(), piece1, piece2]);
    let mut storage = TorrentStorage::new(info);
    assert_eq!(storage.save(0, piece0.clone()), Ok(()));
    assert_eq!(storage.pieces_left(), 2);
    assert_eq!(storage.save(0, piece0), Ok(()));
    assert_eq!(storage.pieces_left(), 2);
    assert_eq!(storage.state().bytes_write, 100);
}
