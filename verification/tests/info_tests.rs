use rsbt_core::info::{
    map_pieces_to_files, TorrentInfo, TorrentInfoFile, TorrentInfoFileRaw, TorrentInfoRaw,
};
use rsbt_core::mapping::{FileBlock, PieceToFiles};

#[test]
fn pieces() {
    let torrent_info = TorrentInfoRaw {
        name: "torrent_info".into(),
        piece_length: 10,
        pieces: b"a123456789b123456789c123456789d123456789".to_vec(),
        length: Some(100),
        files: None,
    };
    assert_eq!(torrent_info.pieces_count(), 2);
    assert_eq!(
        torrent_info.piece(0),
        Some(b"a123456789b123456789".as_ref())
    );
    assert_eq!(
        torrent_info.piece(1),
        Some(b"c123456789d123456789".as_ref())
    );
    assert_eq!(torrent_info.piece(2), None);
}

#[test]
fn info_pieces() {
    let torrent_info = TorrentInfoRaw {
        name: "torrent_info".into(),
        piece_length: 10,
        pieces: b"a123456789b123456789c123456789d123456789".to_vec(),
        length: Some(100),
        files: None,
    };
    assert_eq!(torrent_info.pieces_count(), 2);
    assert_eq!(
        torrent_info.piece(0),
        Some(b"a123456789b123456789".as_ref())
    );
    assert_eq!(
        torrent_info.piece(1),
        Some(b"c123456789d123456789".as_ref())
    );
    assert_eq!(torrent_info.piece(2), None);
}

#[test]
fn info_pieces_to_files() {
    let result = map_pieces_to_files(
        100,
        1000,
        &[TorrentInfoFile {
            path: "test".into(),
            length: 1000,
        }],
    );
    assert_eq!(result.len(), 10);

    let result = map_pieces_to_files(
        1000,
        1000,
        &[TorrentInfoFile {
            path: "test".into(),
            length: 1000,
        }],
    );
    assert_eq!(
        result,
        vec![PieceToFiles(vec![FileBlock {
            offset: 0,
            file_index: 0,
            file_offset: 0,
            size: 1000,
        }])]
    );

    let result = map_pieces_to_files(
        1000,
        800,
        &[TorrentInfoFile {
            path: "test".into(),
            length: 800,
        }],
    );
    assert_eq!(
        result,
        vec![PieceToFiles(vec![FileBlock {
            offset: 0,
            file_index: 0,
            file_offset: 0,
            size: 800,
        }])]
    );

    let result = map_pieces_to_files(
        333,
        1000,
        &[TorrentInfoFile {
            path: "test".into(),
            length: 1000,
        }],
    );
    assert_eq!(
        result,
        vec![
            PieceToFiles(vec![FileBlock {
                offset: 0,
                file_index: 0,
                file_offset: 0,
                size: 333,
            }]),
            PieceToFiles(vec![FileBlock {
                offset: 0,
                file_index: 0,
                file_offset: 333,
                size: 333,
            }]),
            PieceToFiles(vec![FileBlock {
                offset: 0,
                file_index: 0,
                file_offset: 666,
                size: 333,
            }]),
            PieceToFiles(vec![FileBlock {
                offset: 0,
                file_index: 0,
                file_offset: 999,
                size: 1,
            }])
        ]
    );

    let result = map_pieces_to_files(
        500,
        1200,
        &[
            TorrentInfoFile {
                path: "test1".into(),
                length: 300,
            },
            TorrentInfoFile {
                path: "test1".into(),
                length: 400,
            },
            TorrentInfoFile {
                path: "test1".into(),
                length: 500,
            },
        ],
    );
    assert_eq!(
        result,
        vec![
            PieceToFiles(vec![
                FileBlock {
                    offset: 0,
                    file_index: 0,
                    file_offset: 0,
                    size: 300,
                },
                FileBlock {
                    offset: 300,
                    file_index: 1,
                    file_offset: 0,
                    size: 200,
                }
            ]),
            PieceToFiles(vec![
                FileBlock {
                    offset: 0,
                    file_index: 1,
                    file_offset: 200,
                    size: 200,
                },
                FileBlock {
                    offset: 200,
                    file_index: 2,
                    file_offset: 0,
                    size: 300,
                }
            ]),
            PieceToFiles(vec![FileBlock {
                offset: 0,
                file_index: 2,
                file_offset: 300,
                size: 200,
            }])
        ]
    );
}

#[test]
fn normalize_single_file() {
    let raw = TorrentInfoRaw {
        name: "alpha.bin".into(),
        piece_length: 10,
        pieces: b"a123456789b123456789c123456789d123456789".to_vec(),
        length: Some(25),
        files: None,
    };
    let info = TorrentInfo::from_raw(raw);
    assert_eq!(info.piece_length, 10);
    assert_eq!(info.length, 25);
    assert_eq!(info.len(), 25);
    assert!(!info.is_empty());
    assert_eq!(info.default_blocks_count, 1);
    assert_eq!(info.last_piece_length, 5);
    assert_eq!(info.last_piece_blocks_count, 1);
    assert_eq!(info.pieces.len(), 2);
    assert_eq!(info.pieces[0].0, b"a123456789b123456789".to_vec());
    assert_eq!(info.files.len(), 1);
    assert_eq!(info.files[0].path, "alpha.bin".to_string());
    assert_eq!(info.files[0].length, 25);
}

#[test]
fn normalize_multi_file_joins_paths() {
    let raw = TorrentInfoRaw {
        name: "bundle".into(),
        piece_length: 100,
        pieces: b"a123456789b123456789".to_vec(),
        length: None,
        files: Some(vec![
            TorrentInfoFileRaw {
                length: 30,
                path: vec!["dir".into(), "file1".into()],
            },
            TorrentInfoFileRaw {
                length: 70,
                path: vec!["file2".into()],
            },
        ]),
    };
    let info = TorrentInfo::from_raw(raw);
    assert_eq!(info.length, 100);
    assert_eq!(info.files.len(), 2);
    assert_eq!(info.files[0].path, "dir/file1".to_string());
    assert_eq!(info.files[0].length, 30);
    assert_eq!(info.files[1].path, "file2".to_string());
    assert_eq!(info.files[1].length, 70);
    assert_eq!(info.last_piece_length, 100);
}

#[test]
fn sizes_of_last_piece_differ() {
    let raw = TorrentInfoRaw {
        name: "alpha.bin".into(),
        piece_length: 10,
        pieces: b"a123456789b123456789c123456789d123456789".to_vec(),
        length: Some(25),
        files: None,
    };
    let info = TorrentInfo::from_raw(raw);
    assert_eq!(info.sizes(0), (10, 1));
    assert_eq!(info.sizes(1), (5, 1));
}
