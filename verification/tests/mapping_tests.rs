use rsbt_core::flat_storage::FlatStorageFile;
use rsbt_core::mapping::{map_pieces_to_files, FileBlock, PieceToFiles};

#[test]
fn lib_pieces_to_files() {
    let result = map_pieces_to_files(
        100,
        &[FlatStorageFile {
            path: "test".into(),
            length: 1000,
        }],
    );
    assert_eq!(result.len(), 10);

    let result = map_pieces_to_files(
        1000,
        &[FlatStorageFile {
            path: "test".into(),
            length: 1000,
        }],
    );
    assert_eq!(
        result,
        vec![PieceToFiles(vec![FileBlock {
            offset: 0,
            file_index: 0,
            file_offset: 0,
            size: 1000,
        }])]
    );

    let result = map_pieces_to_files(
        1000,
        &[FlatStorageFile {
            path: "test".into(),
            length: 800,
        }],
    );
    assert_eq!(
        result,
        vec![PieceToFiles(vec![FileBlock {
            offset: 0,
            file_index: 0,
            file_offset: 0,
            size: 800,
        }])]
    );

    let result = map_pieces_to_files(
        333,
        &[FlatStorageFile {
            path: "test".into(),
            length: 1000,
        }],
    );
    assert_eq!(
        result,
        vec![
            PieceToFiles(vec![FileBlock {
                offset: 0,
                file_index: 0,
                file_offset: 0,
                size: 333,
            }]),
            PieceToFiles(vec![FileBlock {
                offset: 0,
                file_index: 0,
                file_offset: 333,
                size: 333,
            }]),
            PieceToFiles(vec![FileBlock {
                offset: 0,
                file_index: 0,
                file_offset: 666,
                size: 333,
            }]),
            PieceToFiles(vec![FileBlock {
                offset: 0,
                file_index: 0,
                file_offset: 999,
                size: 1,
            }])
        ]
    );

    let result = map_pieces_to_files(
        500,
        &[
            FlatStorageFile {
                path: "test1".into(),
                length: 300,
            },
            FlatStorageFile {
                path: "test2".into(),
                length: 400,
            },
            FlatStorageFile {
                path: "test3".into(),
                length: 500,
            },
        ],
    );
    assert_eq!(
        result,
        vec![
            PieceToFiles(vec![
                FileBlock {
                    offset: 0,
                    file_index: 0,
                    file_offset: 0,
                    size: 300,
                },
                FileBlock {
                    offset: 300,
                    file_index: 1,
                    file_offset: 0,
                    size: 200,
                }
            ]),
            PieceToFiles(vec![
                FileBlock {
                    offset: 0,
                    file_index: 1,
                    file_offset: 200,
                    size: 200,
                },
                FileBlock {
                    offset: 200,
                    file_index: 2,
                    file_offset: 0,
                    size: 300,
                }
            ]),
            PieceToFiles(vec![FileBlock {
                offset: 0,
                file_index: 2,
                file_offset: 300,
                size: 200,
            }])
        ]
    );
}

#[test]
fn cross_file_split_tiling() {
    // piece size 500 over files of 300, 400 and 500 bytes: the mapping is
    // exactly the tiling
    // [[(0, 0..300, o 0), (1, 0..200, o 300)],
    //  [(1, 200..400, o 0), (2, 0..300, o 200)],
    //  [(2, 300..500, o 0)]]
    let files = vec![
        FlatStorageFile {
            path: "x".into(),
            length: 300,
        },
        FlatStorageFile {
            path: "y".into(),
            length: 400,
        },
        FlatStorageFile {
            path: "z".into(),
            length: 500,
        },
    ];
    let mapping = map_pieces_to_files(500, files.as_slice());
    assert_eq!(mapping.len(), 3);
    assert_eq!(
        mapping[0],
        PieceToFiles(vec![
            FileBlock {
                offset: 0,
                file_index: 0,
                file_offset: 0,
                size: 300,
            },
            FileBlock {
                offset: 300,
                file_index: 1,
                file_offset: 0,
                size: 200,
            },
        ])
    );
    assert_eq!(
        mapping[1],
        PieceToFiles(vec![
            FileBlock {
                offset: 0,
                file_index: 1,
                file_offset: 200,
                size: 200,
            },
            FileBlock {
                offset: 200,
                file_index: 2,
                file_offset: 0,
                size: 300,
            },
        ])
    );
    assert_eq!(
        mapping[2],
        PieceToFiles(vec![FileBlock {
            offset: 0,
            file_index: 2,
            file_offset: 300,
            size: 200,
        }])
    );
}

#[test]
fn piece_count_rounds_up() {
    assert_eq!(rsbt_core::count_parts(0, 8), 0);
    assert_eq!(rsbt_core::count_parts(1, 8), 1);
    assert_eq!(rsbt_core::count_parts(8, 8), 1);
    assert_eq!(rsbt_core::count_parts(9, 8), 2);
    assert_eq!(rsbt_core::count_parts(100, 16384), 1);
}
