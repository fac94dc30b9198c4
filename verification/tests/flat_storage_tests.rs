use rsbt_core::flat_storage::{
    FlatStorage, FlatStoragePieceIndex, FlatStorageFile, VecFlatStorage,
};

fn files() -> Vec<FlatStorageFile> {
    vec![
        FlatStorageFile {
            path: "x".into(),
            length: 300,
        },
        FlatStorageFile {
            path: "y".into(),
            length: 400,
        },
        FlatStorageFile {
            path: "z".into(),
            length: 500,
        },
    ]
}

#[test]
fn write_then_read_round_trips_across_files() {
    let mut storage = VecFlatStorage::create(500, files());
    assert_eq!(storage.files().len(), 3);

    // piece 1 straddles the second and third file
    let piece: Vec<u8> = (0..500u32).map(|i| (i % 251) as u8).collect();
    storage
        .write_piece(FlatStoragePieceIndex::from(1), piece.clone())
        .unwrap();
    let read_back = storage.read_piece(1.into()).unwrap().unwrap();
    assert_eq!(read_back, piece);

    // its neighbours still read back as all zeroes
    let piece0 = storage.read_piece(0.into()).unwrap().unwrap();
    assert_eq!(piece0, vec![0u8; 500]);
    let piece2 = storage.read_piece(2.into()).unwrap().unwrap();
    assert_eq!(piece2, vec![0u8; 200]);
}

#[test]
fn piece_index_carries_its_value() {
    let index = FlatStoragePieceIndex::from(7usize);
    assert_eq!(index.index(), 7);
}
