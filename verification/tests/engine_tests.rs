use rsbt_core::engine::{
    DownloadEventsState, TorrentAction, TorrentDownloadStatus, TorrentProcess,
};
use rsbt_core::info::{Piece, TorrentInfo, TorrentInfoFile};
use rsbt_core::message::Handshake;
use rsbt_core::storage::RsbtError;

fn process_with_hash(hash_byte: u8) -> TorrentProcess {
    let info = TorrentInfo {
        piece_length: 4,
        default_blocks_count: 1,
        last_piece_length: 4,
        last_piece_blocks_count: 1,
        pieces: vec![Piece(vec![0u8; 20])],
        length: 4,
        files: vec![TorrentInfoFile {
            path: "t.bin".into(),
            length: 4,
        }],
    };
    TorrentProcess::new(info, vec![hash_byte; 20], vec![9u8; 20])
}

fn engine_with_two_torrents() -> DownloadEventsState {
    let mut engine = DownloadEventsState::new();
    engine
        .add_torrent(
            "one.torrent".into(),
            TorrentDownloadStatus::Enabled,
            process_with_hash(1),
        )
        .unwrap();
    engine
        .add_torrent(
            "two.torrent".into(),
            TorrentDownloadStatus::Disabled,
            process_with_hash(2),
        )
        .unwrap();
    engine
}

#[test]
fn handshake_routes_to_matching_torrent() {
    let engine = engine_with_two_torrents();
    // a handshake for the second torrent finds it
    let request = Handshake {
        info_hash: vec![2u8; 20],
        peer_id: vec![7u8; 20],
    };
    let process = engine.torrent_handshake(&request).unwrap();
    assert_eq!(process.hash_id, vec![2u8; 20]);
    // an unknown info hash finds nothing: the caller closes the
    // connection and no peer state is made
    let unknown = Handshake {
        info_hash: vec![3u8; 20],
        peer_id: vec![7u8; 20],
    };
    assert!(engine.torrent_handshake(&unknown).is_none());
}

#[test]
fn torrent_list_reports_every_torrent() {
    let engine = engine_with_two_torrents();
    let list = engine.torrent_list();
    assert_eq!(list.len(), 2);
    assert_eq!(list[0].id, 0);
    assert_eq!(list[0].name, "one.torrent".to_string());
    assert_eq!(list[0].length, 4);
    assert!(list[0].active);
    assert_eq!(list[0].received, 0);
    assert_eq!(list[0].uploaded, 0);
    assert_eq!(list[1].id, 1);
    assert!(!list[1].active);
}

#[test]
fn torrent_actions_start_stop_delete() {
    let mut engine = engine_with_two_torrents();
    assert_eq!(engine.torrent_action(1, TorrentAction::Start), Ok(()));
    assert!(engine.torrent_list()[1].active);
    assert_eq!(engine.torrent_action(1, TorrentAction::Stop), Ok(()));
    assert!(!engine.torrent_list()[1].active);
    assert_eq!(engine.torrent_action(0, TorrentAction::Delete), Ok(()));
    let list = engine.torrent_list();
    assert_eq!(list.len(), 1);
    assert_eq!(list[0].id, 1);
    assert_eq!(
        engine.torrent_action(7, TorrentAction::Start),
        Err(RsbtError::TorrentNotFound)
    );
}
