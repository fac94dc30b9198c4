use sha1::{Digest, Sha1};

use rsbt_core::announce::Peer;
use rsbt_core::controller::{
    check_handshake_reply, DownloadAction, DownloadTorrentEvent, DownloadTorrentState,
};
use rsbt_core::info::{Piece, TorrentInfo, TorrentInfoFile};
use rsbt_core::message::{build_handshake, Message};
use rsbt_core::storage::TorrentStorage;

fn digest_of(data: &[u8]) -> Piece {
    Piece(Sha1::digest(data).to_vec())
}

/// An 8-byte torrent of two 4-byte pieces.
fn two_piece_controller(piece0: &[u8], piece1: &[u8]) -> DownloadTorrentState {
    let info = TorrentInfo {
        piece_length: 4,
        default_blocks_count: 1,
        last_piece_length: 4,
        last_piece_blocks_count: 1,
        pieces: vec![digest_of(piece0), digest_of(piece1)],
        length: 8,
        files: vec![TorrentInfoFile {
            path: "t.bin".into(),
            length: 8,
        }],
    };
    DownloadTorrentState::new(TorrentStorage::new(info))
}

fn peer(n: u8) -> Peer {
    Peer {
        ip: [10, 0, 0, n],
        port: 6881,
    }
}

fn forwarded(ctrl: &mut DownloadTorrentState, n: u8) -> u64 {
    let mut actions = Vec::new();
    let id = ctrl.process_peer_forwarded(peer(n), &mut actions).unwrap();
    // a freshly connected peer is sent our bitfield
    assert!(actions.iter().any(|a| matches!(
        a,
        DownloadAction::Send {
            message: Message::Bitfield(_),
            ..
        }
    )));
    id
}

fn full_bitfield() -> Vec<u8> {
    vec![0b1100_0000]
}

#[test]
fn end_game_cancels_duplicate_download() {
    let piece0 = b"aaaa".to_vec();
    let piece1 = b"bbbb".to_vec();
    let mut ctrl = two_piece_controller(&piece0, &piece1);
    let a = forwarded(&mut ctrl, 1);
    let b = forwarded(&mut ctrl, 2);

    let mut actions = Vec::new();
    ctrl.handle_event(DownloadTorrentEvent::PeerPieces(a, full_bitfield()), 0, &mut actions);
    ctrl.handle_event(DownloadTorrentEvent::PeerPieces(b, full_bitfield()), 0, &mut actions);
    // both peers hold pieces we lack: we declared interest
    assert!(actions.iter().any(|x| matches!(
        x,
        DownloadAction::Send {
            message: Message::Interested,
            ..
        }
    )));

    // peer a unchokes us first and is assigned piece 0
    let mut actions = Vec::new();
    ctrl.handle_event(DownloadTorrentEvent::PeerUnchoke(a), 1, &mut actions);
    assert!(actions.iter().any(|x| matches!(
        x,
        DownloadAction::Send {
            message: Message::Request { index: 0, .. },
            ..
        }
    )));
    // peer b is assigned the other piece
    let mut actions = Vec::new();
    ctrl.handle_event(DownloadTorrentEvent::PeerUnchoke(b), 2, &mut actions);
    assert!(actions.iter().any(|x| matches!(
        x,
        DownloadAction::Send {
            message: Message::Request { index: 1, .. },
            ..
        }
    )));

    // piece 0 arrives from a: one piece left, the download enters
    // end-game, and a is scheduled onto piece 1 as well
    let mut actions = Vec::new();
    ctrl.handle_event(
        DownloadTorrentEvent::PeerPieceDownloaded(a, piece0),
        3,
        &mut actions,
    );
    assert_eq!(ctrl.storage().pieces_left(), 1);
    assert!(actions.iter().any(|x| matches!(
        x,
        DownloadAction::Send {
            message: Message::Request { index: 1, .. },
            ..
        }
    )));

    // piece 1 arrives from b first: the duplicate download at a is
    // canceled
    let mut actions = Vec::new();
    ctrl.handle_event(
        DownloadTorrentEvent::PeerPieceDownloaded(b, piece1),
        4,
        &mut actions,
    );
    assert_eq!(ctrl.storage().pieces_left(), 0);
    assert!(actions
        .iter()
        .any(|x| matches!(x, DownloadAction::CancelPiece { peer_id, piece: 1 } if *peer_id == a)));
}

#[test]
fn bad_piece_drops_the_peer_and_keeps_the_piece_missing() {
    let piece0 = b"aaaa".to_vec();
    let piece1 = b"bbbb".to_vec();
    let mut ctrl = two_piece_controller(&piece0, &piece1);
    let a = forwarded(&mut ctrl, 1);
    let b = forwarded(&mut ctrl, 2);

    let mut actions = Vec::new();
    ctrl.handle_event(DownloadTorrentEvent::PeerPieces(a, full_bitfield()), 0, &mut actions);
    ctrl.handle_event(DownloadTorrentEvent::PeerPieces(b, full_bitfield()), 0, &mut actions);
    ctrl.handle_event(DownloadTorrentEvent::PeerUnchoke(a), 1, &mut actions);

    // peer a delivers garbage for piece 0: nothing is written, the piece
    // stays missing, and the peer is dropped
    let mut actions = Vec::new();
    ctrl.handle_event(
        DownloadTorrentEvent::PeerPieceDownloaded(a, b"zzzz".to_vec()),
        2,
        &mut actions,
    );
    assert_eq!(ctrl.storage().pieces_left(), 2);
    assert_eq!(ctrl.storage().state().bytes_write, 0);
    assert_eq!(ctrl.peers_count(), 1);
    assert!(actions
        .iter()
        .any(|x| matches!(x, DownloadAction::Disconnect { peer_id } if *peer_id == a)));

    // the piece is free again: peer b picks it up on its next chance
    let mut actions = Vec::new();
    ctrl.handle_event(DownloadTorrentEvent::PeerUnchoke(b), 3, &mut actions);
    assert!(actions.iter().any(|x| matches!(
        x,
        DownloadAction::Send {
            message: Message::Request { index: 0, .. },
            ..
        }
    )));
}

#[test]
fn have_broadcast_reaches_peers_lacking_the_piece() {
    let piece0 = b"aaaa".to_vec();
    let piece1 = b"bbbb".to_vec();
    let mut ctrl = two_piece_controller(&piece0, &piece1);
    let a = forwarded(&mut ctrl, 1);
    let b = forwarded(&mut ctrl, 2);
    let c = forwarded(&mut ctrl, 3);

    let mut actions = Vec::new();
    ctrl.handle_event(DownloadTorrentEvent::PeerPieces(a, full_bitfield()), 0, &mut actions);
    // peer b lacks piece 0
    ctrl.handle_event(
        DownloadTorrentEvent::PeerPieces(b, vec![0b0100_0000]),
        0,
        &mut actions,
    );
    // peer c already holds everything
    ctrl.handle_event(DownloadTorrentEvent::PeerPieces(c, full_bitfield()), 0, &mut actions);
    ctrl.handle_event(DownloadTorrentEvent::PeerUnchoke(a), 1, &mut actions);

    let mut actions = Vec::new();
    ctrl.handle_event(
        DownloadTorrentEvent::PeerPieceDownloaded(a, piece0),
        2,
        &mut actions,
    );
    let have_targets: Vec<u64> = actions
        .iter()
        .filter_map(|x| match x {
            DownloadAction::Send {
                peer_id,
                message: Message::Have(0),
            } => Some(*peer_id),
            _ => None,
        })
        .collect();
    // exactly the one peer that lacked piece 0 hears about it, once
    assert_eq!(have_targets, vec![b]);
}

#[test]
fn announced_peers_are_connected_once() {
    let piece0 = b"aaaa".to_vec();
    let piece1 = b"bbbb".to_vec();
    let mut ctrl = two_piece_controller(&piece0, &piece1);
    let mut actions = Vec::new();
    ctrl.handle_event(
        DownloadTorrentEvent::Announce(vec![peer(1), peer(2), peer(1)]),
        0,
        &mut actions,
    );
    // the duplicate address is connected only once
    assert_eq!(ctrl.peers_count(), 2);
    let connects = actions
        .iter()
        .filter(|x| matches!(x, DownloadAction::Connect { .. }))
        .count();
    assert_eq!(connects, 2);
}

#[test]
fn handshake_reply_is_checked_against_our_hash() {
    let hash = vec![5u8; 20];
    let peer_id = vec![6u8; 20];
    let good = build_handshake(&hash, &peer_id);
    assert!(check_handshake_reply(good.as_slice(), &hash));
    let other = build_handshake(&vec![7u8; 20], &peer_id);
    assert!(!check_handshake_reply(other.as_slice(), &hash));
    assert!(!check_handshake_reply(&good[..60], &hash));
}

#[test]
fn stalled_peers_are_dropped() {
    let piece0 = b"aaaa".to_vec();
    let piece1 = b"bbbb".to_vec();
    let mut ctrl = two_piece_controller(&piece0, &piece1);
    let a = forwarded(&mut ctrl, 1);
    let b = forwarded(&mut ctrl, 2);

    let mut actions = Vec::new();
    ctrl.handle_event(DownloadTorrentEvent::PeerPieces(a, full_bitfield()), 0, &mut actions);
    ctrl.handle_event(DownloadTorrentEvent::PeerPieces(b, full_bitfield()), 0, &mut actions);
    // peer a starts downloading at time 1; peer b stays idle
    ctrl.handle_event(DownloadTorrentEvent::PeerUnchoke(a), 1, &mut actions);

    // 100 seconds later, with a 30-second stall limit, a is dropped and
    // b stays
    let mut actions = Vec::new();
    ctrl.drop_stalled_peers(100, 30, &mut actions);
    assert_eq!(ctrl.peers_count(), 1);
    assert!(actions
        .iter()
        .any(|x| matches!(x, DownloadAction::Disconnect { peer_id } if *peer_id == a)));
    assert!(!actions
        .iter()
        .any(|x| matches!(x, DownloadAction::Disconnect { peer_id } if *peer_id == b)));
}
