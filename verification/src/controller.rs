//! Per-torrent download controller.
//!
//! One torrent is driven by a single loop over [`DownloadTorrentEvent`]s
//! multiplexed from the tracker, the peer sessions and local commands.
//! The controller owns every peer's state, the download mode and the
//! storage; each event handler mutates that state and hands back the
//! [`DownloadAction`]s the surrounding loop must perform. In normal mode
//! no two peers ever download the same piece; in end-game mode duplicates
//! are allowed and the first delivery cancels the rest.

use vstd::prelude::*;

use crate::announce::Peer;
use crate::message::{bit_by_index, parse_handshake, set_bit, spec_bit, spec_handshake_prefix_ok, Message};
use crate::storage::{bytes_equal, TorrentStorage};

verus! {

/// How many peers we unchoke at most.
pub const UNCHOKE_SLOTS: usize = 4;

/// The torrent's download mode: one downloader per piece, or end-game
/// duplication once the download is nearly done.
#[derive(Debug, PartialEq, Eq, Structural, Clone, Copy)]
pub enum TorrentDownloadMode {
    Normal,
    EndGame,
}

/// Our view of one remote peer.
#[derive(Debug, Clone)]
pub enum TorrentPeerState {
    Idle,
    Connecting,
    Connected {
        am_choking: bool,
        am_interested: bool,
        peer_choking: bool,
        peer_interested: bool,
        pieces: Vec<u8>,
        downloading_piece: Option<usize>,
        downloading_since: Option<u64>,
        uploading_piece: Option<(u32, u32, u32)>,
    },
}

/// One known peer: its identifier, its address, and its session state.
#[derive(Debug, Clone)]
pub struct PeerEntry {
    pub id: u64,
    pub peer: Peer,
    pub state: TorrentPeerState,
}

/// Everything a torrent's event loop can be told.
#[derive(Debug)]
pub enum DownloadTorrentEvent {
    Announce(Vec<Peer>),
    PeerAnnounced(Peer),
    PeerConnected(u64),
    PeerForwarded(Peer),
    PeerConnectFailed(u64),
    PeerDisconnect(u64),
    PeerPieces(u64, Vec<u8>),
    PeerPiece(u64, usize),
    PeerUnchoke(u64),
    PeerInterested(u64),
    PeerPieceDownloaded(u64, Vec<u8>),
    PeerPieceCanceled(u64),
    PeerPieceRequest { peer_id: u64, index: u32, begin: u32, length: u32 },
}

/// What the surrounding loop must do after an event is handled.
#[derive(Debug)]
pub enum DownloadAction {
    Connect { peer_id: u64, peer: Peer },
    Send { peer_id: u64, message: Message },
    CancelPiece { peer_id: u64, piece: usize },
    Disconnect { peer_id: u64 },
}

/// The piece a peer entry is downloading, when its session has one.
pub open spec fn spec_downloading(e: PeerEntry) -> Option<usize> {
    match e.state {
        TorrentPeerState::Connected { downloading_piece, .. } => downloading_piece,
        _ => None,
    }
}

/// No two peers download the same piece (the normal-mode discipline).
pub open spec fn spec_assignment_at_most_once(peers: Seq<PeerEntry>) -> bool {
    forall|i: int, j: int|
        0 <= i < peers.len() && 0 <= j < peers.len() && i != j && spec_downloading(
            #[trigger] peers[i],
        ) is Some && spec_downloading(#[trigger] peers[j]) is Some ==> spec_downloading(peers[i])
            != spec_downloading(peers[j])
}

/// Every peer id appears once.
pub open spec fn spec_ids_unique(peers: Seq<PeerEntry>) -> bool {
    forall|i: int, j: int|
        0 <= i < peers.len() && 0 <= j < peers.len() && i != j ==> (#[trigger] peers[i]).id != (
        #[trigger] peers[j]).id
}

/// Every assigned piece is a real piece of the torrent.
pub open spec fn spec_assignments_in_range(peers: Seq<PeerEntry>, count: int) -> bool {
    forall|i: int|
        0 <= i < peers.len() && spec_downloading(#[trigger] peers[i]) is Some ==> spec_downloading(
            peers[i],
        ).unwrap() < count
}

/// The controller's observable state did not change.
pub open spec fn spec_state_unchanged(pre: DownloadTorrentState, post: DownloadTorrentState) -> bool {
    &&& post.spec_peers() == pre.spec_peers()
    &&& post.spec_mode() == pre.spec_mode()
    &&& *post.spec_storage() == *pre.spec_storage()
    &&& post.spec_next_peer_id() == pre.spec_next_peer_id()
}

/// A freshly connected session: fully choked, no interest declared, no
/// bitfield shown, nothing in flight.
pub open spec fn spec_fresh_connected(st: TorrentPeerState) -> bool {
    match st {
        TorrentPeerState::Connected {
            am_choking,
            am_interested,
            peer_choking,
            peer_interested,
            pieces,
            downloading_piece,
            downloading_since,
            uploading_piece,
        } => {
            &&& am_choking
            &&& !am_interested
            &&& peer_choking
            &&& !peer_interested
            &&& pieces@.len() == 0
            &&& downloading_piece is None
            &&& downloading_since is None
            &&& uploading_piece is None
        },
        _ => false,
    }
}

/// Is this action our bitfield, sent to `peer_id`?
pub open spec fn spec_is_bitfield_send(a: DownloadAction, peer_id: u64, bits: Seq<u8>) -> bool {
    match a {
        DownloadAction::Send { peer_id: target, message: Message::Bitfield(b) } => target == peer_id
            && b@ == bits,
        _ => false,
    }
}

/// Is this action the interest declaration `interested`, sent to
/// `peer_id`?
pub open spec fn spec_is_interest_send(a: DownloadAction, peer_id: u64, interested: bool) -> bool {
    match a {
        DownloadAction::Send { peer_id: target, message } => target == peer_id && message == (
        if interested {
            Message::Interested
        } else {
            Message::NotInterested
        }),
        _ => false,
    }
}

/// What announcing one peer does: a known address, or an exhausted id
/// space, changes nothing; a new address joins the peer list as a
/// connecting entry under the next fresh id, with one Connect action.
pub open spec fn spec_announced_effect(
    pre: DownloadTorrentState,
    post: DownloadTorrentState,
    peer: Peer,
    a0: Seq<DownloadAction>,
    a1: Seq<DownloadAction>,
) -> bool {
    &&& (exists|i: int|
        0 <= i < pre.spec_peers().len() && (#[trigger] pre.spec_peers()[i]).peer == peer) ==> spec_state_unchanged(pre, post) && a1 == a0
    &&& (!(exists|i: int|
        0 <= i < pre.spec_peers().len() && (#[trigger] pre.spec_peers()[i]).peer == peer)
        && pre.spec_next_peer_id() == u64::MAX) ==> spec_state_unchanged(pre, post) && a1 == a0
    &&& (!(exists|i: int|
        0 <= i < pre.spec_peers().len() && (#[trigger] pre.spec_peers()[i]).peer == peer)
        && pre.spec_next_peer_id() < u64::MAX) ==> {
        &&& post.spec_peers() == pre.spec_peers().push(
            PeerEntry {
                id: pre.spec_next_peer_id(),
                peer,
                state: TorrentPeerState::Connecting,
            },
        )
        &&& post.spec_next_peer_id() == pre.spec_next_peer_id() + 1
        &&& a1 == a0.push(
            DownloadAction::Connect { peer_id: pre.spec_next_peer_id(), peer },
        )
        &&& post.spec_mode() == pre.spec_mode()
        &&& *post.spec_storage() == *pre.spec_storage()
    }
}

/// The first `n` announced addresses all belong to known peers.
pub open spec fn spec_addresses_known(entries: Seq<PeerEntry>, peers: Seq<Peer>, n: int) -> bool {
    forall|k: int|
        0 <= k < n ==> exists|e: int|
            0 <= e < entries.len() && (#[trigger] entries[e]).peer == (#[trigger] peers[k])
}

/// What a tracker announce does: the appended actions are connection
/// requests, and (while the id space lasts) every announced address is a
/// known peer afterwards.
pub open spec fn spec_announce_effect(
    pre: DownloadTorrentState,
    post: DownloadTorrentState,
    peers: Seq<Peer>,
    a0: Seq<DownloadAction>,
    a1: Seq<DownloadAction>,
) -> bool {
    &&& a1.len() >= a0.len()
    &&& a1.subrange(0, a0.len() as int) == a0
    &&& forall|k: int| a0.len() <= k < a1.len() ==> (#[trigger] a1[k]) is Connect
    &&& pre.spec_next_peer_id() as int + peers.len() <= u64::MAX as int ==> spec_addresses_known(
        post.spec_peers(),
        peers,
        peers.len() as int,
    )
}

/// What a successful outbound connection does: an unknown id changes
/// nothing; a known peer becomes a fresh connected session and is sent
/// our bitfield.
pub open spec fn spec_connected_effect(
    pre: DownloadTorrentState,
    post: DownloadTorrentState,
    peer_id: u64,
    a0: Seq<DownloadAction>,
    a1: Seq<DownloadAction>,
) -> bool {
    &&& (forall|i: int|
        0 <= i < pre.spec_peers().len() ==> (#[trigger] pre.spec_peers()[i]).id != peer_id) ==> spec_state_unchanged(pre, post) && a1 == a0
    &&& forall|ix: int|
        0 <= ix < pre.spec_peers().len() && (#[trigger] pre.spec_peers()[ix]).id == peer_id ==> {
            &&& post.spec_peers().len() == pre.spec_peers().len()
            &&& forall|i: int|
                0 <= i < pre.spec_peers().len() && i != ix ==> post.spec_peers()[i]
                    == pre.spec_peers()[i]
            &&& post.spec_peers()[ix].id == peer_id
            &&& post.spec_peers()[ix].peer == pre.spec_peers()[ix].peer
            &&& spec_fresh_connected(post.spec_peers()[ix].state)
            &&& a1.len() == a0.len() + 1
            &&& a1.subrange(0, a0.len() as int) == a0
            &&& spec_is_bitfield_send(a1.last(), peer_id, pre.spec_storage().spec_downloaded())
            &&& post.spec_mode() == pre.spec_mode()
            &&& *post.spec_storage() == *pre.spec_storage()
            &&& post.spec_next_peer_id() == pre.spec_next_peer_id()
        }
}

/// What accepting a forwarded connection does: nothing when the id space
/// is exhausted; otherwise a fresh connected entry under the minted id,
/// which is sent our bitfield.
pub open spec fn spec_forwarded_effect(
    pre: DownloadTorrentState,
    post: DownloadTorrentState,
    peer: Peer,
    r: Option<u64>,
    a0: Seq<DownloadAction>,
    a1: Seq<DownloadAction>,
) -> bool {
    &&& (r is None) <==> pre.spec_next_peer_id() == u64::MAX
    &&& r is None ==> spec_state_unchanged(pre, post) && a1 == a0
    &&& forall|id: u64| r == Some(id) ==> {
        &&& id == pre.spec_next_peer_id()
        &&& post.spec_peers().len() == pre.spec_peers().len() + 1
        &&& forall|i: int|
            0 <= i < pre.spec_peers().len() ==> post.spec_peers()[i] == pre.spec_peers()[i]
        &&& post.spec_peers().last().id == id
        &&& post.spec_peers().last().peer == peer
        &&& spec_fresh_connected(post.spec_peers().last().state)
        &&& post.spec_next_peer_id() == id + 1
        &&& a1.len() == a0.len() + 1
        &&& a1.subrange(0, a0.len() as int) == a0
        &&& spec_is_bitfield_send(a1.last(), id, pre.spec_storage().spec_downloaded())
        &&& post.spec_mode() == pre.spec_mode()
        &&& *post.spec_storage() == *pre.spec_storage()
    }
}

/// What a disconnect does: an unknown id changes nothing; a known peer's
/// entry is removed and every other entry stays.
pub open spec fn spec_disconnect_effect(
    pre: DownloadTorrentState,
    post: DownloadTorrentState,
    peer_id: u64,
) -> bool {
    &&& (forall|i: int|
        0 <= i < pre.spec_peers().len() ==> (#[trigger] pre.spec_peers()[i]).id != peer_id) ==> spec_state_unchanged(pre, post)
    &&& forall|ix: int|
        0 <= ix < pre.spec_peers().len() && (#[trigger] pre.spec_peers()[ix]).id == peer_id ==> {
            &&& post.spec_peers() == pre.spec_peers().remove(ix)
            &&& post.spec_mode() == pre.spec_mode()
            &&& *post.spec_storage() == *pre.spec_storage()
            &&& post.spec_next_peer_id() == pre.spec_next_peer_id()
        }
}

/// What a delivered bitfield does: an unknown or unconnected peer
/// changes nothing; a bitfield too large to index costs the peer its
/// entry; otherwise the bitfield is stored as delivered and our interest
/// is declared, true exactly when the peer holds a piece we lack.
pub open spec fn spec_pieces_effect(
    pre: DownloadTorrentState,
    post: DownloadTorrentState,
    peer_id: u64,
    bits: Seq<u8>,
    a0: Seq<DownloadAction>,
    a1: Seq<DownloadAction>,
) -> bool {
    &&& (forall|i: int|
        0 <= i < pre.spec_peers().len() ==> (#[trigger] pre.spec_peers()[i]).id != peer_id) ==> spec_state_unchanged(pre, post) && a1 == a0
    &&& forall|ix: int|
        0 <= ix < pre.spec_peers().len() && (#[trigger] pre.spec_peers()[ix]).id == peer_id ==> {
            &&& !(pre.spec_peers()[ix].state is Connected) ==> spec_state_unchanged(pre, post)
                && a1 == a0
            &&& pre.spec_peers()[ix].state is Connected && bits.len() > usize::MAX as int / 8 - 1
                ==> post.spec_peers() == pre.spec_peers().remove(ix) && a1 == a0.push(
                DownloadAction::Disconnect { peer_id },
            ) && *post.spec_storage() == *pre.spec_storage() && post.spec_mode()
                == pre.spec_mode()
            &&& pre.spec_peers()[ix].state is Connected && bits.len() <= usize::MAX as int / 8 - 1
                ==> {
                &&& post.spec_peers().len() == pre.spec_peers().len()
                &&& forall|i: int|
                    0 <= i < pre.spec_peers().len() && i != ix ==> post.spec_peers()[i]
                        == pre.spec_peers()[i]
                &&& post.spec_peers()[ix].id == peer_id
                &&& post.spec_peers()[ix].peer == pre.spec_peers()[ix].peer
                &&& spec_peer_bits(post.spec_peers()[ix]) == bits
                &&& spec_am_interested(post.spec_peers()[ix]) == spec_has_useful_piece(
                    bits,
                    pre.spec_storage().spec_downloaded(),
                )
                &&& spec_am_choking(post.spec_peers()[ix]) == spec_am_choking(pre.spec_peers()[ix])
                &&& spec_peer_choking(post.spec_peers()[ix]) == spec_peer_choking(
                    pre.spec_peers()[ix],
                )
                &&& spec_peer_interested(post.spec_peers()[ix]) == spec_peer_interested(
                    pre.spec_peers()[ix],
                )
                &&& spec_downloading(post.spec_peers()[ix]) == spec_downloading(
                    pre.spec_peers()[ix],
                )
                &&& a1.len() == a0.len() + 1
                &&& a1.subrange(0, a0.len() as int) == a0
                &&& spec_is_interest_send(
                    a1.last(),
                    peer_id,
                    spec_has_useful_piece(bits, pre.spec_storage().spec_downloaded()),
                )
                &&& *post.spec_storage() == *pre.spec_storage()
                &&& post.spec_mode() == pre.spec_mode()
            }
        }
}

/// What a `Have` announcement does: an unknown or unconnected peer, or
/// one whose stored bitfield cannot be indexed, changes nothing;
/// otherwise bit `piece` of the stored bitfield is set (when the
/// bitfield reaches it) and our interest is recomputed, with a message
/// out when it changed.
pub open spec fn spec_piece_effect(
    pre: DownloadTorrentState,
    post: DownloadTorrentState,
    peer_id: u64,
    piece: usize,
    a0: Seq<DownloadAction>,
    a1: Seq<DownloadAction>,
) -> bool {
    &&& (forall|i: int|
        0 <= i < pre.spec_peers().len() ==> (#[trigger] pre.spec_peers()[i]).id != peer_id) ==> spec_state_unchanged(pre, post) && a1 == a0
    &&& forall|ix: int|
        0 <= ix < pre.spec_peers().len() && (#[trigger] pre.spec_peers()[ix]).id == peer_id ==> {
            &&& !(pre.spec_peers()[ix].state is Connected) ==> spec_state_unchanged(pre, post)
                && a1 == a0
            &&& pre.spec_peers()[ix].state is Connected && spec_peer_bits(pre.spec_peers()[ix]).len()
                > usize::MAX as int / 8 - 1 ==> spec_state_unchanged(pre, post) && a1 == a0
            &&& pre.spec_peers()[ix].state is Connected && spec_peer_bits(pre.spec_peers()[ix]).len()
                <= usize::MAX as int / 8 - 1 ==> {
                let bits0 = spec_peer_bits(pre.spec_peers()[ix]);
                let bits1 = spec_peer_bits(post.spec_peers()[ix]);
                &&& post.spec_peers().len() == pre.spec_peers().len()
                &&& forall|i: int|
                    0 <= i < pre.spec_peers().len() && i != ix ==> post.spec_peers()[i]
                        == pre.spec_peers()[i]
                &&& post.spec_peers()[ix].id == peer_id
                &&& post.spec_peers()[ix].peer == pre.spec_peers()[ix].peer
                &&& bits1.len() == bits0.len()
                &&& (piece as int / 8 < bits0.len() ==> spec_bit(bits1, piece as int) && forall|
                    j: int,
                |
                    0 <= j && j != piece as int ==> spec_bit(bits1, j) == spec_bit(bits0, j))
                &&& (piece as int / 8 >= bits0.len() ==> bits1 == bits0)
                &&& spec_am_interested(post.spec_peers()[ix]) == spec_has_useful_piece(
                    bits1,
                    pre.spec_storage().spec_downloaded(),
                )
                &&& spec_am_choking(post.spec_peers()[ix]) == spec_am_choking(pre.spec_peers()[ix])
                &&& spec_peer_choking(post.spec_peers()[ix]) == spec_peer_choking(
                    pre.spec_peers()[ix],
                )
                &&& spec_peer_interested(post.spec_peers()[ix]) == spec_peer_interested(
                    pre.spec_peers()[ix],
                )
                &&& spec_downloading(post.spec_peers()[ix]) == spec_downloading(
                    pre.spec_peers()[ix],
                )
                &&& (spec_am_interested(post.spec_peers()[ix]) != spec_am_interested(
                    pre.spec_peers()[ix],
                ) ==> a1.len() == a0.len() + 1 && a1.subrange(0, a0.len() as int) == a0
                    && spec_is_interest_send(
                    a1.last(),
                    peer_id,
                    spec_am_interested(post.spec_peers()[ix]),
                ))
                &&& (spec_am_interested(post.spec_peers()[ix]) == spec_am_interested(
                    pre.spec_peers()[ix],
                ) ==> a1 == a0)
                &&& *post.spec_storage() == *pre.spec_storage()
                &&& post.spec_mode() == pre.spec_mode()
            }
        }
}

/// What a block request does: an unknown or unconnected peer, or a
/// request outside the torrent, changes nothing; a valid request is
/// answered with exactly one `Piece` block holding the stored bytes, the
/// read is counted, and the upload is noted at the peer.
pub open spec fn spec_request_effect(
    pre: DownloadTorrentState,
    post: DownloadTorrentState,
    peer_id: u64,
    index: u32,
    begin: u32,
    length: u32,
    a0: Seq<DownloadAction>,
    a1: Seq<DownloadAction>,
) -> bool {
    &&& (forall|i: int|
        0 <= i < pre.spec_peers().len() ==> (#[trigger] pre.spec_peers()[i]).id != peer_id) ==> spec_state_unchanged(pre, post) && a1 == a0
    &&& forall|ix: int|
        0 <= ix < pre.spec_peers().len() && (#[trigger] pre.spec_peers()[ix]).id == peer_id ==> {
            &&& !(pre.spec_peers()[ix].state is Connected) ==> spec_state_unchanged(pre, post)
                && a1 == a0
            &&& pre.spec_peers()[ix].state is Connected && ((index as int)
                >= pre.spec_storage().spec_pieces_count() || (begin as int + length as int)
                > pre.spec_storage().spec_piece_len(index as int)) ==> spec_state_unchanged(
                pre,
                post,
            ) && a1 == a0
            &&& pre.spec_peers()[ix].state is Connected && ((index as int)
                < pre.spec_storage().spec_pieces_count()) && ((begin as int + length as int)
                <= pre.spec_storage().spec_piece_len(index as int)) ==> {
                &&& a1.len() == a0.len() + 1
                &&& a1.subrange(0, a0.len() as int) == a0
                &&& spec_is_piece_send(
                    a1.last(),
                    peer_id,
                    index,
                    begin,
                    pre.spec_storage().spec_piece_bytes_at(index as int).subrange(
                        begin as int,
                        begin as int + length as int,
                    ),
                )
                &&& post.spec_storage().spec_state().bytes_read
                    == crate::storage::spec_sat_add64(
                    pre.spec_storage().spec_state().bytes_read,
                    length as u64,
                )
                &&& post.spec_storage().spec_files_data() == pre.spec_storage().spec_files_data()
                &&& post.spec_storage().spec_downloaded() == pre.spec_storage().spec_downloaded()
                &&& post.spec_storage().spec_state().pieces_left
                    == pre.spec_storage().spec_state().pieces_left
                &&& post.spec_storage().spec_state().bytes_write
                    == pre.spec_storage().spec_state().bytes_write
                &&& post.spec_peers().len() == pre.spec_peers().len()
                &&& forall|i: int|
                    0 <= i < pre.spec_peers().len() && i != ix ==> post.spec_peers()[i]
                        == pre.spec_peers()[i]
                &&& post.spec_peers()[ix].id == peer_id
                &&& spec_uploading(post.spec_peers()[ix]) == Some((index, begin, length))
                &&& spec_peer_bits(post.spec_peers()[ix]) == spec_peer_bits(pre.spec_peers()[ix])
                &&& spec_downloading(post.spec_peers()[ix]) == spec_downloading(
                    pre.spec_peers()[ix],
                )
                &&& post.spec_mode() == pre.spec_mode()
            }
        }
}

/// Every action in `s[from..to)` is a plain `Send` that is not a `Have`:
/// what the scheduler may append.
pub open spec fn spec_sends_only(s: Seq<DownloadAction>, from: int, to: int) -> bool {
    forall|k: int|
        from <= k < to ==> ((#[trigger] s[k]) matches DownloadAction::Send { message, .. }
            && !(message is Have))
}

/// Does the peer at `ix` hold any of the torrent's pieces that we lack?
pub open spec fn spec_useful_in_range(
    peers: Seq<PeerEntry>,
    ix: int,
    downloaded: Seq<u8>,
    count: int,
) -> bool {
    exists|p: usize|
        (p as int) < count && spec_bit(spec_peer_bits(peers[ix]), p as int) && !spec_bit(
            downloaded,
            p as int,
        )
}

/// The block requests that cover piece `piece` of `piece_len` bytes, in
/// order, addressed to `peer_id`.
pub open spec fn spec_block_requests(peer_id: u64, piece: u32, piece_len: int) -> Seq<
    DownloadAction,
> {
    Seq::new(
        crate::spec_count_parts(piece_len, crate::BLOCK_SIZE as int) as nat,
        |k: int| spec_block_request(peer_id, piece, piece_len, k),
    )
}

/// What scheduling the peer at `ix` does, given the peer list, mode and
/// storage at the call: nothing unless the peer is connected, unchoked,
/// interesting to us and idle; then the lowest selectable piece is
/// assigned and its covering block requests go out, or, with nothing
/// selectable, interest is withdrawn exactly when the peer holds nothing
/// useful.
pub open spec fn spec_schedule_effect(
    peers_pre: Seq<PeerEntry>,
    peers_post: Seq<PeerEntry>,
    mode: TorrentDownloadMode,
    st: TorrentStorage,
    ix: int,
    now: u64,
    a0: Seq<DownloadAction>,
    a1: Seq<DownloadAction>,
) -> bool {
    &&& !(peers_pre[ix].state is Connected) ==> peers_post == peers_pre && a1 == a0
    &&& peers_pre[ix].state is Connected && (spec_peer_choking(peers_pre[ix])
        || !spec_am_interested(peers_pre[ix])) ==> peers_post == peers_pre && a1 == a0
    &&& peers_pre[ix].state is Connected && !spec_peer_choking(peers_pre[ix])
        && spec_am_interested(peers_pre[ix]) && spec_downloading(peers_pre[ix]) is Some
        ==> peers_post == peers_pre && a1 == a0
    &&& (peers_pre[ix].state is Connected && !spec_peer_choking(peers_pre[ix])
        && spec_am_interested(peers_pre[ix]) && spec_downloading(peers_pre[ix]) is None) ==> {
        &&& (exists|p: usize|
            (p as int) < st.spec_pieces_count() && spec_selectable(
                peers_pre,
                mode,
                st.spec_downloaded(),
                ix,
                p,
            )) ==> exists|p: usize|
            {
                &&& (p as int) < st.spec_pieces_count()
                &&& spec_selectable(peers_pre, mode, st.spec_downloaded(), ix, p)
                &&& forall|q: usize|
                    q < p ==> !spec_selectable(peers_pre, mode, st.spec_downloaded(), ix, q)
                &&& peers_post.len() == peers_pre.len()
                &&& forall|i: int|
                    0 <= i < peers_pre.len() && i != ix ==> peers_post[i] == peers_pre[i]
                &&& peers_post[ix].id == peers_pre[ix].id
                &&& peers_post[ix].peer == peers_pre[ix].peer
                &&& spec_peer_bits(peers_post[ix]) == spec_peer_bits(peers_pre[ix])
                &&& spec_am_interested(peers_post[ix]) && !spec_peer_choking(peers_post[ix])
                &&& spec_downloading(peers_post[ix]) == Some(p)
                &&& a1 == a0 + spec_block_requests(
                    peers_pre[ix].id,
                    p as u32,
                    st.spec_piece_len(p as int),
                )
            }
        &&& (forall|p: usize|
            (p as int) < st.spec_pieces_count() ==> !spec_selectable(
                peers_pre,
                mode,
                st.spec_downloaded(),
                ix,
                p,
            )) ==> {
            &&& (spec_useful_in_range(peers_pre, ix, st.spec_downloaded(), st.spec_pieces_count())
                ==> peers_post == peers_pre && a1 == a0)
            &&& (!spec_useful_in_range(
                peers_pre,
                ix,
                st.spec_downloaded(),
                st.spec_pieces_count(),
            ) ==> {
                &&& peers_post.len() == peers_pre.len()
                &&& forall|i: int|
                    0 <= i < peers_pre.len() && i != ix ==> peers_post[i] == peers_pre[i]
                &&& peers_post[ix].id == peers_pre[ix].id
                &&& peers_post[ix].peer == peers_pre[ix].peer
                &&& spec_peer_bits(peers_post[ix]) == spec_peer_bits(peers_pre[ix])
                &&& spec_peer_choking(peers_post[ix]) == spec_peer_choking(peers_pre[ix])
                &&& spec_peer_interested(peers_post[ix]) == spec_peer_interested(peers_pre[ix])
                &&& !spec_am_interested(peers_post[ix])
                &&& spec_downloading(peers_post[ix]) is None
                &&& a1 == a0.push(
                    DownloadAction::Send {
                        peer_id: peers_pre[ix].id,
                        message: Message::NotInterested,
                    },
                )
            })
        }
    }
}

/// Which pieces are selectable or useful for the peer at `ix` depends
/// only on its bitfield and on the other entries: changing the rest of
/// the entry at `ix` changes neither.
pub proof fn lemma_selection_invariant(
    p1: Seq<PeerEntry>,
    p2: Seq<PeerEntry>,
    ix: int,
    mode: TorrentDownloadMode,
    downloaded: Seq<u8>,
    count: int,
)
    requires
        0 <= ix < p1.len(),
        p2.len() == p1.len(),
        forall|i: int| 0 <= i < p1.len() && i != ix ==> p2[i] == p1[i],
        spec_peer_bits(p2[ix]) == spec_peer_bits(p1[ix]),
    ensures
        forall|p: usize|
            #[trigger] spec_selectable(p2, mode, downloaded, ix, p) == spec_selectable(
                p1,
                mode,
                downloaded,
                ix,
                p,
            ),
        spec_useful_in_range(p2, ix, downloaded, count) == spec_useful_in_range(
            p1,
            ix,
            downloaded,
            count,
        ),
{
    assert forall|p: usize|
        #[trigger] spec_selectable(p2, mode, downloaded, ix, p) == spec_selectable(
        p1,
        mode,
        downloaded,
        ix,
        p,
    ) by {
        assert(spec_assigned_elsewhere(p2, ix, p) == spec_assigned_elsewhere(p1, ix, p)) by {
            if spec_assigned_elsewhere(p1, ix, p) {
                let j = choose|j: int|
                    0 <= j < p1.len() && j != ix && spec_downloading(#[trigger] p1[j]) == Some(p);
                assert(spec_downloading(p2[j]) == Some(p));
            }
            if spec_assigned_elsewhere(p2, ix, p) {
                let j = choose|j: int|
                    0 <= j < p2.len() && j != ix && spec_downloading(#[trigger] p2[j]) == Some(p);
                assert(spec_downloading(p1[j]) == Some(p));
            }
        }
    }
}

/// The outcome of putting the peer at `ix` back through the scheduler,
/// judged against `pre_peers` (the choke flag and the cleared assignment
/// play no part in selection): the lowest selectable piece is assigned
/// with its covering requests, or interest is withdrawn exactly when the
/// peer holds nothing useful.
pub open spec fn spec_reschedule_outcome(
    pre_peers: Seq<PeerEntry>,
    post_peers: Seq<PeerEntry>,
    mode: TorrentDownloadMode,
    st: TorrentStorage,
    ix: int,
    peer_id: u64,
    a0: Seq<DownloadAction>,
    a1: Seq<DownloadAction>,
) -> bool {
    &&& (exists|p: usize|
        (p as int) < st.spec_pieces_count() && spec_selectable(
            pre_peers,
            mode,
            st.spec_downloaded(),
            ix,
            p,
        )) ==> exists|p: usize|
        {
            &&& (p as int) < st.spec_pieces_count()
            &&& spec_selectable(pre_peers, mode, st.spec_downloaded(), ix, p)
            &&& forall|q: usize|
                q < p ==> !spec_selectable(pre_peers, mode, st.spec_downloaded(), ix, q)
            &&& spec_downloading(post_peers[ix]) == Some(p)
            &&& spec_am_interested(post_peers[ix])
            &&& a1 == a0 + spec_block_requests(peer_id, p as u32, st.spec_piece_len(p as int))
        }
    &&& (forall|p: usize|
        (p as int) < st.spec_pieces_count() ==> !spec_selectable(
            pre_peers,
            mode,
            st.spec_downloaded(),
            ix,
            p,
        )) ==> {
        &&& spec_downloading(post_peers[ix]) is None
        &&& (spec_useful_in_range(pre_peers, ix, st.spec_downloaded(), st.spec_pieces_count())
            ==> spec_am_interested(post_peers[ix]) && a1 == a0)
        &&& (!spec_useful_in_range(pre_peers, ix, st.spec_downloaded(), st.spec_pieces_count())
            ==> !spec_am_interested(post_peers[ix]) && a1 == a0.push(
            DownloadAction::Send { peer_id, message: Message::NotInterested },
        ))
    }
}

/// What a peer's unchoke does: an unknown or unconnected peer changes
/// nothing; otherwise the choke is noted and, when we are interested and
/// had nothing in flight, the peer goes through the scheduler.
pub open spec fn spec_unchoke_effect(
    pre: DownloadTorrentState,
    post: DownloadTorrentState,
    peer_id: u64,
    now: u64,
    a0: Seq<DownloadAction>,
    a1: Seq<DownloadAction>,
) -> bool {
    &&& (forall|i: int|
        0 <= i < pre.spec_peers().len() ==> (#[trigger] pre.spec_peers()[i]).id != peer_id) ==> spec_state_unchanged(pre, post) && a1 == a0
    &&& forall|ix: int|
        0 <= ix < pre.spec_peers().len() && (#[trigger] pre.spec_peers()[ix]).id == peer_id ==> {
            &&& !(pre.spec_peers()[ix].state is Connected) ==> spec_state_unchanged(pre, post)
                && a1 == a0
            &&& pre.spec_peers()[ix].state is Connected ==> {
                &&& post.spec_peers().len() == pre.spec_peers().len()
                &&& forall|i: int|
                    0 <= i < pre.spec_peers().len() && i != ix ==> post.spec_peers()[i]
                        == pre.spec_peers()[i]
                &&& post.spec_peers()[ix].id == peer_id
                &&& post.spec_peers()[ix].peer == pre.spec_peers()[ix].peer
                &&& spec_peer_bits(post.spec_peers()[ix]) == spec_peer_bits(pre.spec_peers()[ix])
                &&& !spec_peer_choking(post.spec_peers()[ix])
                &&& !(spec_am_interested(pre.spec_peers()[ix]) && spec_downloading(
                    pre.spec_peers()[ix],
                ) is None) ==> spec_downloading(post.spec_peers()[ix]) == spec_downloading(
                    pre.spec_peers()[ix],
                ) && spec_am_interested(post.spec_peers()[ix]) == spec_am_interested(
                    pre.spec_peers()[ix],
                ) && a1 == a0
                &&& (spec_am_interested(pre.spec_peers()[ix]) && spec_downloading(
                    pre.spec_peers()[ix],
                ) is None) ==> spec_reschedule_outcome(
                    pre.spec_peers(),
                    post.spec_peers(),
                    pre.spec_mode(),
                    *pre.spec_storage(),
                    ix,
                    peer_id,
                    a0,
                    a1,
                )
            }
        }
}

/// What a remote cancel does: an unknown or unconnected peer changes
/// nothing; otherwise the assignment is released and, when we are
/// interested and unchoked, the peer goes straight back through the
/// scheduler.
pub open spec fn spec_canceled_effect(
    pre: DownloadTorrentState,
    post: DownloadTorrentState,
    peer_id: u64,
    now: u64,
    a0: Seq<DownloadAction>,
    a1: Seq<DownloadAction>,
) -> bool {
    &&& (forall|i: int|
        0 <= i < pre.spec_peers().len() ==> (#[trigger] pre.spec_peers()[i]).id != peer_id) ==> spec_state_unchanged(pre, post) && a1 == a0
    &&& forall|ix: int|
        0 <= ix < pre.spec_peers().len() && (#[trigger] pre.spec_peers()[ix]).id == peer_id ==> {
            &&& !(pre.spec_peers()[ix].state is Connected) ==> spec_state_unchanged(pre, post)
                && a1 == a0
            &&& pre.spec_peers()[ix].state is Connected ==> {
                &&& post.spec_peers().len() == pre.spec_peers().len()
                &&& forall|i: int|
                    0 <= i < pre.spec_peers().len() && i != ix ==> post.spec_peers()[i]
                        == pre.spec_peers()[i]
                &&& post.spec_peers()[ix].id == peer_id
                &&& spec_peer_bits(post.spec_peers()[ix]) == spec_peer_bits(pre.spec_peers()[ix])
                &&& spec_peer_choking(post.spec_peers()[ix]) == spec_peer_choking(
                    pre.spec_peers()[ix],
                )
                &&& !(spec_am_interested(pre.spec_peers()[ix]) && !spec_peer_choking(
                    pre.spec_peers()[ix],
                )) ==> spec_downloading(post.spec_peers()[ix]) is None && a1 == a0
                &&& (spec_am_interested(pre.spec_peers()[ix]) && !spec_peer_choking(
                    pre.spec_peers()[ix],
                )) ==> spec_reschedule_outcome(
                    pre.spec_peers(),
                    post.spec_peers(),
                    pre.spec_mode(),
                    *pre.spec_storage(),
                    ix,
                    peer_id,
                    a0,
                    a1,
                )
            }
        }
}

/// When the scheduler ran on a state that differs from `pre` only in the
/// entry at `ix` (same bitfield, same id), its outcome reads the same
/// against `pre`.
proof fn lemma_reschedule_bridge(
    pre_peers: Seq<PeerEntry>,
    mid_peers: Seq<PeerEntry>,
    post_peers: Seq<PeerEntry>,
    mode: TorrentDownloadMode,
    st: TorrentStorage,
    ix: int,
    now: u64,
    peer_id: u64,
    a0: Seq<DownloadAction>,
    a1: Seq<DownloadAction>,
)
    requires
        0 <= ix < pre_peers.len(),
        mid_peers.len() == pre_peers.len(),
        forall|i: int| 0 <= i < pre_peers.len() && i != ix ==> mid_peers[i] == pre_peers[i],
        spec_peer_bits(mid_peers[ix]) == spec_peer_bits(pre_peers[ix]),
        mid_peers[ix].id == peer_id,
        mid_peers[ix].state is Connected,
        !spec_peer_choking(mid_peers[ix]),
        spec_am_interested(mid_peers[ix]),
        spec_downloading(mid_peers[ix]) is None,
        spec_schedule_effect(mid_peers, post_peers, mode, st, ix, now, a0, a1),
    ensures
        spec_reschedule_outcome(pre_peers, post_peers, mode, st, ix, peer_id, a0, a1),
{
    lemma_selection_invariant(
        pre_peers,
        mid_peers,
        ix,
        mode,
        st.spec_downloaded(),
        st.spec_pieces_count(),
    );
    if exists|p: usize|
        (p as int) < st.spec_pieces_count() && spec_selectable(
            pre_peers,
            mode,
            st.spec_downloaded(),
            ix,
            p,
        ) {
        let p0 = choose|p: usize|
            (p as int) < st.spec_pieces_count() && spec_selectable(
                pre_peers,
                mode,
                st.spec_downloaded(),
                ix,
                p,
            );
        assert(spec_selectable(mid_peers, mode, st.spec_downloaded(), ix, p0));
        let p = choose|p: usize|
            {
                &&& (p as int) < st.spec_pieces_count()
                &&& spec_selectable(mid_peers, mode, st.spec_downloaded(), ix, p)
                &&& forall|q: usize|
                    q < p ==> !spec_selectable(mid_peers, mode, st.spec_downloaded(), ix, q)
                &&& post_peers.len() == mid_peers.len()
                &&& forall|i: int|
                    0 <= i < mid_peers.len() && i != ix ==> post_peers[i] == mid_peers[i]
                &&& post_peers[ix].id == mid_peers[ix].id
                &&& post_peers[ix].peer == mid_peers[ix].peer
                &&& spec_peer_bits(post_peers[ix]) == spec_peer_bits(mid_peers[ix])
                &&& spec_am_interested(post_peers[ix]) && !spec_peer_choking(post_peers[ix])
                &&& spec_downloading(post_peers[ix]) == Some(p)
                &&& a1 == a0 + spec_block_requests(
                    mid_peers[ix].id,
                    p as u32,
                    st.spec_piece_len(p as int),
                )
            };
        assert(spec_selectable(pre_peers, mode, st.spec_downloaded(), ix, p));
        assert forall|q: usize| q < p implies !spec_selectable(
            pre_peers,
            mode,
            st.spec_downloaded(),
            ix,
            q,
        ) by {
            assert(spec_selectable(mid_peers, mode, st.spec_downloaded(), ix, q)
                == spec_selectable(pre_peers, mode, st.spec_downloaded(), ix, q));
        }
    }
}

/// What a delivered piece does. An unknown peer, or one that was not
/// downloading, changes nothing. A piece already verified is ignored
/// apart from rescheduling the peer. A piece of the wrong length or
/// digest changes no storage and costs the peer its entry, with exactly
/// one Disconnect out. A verified piece lands on disk, its bit is set,
/// and the appended actions open with the exact HAVE/cancel broadcast of
/// [`spec_broadcast_actions`], followed only by scheduler sends.
pub open spec fn spec_downloaded_effect(
    pre: DownloadTorrentState,
    post: DownloadTorrentState,
    peer_id: u64,
    piece: Seq<u8>,
    a0: Seq<DownloadAction>,
    a1: Seq<DownloadAction>,
) -> bool {
    &&& (forall|i: int|
        0 <= i < pre.spec_peers().len() ==> (#[trigger] pre.spec_peers()[i]).id != peer_id)
        ==> spec_state_unchanged(pre, post) && a1 == a0
    &&& forall|ix: int|
        0 <= ix < pre.spec_peers().len() && (#[trigger] pre.spec_peers()[ix]).id == peer_id ==> {
            &&& (!exists|index: usize|
                spec_was_downloading(pre.spec_peers(), peer_id, ix, index))
                ==> spec_state_unchanged(pre, post) && a1 == a0
            &&& forall|index: usize|
                #[trigger] spec_was_downloading(pre.spec_peers(), peer_id, ix, index) ==> {
                    &&& spec_bit(pre.spec_storage().spec_downloaded(), index as int)
                        ==> *post.spec_storage() == *pre.spec_storage() && a1.len() >= a0.len()
                        && a1.subrange(0, a0.len() as int) == a0 && spec_sends_only(
                        a1,
                        a0.len() as int,
                        a1.len() as int,
                    )
                    &&& (!spec_bit(pre.spec_storage().spec_downloaded(), index as int) && (
                    piece.len() != pre.spec_storage().spec_piece_len(index as int)
                        || crate::storage::sha1_of(piece)
                        != pre.spec_storage().spec_digests()[index as int])) ==> {
                        &&& *post.spec_storage() == *pre.spec_storage()
                        &&& forall|i: int|
                            0 <= i < post.spec_peers().len() ==> (#[trigger] post.spec_peers()[i]).id != peer_id
                        &&& a1 == a0.push(DownloadAction::Disconnect { peer_id })
                    }
                    &&& (!spec_bit(pre.spec_storage().spec_downloaded(), index as int)
                        && piece.len() == pre.spec_storage().spec_piece_len(index as int)
                        && crate::storage::sha1_of(piece)
                        == pre.spec_storage().spec_digests()[index as int]) ==> {
                        &&& spec_bit(post.spec_storage().spec_downloaded(), index as int)
                        &&& post.spec_storage().spec_piece_bytes_at(index as int) == piece
                        &&& a1.len() >= a0.len()
                        &&& a1.subrange(0, a0.len() as int) == a0
                        &&& exists|n: int|
                            {
                                &&& a0.len() <= n <= a1.len()
                                &&& a1.subrange(a0.len() as int, n) == spec_broadcast_actions(
                                    pre.spec_peers(),
                                    ix,
                                    index,
                                    pre.spec_peers().len() as int,
                                )
                                &&& spec_sends_only(a1, n, a1.len() as int)
                            }
                    }
                }
        }
}

/// How many of the first `n` peers are connected and unchoked by us.
pub open spec fn spec_unchoked_count(peers: Seq<PeerEntry>, n: int) -> int
    decreases n,
{
    if n <= 0 {
        0
    } else {
        spec_unchoked_count(peers, n - 1) + if peers[n - 1].state is Connected && !spec_am_choking(
            peers[n - 1],
        ) {
            1int
        } else {
            0int
        }
    }
}

/// How many of the first `n` peers are connected.
pub open spec fn spec_connected_count(peers: Seq<PeerEntry>, n: int) -> int
    decreases n,
{
    if n <= 0 {
        0
    } else {
        spec_connected_count(peers, n - 1) + if peers[n - 1].state is Connected {
            1int
        } else {
            0int
        }
    }
}

/// Does any of the first `n` peers have a piece in flight?
pub open spec fn spec_in_flight_upto(peers: Seq<PeerEntry>, n: int) -> bool
    decreases n,
{
    if n <= 0 {
        false
    } else {
        spec_in_flight_upto(peers, n - 1) || spec_downloading(peers[n - 1]) is Some
    }
}

/// Is any of the first `n` pieces missing and assigned to nobody?
pub open spec fn spec_unassigned_missing_upto(
    peers: Seq<PeerEntry>,
    downloaded: Seq<u8>,
    n: int,
) -> bool
    decreases n,
{
    if n <= 0 {
        false
    } else {
        spec_unassigned_missing_upto(peers, downloaded, n - 1) || (!spec_bit(downloaded, n - 1)
            && !spec_assigned_elsewhere(peers, peers.len() as int, (n - 1) as usize))
    }
}

/// Does the download enter end-game: few pieces missing, or a piece in
/// flight while every missing piece is already assigned.
pub open spec fn spec_end_game_due(
    peers: Seq<PeerEntry>,
    downloaded: Seq<u8>,
    count: int,
    missing: int,
) -> bool {
    ||| missing <= (if spec_connected_count(peers, peers.len() as int) / 2 > 1 {
        spec_connected_count(peers, peers.len() as int) / 2
    } else {
        1
    })
    ||| (spec_in_flight_upto(peers, peers.len() as int) && !spec_unassigned_missing_upto(
        peers,
        downloaded,
        count,
    ))
}

/// What a peer's interest does: an unknown or unconnected peer changes
/// nothing; otherwise its interest is noted and it is unchoked exactly
/// when we were choking it and fewer than [`UNCHOKE_SLOTS`] peers are
/// unchoked.
pub open spec fn spec_interested_effect(
    pre: DownloadTorrentState,
    post: DownloadTorrentState,
    peer_id: u64,
    a0: Seq<DownloadAction>,
    a1: Seq<DownloadAction>,
) -> bool {
    &&& (forall|i: int|
        0 <= i < pre.spec_peers().len() ==> (#[trigger] pre.spec_peers()[i]).id != peer_id)
        ==> spec_state_unchanged(pre, post) && a1 == a0
    &&& forall|ix: int|
        0 <= ix < pre.spec_peers().len() && (#[trigger] pre.spec_peers()[ix]).id == peer_id ==> {
            &&& !(pre.spec_peers()[ix].state is Connected) ==> spec_state_unchanged(pre, post)
                && a1 == a0
            &&& pre.spec_peers()[ix].state is Connected ==> {
                &&& post.spec_peers().len() == pre.spec_peers().len()
                &&& forall|i: int|
                    0 <= i < pre.spec_peers().len() && i != ix ==> post.spec_peers()[i]
                        == pre.spec_peers()[i]
                &&& post.spec_peers()[ix].id == peer_id
                &&& post.spec_peers()[ix].peer == pre.spec_peers()[ix].peer
                &&& spec_peer_bits(post.spec_peers()[ix]) == spec_peer_bits(pre.spec_peers()[ix])
                &&& spec_downloading(post.spec_peers()[ix]) == spec_downloading(
                    pre.spec_peers()[ix],
                )
                &&& spec_peer_choking(post.spec_peers()[ix]) == spec_peer_choking(
                    pre.spec_peers()[ix],
                )
                &&& spec_am_interested(post.spec_peers()[ix]) == spec_am_interested(
                    pre.spec_peers()[ix],
                )
                &&& spec_peer_interested(post.spec_peers()[ix])
                &&& (spec_am_choking(pre.spec_peers()[ix]) && spec_unchoked_count(
                    pre.spec_peers(),
                    pre.spec_peers().len() as int,
                ) < UNCHOKE_SLOTS as int) ==> !spec_am_choking(post.spec_peers()[ix]) && a1
                    == a0.push(
                    DownloadAction::Send { peer_id, message: Message::Unchoke },
                )
                &&& !(spec_am_choking(pre.spec_peers()[ix]) && spec_unchoked_count(
                    pre.spec_peers(),
                    pre.spec_peers().len() as int,
                ) < UNCHOKE_SLOTS as int) ==> spec_am_choking(post.spec_peers()[ix])
                    == spec_am_choking(pre.spec_peers()[ix]) && a1 == a0
                &&& *post.spec_storage() == *pre.spec_storage()
                &&& post.spec_mode() == pre.spec_mode()
            }
        }
}

/// Has the peer's download stalled: a piece was assigned at some moment
/// and more than `stall_secs` have passed by `now` with no delivery.
pub open spec fn spec_stalled(e: PeerEntry, now: u64, stall_secs: u64) -> bool {
    match e.state {
        TorrentPeerState::Connected { downloading_since: Some(since), .. } => since <= now && now
            - since > stall_secs,
        _ => false,
    }
}

/// The ids of the stalled peers among the first `n`, in order.
pub open spec fn spec_stalled_ids(peers: Seq<PeerEntry>, n: int, now: u64, stall_secs: u64) -> Seq<
    u64,
>
    decreases n,
{
    if n <= 0 {
        Seq::empty()
    } else {
        spec_stalled_ids(peers, n - 1, now, stall_secs) + (if spec_stalled(
            peers[n - 1],
            now,
            stall_secs,
        ) {
            seq![peers[n - 1].id]
        } else {
            Seq::empty()
        })
    }
}

/// One Disconnect action per id, in order.
pub open spec fn spec_disconnect_actions(ids: Seq<u64>, k: int) -> Seq<DownloadAction>
    decreases k,
{
    if k <= 0 {
        Seq::empty()
    } else {
        spec_disconnect_actions(ids, k - 1).push(
            DownloadAction::Disconnect { peer_id: ids[k - 1] },
        )
    }
}

/// The disconnect list is as long as the id list.
pub proof fn lemma_disconnect_actions_len(ids: Seq<u64>, k: int)
    requires
        0 <= k,
    ensures
        spec_disconnect_actions(ids, k).len() == k,
    decreases k,
{
    if k > 0 {
        lemma_disconnect_actions_len(ids, k - 1);
    }
}

/// Each listed disconnect names its id.
pub proof fn lemma_disconnect_actions_index(ids: Seq<u64>, k: int, m: int)
    requires
        0 <= m < k,
    ensures
        spec_disconnect_actions(ids, k).len() == k,
        spec_disconnect_actions(ids, k)[m] == (DownloadAction::Disconnect { peer_id: ids[m] }),
    decreases k,
{
    lemma_disconnect_actions_len(ids, k);
    lemma_disconnect_actions_len(ids, k - 1);
    if m < k - 1 {
        lemma_disconnect_actions_index(ids, k - 1, m);
    }
}

/// Every listed id is a stalled peer's id.
pub proof fn lemma_stalled_ids_sound(
    peers: Seq<PeerEntry>,
    n: int,
    now: u64,
    stall_secs: u64,
    m: int,
)
    requires
        0 <= n <= peers.len(),
        0 <= m < spec_stalled_ids(peers, n, now, stall_secs).len(),
    ensures
        exists|i: int|
            0 <= i < n && spec_stalled(#[trigger] peers[i], now, stall_secs) && peers[i].id
                == spec_stalled_ids(peers, n, now, stall_secs)[m],
    decreases n,
{
    let ids = spec_stalled_ids(peers, n, now, stall_secs);
    let prev = spec_stalled_ids(peers, n - 1, now, stall_secs);
    if m < prev.len() {
        lemma_stalled_ids_sound(peers, n - 1, now, stall_secs, m);
        assert(ids[m] == prev[m]);
    } else {
        assert(spec_stalled(peers[n - 1], now, stall_secs));
        assert(ids[m] == peers[n - 1].id);
    }
}

/// Every stalled peer's id is listed.
pub proof fn lemma_stalled_ids_complete(
    peers: Seq<PeerEntry>,
    n: int,
    now: u64,
    stall_secs: u64,
    i: int,
)
    requires
        0 <= i < n <= peers.len(),
        spec_stalled(peers[i], now, stall_secs),
    ensures
        exists|m: int|
            0 <= m < spec_stalled_ids(peers, n, now, stall_secs).len()
                && #[trigger] spec_stalled_ids(peers, n, now, stall_secs)[m] == peers[i].id,
    decreases n,
{
    let ids = spec_stalled_ids(peers, n, now, stall_secs);
    let prev = spec_stalled_ids(peers, n - 1, now, stall_secs);
    if i == n - 1 {
        assert(ids[prev.len() as int] == peers[i].id);
    } else {
        lemma_stalled_ids_complete(peers, n - 1, now, stall_secs, i);
        let m = choose|m: int|
            0 <= m < prev.len() && #[trigger] prev[m] == peers[i].id;
        assert(ids[m] == peers[i].id);
    }
}

/// Every entry of the current peer list is an entry of `orig`.
pub open spec fn spec_members_of(cur: Seq<PeerEntry>, orig: Seq<PeerEntry>) -> bool {
    forall|j: int|
        0 <= j < cur.len() ==> exists|i: int| 0 <= i < orig.len() && orig[i] == #[trigger] cur[j]
}

/// Every non-stalled entry of `orig` still stands in the current list.
pub open spec fn spec_survivors_present(
    cur: Seq<PeerEntry>,
    orig: Seq<PeerEntry>,
    now: u64,
    stall_secs: u64,
) -> bool {
    forall|i: int|
        0 <= i < orig.len() && !spec_stalled(#[trigger] orig[i], now, stall_secs) ==> exists|
            j: int,
        |
            0 <= j < cur.len() && cur[j] == orig[i]
}

/// No entry of the current list carries one of the first `k` listed ids.
pub open spec fn spec_none_of_ids(cur: Seq<PeerEntry>, ids: Seq<u64>, k: int) -> bool {
    forall|m: int, j: int|
        0 <= m < k && 0 <= j < cur.len() ==> (#[trigger] cur[j]).id != (#[trigger] ids[m])
}

/// Per-torrent controller state: the known peers, the download mode and
/// the torrent's storage.
pub struct DownloadTorrentState {
    peers: Vec<PeerEntry>,
    mode: TorrentDownloadMode,
    storage: TorrentStorage,
    next_peer_id: u64,
}

impl DownloadTorrentState {
    /// The known peers.
    pub closed spec fn spec_peers(&self) -> Seq<PeerEntry> {
        self.peers@
    }

    /// The download mode.
    pub closed spec fn spec_mode(&self) -> TorrentDownloadMode {
        self.mode
    }

    /// The torrent's storage.
    pub closed spec fn spec_storage(&self) -> &TorrentStorage {
        &self.storage
    }

    /// The next peer id to mint; every known peer's id is below it.
    pub closed spec fn spec_next_peer_id(&self) -> u64 {
        self.next_peer_id
    }

    /// The controller's invariant: the storage is sound, peer ids are
    /// unique and below the next fresh id, every assignment is a real
    /// piece, and in normal mode no piece is assigned twice.
    pub closed spec fn wf(&self) -> bool {
        &&& self.storage.wf()
        &&& self.storage.spec_pieces_count() <= u32::MAX
        &&& spec_ids_unique(self.peers@)
        &&& forall|i: int|
            0 <= i < self.peers@.len() ==> (#[trigger] self.peers@[i]).id < self.next_peer_id
        &&& spec_assignments_in_range(self.peers@, self.storage.spec_pieces_count())
        &&& self.mode == TorrentDownloadMode::Normal ==> spec_assignment_at_most_once(self.peers@)
    }

    /// Builds a controller around a torrent's storage, with no peer known
    /// yet and the download in normal mode.
    pub fn new(storage: TorrentStorage) -> (r: Self)
        requires
            storage.wf(),
            storage.spec_pieces_count() <= u32::MAX,
        ensures
            r.wf(),
            r.spec_peers().len() == 0,
            r.spec_mode() == TorrentDownloadMode::Normal,
            *r.spec_storage() == storage,
    {
        DownloadTorrentState {
            peers: Vec::new(),
            mode: TorrentDownloadMode::Normal,
            storage,
            next_peer_id: 0,
        }
    }

    /// The torrent's storage, for observers.
    pub fn storage(&self) -> (r: &TorrentStorage)
        ensures
            r == self.spec_storage(),
    {
        &self.storage
    }

    /// How many peers the controller knows.
    pub fn peers_count(&self) -> (r: usize)
        ensures
            r == self.spec_peers().len(),
    {
        self.peers.len()
    }

    /// Where peer `peer_id` stands in the peer list.
    fn find_peer(&self, peer_id: u64) -> (r: Option<usize>)
        ensures
            match r {
                Some(ix) => ix < self.peers@.len() && self.peers@[ix as int].id == peer_id,
                None => forall|i: int|
                    0 <= i < self.peers@.len() ==> (#[trigger] self.peers@[i]).id != peer_id,
            },
    {
        let mut i: usize = 0;
        while i < self.peers.len()
            invariant
                i <= self.peers@.len(),
                forall|k: int| 0 <= k < i ==> (#[trigger] self.peers@[k]).id != peer_id,
            decreases self.peers@.len() - i,
        {
            if self.peers[i].id == peer_id {
                return Some(i);
            }
            i = i + 1;
        }
        None
    }

    /// Is this address already a known peer?
    fn knows_address(&self, peer: &Peer) -> (r: bool)
        ensures
            r == exists|i: int|
                0 <= i < self.peers@.len() && (#[trigger] self.peers@[i]).peer == *peer,
    {
        let mut i: usize = 0;
        while i < self.peers.len()
            invariant
                i <= self.peers@.len(),
                forall|k: int| 0 <= k < i ==> (#[trigger] self.peers@[k]).peer != *peer,
            decreases self.peers@.len() - i,
        {
            if peer_addr_equal(&self.peers[i].peer, peer) {
                return true;
            }
            i = i + 1;
        }
        false
    }

    /// A peer was announced: when its address is new, remember it and ask
    /// the loop to open an outbound connection.
    pub fn process_peer_announced(&mut self, peer: Peer, actions: &mut Vec<DownloadAction>)
        requires
            old(self).wf(),
        ensures
            final(self).wf(),
            final(self).spec_mode() == old(self).spec_mode(),
            *final(self).spec_storage() == *old(self).spec_storage(),
            spec_announced_effect(*old(self), *final(self), peer, old(actions)@, final(actions)@),
    {
        if self.knows_address(&peer) {
            return ;
        }
        let peer_id = self.next_peer_id;
        if peer_id == u64::MAX {
            return ;
        }
        self.next_peer_id = peer_id + 1;
        self.peers.push(PeerEntry { id: peer_id, peer, state: TorrentPeerState::Idle });
        let ix = self.peers.len() - 1;
        self.set_state(ix, TorrentPeerState::Connecting);
        actions.push(DownloadAction::Connect { peer_id, peer });
        proof {
            assert(self.peers@ =~= old(self).peers@.push(
                PeerEntry { id: peer_id, peer, state: TorrentPeerState::Connecting },
            ));
        }
    }

    /// A peer list announced by the tracker: remember every address not
    /// yet known and open an outbound connection to each.
    pub fn process_announce(&mut self, peers: Vec<Peer>, actions: &mut Vec<DownloadAction>)
        requires
            old(self).wf(),
        ensures
            final(self).wf(),
            final(self).spec_mode() == old(self).spec_mode(),
            *final(self).spec_storage() == *old(self).spec_storage(),
            spec_announce_effect(*old(self), *final(self), peers@, old(actions)@, final(actions)@),
    {
        let ghost base = *old(self);
        let ghost acts_base = old(actions)@;
        proof {
            assert(actions@.subrange(0, actions@.len() as int) =~= actions@);
        }
        let mut i: usize = 0;
        while i < peers.len()
            invariant
                self.wf(),
                self.spec_mode() == base.spec_mode(),
                *self.spec_storage() == *base.spec_storage(),
                i <= peers@.len(),
                actions@.len() >= acts_base.len(),
                actions@.subrange(0, acts_base.len() as int) == acts_base,
                forall|k: int|
                    acts_base.len() <= k < actions@.len() ==> (#[trigger] actions@[k]) is Connect,
                self.spec_next_peer_id() as int <= base.spec_next_peer_id() as int + i,
                base.spec_next_peer_id() as int + peers@.len() <= u64::MAX as int
                    ==> spec_addresses_known(self.spec_peers(), peers@, i as int),
            decreases peers@.len() - i,
        {
            let ghost pre = *self;
            let ghost acts0 = actions@;
            self.process_peer_announced(peers[i], actions);
            i = i + 1;
            proof {
                assert(acts0.subrange(0, acts_base.len() as int) == acts_base);
                assert(actions@ == acts0 || actions@ == acts0.push(
                    DownloadAction::Connect {
                        peer_id: pre.spec_next_peer_id(),
                        peer: peers@[i - 1],
                    },
                ));
                assert(actions@.subrange(0, acts_base.len() as int) =~= acts_base);
                if base.spec_next_peer_id() as int + peers@.len() <= u64::MAX as int {
                    assert(spec_addresses_known(pre.spec_peers(), peers@, i as int - 1));
                    assert forall|k: int| 0 <= k < i implies exists|e: int|
                        0 <= e < self.spec_peers().len() && (#[trigger] self.spec_peers()[e]).peer
                            == (#[trigger] peers@[k]) by {
                        if k == i - 1 {
                            if exists|e: int|
                                0 <= e < pre.spec_peers().len() && (
                                #[trigger] pre.spec_peers()[e]).peer == peers@[k] {
                                let e = choose|e: int|
                                    0 <= e < pre.spec_peers().len() && (
                                    #[trigger] pre.spec_peers()[e]).peer == peers@[k];
                                assert(self.spec_peers()[e].peer == peers@[k]);
                            } else {
                                assert(pre.spec_next_peer_id() < u64::MAX);
                                assert(self.spec_peers().last().peer == peers@[k]);
                            }
                        } else {
                            let e = choose|e: int|
                                0 <= e < pre.spec_peers().len() && (
                                #[trigger] pre.spec_peers()[e]).peer == peers@[k];
                            assert(self.spec_peers()[e].peer == peers@[k]);
                        }
                    }
                    assert(spec_addresses_known(self.spec_peers(), peers@, i as int));
                }
            }
        }
    }

    /// An outbound connection succeeded and the handshake matched: the
    /// peer is connected, fully choked and uninterested, and is sent our
    /// bitfield.
    pub fn process_peer_connected(&mut self, peer_id: u64, actions: &mut Vec<DownloadAction>)
        requires
            old(self).wf(),
        ensures
            final(self).wf(),
            final(self).spec_mode() == old(self).spec_mode(),
            *final(self).spec_storage() == *old(self).spec_storage(),
            spec_connected_effect(*old(self), *final(self), peer_id, old(actions)@, final(actions)@),
    {
        let ix = match self.find_peer(peer_id) {
            Some(ix) => ix,
            None => {
                return ;
            },
        };
        proof {
            assert forall|i: int|
                0 <= i < self.peers@.len() && (#[trigger] self.peers@[i]).id
                    == peer_id implies i == ix as int by {
                if i != ix as int {
                    assert(self.peers@[i].id != self.peers@[ix as int].id);
                }
            }
        }
        let ghost peers0 = self.peers@;
        self.set_state(
            ix,
            TorrentPeerState::Connected {
                am_choking: true,
                am_interested: false,
                peer_choking: true,
                peer_interested: false,
                pieces: Vec::new(),
                downloading_piece: None,
                downloading_since: None,
                uploading_piece: None,
            },
        );
        proof {
            lemma_entry_update_wf(peers0, self.peers@, ix as int);
        }
        let our_bits = self.storage.downloaded().clone();
        proof {
            assert(our_bits@ =~= self.storage.spec_downloaded());
        }
        actions.push(DownloadAction::Send { peer_id, message: Message::Bitfield(our_bits) });
        proof {
            assert(final(actions)@.subrange(0, old(actions)@.len() as int) =~= old(actions)@);
        }
    }

    /// An inbound connection was forwarded after its handshake matched:
    /// mint a fresh peer id, record the connected peer, and send our
    /// bitfield. Returns the minted id.
    pub fn process_peer_forwarded(&mut self, peer: Peer, actions: &mut Vec<DownloadAction>) -> (r:
        Option<u64>)
        requires
            old(self).wf(),
        ensures
            final(self).wf(),
            final(self).spec_mode() == old(self).spec_mode(),
            *final(self).spec_storage() == *old(self).spec_storage(),
            spec_forwarded_effect(*old(self), *final(self), peer, r, old(actions)@, final(actions)@),
    {
        let peer_id = self.next_peer_id;
        if peer_id == u64::MAX {
            return None;
        }
        self.next_peer_id = peer_id + 1;
        self.peers.push(
            PeerEntry {
                id: peer_id,
                peer,
                state: TorrentPeerState::Connected {
                    am_choking: true,
                    am_interested: false,
                    peer_choking: true,
                    peer_interested: false,
                    pieces: Vec::new(),
                    downloading_piece: None,
                    downloading_since: None,
                    uploading_piece: None,
                },
            },
        );
        let our_bits = self.storage.downloaded().clone();
        proof {
            assert(our_bits@ =~= self.storage.spec_downloaded());
        }
        actions.push(DownloadAction::Send { peer_id, message: Message::Bitfield(our_bits) });
        proof {
            assert(final(actions)@.subrange(0, old(actions)@.len() as int) =~= old(actions)@);
        }
        Some(peer_id)
    }

    /// The peer is gone (its connection failed or closed): forget it.
    pub fn process_peer_disconnect(&mut self, peer_id: u64)
        requires
            old(self).wf(),
        ensures
            final(self).wf(),
            final(self).spec_mode() == old(self).spec_mode(),
            *final(self).spec_storage() == *old(self).spec_storage(),
            forall|i: int|
                0 <= i < final(self).spec_peers().len() ==> (#[trigger] final(self).spec_peers()[i]).id != peer_id,
            spec_disconnect_effect(*old(self), *final(self), peer_id),
    {
        let ix = match self.find_peer(peer_id) {
            Some(ix) => ix,
            None => {
                return ;
            },
        };
        proof {
            assert forall|i: int|
                0 <= i < self.peers@.len() && (#[trigger] self.peers@[i]).id
                    == peer_id implies i == ix as int by {
                if i != ix as int {
                    assert(self.peers@[i].id != self.peers@[ix as int].id);
                }
            }
        }
        let ghost peers0 = self.peers@;
        self.peers.remove(ix);
        proof {
            lemma_entry_remove_wf(peers0, self.peers@, ix as int);
            assert forall|i: int| 0 <= i < self.peers@.len() implies (#[trigger] self.peers@[i]).id
                != peer_id by {
                if i < ix as int {
                    assert(self.peers@[i] == peers0[i]);
                } else {
                    assert(self.peers@[i] == peers0[i + 1]);
                }
            }
        }
    }

    /// The peer sent its bitfield: store it as delivered and declare our
    /// interest, true exactly when the peer holds a piece we lack. A
    /// bitfield too large to index drops the peer.
    pub fn process_peer_pieces(
        &mut self,
        peer_id: u64,
        pieces: Vec<u8>,
        actions: &mut Vec<DownloadAction>,
    )
        requires
            old(self).wf(),
        ensures
            final(self).wf(),
            final(self).spec_mode() == old(self).spec_mode(),
            *final(self).spec_storage() == *old(self).spec_storage(),
            spec_pieces_effect(*old(self), *final(self), peer_id, pieces@, old(actions)@, final(actions)@),
    {
        let ix = match self.find_peer(peer_id) {
            Some(ix) => ix,
            None => {
                return ;
            },
        };
        proof {
            assert forall|i: int|
                0 <= i < self.peers@.len() && (#[trigger] self.peers@[i]).id
                    == peer_id implies i == ix as int by {
                if i != ix as int {
                    assert(self.peers@[i].id != self.peers@[ix as int].id);
                }
            }
        }
        let snapshot = match &self.peers[ix].state {
            TorrentPeerState::Connected {
                am_choking,
                peer_choking,
                peer_interested,
                downloading_piece,
                downloading_since,
                uploading_piece,
                ..
            } => Some(
                (
                    *am_choking,
                    *peer_choking,
                    *peer_interested,
                    *downloading_piece,
                    *downloading_since,
                    *uploading_piece,
                ),
            ),
            _ => None,
        };
        let (am_choking, peer_choking, peer_interested, downloading_piece, downloading_since, uploading_piece) =
            match snapshot {
            Some(fields) => fields,
            None => {
                return ;
            },
        };
        if pieces.len() > usize::MAX / 8 - 1 {
            let ghost peers0 = self.peers@;
            self.peers.remove(ix);
            proof {
                lemma_entry_remove_wf(peers0, self.peers@, ix as int);
            }
            actions.push(DownloadAction::Disconnect { peer_id });
            return ;
        }
        proof {
            assert(pieces@.len() * 8 + 8 <= usize::MAX) by (nonlinear_arith)
                requires
                    pieces@.len() <= usize::MAX / 8 - 1,
                    usize::MAX / 8 - 1 >= 0,
                    (usize::MAX / 8) * 8 <= usize::MAX,
            ;
        }
        let interested = {
            let downloadable = collect_downloadable(&pieces, self.storage.downloaded());
            downloadable.len() > 0
        };
        let new_state = TorrentPeerState::Connected {
            am_choking,
            am_interested: interested,
            peer_choking,
            peer_interested,
            pieces,
            downloading_piece,
            downloading_since,
            uploading_piece,
        };
        let ghost peers0 = self.peers@;
        self.set_state(ix, new_state);
        proof {
            lemma_entry_update_wf(peers0, self.peers@, ix as int);
        }
        let message = if interested {
            Message::Interested
        } else {
            Message::NotInterested
        };
        actions.push(DownloadAction::Send { peer_id, message });
        proof {
            assert(final(actions)@.subrange(0, old(actions)@.len() as int) =~= old(actions)@);
        }
    }

    /// The peer announced one more piece: set its bit in the stored
    /// bitfield (a bit beyond the stored bitfield is ignored) and renew
    /// our interest, with a message out when it changed.
    pub fn process_peer_piece(
        &mut self,
        peer_id: u64,
        piece: usize,
        actions: &mut Vec<DownloadAction>,
    )
        requires
            old(self).wf(),
        ensures
            final(self).wf(),
            final(self).spec_mode() == old(self).spec_mode(),
            *final(self).spec_storage() == *old(self).spec_storage(),
            spec_piece_effect(*old(self), *final(self), peer_id, piece, old(actions)@, final(actions)@),
    {
        let ix = match self.find_peer(peer_id) {
            Some(ix) => ix,
            None => {
                return ;
            },
        };
        proof {
            assert forall|i: int|
                0 <= i < self.peers@.len() && (#[trigger] self.peers@[i]).id
                    == peer_id implies i == ix as int by {
                if i != ix as int {
                    assert(self.peers@[i].id != self.peers@[ix as int].id);
                }
            }
        }
        let ghost bits0 = spec_peer_bits(self.peers@[ix as int]);
        let snapshot = match &self.peers[ix].state {
            TorrentPeerState::Connected {
                am_choking,
                am_interested,
                peer_choking,
                peer_interested,
                pieces,
                downloading_piece,
                downloading_since,
                uploading_piece,
            } => Some(
                (
                    *am_choking,
                    *am_interested,
                    *peer_choking,
                    *peer_interested,
                    pieces.clone(),
                    *downloading_piece,
                    *downloading_since,
                    *uploading_piece,
                ),
            ),
            _ => None,
        };
        let (am_choking, was_interested, peer_choking, peer_interested, mut bits, downloading_piece, downloading_since, uploading_piece) =
            match snapshot {
            Some(fields) => fields,
            None => {
                return ;
            },
        };
        proof {
            assert(bits@ =~= bits0);
        }
        if bits.len() > usize::MAX / 8 - 1 {
            return ;
        }
        if piece / 8 < bits.len() {
            set_bit(&mut bits, piece);
        }
        proof {
            assert(bits@.len() * 8 + 8 <= usize::MAX) by (nonlinear_arith)
                requires
                    bits@.len() <= usize::MAX / 8 - 1,
                    usize::MAX / 8 - 1 >= 0,
                    (usize::MAX / 8) * 8 <= usize::MAX,
            ;
        }
        let interested = {
            let downloadable = collect_downloadable(&bits, self.storage.downloaded());
            downloadable.len() > 0
        };
        let new_state = TorrentPeerState::Connected {
            am_choking,
            am_interested: interested,
            peer_choking,
            peer_interested,
            pieces: bits,
            downloading_piece,
            downloading_since,
            uploading_piece,
        };
        let ghost peers0 = self.peers@;
        self.set_state(ix, new_state);
        proof {
            lemma_entry_update_wf(peers0, self.peers@, ix as int);
        }
        if interested != was_interested {
            let message = if interested {
                Message::Interested
            } else {
                Message::NotInterested
            };
            actions.push(DownloadAction::Send { peer_id, message });
            proof {
                assert(final(actions)@.subrange(0, old(actions)@.len() as int) =~= old(actions)@);
            }
        }
    }

    /// Is piece `p` currently assigned to a peer other than the one at
    /// `ix`?
    fn piece_assigned_to_other(&self, ix: usize, p: usize) -> (r: bool)
        ensures
            r == spec_assigned_elsewhere(self.peers@, ix as int, p),
    {
        let mut j: usize = 0;
        while j < self.peers.len()
            invariant
                j <= self.peers@.len(),
                forall|k: int|
                    0 <= k < j && k != ix as int ==> spec_downloading(#[trigger] self.peers@[k])
                        != Some(p),
            decreases self.peers@.len() - j,
        {
            if j != ix {
                match &self.peers[j].state {
                    TorrentPeerState::Connected { downloading_piece: Some(q), .. } => {
                        if *q == p {
                            return true;
                        }
                    },
                    _ => {},
                }
            }
            j = j + 1;
        }
        false
    }

    /// The lowest-indexed piece the peer at `ix` holds, we lack, and (in
    /// normal mode) nobody else is downloading.
    fn select_piece(&self, ix: usize) -> (r: Option<usize>)
        requires
            self.wf(),
            ix < self.spec_peers().len(),
        ensures
            match r {
                Some(p) => {
                    &&& (p as int) < self.spec_storage().spec_pieces_count()
                    &&& spec_selectable(
                        self.spec_peers(),
                        self.spec_mode(),
                        self.spec_storage().spec_downloaded(),
                        ix as int,
                        p,
                    )
                    &&& forall|q: usize|
                        q < p ==> !spec_selectable(
                            self.spec_peers(),
                            self.spec_mode(),
                            self.spec_storage().spec_downloaded(),
                            ix as int,
                            q,
                        )
                },
                None => forall|q: usize|
                    (q as int) < self.spec_storage().spec_pieces_count() ==> !spec_selectable(
                        self.spec_peers(),
                        self.spec_mode(),
                        self.spec_storage().spec_downloaded(),
                        ix as int,
                        q,
                    ),
            },
    {
        let count = self.storage.pieces_count();
        let mut p: usize = 0;
        while p < count
            invariant
                self.wf(),
                ix < self.spec_peers().len(),
                count as int == self.spec_storage().spec_pieces_count(),
                p <= count,
                forall|q: usize|
                    q < p ==> !spec_selectable(
                        self.spec_peers(),
                        self.spec_mode(),
                        self.spec_storage().spec_downloaded(),
                        ix as int,
                        q,
                    ),
            decreases count - p,
        {
            let peer_has = match &self.peers[ix].state {
                TorrentPeerState::Connected { pieces, .. } => bit_by_index(
                    p,
                    pieces.as_slice(),
                ).is_some(),
                _ => false,
            };
            if peer_has {
                let we_lack = bit_by_index(p, self.storage.downloaded().as_slice()).is_none();
                if we_lack {
                    let free = match self.mode {
                        TorrentDownloadMode::EndGame => true,
                        TorrentDownloadMode::Normal => !self.piece_assigned_to_other(ix, p),
                    };
                    if free {
                        return Some(p);
                    }
                }
            }
            p = p + 1;
        }
        None
    }

    /// Queues the block-level requests that cover piece `piece` of length
    /// `piece_len`, in order, each asking for `BLOCK_SIZE` bytes but the
    /// last. Appends nothing else.
    fn push_block_requests(
        &self,
        actions: &mut Vec<DownloadAction>,
        peer_id: u64,
        piece: u32,
        piece_len: usize,
    )
        requires
            1 <= piece_len <= u32::MAX,
        ensures
            final(actions)@.len() == old(actions)@.len() + crate::spec_count_parts(
                piece_len as int,
                crate::BLOCK_SIZE as int,
            ),
            forall|k: int|
                0 <= k < old(actions)@.len() ==> final(actions)@[k] == old(actions)@[k],
            forall|k: int|
                old(actions)@.len() <= k < final(actions)@.len() ==> #[trigger] final(actions)@[k]
                    == spec_block_request(peer_id, piece, piece_len as int, k - old(actions)@.len()),
    {
        let blocks_count = crate::count_parts(piece_len, crate::BLOCK_SIZE);
        let ghost len0 = actions@.len();
        let mut b: usize = 0;
        while b < blocks_count
            invariant
                1 <= piece_len <= u32::MAX,
                blocks_count as int == crate::spec_count_parts(
                    piece_len as int,
                    crate::BLOCK_SIZE as int,
                ),
                b <= blocks_count,
                actions@.len() == len0 + b,
                forall|k: int| 0 <= k < len0 ==> actions@[k] == old(actions)@[k],
                forall|k: int|
                    len0 <= k < actions@.len() ==> #[trigger] actions@[k] == spec_block_request(
                        peer_id,
                        piece,
                        piece_len as int,
                        k - len0,
                    ),
            decreases blocks_count - b,
        {
            proof {
                lemma_block_bounds(piece_len as int, blocks_count as int, b as int);
            }
            let begin = b * crate::BLOCK_SIZE;
            let length = if piece_len - begin < crate::BLOCK_SIZE {
                piece_len - begin
            } else {
                crate::BLOCK_SIZE
            };
            actions.push(
                DownloadAction::Send {
                    peer_id,
                    message: Message::Request {
                        index: piece,
                        begin: begin as u32,
                        length: length as u32,
                    },
                },
            );
            b = b + 1;
        }
    }

    /// Picks the next piece for the peer at `ix` and queues the requests
    /// that cover it (only when we are interested and the peer does not
    /// choke us). A peer with nothing useful left is told we lost
    /// interest. Appends no `Have` message.
    fn schedule_peer(&mut self, ix: usize, now: u64, actions: &mut Vec<DownloadAction>)
        requires
            old(self).wf(),
            ix < old(self).spec_peers().len(),
        ensures
            final(self).wf(),
            final(self).spec_mode() == old(self).spec_mode(),
            *final(self).spec_storage() == *old(self).spec_storage(),
            final(self).spec_peers().len() == old(self).spec_peers().len(),
            final(self).spec_next_peer_id() == old(self).spec_next_peer_id(),
            forall|i: int|
                0 <= i < old(self).spec_peers().len() && i != ix as int ==> final(self).spec_peers()[i] == old(self).spec_peers()[i],
            final(self).spec_peers()[ix as int].id == old(self).spec_peers()[ix as int].id,
            final(self).spec_peers()[ix as int].peer == old(self).spec_peers()[ix as int].peer,
            spec_peer_bits(final(self).spec_peers()[ix as int]) == spec_peer_bits(
                old(self).spec_peers()[ix as int],
            ),
            spec_peer_choking(final(self).spec_peers()[ix as int]) == spec_peer_choking(
                old(self).spec_peers()[ix as int],
            ),
            spec_peer_interested(final(self).spec_peers()[ix as int]) == spec_peer_interested(
                old(self).spec_peers()[ix as int],
            ),
            forall|k: int|
                0 <= k < old(actions)@.len() ==> final(actions)@[k] == old(actions)@[k],
            final(actions)@.len() >= old(actions)@.len(),
            spec_sends_only(final(actions)@, old(actions)@.len() as int, final(actions)@.len() as int),
            // a request goes out only when the peer does not choke us
            // and we are interested
            forall|k: int, id: u64|
                old(actions)@.len() <= k < final(actions)@.len() && #[trigger] spec_is_request_to(
                    final(actions)@[k],
                    id,
                ) ==> !spec_peer_choking(old(self).spec_peers()[ix as int]) && spec_am_interested(
                    old(self).spec_peers()[ix as int],
                ),
            spec_schedule_effect(
                old(self).spec_peers(),
                final(self).spec_peers(),
                old(self).spec_mode(),
                *old(self).spec_storage(),
                ix as int,
                now,
                old(actions)@,
                final(actions)@,
            ),
    {
        let snapshot = match &self.peers[ix].state {
            TorrentPeerState::Connected {
                am_choking,
                am_interested,
                peer_choking,
                peer_interested,
                pieces,
                downloading_piece,
                downloading_since,
                uploading_piece,
            } => Some(
                (
                    *am_choking,
                    *am_interested,
                    *peer_choking,
                    *peer_interested,
                    pieces.clone(),
                    *downloading_piece,
                    *downloading_since,
                    *uploading_piece,
                ),
            ),
            _ => None,
        };
        let (am_choking, am_interested, peer_choking, peer_interested, bits, downloading_piece, _, uploading_piece) =
            match snapshot {
            Some(fields) => fields,
            None => {
                return ;
            },
        };
        if peer_choking || !am_interested {
            return ;
        }
        if downloading_piece.is_some() {
            return ;
        }
        match self.select_piece(ix) {
            Some(piece) => {
                let ghost peers0 = self.peers@;
                self.set_state(
                    ix,
                    TorrentPeerState::Connected {
                        am_choking,
                        am_interested,
                        peer_choking,
                        peer_interested,
                        pieces: bits,
                        downloading_piece: Some(piece),
                        downloading_since: Some(now),
                        uploading_piece,
                    },
                );
                proof {
                    lemma_assign_fresh_wf(peers0, self.peers@, ix as int, piece);
                }
                let piece_len = self.storage.piece_len(piece);
                let peer_id = self.peers[ix].id;
                self.push_block_requests(actions, peer_id, piece as u32, piece_len);
                proof {
                    assert(final(actions)@ =~= old(actions)@ + spec_block_requests(
                        old(self).spec_peers()[ix as int].id,
                        piece as u32,
                        old(self).spec_storage().spec_piece_len(piece as int),
                    ));
                }
            },
            None => {
                let useful = self.has_useful_piece(ix);
                if !useful {
                    let ghost peers0 = self.peers@;
                    self.set_state(
                        ix,
                        TorrentPeerState::Connected {
                            am_choking,
                            am_interested: false,
                            peer_choking,
                            peer_interested,
                            pieces: bits,
                            downloading_piece: None,
                            downloading_since: None,
                            uploading_piece,
                        },
                    );
                    proof {
                        lemma_entry_update_wf(peers0, self.peers@, ix as int);
                    }
                    let peer_id = self.peers[ix].id;
                    actions.push(
                        DownloadAction::Send { peer_id, message: Message::NotInterested },
                    );
                }
            },
        }
    }

    /// Does the peer at `ix` hold any piece of the torrent that we lack?
    fn has_useful_piece(&self, ix: usize) -> (r: bool)
        requires
            self.wf(),
            ix < self.spec_peers().len(),
        ensures
            r == spec_useful_in_range(
                self.spec_peers(),
                ix as int,
                self.spec_storage().spec_downloaded(),
                self.spec_storage().spec_pieces_count(),
            ),
    {
        let count = self.storage.pieces_count();
        let mut p: usize = 0;
        while p < count
            invariant
                self.wf(),
                ix < self.spec_peers().len(),
                count as int == self.spec_storage().spec_pieces_count(),
                p <= count,
                forall|q: usize|
                    q < p ==> !(#[trigger] spec_bit(
                        spec_peer_bits(self.spec_peers()[ix as int]),
                        q as int,
                    ) && !spec_bit(self.spec_storage().spec_downloaded(), q as int)),
            decreases count - p,
        {
            let peer_has = match &self.peers[ix].state {
                TorrentPeerState::Connected { pieces, .. } => bit_by_index(
                    p,
                    pieces.as_slice(),
                ).is_some(),
                _ => false,
            };
            if peer_has && bit_by_index(p, self.storage.downloaded().as_slice()).is_none() {
                return true;
            }
            p = p + 1;
        }
        false
    }

    /// The peer unchoked us: note it and, when we are interested, start
    /// downloading the next piece.
    pub fn process_peer_unchoke(&mut self, peer_id: u64, now: u64, actions: &mut Vec<
        DownloadAction,
    >)
        requires
            old(self).wf(),
        ensures
            final(self).wf(),
            final(self).spec_mode() == old(self).spec_mode(),
            *final(self).spec_storage() == *old(self).spec_storage(),
            spec_unchoke_effect(*old(self), *final(self), peer_id, now, old(actions)@, final(actions)@),
    {
        let ix = match self.find_peer(peer_id) {
            Some(ix) => ix,
            None => {
                return ;
            },
        };
        let snapshot = match &self.peers[ix].state {
            TorrentPeerState::Connected {
                am_choking,
                am_interested,
                peer_interested,
                pieces,
                downloading_piece,
                downloading_since,
                uploading_piece,
                ..
            } => Some(
                (
                    *am_choking,
                    *am_interested,
                    *peer_interested,
                    pieces.clone(),
                    *downloading_piece,
                    *downloading_since,
                    *uploading_piece,
                ),
            ),
            _ => None,
        };
        proof {
            assert forall|i: int|
                0 <= i < self.peers@.len() && (#[trigger] self.peers@[i]).id
                    == peer_id implies i == ix as int by {
                if i != ix as int {
                    assert(self.peers@[i].id != self.peers@[ix as int].id);
                }
            }
        }
        let ghost bits0 = spec_peer_bits(self.peers@[ix as int]);
        if let Some(
            (am_choking, am_interested, peer_interested, bits, downloading_piece, downloading_since, uploading_piece),
        ) = snapshot {
            proof {
                assert(bits@ =~= bits0);
            }
            let ghost peers0 = self.peers@;
            self.set_state(
                ix,
                TorrentPeerState::Connected {
                    am_choking,
                    am_interested,
                    peer_choking: false,
                    peer_interested,
                    pieces: bits,
                    downloading_piece,
                    downloading_since,
                    uploading_piece,
                },
            );
            proof {
                lemma_entry_update_wf(peers0, self.peers@, ix as int);
            }
            let ghost peers_mid = self.peers@;
            let ghost acts0 = actions@;
            self.schedule_peer(ix, now, actions);
            proof {
                let pre = *old(self);
                if am_interested && downloading_piece is None {
                    lemma_reschedule_bridge(
                        pre.spec_peers(),
                        peers_mid,
                        self.peers@,
                        pre.spec_mode(),
                        *pre.spec_storage(),
                        ix as int,
                        now,
                        peer_id,
                        acts0,
                        actions@,
                    );
                }
                assert forall|ix0: int|
                    0 <= ix0 < pre.spec_peers().len() && (#[trigger] pre.spec_peers()[ix0]).id
                        == peer_id implies ix0 == ix as int by {
                    if ix0 != ix as int {
                        assert(pre.spec_peers()[ix0].id != pre.spec_peers()[ix as int].id);
                    }
                }
                assert(spec_peer_bits(self.peers@[ix as int]) == bits0);
                assert(spec_unchoke_effect(pre, *self, peer_id, now, old(actions)@, actions@));
            }
        }
    }

    /// The peer wants our pieces: note it, and unchoke it while fewer
    /// than [`UNCHOKE_SLOTS`] peers are unchoked.
    pub fn process_peer_interested(&mut self, peer_id: u64, actions: &mut Vec<DownloadAction>)
        requires
            old(self).wf(),
        ensures
            final(self).wf(),
            final(self).spec_mode() == old(self).spec_mode(),
            *final(self).spec_storage() == *old(self).spec_storage(),
            spec_interested_effect(*old(self), *final(self), peer_id, old(actions)@, final(actions)@),
    {
        let ix = match self.find_peer(peer_id) {
            Some(ix) => ix,
            None => {
                return ;
            },
        };
        proof {
            assert forall|i: int|
                0 <= i < self.peers@.len() && (#[trigger] self.peers@[i]).id
                    == peer_id implies i == ix as int by {
                if i != ix as int {
                    assert(self.peers@[i].id != self.peers@[ix as int].id);
                }
            }
        }
        let mut unchoked: usize = 0;
        let mut j: usize = 0;
        while j < self.peers.len()
            invariant
                j <= self.peers@.len(),
                unchoked <= j,
                unchoked as int == spec_unchoked_count(self.peers@, j as int),
            decreases self.peers@.len() - j,
        {
            match &self.peers[j].state {
                TorrentPeerState::Connected { am_choking: false, .. } => {
                    unchoked = unchoked + 1;
                },
                _ => {},
            }
            j = j + 1;
        }
        let snapshot = match &self.peers[ix].state {
            TorrentPeerState::Connected {
                am_choking,
                am_interested,
                peer_choking,
                pieces,
                downloading_piece,
                downloading_since,
                uploading_piece,
                ..
            } => Some(
                (
                    *am_choking,
                    *am_interested,
                    *peer_choking,
                    pieces.clone(),
                    *downloading_piece,
                    *downloading_since,
                    *uploading_piece,
                ),
            ),
            _ => None,
        };
        if let Some(
            (am_choking, am_interested, peer_choking, bits, downloading_piece, downloading_since, uploading_piece),
        ) = snapshot {
            let unchoke_now = am_choking && unchoked < UNCHOKE_SLOTS;
            let ghost peers0 = self.peers@;
            self.set_state(
                ix,
                TorrentPeerState::Connected {
                    am_choking: !unchoke_now && am_choking,
                    am_interested,
                    peer_choking,
                    peer_interested: true,
                    pieces: bits,
                    downloading_piece,
                    downloading_since,
                    uploading_piece,
                },
            );
            proof {
                lemma_entry_update_wf(peers0, self.peers@, ix as int);
            }
            if unchoke_now {
                actions.push(DownloadAction::Send { peer_id, message: Message::Unchoke });
                proof {
                    assert(final(actions)@ =~= old(actions)@.push(
                        DownloadAction::Send { peer_id, message: Message::Unchoke },
                    ));
                }
            }
        }
    }

    /// The peer canceled the piece it was downloading: free the piece and
    /// look for the next one.
    pub fn process_peer_piece_canceled(&mut self, peer_id: u64, now: u64, actions: &mut Vec<
        DownloadAction,
    >)
        requires
            old(self).wf(),
        ensures
            final(self).wf(),
            final(self).spec_mode() == old(self).spec_mode(),
            *final(self).spec_storage() == *old(self).spec_storage(),
            spec_canceled_effect(*old(self), *final(self), peer_id, now, old(actions)@, final(actions)@),
    {
        let ix = match self.find_peer(peer_id) {
            Some(ix) => ix,
            None => {
                return ;
            },
        };
        proof {
            assert forall|i: int|
                0 <= i < self.peers@.len() && (#[trigger] self.peers@[i]).id
                    == peer_id implies i == ix as int by {
                if i != ix as int {
                    assert(self.peers@[i].id != self.peers@[ix as int].id);
                }
            }
        }
        self.clear_downloading(ix);
        let ghost peers_mid = self.peers@;
        let ghost acts0 = actions@;
        self.schedule_peer(ix, now, actions);
        proof {
            let pre = *old(self);
            let post = self.peers@;
            let count = pre.spec_storage().spec_pieces_count();
            let downloaded = pre.spec_storage().spec_downloaded();
            assert(acts0 == old(actions)@);
            if pre.spec_peers()[ix as int].state is Connected {
                lemma_selection_invariant(
                    pre.spec_peers(),
                    peers_mid,
                    ix as int,
                    pre.spec_mode(),
                    downloaded,
                    count,
                );
                assert(post.len() == pre.spec_peers().len());
                assert(forall|i: int|
                    0 <= i < pre.spec_peers().len() && i != ix as int ==> post[i]
                        == pre.spec_peers()[i]);
                assert(post[ix as int].id == peer_id);
                assert(spec_peer_bits(post[ix as int]) == spec_peer_bits(
                    pre.spec_peers()[ix as int],
                ));
                assert(spec_peer_choking(post[ix as int]) == spec_peer_choking(
                    pre.spec_peers()[ix as int],
                ));
                if spec_am_interested(pre.spec_peers()[ix as int]) && !spec_peer_choking(
                    pre.spec_peers()[ix as int],
                ) {
                    lemma_reschedule_bridge(
                        pre.spec_peers(),
                        peers_mid,
                        post,
                        pre.spec_mode(),
                        *pre.spec_storage(),
                        ix as int,
                        now,
                        peer_id,
                        acts0,
                        actions@,
                    );
                    assert(spec_reschedule_outcome(
                        pre.spec_peers(),
                        post,
                        pre.spec_mode(),
                        *pre.spec_storage(),
                        ix as int,
                        peer_id,
                        old(actions)@,
                        actions@,
                    ));
                } else {
                    assert(post == peers_mid);
                    assert(actions@ == acts0);
                    assert(spec_downloading(post[ix as int]) is None);
                }
            } else {
                assert(spec_state_unchanged(pre, *self));
                assert(actions@ == old(actions)@);
            }
            assert forall|ix0: int|
                0 <= ix0 < pre.spec_peers().len() && (#[trigger] pre.spec_peers()[ix0]).id
                    == peer_id implies ix0 == ix as int by {
                if ix0 != ix as int {
                    assert(pre.spec_peers()[ix0].id != pre.spec_peers()[ix as int].id);
                }
            }
            assert(spec_canceled_effect(pre, *self, peer_id, now, old(actions)@, actions@));
        }
    }

    /// Clears the downloading assignment of the peer at `ix`.
    fn clear_downloading(&mut self, ix: usize)
        requires
            old(self).wf(),
            ix < old(self).spec_peers().len(),
        ensures
            final(self).wf(),
            final(self).spec_mode() == old(self).spec_mode(),
            *final(self).spec_storage() == *old(self).spec_storage(),
            final(self).spec_peers().len() == old(self).spec_peers().len(),
            final(self).spec_next_peer_id() == old(self).spec_next_peer_id(),
            forall|i: int|
                0 <= i < final(self).spec_peers().len() ==> (#[trigger] final(self).spec_peers()[i]).id == old(self).spec_peers()[i].id,
            spec_downloading(final(self).spec_peers()[ix as int]) is None,
            forall|i: int|
                0 <= i < final(self).spec_peers().len() && i != ix as int ==> #[trigger] final(self).spec_peers()[i] == old(self).spec_peers()[i],
            final(self).spec_peers()[ix as int].peer == old(self).spec_peers()[ix as int].peer,
            spec_peer_bits(final(self).spec_peers()[ix as int]) == spec_peer_bits(
                old(self).spec_peers()[ix as int],
            ),
            spec_peer_choking(final(self).spec_peers()[ix as int]) == spec_peer_choking(
                old(self).spec_peers()[ix as int],
            ),
            spec_am_interested(final(self).spec_peers()[ix as int]) == spec_am_interested(
                old(self).spec_peers()[ix as int],
            ),
            spec_peer_interested(final(self).spec_peers()[ix as int]) == spec_peer_interested(
                old(self).spec_peers()[ix as int],
            ),
            old(self).spec_peers()[ix as int].state is Connected ==> final(self).spec_peers()[
                ix as int].state is Connected,
            !(old(self).spec_peers()[ix as int].state is Connected) ==> *final(self) == *old(self),
    {
        let ghost bits0 = spec_peer_bits(self.peers@[ix as int]);
        let snapshot = match &self.peers[ix].state {
            TorrentPeerState::Connected {
                am_choking,
                am_interested,
                peer_choking,
                peer_interested,
                pieces,
                downloading_since,
                uploading_piece,
                ..
            } => Some(
                (
                    *am_choking,
                    *am_interested,
                    *peer_choking,
                    *peer_interested,
                    pieces.clone(),
                    *downloading_since,
                    *uploading_piece,
                ),
            ),
            _ => None,
        };
        if let Some(
            (am_choking, am_interested, peer_choking, peer_interested, bits, _, uploading_piece),
        ) = snapshot {
            proof {
                assert(bits@ =~= bits0);
            }
            let ghost peers0 = self.peers@;
            self.set_state(
                ix,
                TorrentPeerState::Connected {
                    am_choking,
                    am_interested,
                    peer_choking,
                    peer_interested,
                    pieces: bits,
                    downloading_piece: None,
                    downloading_since: None,
                    uploading_piece,
                },
            );
            proof {
                lemma_entry_update_wf(peers0, self.peers@, ix as int);
            }
        }
    }

    /// The peer asked for a block: read it back from storage, send it,
    /// and note the upload. A request outside the torrent is ignored.
    /// Every block sent holds exactly the stored bytes of the piece.
    pub fn process_peer_piece_request(
        &mut self,
        peer_id: u64,
        index: u32,
        begin: u32,
        length: u32,
        actions: &mut Vec<DownloadAction>,
    )
        requires
            old(self).wf(),
        ensures
            final(self).wf(),
            final(self).spec_mode() == old(self).spec_mode(),
            final(self).spec_storage().spec_files_data() == old(self).spec_storage().spec_files_data(),
            final(self).spec_storage().spec_downloaded() == old(self).spec_storage().spec_downloaded(),
            spec_request_effect(
                *old(self),
                *final(self),
                peer_id,
                index,
                begin,
                length,
                old(actions)@,
                final(actions)@,
            ),
    {
        let ix = match self.find_peer(peer_id) {
            Some(ix) => ix,
            None => {
                return ;
            },
        };
        proof {
            assert forall|i: int|
                0 <= i < self.peers@.len() && (#[trigger] self.peers@[i]).id
                    == peer_id implies i == ix as int by {
                if i != ix as int {
                    assert(self.peers@[i].id != self.peers@[ix as int].id);
                }
            }
        }
        let connected = match &self.peers[ix].state {
            TorrentPeerState::Connected { .. } => true,
            _ => false,
        };
        if !connected {
            return ;
        }
        let block = match self.storage.load(index as usize, begin, length) {
            Ok(block) => block,
            Err(_) => {
                return ;
            },
        };
        let snapshot = match &self.peers[ix].state {
            TorrentPeerState::Connected {
                am_choking,
                am_interested,
                peer_choking,
                peer_interested,
                pieces,
                downloading_piece,
                downloading_since,
                ..
            } => Some(
                (
                    *am_choking,
                    *am_interested,
                    *peer_choking,
                    *peer_interested,
                    pieces.clone(),
                    *downloading_piece,
                    *downloading_since,
                ),
            ),
            _ => None,
        };
        if let Some(
            (am_choking, am_interested, peer_choking, peer_interested, bits, downloading_piece, downloading_since),
        ) = snapshot {
            let ghost peers0 = self.peers@;
            self.set_state(
                ix,
                TorrentPeerState::Connected {
                    am_choking,
                    am_interested,
                    peer_choking,
                    peer_interested,
                    pieces: bits,
                    downloading_piece,
                    downloading_since,
                    uploading_piece: Some((index, begin, length)),
                },
            );
            proof {
                lemma_entry_update_wf(peers0, self.peers@, ix as int);
            }
            actions.push(
                DownloadAction::Send { peer_id, message: Message::Piece { index, begin, block } },
            );
            proof {
                assert(final(actions)@.subrange(0, old(actions)@.len() as int) =~= old(actions)@);
            }
        }
    }

    /// Tells every other connected peer that lacks piece `index` about it
    /// (each exactly once), and cancels the piece at every other peer
    /// still downloading it. Appends exactly the broadcast actions.
    pub fn broadcast_have(&self, ix: usize, index: usize, actions: &mut Vec<DownloadAction>)
        requires
            self.wf(),
            index <= u32::MAX,
        ensures
            final(actions)@ == old(actions)@ + spec_broadcast_actions(
                self.spec_peers(),
                ix as int,
                index,
                self.spec_peers().len() as int,
            ),
    {
        let ghost len0 = actions@.len();
        proof {
            assert(actions@ =~= old(actions)@ + spec_broadcast_actions(
                self.spec_peers(),
                ix as int,
                index,
                0,
            ));
        }
        let mut j: usize = 0;
        while j < self.peers.len()
            invariant
                self.wf(),
                index <= u32::MAX,
                j <= self.peers@.len(),
                actions@ == old(actions)@ + spec_broadcast_actions(
                    self.spec_peers(),
                    ix as int,
                    index,
                    j as int,
                ),
            decreases self.peers@.len() - j,
        {
            let ghost before = actions@;
            if j != ix {
                let peer_id = self.peers[j].id;
                match &self.peers[j].state {
                    TorrentPeerState::Connected { pieces, downloading_piece, .. } => {
                        let already_has = bit_by_index(index, pieces.as_slice()).is_some();
                        if !already_has {
                            actions.push(
                                DownloadAction::Send {
                                    peer_id,
                                    message: Message::Have(index as u32),
                                },
                            );
                        }
                        let same_piece = match downloading_piece {
                            Some(q) => *q == index,
                            None => false,
                        };
                        if same_piece {
                            actions.push(DownloadAction::CancelPiece { peer_id, piece: index });
                        }
                    },
                    _ => {},
                }
            }
            j = j + 1;
            proof {
                assert(actions@ =~= old(actions)@ + spec_broadcast_actions(
                    self.spec_peers(),
                    ix as int,
                    index,
                    j as int,
                ));
            }
        }
    }

    /// Switches to end-game mode once few pieces are missing or every
    /// missing piece is already being downloaded; end-game mode is never
    /// left.
    pub fn determine_download_mode(&mut self)
        requires
            old(self).wf(),
        ensures
            final(self).wf(),
            final(self).spec_peers() == old(self).spec_peers(),
            *final(self).spec_storage() == *old(self).spec_storage(),
            final(self).spec_next_peer_id() == old(self).spec_next_peer_id(),
            old(self).spec_mode() is EndGame ==> final(self).spec_mode() is EndGame,
            old(self).spec_mode() is Normal ==> final(self).spec_mode() == (
            if spec_end_game_due(
                old(self).spec_peers(),
                old(self).spec_storage().spec_downloaded(),
                old(self).spec_storage().spec_pieces_count(),
                crate::storage::spec_missing_count(
                    old(self).spec_storage().spec_downloaded(),
                    old(self).spec_storage().spec_pieces_count(),
                ),
            ) {
                TorrentDownloadMode::EndGame
            } else {
                TorrentDownloadMode::Normal
            }),
    {
        if let TorrentDownloadMode::EndGame = self.mode {
            return ;
        }
        let missing = self.storage.pieces_left();
        let mut connected: usize = 0;
        let mut in_flight = false;
        let mut j: usize = 0;
        while j < self.peers.len()
            invariant
                j <= self.peers@.len(),
                connected <= j,
                connected as int == spec_connected_count(self.peers@, j as int),
                in_flight == spec_in_flight_upto(self.peers@, j as int),
            decreases self.peers@.len() - j,
        {
            match &self.peers[j].state {
                TorrentPeerState::Connected { downloading_piece, .. } => {
                    connected = connected + 1;
                    if downloading_piece.is_some() {
                        in_flight = true;
                    }
                },
                _ => {},
            }
            j = j + 1;
        }
        let threshold = if connected / 2 > 1 {
            connected / 2
        } else {
            1
        };
        if missing <= threshold {
            self.mode = TorrentDownloadMode::EndGame;
            return ;
        }
        if !in_flight {
            return ;
        }
        let count = self.storage.pieces_count();
        let mut p: usize = 0;
        let mut unassigned_missing = false;
        while p < count
            invariant
                self.wf(),
                count as int == self.spec_storage().spec_pieces_count(),
                p <= count,
                unassigned_missing == spec_unassigned_missing_upto(
                    self.peers@,
                    self.spec_storage().spec_downloaded(),
                    p as int,
                ),
            decreases count - p,
        {
            if bit_by_index(p, self.storage.downloaded().as_slice()).is_none() {
                if !self.piece_assigned_to_other(self.peers.len(), p) {
                    unassigned_missing = true;
                }
            }
            p = p + 1;
        }
        if !unassigned_missing {
            self.mode = TorrentDownloadMode::EndGame;
        }
    }

    /// A peer delivered the piece it was downloading. The piece is saved
    /// only when its digest matches the torrent's table: a piece of the
    /// wrong length or digest changes no storage and costs the peer its
    /// connection; a piece already verified is ignored. After a verified
    /// write, every other connected peer that lacked the piece hears
    /// `Have` exactly once, every other peer still downloading it is
    /// canceled, and this peer is scheduled onto its next piece.
    #[verifier::rlimit(100)]
    #[verifier::spinoff_prover]
    pub fn process_peer_piece_downloaded(
        &mut self,
        peer_id: u64,
        piece: Vec<u8>,
        now: u64,
        actions: &mut Vec<DownloadAction>,
    )
        requires
            old(self).wf(),
        ensures
            final(self).wf(),
            forall|k: int|
                0 <= k < old(actions)@.len() ==> final(actions)@[k] == old(actions)@[k],
            spec_downloaded_effect(*old(self), *final(self), peer_id, piece@, old(actions)@, final(actions)@),
            // every other connected peer that lacked a verified piece
            // hears about it
            forall|ix: int, index: usize|
                spec_was_downloading(old(self).spec_peers(), peer_id, ix, index) && !spec_bit(
                    old(self).spec_storage().spec_downloaded(),
                    index as int,
                ) && piece@.len() == old(self).spec_storage().spec_piece_len(index as int)
                    && crate::storage::sha1_of(piece@) == old(self).spec_storage().spec_digests()[index as int] ==> (forall|j: int|
                    spec_needs_have(old(self).spec_peers(), ix, index as int, j) && j != ix
                        ==> exists|k: int|
                        old(actions)@.len() <= k < final(actions)@.len() && final(actions)@[k]
                            == (DownloadAction::Send {
                            peer_id: (#[trigger] old(self).spec_peers()[j]).id,
                            message: Message::Have(index as u32),
                        })),
    {
        let ix = match self.find_peer(peer_id) {
            Some(ix) => ix,
            None => {
                return ;
            },
        };
        let index = match &self.peers[ix].state {
            TorrentPeerState::Connected {
                downloading_piece: Some(index),
                downloading_since: Some(_),
                ..
            } => *index,
            _ => {
                return ;
            },
        };
        proof {
            assert forall|ix0: int, index0: usize|
                spec_was_downloading(
                    old(self).spec_peers(),
                    peer_id,
                    ix0,
                    index0,
                ) implies ix0 == ix as int && index0 == index by {
                if ix0 != ix as int {
                    assert(old(self).spec_peers()[ix0].id == old(self).spec_peers()[ix as int].id);
                }
            }
        }
        proof {
            assert(spec_was_downloading(old(self).spec_peers(), peer_id, ix as int, index));
        }
        self.clear_downloading(ix);
        if bit_by_index(index, self.storage.downloaded().as_slice()).is_some() {
            proof {
                assert(spec_bit(old(self).spec_storage().spec_downloaded(), index as int));
            }
            self.schedule_peer(ix, now, actions);
            proof {
                assert(final(actions)@.subrange(0, old(actions)@.len() as int) =~= old(actions)@);
                assert(*final(self).spec_storage() == *old(self).spec_storage());
            }
            return ;
        }
        proof {
            assert(!spec_bit(old(self).spec_storage().spec_downloaded(), index as int));
        }
        match self.storage.save(index, piece) {
            Err(_) => {
                let ghost peers1 = self.peers@;
                self.peers.remove(ix);
                proof {
                    lemma_entry_remove_wf(peers1, self.peers@, ix as int);
                    assert forall|i: int| 0 <= i < self.peers@.len() implies (
                    #[trigger] self.peers@[i]).id != peer_id by {
                        if i < ix as int {
                            assert(self.peers@[i] == peers1[i]);
                        } else {
                            assert(self.peers@[i] == peers1[i + 1]);
                        }
                    }
                }
                actions.push(DownloadAction::Disconnect { peer_id });
                proof {
                    assert(final(actions)@ =~= old(actions)@.push(
                        DownloadAction::Disconnect { peer_id },
                    ));
                }
                return ;
            },
            Ok(_) => {},
        }
        let ghost peers_mid = self.peers@;
        let ghost actions_before_broadcast = actions@;
        self.broadcast_have(ix, index, actions);
        let ghost actions_after_broadcast = actions@;
        self.determine_download_mode();
        self.schedule_peer(ix, now, actions);
        proof {
            let bseq = spec_broadcast_actions(peers_mid, ix as int, index, peers_mid.len() as int);
            assert(actions_after_broadcast == actions_before_broadcast + bseq);
            assert forall|j: int|
                spec_needs_have(old(self).spec_peers(), ix as int, index as int, j) && j
                    != ix as int implies exists|k: int|
                old(actions)@.len() <= k < actions@.len() && actions@[k] == (DownloadAction::Send {
                    peer_id: old(self).spec_peers()[j].id,
                    message: Message::Have(index as u32),
                }) by {
                assert(peers_mid[j] == old(self).spec_peers()[j]);
                assert(spec_needs_have(peers_mid, ix as int, index as int, j));
                lemma_broadcast_complete(peers_mid, ix as int, index, peers_mid.len() as int, j);
                let k0 = choose|k0: int|
                    0 <= k0 < bseq.len() && #[trigger] bseq[k0] == (DownloadAction::Send {
                        peer_id: peers_mid[j].id,
                        message: Message::Have(index as u32),
                    });
                let k = actions_before_broadcast.len() + k0;
                assert(actions_after_broadcast[k] == bseq[k0]);
                assert(actions@[k] == actions_after_broadcast[k]);
            }
            lemma_broadcast_ignores_ix(
                old(self).spec_peers(),
                peers_mid,
                ix as int,
                index,
                peers_mid.len() as int,
            );
            let n = actions_after_broadcast.len() as int;
            assert(actions@.subrange(old(actions)@.len() as int, n) =~= spec_broadcast_actions(
                old(self).spec_peers(),
                ix as int,
                index,
                old(self).spec_peers().len() as int,
            ));
            assert(actions@.subrange(0, old(actions)@.len() as int) =~= old(actions)@);
        }
    }

    /// Routes one event to its handler. Time is the caller's: `now` is
    /// the moment the event arrived. After any event, in normal mode no
    /// two peers download the same piece.
    pub fn handle_event(
        &mut self,
        event: DownloadTorrentEvent,
        now: u64,
        actions: &mut Vec<DownloadAction>,
    )
        requires
            old(self).wf(),
        ensures
            final(self).wf(),
            final(self).spec_mode() is Normal ==> spec_assignment_at_most_once(
                final(self).spec_peers(),
            ),
            event matches DownloadTorrentEvent::Announce(peers) ==> spec_announce_effect(
                *old(self),
                *final(self),
                peers@,
                old(actions)@,
                final(actions)@,
            ),
            event matches DownloadTorrentEvent::PeerAnnounced(peer) ==> spec_announced_effect(
                *old(self),
                *final(self),
                peer,
                old(actions)@,
                final(actions)@,
            ),
            event matches DownloadTorrentEvent::PeerConnected(peer_id) ==> spec_connected_effect(
                *old(self),
                *final(self),
                peer_id,
                old(actions)@,
                final(actions)@,
            ),
            event matches DownloadTorrentEvent::PeerForwarded(peer) ==> exists|r: Option<u64>|
                spec_forwarded_effect(
                    *old(self),
                    *final(self),
                    peer,
                    r,
                    old(actions)@,
                    final(actions)@,
                ),
            event matches DownloadTorrentEvent::PeerConnectFailed(peer_id)
                ==> spec_disconnect_effect(*old(self), *final(self), peer_id) && final(actions)@
                == old(actions)@,
            event matches DownloadTorrentEvent::PeerDisconnect(peer_id) ==> spec_disconnect_effect(
                *old(self),
                *final(self),
                peer_id,
            ) && final(actions)@ == old(actions)@,
            event matches DownloadTorrentEvent::PeerPieces(peer_id, pieces) ==> spec_pieces_effect(
                *old(self),
                *final(self),
                peer_id,
                pieces@,
                old(actions)@,
                final(actions)@,
            ),
            event matches DownloadTorrentEvent::PeerPiece(peer_id, piece) ==> spec_piece_effect(
                *old(self),
                *final(self),
                peer_id,
                piece,
                old(actions)@,
                final(actions)@,
            ),
            event matches DownloadTorrentEvent::PeerUnchoke(peer_id) ==> spec_unchoke_effect(
                *old(self),
                *final(self),
                peer_id,
                now,
                old(actions)@,
                final(actions)@,
            ),
            event matches DownloadTorrentEvent::PeerInterested(peer_id) ==> spec_interested_effect(
                *old(self),
                *final(self),
                peer_id,
                old(actions)@,
                final(actions)@,
            ),
            event matches DownloadTorrentEvent::PeerPieceDownloaded(peer_id, piece)
                ==> spec_downloaded_effect(
                *old(self),
                *final(self),
                peer_id,
                piece@,
                old(actions)@,
                final(actions)@,
            ),
            event matches DownloadTorrentEvent::PeerPieceCanceled(peer_id)
                ==> spec_canceled_effect(
                *old(self),
                *final(self),
                peer_id,
                now,
                old(actions)@,
                final(actions)@,
            ),
            event matches DownloadTorrentEvent::PeerPieceRequest { peer_id, index, begin, length }
                ==> spec_request_effect(
                *old(self),
                *final(self),
                peer_id,
                index,
                begin,
                length,
                old(actions)@,
                final(actions)@,
            ),
    {
        match event {
            DownloadTorrentEvent::Announce(peers) => {
                self.process_announce(peers, actions);
            },
            DownloadTorrentEvent::PeerAnnounced(peer) => {
                self.process_peer_announced(peer, actions);
            },
            DownloadTorrentEvent::PeerConnected(peer_id) => {
                self.process_peer_connected(peer_id, actions);
            },
            DownloadTorrentEvent::PeerForwarded(peer) => {
                let _minted = self.process_peer_forwarded(peer, actions);
            },
            DownloadTorrentEvent::PeerConnectFailed(peer_id) => {
                self.process_peer_disconnect(peer_id);
            },
            DownloadTorrentEvent::PeerDisconnect(peer_id) => {
                self.process_peer_disconnect(peer_id);
            },
            DownloadTorrentEvent::PeerPieces(peer_id, pieces) => {
                self.process_peer_pieces(peer_id, pieces, actions);
            },
            DownloadTorrentEvent::PeerPiece(peer_id, piece) => {
                self.process_peer_piece(peer_id, piece, actions);
            },
            DownloadTorrentEvent::PeerUnchoke(peer_id) => {
                self.process_peer_unchoke(peer_id, now, actions);
            },
            DownloadTorrentEvent::PeerInterested(peer_id) => {
                self.process_peer_interested(peer_id, actions);
            },
            DownloadTorrentEvent::PeerPieceDownloaded(peer_id, piece) => {
                self.process_peer_piece_downloaded(peer_id, piece, now, actions);
            },
            DownloadTorrentEvent::PeerPieceCanceled(peer_id) => {
                self.process_peer_piece_canceled(peer_id, now, actions);
            },
            DownloadTorrentEvent::PeerPieceRequest { peer_id, index, begin, length } => {
                self.process_peer_piece_request(peer_id, index, begin, length, actions);
            },
        }
    }

    /// Drops every peer whose download has stalled: a piece assigned at
    /// `since` with no delivery by `now - stall_secs` costs the peer its
    /// connection. Exactly the stalled peers go, each with one
    /// Disconnect; everyone else stays.
    #[verifier::rlimit(100)]
    #[verifier::spinoff_prover]
    pub fn drop_stalled_peers(&mut self, now: u64, stall_secs: u64, actions: &mut Vec<
        DownloadAction,
    >)
        requires
            old(self).wf(),
        ensures
            final(self).wf(),
            final(self).spec_mode() == old(self).spec_mode(),
            *final(self).spec_storage() == *old(self).spec_storage(),
            forall|k: int|
                0 <= k < old(actions)@.len() ==> final(actions)@[k] == old(actions)@[k],
            // every peer that did not stall is still here
            spec_survivors_present(
                final(self).spec_peers(),
                old(self).spec_peers(),
                now,
                stall_secs,
            ),
            // only peers that did not stall are still here
            forall|j: int|
                0 <= j < final(self).spec_peers().len() ==> exists|i: int|
                    0 <= i < old(self).spec_peers().len() && old(self).spec_peers()[i] == (
                    #[trigger] final(self).spec_peers()[j]) && !spec_stalled(
                        old(self).spec_peers()[i],
                        now,
                        stall_secs,
                    ),
            // the appended actions are exactly one Disconnect per stalled
            // peer, in peer order
            final(actions)@ == old(actions)@ + spec_disconnect_actions(
                spec_stalled_ids(
                    old(self).spec_peers(),
                    old(self).spec_peers().len() as int,
                    now,
                    stall_secs,
                ),
                spec_stalled_ids(
                    old(self).spec_peers(),
                    old(self).spec_peers().len() as int,
                    now,
                    stall_secs,
                ).len() as int,
            ),
    {
        let ghost orig = self.peers@;
        let mut stalled: Vec<u64> = Vec::new();
        let mut j: usize = 0;
        while j < self.peers.len()
            invariant
                j <= self.peers@.len(),
                self.peers@ == orig,
                stalled@ == spec_stalled_ids(orig, j as int, now, stall_secs),
            decreases self.peers@.len() - j,
        {
            let ghost pre_ids = stalled@;
            match &self.peers[j].state {
                TorrentPeerState::Connected { downloading_since: Some(since), .. } => {
                    if *since <= now && now - *since > stall_secs {
                        stalled.push(self.peers[j].id);
                    }
                },
                _ => {},
            }
            j = j + 1;
            proof {
                assert(stalled@ =~= spec_stalled_ids(orig, j as int, now, stall_secs));
            }
        }
        let ghost ids = stalled@;
        let mut k: usize = 0;
        proof {
            assert(actions@ =~= old(actions)@ + spec_disconnect_actions(ids, 0));
        }
        while k < stalled.len()
            invariant
                self.wf(),
                self.spec_mode() == old(self).spec_mode(),
                *self.spec_storage() == *old(self).spec_storage(),
                k <= stalled@.len(),
                stalled@ == ids,
                ids == spec_stalled_ids(orig, orig.len() as int, now, stall_secs),
                spec_ids_unique(orig),
                orig == old(self).spec_peers(),
                spec_members_of(self.spec_peers(), orig),
                spec_survivors_present(self.spec_peers(), orig, now, stall_secs),
                spec_none_of_ids(self.spec_peers(), ids, k as int),
                actions@ == old(actions)@ + spec_disconnect_actions(ids, k as int),
            decreases stalled@.len() - k,
        {
            let peer_id = stalled[k];
            let ghost cur0 = self.spec_peers();
            self.process_peer_disconnect(peer_id);
            actions.push(DownloadAction::Disconnect { peer_id });
            k = k + 1;
            proof {
                lemma_stalled_ids_sound(orig, orig.len() as int, now, stall_secs, k as int - 1);
                let iw = choose|i: int|
                    0 <= i < orig.len() && spec_stalled(#[trigger] orig[i], now, stall_secs)
                        && orig[i].id == ids[k - 1];
                assert(spec_members_of(self.spec_peers(), orig)) by {
                    assert forall|j2: int| 0 <= j2 < self.spec_peers().len() implies exists|i: int|
                        0 <= i < orig.len() && orig[i] == #[trigger] self.spec_peers()[j2] by {
                        if exists|ix0: int|
                            0 <= ix0 < cur0.len() && (#[trigger] cur0[ix0]).id == peer_id {
                            let ix0 = choose|ix0: int|
                                0 <= ix0 < cur0.len() && (#[trigger] cur0[ix0]).id == peer_id;
                            if j2 < ix0 {
                                assert(self.spec_peers()[j2] == cur0[j2]);
                            } else {
                                assert(self.spec_peers()[j2] == cur0[j2 + 1]);
                            }
                        } else {
                            assert(self.spec_peers() == cur0);
                        }
                    }
                }
                assert(spec_survivors_present(self.spec_peers(), orig, now, stall_secs)) by {
                    assert forall|i: int|
                        0 <= i < orig.len() && !spec_stalled(
                            #[trigger] orig[i],
                            now,
                            stall_secs,
                        ) implies exists|j2: int|
                        0 <= j2 < self.spec_peers().len() && self.spec_peers()[j2] == orig[i] by {
                        let jw = choose|j2: int|
                            0 <= j2 < cur0.len() && #[trigger] cur0[j2] == orig[i];
                        if exists|ix0: int|
                            0 <= ix0 < cur0.len() && (#[trigger] cur0[ix0]).id == peer_id {
                            let ix0 = choose|ix0: int|
                                0 <= ix0 < cur0.len() && (#[trigger] cur0[ix0]).id == peer_id;
                            assert(orig[i].id != orig[iw].id);
                            assert(cur0[jw].id != peer_id);
                            assert(jw != ix0);
                            if jw < ix0 {
                                assert(self.spec_peers()[jw] == cur0[jw]);
                            } else {
                                assert(self.spec_peers()[jw - 1] == cur0[jw]);
                            }
                        } else {
                            assert(self.spec_peers() == cur0);
                        }
                    }
                }
                assert(spec_none_of_ids(self.spec_peers(), ids, k as int)) by {
                    assert forall|m: int, j2: int|
                        0 <= m < k as int && 0 <= j2 < self.spec_peers().len() implies (
                    #[trigger] self.spec_peers()[j2]).id != (#[trigger] ids[m]) by {
                        if m < k as int - 1 {
                            if exists|ix0: int|
                                0 <= ix0 < cur0.len() && (#[trigger] cur0[ix0]).id == peer_id {
                                let ix0 = choose|ix0: int|
                                    0 <= ix0 < cur0.len() && (#[trigger] cur0[ix0]).id == peer_id;
                                if j2 < ix0 {
                                    assert(self.spec_peers()[j2] == cur0[j2]);
                                } else {
                                    assert(self.spec_peers()[j2] == cur0[j2 + 1]);
                                }
                            } else {
                                assert(self.spec_peers() == cur0);
                            }
                        }
                    }
                }
                assert(actions@ =~= old(actions)@ + spec_disconnect_actions(ids, k as int));
            }
        }
        proof {
            assert forall|j2: int| 0 <= j2 < self.spec_peers().len() implies exists|i: int|
                0 <= i < old(self).spec_peers().len() && old(self).spec_peers()[i] == (
                #[trigger] self.spec_peers()[j2]) && !spec_stalled(
                    old(self).spec_peers()[i],
                    now,
                    stall_secs,
                ) by {
                let i = choose|i: int|
                    0 <= i < orig.len() && #[trigger] orig[i] == self.spec_peers()[j2];
                if spec_stalled(orig[i], now, stall_secs) {
                    lemma_stalled_ids_complete(orig, orig.len() as int, now, stall_secs, i);
                    let m = choose|m: int|
                        0 <= m < ids.len() && #[trigger] ids[m] == orig[i].id;
                    assert(self.spec_peers()[j2].id != ids[m]);
                    assert(false);
                }
                assert(0 <= i < old(self).spec_peers().len() && old(self).spec_peers()[i]
                    == self.spec_peers()[j2] && !spec_stalled(
                    old(self).spec_peers()[i],
                    now,
                    stall_secs,
                ));
            }
        }
    }

    /// Replaces the session state of the peer at `ix`.
    fn set_state(&mut self, ix: usize, state: TorrentPeerState)
        requires
            ix < old(self).peers@.len(),
        ensures
            final(self).peers@.len() == old(self).peers@.len(),
            final(self).peers@ == old(self).peers@.update(
                ix as int,
                PeerEntry {
                    id: old(self).peers@[ix as int].id,
                    peer: old(self).peers@[ix as int].peer,
                    state,
                },
            ),
            final(self).mode == old(self).mode,
            final(self).storage == old(self).storage,
            final(self).next_peer_id == old(self).next_peer_id,
    {
        let id = self.peers[ix].id;
        let peer = self.peers[ix].peer;
        let entry = &mut self.peers[ix];
        *entry = PeerEntry { id, peer, state };
    }
}

/// The bitfield a peer entry has shown us (empty until it sends one).
pub open spec fn spec_peer_bits(e: PeerEntry) -> Seq<u8> {
    match e.state {
        TorrentPeerState::Connected { pieces, .. } => pieces@,
        _ => Seq::empty(),
    }
}

/// Is the peer entry a connected session?
pub open spec fn spec_is_connected(e: PeerEntry) -> bool {
    e.state is Connected
}

/// Does the peer's session record our interest?
pub open spec fn spec_am_interested(e: PeerEntry) -> bool {
    match e.state {
        TorrentPeerState::Connected { am_interested, .. } => am_interested,
        _ => false,
    }
}

/// Does the peer's session record that it chokes us?
pub open spec fn spec_peer_choking(e: PeerEntry) -> bool {
    match e.state {
        TorrentPeerState::Connected { peer_choking, .. } => peer_choking,
        _ => true,
    }
}

/// Does the peer's session record its interest in our pieces?
pub open spec fn spec_peer_interested(e: PeerEntry) -> bool {
    match e.state {
        TorrentPeerState::Connected { peer_interested, .. } => peer_interested,
        _ => false,
    }
}

/// Does the peer's session record that we choke it?
pub open spec fn spec_am_choking(e: PeerEntry) -> bool {
    match e.state {
        TorrentPeerState::Connected { am_choking, .. } => am_choking,
        _ => true,
    }
}

/// The block the peer's session is uploading, when it has one.
pub open spec fn spec_uploading(e: PeerEntry) -> Option<(u32, u32, u32)> {
    match e.state {
        TorrentPeerState::Connected { uploading_piece, .. } => uploading_piece,
        _ => None,
    }
}

/// Is this action a block request sent to `peer_id`?
pub open spec fn spec_is_request_to(a: DownloadAction, peer_id: u64) -> bool {
    match a {
        DownloadAction::Send { peer_id: target, message: Message::Request { .. } } => target
            == peer_id,
        _ => false,
    }
}

/// Is piece `p` assigned to a peer other than the one at `ix`?
pub open spec fn spec_assigned_elsewhere(peers: Seq<PeerEntry>, ix: int, p: usize) -> bool {
    exists|j: int|
        0 <= j < peers.len() && j != ix && spec_downloading(#[trigger] peers[j]) == Some(p)
}

/// May the peer at `ix` be assigned piece `p`: it holds the piece, we
/// lack it, and (in normal mode) nobody else is downloading it.
pub open spec fn spec_selectable(
    peers: Seq<PeerEntry>,
    mode: TorrentDownloadMode,
    downloaded: Seq<u8>,
    ix: int,
    p: usize,
) -> bool {
    &&& spec_bit(spec_peer_bits(peers[ix]), p as int)
    &&& !spec_bit(downloaded, p as int)
    &&& (mode is EndGame || !spec_assigned_elsewhere(peers, ix, p))
}

/// Must peer `j` hear `Have(index)`: it is connected, is not the peer
/// that delivered the piece, and its bitfield lacks the piece.
pub open spec fn spec_needs_have(peers: Seq<PeerEntry>, ix: int, index: int, j: int) -> bool {
    &&& 0 <= j < peers.len()
    &&& j != ix
    &&& peers[j].state is Connected
    &&& !spec_bit(spec_peer_bits(peers[j]), index)
}

/// Was the peer with `peer_id` at position `ix`, downloading `index`?
pub open spec fn spec_was_downloading(
    peers: Seq<PeerEntry>,
    peer_id: u64,
    ix: int,
    index: usize,
) -> bool {
    &&& 0 <= ix < peers.len()
    &&& peers[ix].id == peer_id
    &&& spec_downloading(peers[ix]) == Some(index)
    &&& match peers[ix].state {
        TorrentPeerState::Connected { downloading_since, .. } => downloading_since is Some,
        _ => false,
    }
}

/// The broadcast after piece `index` arrived from the peer at `ix`: in
/// peer order, a `Have` to every other connected peer whose bitfield
/// lacks the piece, and a cancel to every other peer still downloading
/// it.
pub open spec fn spec_broadcast_actions(
    peers: Seq<PeerEntry>,
    ix: int,
    index: usize,
    j: int,
) -> Seq<DownloadAction>
    decreases j,
{
    if j <= 0 {
        Seq::empty()
    } else {
        spec_broadcast_actions(peers, ix, index, j - 1) + (if spec_needs_have(
            peers,
            ix,
            index as int,
            j - 1,
        ) {
            seq![
                DownloadAction::Send {
                    peer_id: peers[j - 1].id,
                    message: Message::Have(index as u32),
                },
            ]
        } else {
            Seq::empty()
        }) + (if j - 1 != ix && 0 <= j - 1 < peers.len() && spec_downloading(peers[j - 1]) == Some(
            index,
        ) {
            seq![DownloadAction::CancelPiece { peer_id: peers[j - 1].id, piece: index }]
        } else {
            Seq::empty()
        })
    }
}

/// Every peer that must hear `Have(index)` finds its message in the
/// broadcast.
pub proof fn lemma_broadcast_complete(peers: Seq<PeerEntry>, ix: int, index: usize, j: int, j2: int)
    requires
        spec_needs_have(peers, ix, index as int, j2),
        j2 < j <= peers.len(),
    ensures
        exists|k: int|
            0 <= k < spec_broadcast_actions(peers, ix, index, j).len()
                && #[trigger] spec_broadcast_actions(peers, ix, index, j)[k]
                == (DownloadAction::Send {
                peer_id: peers[j2].id,
                message: Message::Have(index as u32),
            }),
    decreases j,
{
    let a = spec_broadcast_actions(peers, ix, index, j);
    let prev = spec_broadcast_actions(peers, ix, index, j - 1);
    if j2 == j - 1 {
        assert(a[prev.len() as int] == (DownloadAction::Send {
            peer_id: peers[j2].id,
            message: Message::Have(index as u32),
        }));
    } else {
        lemma_broadcast_complete(peers, ix, index, j - 1, j2);
        let k = choose|k: int|
            0 <= k < prev.len() && #[trigger] prev[k] == (DownloadAction::Send {
                peer_id: peers[j2].id,
                message: Message::Have(index as u32),
            });
        assert(a[k] == prev[k]);
    }
}

/// Every peer still downloading the piece finds its cancel in the
/// broadcast.
pub proof fn lemma_broadcast_cancels(peers: Seq<PeerEntry>, ix: int, index: usize, j: int, j2: int)
    requires
        0 <= j2 < peers.len(),
        j2 != ix,
        spec_downloading(peers[j2]) == Some(index),
        j2 < j <= peers.len(),
    ensures
        exists|k: int|
            0 <= k < spec_broadcast_actions(peers, ix, index, j).len()
                && #[trigger] spec_broadcast_actions(peers, ix, index, j)[k]
                == (DownloadAction::CancelPiece { peer_id: peers[j2].id, piece: index }),
    decreases j,
{
    let a = spec_broadcast_actions(peers, ix, index, j);
    let prev = spec_broadcast_actions(peers, ix, index, j - 1);
    if j2 == j - 1 {
        assert(a[a.len() - 1] == (DownloadAction::CancelPiece {
            peer_id: peers[j2].id,
            piece: index,
        }));
    } else {
        lemma_broadcast_cancels(peers, ix, index, j - 1, j2);
        let k = choose|k: int|
            0 <= k < prev.len() && #[trigger] prev[k] == (DownloadAction::CancelPiece {
                peer_id: peers[j2].id,
                piece: index,
            });
        assert(a[k] == prev[k]);
    }
}

/// Every `Have` in the broadcast goes to some peer that must hear it.
pub proof fn lemma_broadcast_sound(peers: Seq<PeerEntry>, ix: int, index: usize, j: int, k: int)
    requires
        0 <= j <= peers.len(),
        0 <= k < spec_broadcast_actions(peers, ix, index, j).len(),
        spec_is_have(spec_broadcast_actions(peers, ix, index, j)[k], index as int),
    ensures
        exists|j2: int|
            j2 < j && #[trigger] spec_needs_have(peers, ix, index as int, j2)
                && spec_broadcast_actions(peers, ix, index, j)[k] == (DownloadAction::Send {
                peer_id: peers[j2].id,
                message: Message::Have(index as u32),
            }),
    decreases j,
{
    let a = spec_broadcast_actions(peers, ix, index, j);
    let prev = spec_broadcast_actions(peers, ix, index, j - 1);
    if k < prev.len() {
        assert(a[k] == prev[k]);
        lemma_broadcast_sound(peers, ix, index, j - 1, k);
    } else {
        assert(spec_needs_have(peers, ix, index as int, j - 1) && a[k] == (DownloadAction::Send {
            peer_id: peers[j - 1].id,
            message: Message::Have(index as u32),
        }));
    }
}

/// No peer hears `Have` twice: two distinct `Have` actions of the
/// broadcast differ (they go to different peers).
pub proof fn lemma_broadcast_unique(
    peers: Seq<PeerEntry>,
    ix: int,
    index: usize,
    j: int,
    k1: int,
    k2: int,
)
    requires
        spec_ids_unique(peers),
        0 <= j <= peers.len(),
        0 <= k1 < k2 < spec_broadcast_actions(peers, ix, index, j).len(),
        spec_is_have(spec_broadcast_actions(peers, ix, index, j)[k1], index as int),
        spec_is_have(spec_broadcast_actions(peers, ix, index, j)[k2], index as int),
    ensures
        spec_broadcast_actions(peers, ix, index, j)[k1] != spec_broadcast_actions(
            peers,
            ix,
            index,
            j,
        )[k2],
    decreases j,
{
    let a = spec_broadcast_actions(peers, ix, index, j);
    let prev = spec_broadcast_actions(peers, ix, index, j - 1);
    if k2 < prev.len() {
        assert(a[k1] == prev[k1]);
        assert(a[k2] == prev[k2]);
        lemma_broadcast_unique(peers, ix, index, j - 1, k1, k2);
    } else {
        if k1 >= prev.len() {
            assert(false);
        } else {
            assert(a[k1] == prev[k1]);
            assert(spec_needs_have(peers, ix, index as int, j - 1));
            assert(a[k2] == (DownloadAction::Send {
                peer_id: peers[j - 1].id,
                message: Message::Have(index as u32),
            }));
            lemma_broadcast_sound(peers, ix, index, j - 1, k1);
            let j2 = choose|j2: int|
                j2 < j - 1 && #[trigger] spec_needs_have(peers, ix, index as int, j2) && prev[k1]
                    == (DownloadAction::Send {
                    peer_id: peers[j2].id,
                    message: Message::Have(index as u32),
                });
            assert(peers[j2].id != peers[j - 1].id);
        }
    }
}

/// The broadcast never reads the entry at `ix` (the delivering peer is
/// skipped), so any two peer lists that agree off `ix` broadcast alike.
pub proof fn lemma_broadcast_ignores_ix(
    p1: Seq<PeerEntry>,
    p2: Seq<PeerEntry>,
    ix: int,
    index: usize,
    j: int,
)
    requires
        p2.len() == p1.len(),
        forall|i: int| 0 <= i < p1.len() && i != ix ==> p2[i] == p1[i],
        0 <= j <= p1.len(),
    ensures
        spec_broadcast_actions(p1, ix, index, j) == spec_broadcast_actions(p2, ix, index, j),
    decreases j,
{
    if j > 0 {
        lemma_broadcast_ignores_ix(p1, p2, ix, index, j - 1);
        if j - 1 != ix {
            assert(p2[j - 1] == p1[j - 1]);
        } else {
            assert(!spec_needs_have(p1, ix, index as int, j - 1));
            assert(!spec_needs_have(p2, ix, index as int, j - 1));
        }
    }
}

/// Is this action a `Have` for piece `index`?
pub open spec fn spec_is_have(a: DownloadAction, index: int) -> bool {
    match a {
        DownloadAction::Send { message: Message::Have(i), .. } => i as int == index,
        _ => false,
    }
}

/// Is this action a `Piece` block for `peer_id` carrying `bytes`?
pub open spec fn spec_is_piece_send(
    a: DownloadAction,
    peer_id: u64,
    index: u32,
    begin: u32,
    bytes: Seq<u8>,
) -> bool {
    match a {
        DownloadAction::Send { peer_id: target, message: Message::Piece { index: i, begin: b, block } } => {
            &&& target == peer_id
            &&& i == index
            &&& b == begin
            &&& block@ == bytes
        },
        _ => false,
    }
}

/// Block `k` of a piece of `piece_len` bytes, as a request to `peer_id`.
pub open spec fn spec_block_request(peer_id: u64, piece: u32, piece_len: int, k: int) -> DownloadAction {
    let begin = k * crate::BLOCK_SIZE as int;
    let length = if piece_len - begin < crate::BLOCK_SIZE as int {
        piece_len - begin
    } else {
        crate::BLOCK_SIZE as int
    };
    DownloadAction::Send {
        peer_id,
        message: Message::Request { index: piece, begin: begin as u32, length: length as u32 },
    }
}

/// Block `b` of `blocks_count` blocks starts inside the piece and has at
/// least one byte.
proof fn lemma_block_bounds(piece_len: int, blocks_count: int, b: int)
    requires
        1 <= piece_len,
        blocks_count == crate::spec_count_parts(piece_len, crate::BLOCK_SIZE as int),
        0 <= b < blocks_count,
    ensures
        (b * crate::BLOCK_SIZE as int) < piece_len,
        0 <= (b * crate::BLOCK_SIZE as int),
{
    let bs = crate::BLOCK_SIZE as int;
    crate::lemma_count_parts(piece_len, bs);
    vstd::arithmetic::div_mod::lemma_fundamental_div_mod(piece_len, bs);
    let q = piece_len / bs;
    let r = piece_len % bs;
    assert(0 <= r < bs) by {
        vstd::arithmetic::div_mod::lemma_mod_bound(piece_len, bs);
    }
    if r == 0 {
        assert(b * bs < piece_len) by (nonlinear_arith)
            requires
                b < q,
                piece_len == bs * q,
                0 < bs,
                0 <= b,
        ;
    } else {
        assert(b * bs < piece_len) by (nonlinear_arith)
            requires
                b <= q,
                piece_len == bs * q + r,
                0 < bs,
                0 < r,
                0 <= b,
        ;
    }
    assert(0 <= (b * crate::BLOCK_SIZE as int)) by (nonlinear_arith)
        requires
            0 <= b,
    ;
}

/// Assigning a piece that nobody else is downloading keeps assignments
/// unique; the other peer-list facts carry over as for any single-entry
/// update.
proof fn lemma_assign_fresh_wf(p1: Seq<PeerEntry>, p2: Seq<PeerEntry>, ix: int, piece: usize)
    requires
        0 <= ix < p1.len(),
        p2.len() == p1.len(),
        forall|i: int| 0 <= i < p1.len() && i != ix ==> p2[i] == p1[i],
        p2[ix].id == p1[ix].id,
        spec_downloading(p2[ix]) == Some(piece),
    ensures
        forall|i: int| 0 <= i < p2.len() ==> (#[trigger] p2[i]).id == p1[i].id,
        spec_ids_unique(p1) ==> spec_ids_unique(p2),
        forall|count: int|
            #[trigger] spec_assignments_in_range(p1, count) && (piece as int) < count
                ==> spec_assignments_in_range(p2, count),
        spec_assignment_at_most_once(p1) && !spec_assigned_elsewhere(p1, ix, piece)
            ==> spec_assignment_at_most_once(p2),
{
    if spec_assignment_at_most_once(p1) && !spec_assigned_elsewhere(p1, ix, piece) {
        assert forall|i: int, j: int|
            0 <= i < p2.len() && 0 <= j < p2.len() && i != j && spec_downloading(
                #[trigger] p2[i],
            ) is Some && spec_downloading(#[trigger] p2[j]) is Some implies spec_downloading(
            p2[i],
        ) != spec_downloading(p2[j]) by {
            if i == ix {
                if spec_downloading(p2[j]) == Some(piece) {
                    assert(spec_downloading(p1[j]) == Some(piece));
                    assert(spec_assigned_elsewhere(p1, ix, piece));
                }
            } else if j == ix {
                if spec_downloading(p2[i]) == Some(piece) {
                    assert(spec_downloading(p1[i]) == Some(piece));
                    assert(spec_assigned_elsewhere(p1, ix, piece));
                }
            }
        }
    }
    assert forall|count: int|
        #[trigger] spec_assignments_in_range(p1, count) && (piece as int)
            < count implies spec_assignments_in_range(p2, count) by {
        assert forall|i: int|
            0 <= i < p2.len() && spec_downloading(#[trigger] p2[i]) is Some implies spec_downloading(
            p2[i],
        ).unwrap() < count by {
            if i != ix {
                assert(spec_downloading(p2[i]) == spec_downloading(p1[i]));
                assert(spec_assignments_in_range(p1, count));
                assert(spec_downloading(p1[i]) is Some);
            }
        }
    }
}

/// Does bit `bb` of the peer's bitfield byte `i` name a piece we lack?
pub open spec fn spec_byte_match(downloaded: Seq<u8>, a: u8, i: int, bb: int) -> bool {
    &&& a & (128u8 >> (bb as u8)) == (128u8 >> (bb as u8))
    &&& !spec_bit(downloaded, 8 * i + bb)
}

/// Does the peer hold at least one piece we do not yet have?
pub open spec fn spec_has_useful_piece(peer_bits: Seq<u8>, downloaded: Seq<u8>) -> bool {
    exists|p: int| 0 <= p && spec_bit(peer_bits, p) && !spec_bit(downloaded, p)
}

/// Piece `8 i + bb` has byte `i` and mask bit `bb`.
proof fn lemma_bit_split(i: int, bb: int)
    requires
        0 <= i,
        0 <= bb < 8,
    ensures
        (8 * i + bb) / 8 == i,
        (8 * i + bb) % 8 == bb,
{
    vstd::arithmetic::div_mod::lemma_fundamental_div_mod_converse(8 * i + bb, 8, i, bb);
}

/// Appends the pieces of the peer's bitfield byte `i` that we still lack:
/// one piece per set bit, most significant first.
pub fn match_pieces(downloadable: &mut Vec<usize>, downloaded: &[u8], i: usize, a: u8)
    requires
        i as int * 8 + 8 <= usize::MAX,
    ensures
        final(downloadable)@.len() >= old(downloadable)@.len(),
        forall|k: int|
            0 <= k < old(downloadable)@.len() ==> final(downloadable)@[k] == old(downloadable)@[k],
        forall|k: int|
            old(downloadable)@.len() <= k < final(downloadable)@.len() ==> {
                let p = #[trigger] final(downloadable)@[k];
                &&& 8 * i as int <= p < 8 * i as int + 8
                &&& spec_byte_match(downloaded@, a, i as int, p as int - 8 * i as int)
            },
        final(downloadable)@.len() == old(downloadable)@.len() ==> forall|bb: int|
            0 <= bb < 8 ==> !spec_byte_match(downloaded@, a, i as int, bb),
{
    let mut bb: usize = 0;
    let ghost len0 = downloadable@.len();
    while bb < 8
        invariant
            bb <= 8,
            i as int * 8 + 8 <= usize::MAX,
            downloadable@.len() >= len0,
            forall|k: int| 0 <= k < len0 ==> downloadable@[k] == old(downloadable)@[k],
            forall|k: int|
                len0 <= k < downloadable@.len() ==> {
                    let p = #[trigger] downloadable@[k];
                    &&& 8 * i as int <= p < 8 * i as int + 8
                    &&& spec_byte_match(downloaded@, a, i as int, p as int - 8 * i as int)
                },
            downloadable@.len() == len0 ==> forall|b2: int|
                0 <= b2 < bb ==> !spec_byte_match(downloaded@, a, i as int, b2),
        decreases 8 - bb,
    {
        let mask: u8 = 128u8 >> (bb as u8);
        if a & mask == mask {
            let index = i * 8 + bb;
            match bit_by_index(index, downloaded) {
                Some(_) => {},
                None => {
                    proof {
                        lemma_bit_split(i as int, bb as int);
                    }
                    downloadable.push(index);
                },
            }
        }
        bb = bb + 1;
    }
}

/// Every piece the peer holds and we lack, in index order.
pub fn collect_downloadable(peer_bits: &Vec<u8>, downloaded: &Vec<u8>) -> (r: Vec<usize>)
    requires
        peer_bits@.len() * 8 + 8 <= usize::MAX,
    ensures
        forall|k: int|
            0 <= k < r@.len() ==> spec_bit(peer_bits@, (#[trigger] r@[k]) as int) && !spec_bit(
                downloaded@,
                r@[k] as int,
            ),
        (r@.len() > 0) == spec_has_useful_piece(peer_bits@, downloaded@),
{
    let mut downloadable: Vec<usize> = Vec::new();
    let mut i: usize = 0;
    while i < peer_bits.len()
        invariant
            i <= peer_bits@.len(),
            peer_bits@.len() * 8 + 8 <= usize::MAX,
            forall|k: int|
                0 <= k < downloadable@.len() ==> spec_bit(
                    peer_bits@,
                    (#[trigger] downloadable@[k]) as int,
                ) && !spec_bit(downloaded@, downloadable@[k] as int),
            downloadable@.len() == 0 ==> forall|p: int|
                0 <= p < 8 * i ==> !(spec_bit(peer_bits@, p) && !spec_bit(downloaded@, p)),
        decreases peer_bits@.len() - i,
    {
        let ghost before = downloadable@;
        let a = peer_bits[i];
        proof {
            assert(i as int * 8 + 8 <= usize::MAX) by (nonlinear_arith)
                requires
                    i < peer_bits@.len(),
                    peer_bits@.len() * 8 + 8 <= usize::MAX,
            ;
        }
        match_pieces(&mut downloadable, downloaded.as_slice(), i, a);
        i = i + 1;
        proof {
            assert forall|k: int|
                before.len() <= k < downloadable@.len() implies spec_bit(
                peer_bits@,
                (#[trigger] downloadable@[k]) as int,
            ) && !spec_bit(downloaded@, downloadable@[k] as int) by {
                let p = downloadable@[k] as int;
                let bb = p - 8 * (i - 1);
                lemma_bit_split(i - 1, bb);
                assert(spec_byte_match(downloaded@, a, i - 1, bb));
                assert(peer_bits@[p / 8] == a);
            }
            if downloadable@.len() == 0 {
                assert forall|p: int|
                    0 <= p < 8 * i implies !(spec_bit(peer_bits@, p) && !spec_bit(
                    downloaded@,
                    p,
                )) by {
                    if 8 * (i - 1) <= p {
                        let bb = p - 8 * (i - 1);
                        lemma_bit_split(i - 1, bb);
                        if spec_bit(peer_bits@, p) && !spec_bit(downloaded@, p) {
                            assert(spec_byte_match(downloaded@, a, i - 1, bb));
                        }
                    }
                }
            }
        }
    }
    proof {
        if downloadable@.len() > 0 {
            let p = downloadable@[0] as int;
            assert(spec_bit(peer_bits@, p) && !spec_bit(downloaded@, p));
        }
        if spec_has_useful_piece(peer_bits@, downloaded@) && downloadable@.len() == 0 {
            let p = choose|p: int|
                0 <= p && spec_bit(peer_bits@, p) && !spec_bit(downloaded@, p);
            assert(p / 8 < peer_bits@.len());
            assert(p < 8 * peer_bits@.len()) by (nonlinear_arith)
                requires
                    p / 8 < peer_bits@.len(),
                    0 <= p,
                    p % 8 < 8,
                    p == 8 * (p / 8) + p % 8,
            ;
            assert(false);
        }
    }
    downloadable
}

/// Replacing one entry while keeping its id and assignment preserves the
/// controller's peer-list facts.
proof fn lemma_entry_update_wf(p1: Seq<PeerEntry>, p2: Seq<PeerEntry>, ix: int)
    requires
        0 <= ix < p1.len(),
        p2.len() == p1.len(),
        forall|i: int| 0 <= i < p1.len() && i != ix ==> p2[i] == p1[i],
        p2[ix].id == p1[ix].id,
        spec_downloading(p2[ix]) == spec_downloading(p1[ix]) || spec_downloading(p2[ix]) is None,
    ensures
        forall|i: int| 0 <= i < p2.len() ==> (#[trigger] p2[i]).id == p1[i].id,
        spec_ids_unique(p1) ==> spec_ids_unique(p2),
        spec_assignment_at_most_once(p1) ==> spec_assignment_at_most_once(p2),
        forall|count: int|
            #[trigger] spec_assignments_in_range(p1, count) ==> spec_assignments_in_range(
                p2,
                count,
            ),
{
    if spec_assignment_at_most_once(p1) {
        assert forall|i: int, j: int|
            0 <= i < p2.len() && 0 <= j < p2.len() && i != j && spec_downloading(
                #[trigger] p2[i],
            ) is Some && spec_downloading(#[trigger] p2[j]) is Some implies spec_downloading(
            p2[i],
        ) != spec_downloading(p2[j]) by {
            assert(spec_downloading(p2[i]) is Some ==> spec_downloading(p2[i])
                == spec_downloading(p1[i]));
            assert(spec_downloading(p2[j]) is Some ==> spec_downloading(p2[j])
                == spec_downloading(p1[j]));
        }
    }
    assert forall|count: int|
        #[trigger] spec_assignments_in_range(p1, count) implies spec_assignments_in_range(
        p2,
        count,
    ) by {
        assert forall|i: int|
            0 <= i < p2.len() && spec_downloading(#[trigger] p2[i]) is Some implies spec_downloading(
            p2[i],
        ).unwrap() < count by {
            assert(spec_downloading(p2[i]) == spec_downloading(p1[i]));
            assert(spec_assignments_in_range(p1, count));
            assert(spec_downloading(p1[i]) is Some);
        }
    }
}

/// Removing one entry preserves the controller's peer-list facts.
proof fn lemma_entry_remove_wf(p1: Seq<PeerEntry>, p2: Seq<PeerEntry>, ix: int)
    requires
        0 <= ix < p1.len(),
        p2 == p1.remove(ix),
    ensures
        p2.len() == p1.len() - 1,
        forall|i: int|
            0 <= i < p2.len() ==> #[trigger] p2[i] == (if i < ix {
                p1[i]
            } else {
                p1[i + 1]
            }),
        spec_ids_unique(p1) ==> spec_ids_unique(p2),
        spec_assignment_at_most_once(p1) ==> spec_assignment_at_most_once(p2),
        forall|count: int|
            #[trigger] spec_assignments_in_range(p1, count) ==> spec_assignments_in_range(
                p2,
                count,
            ),
{
    assert forall|count: int|
        #[trigger] spec_assignments_in_range(p1, count) implies spec_assignments_in_range(
        p2,
        count,
    ) by {
        assert forall|i: int|
            0 <= i < p2.len() && spec_downloading(#[trigger] p2[i]) is Some implies spec_downloading(
            p2[i],
        ).unwrap() < count by {
            if i < ix {
                assert(p2[i] == p1[i]);
            } else {
                assert(p2[i] == p1[i + 1]);
            }
        }
    }
}

/// Do two peers have the same address?
fn peer_addr_equal(a: &Peer, b: &Peer) -> (r: bool)
    ensures
        r == (*a == *b),
{
    let ip_equal = a.ip[0] == b.ip[0] && a.ip[1] == b.ip[1] && a.ip[2] == b.ip[2] && a.ip[3]
        == b.ip[3];
    if ip_equal && a.port == b.port {
        proof {
            assert(a.ip@ =~= b.ip@);
            assert(a.ip == b.ip);
        }
        true
    } else {
        false
    }
}

/// The decision on an outbound handshake reply: proceed exactly when the
/// reply is a well-formed handshake that carries our info hash; any other
/// reply fails the connection.
pub fn check_handshake_reply(reply: &[u8], info_hash: &Vec<u8>) -> (r: bool)
    ensures
        r == (spec_handshake_prefix_ok(reply@) && reply@.subrange(28, 48) == info_hash@),
{
    match parse_handshake(reply) {
        Some(hs) => bytes_equal(hs.info_hash.as_slice(), info_hash.as_slice()),
        None => false,
    }
}

} // verus!
