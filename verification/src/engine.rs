//! Engine-level command handling.
//!
//! The engine owns the list of torrents. It adds torrents, lists them,
//! routes an inbound handshake to the torrent with the matching info
//! hash, and starts, stops or deletes a torrent by id. The surrounding
//! loop reads commands from its channels and calls these handlers.

use vstd::prelude::*;

use crate::info::TorrentInfo;
use crate::message::{build_handshake, spec_handshake, Handshake};
use crate::storage::{bytes_equal, RsbtError, TorrentStorageState};
use crate::SHA1_SIZE;

verus! {

/// Everything fixed about one torrent while it runs.
#[derive(Debug, Clone)]
pub struct TorrentProcess {
    pub hash_id: Vec<u8>,
    pub peer_id: Vec<u8>,
    pub handshake: Vec<u8>,
    pub info: TorrentInfo,
}

impl TorrentProcess {
    /// Both ids are 20 bytes and the stored handshake is the one computed
    /// from them.
    pub open spec fn wf(&self) -> bool {
        &&& self.hash_id@.len() == SHA1_SIZE
        &&& self.peer_id@.len() == SHA1_SIZE
        &&& self.handshake@ == spec_handshake(self.hash_id@, self.peer_id@)
    }

    /// Builds the process for a torrent: the 68-byte handshake is
    /// computed once here.
    pub fn new(info: TorrentInfo, hash_id: Vec<u8>, peer_id: Vec<u8>) -> (r: Self)
        requires
            hash_id@.len() == SHA1_SIZE,
            peer_id@.len() == SHA1_SIZE,
        ensures
            r.wf(),
            r.hash_id@ == hash_id@,
            r.peer_id@ == peer_id@,
            r.info == info,
    {
        let handshake = build_handshake(&hash_id, &peer_id);
        TorrentProcess { hash_id, peer_id, handshake, info }
    }
}

/// Is a torrent active or paused?
#[derive(Debug, PartialEq, Eq, Structural, Clone, Copy)]
pub enum TorrentDownloadStatus {
    Enabled,
    Disabled,
}

/// How one torrent is persisted: its file name and whether it runs.
#[derive(Debug, PartialEq, Clone)]
pub struct TorrentDownloadHeader {
    pub file: String,
    pub state: TorrentDownloadStatus,
}

/// The payload of an add-torrent command: the metadata file's bytes, its
/// name, and whether to start it at once.
#[derive(Debug)]
pub struct RsbtCommandAddTorrent {
    pub data: Vec<u8>,
    pub filename: String,
    pub state: TorrentDownloadStatus,
}

/// What a torrent looks like to the listing surface.
#[derive(Debug, PartialEq, Clone)]
pub struct TorrentDownloadView {
    pub id: usize,
    pub name: String,
    pub received: usize,
    pub uploaded: usize,
    pub length: usize,
    pub active: bool,
}

/// One running torrent, as the engine sees it.
#[derive(Debug, Clone)]
pub struct TorrentDownload {
    pub id: usize,
    pub name: String,
    pub header: TorrentDownloadHeader,
    pub process: TorrentProcess,
    pub storage_state: TorrentStorageState,
}

/// The view a torrent presents to the listing surface: bytes written to
/// disk count as received, bytes read back for peers count as uploaded.
pub open spec fn spec_view_of(torrent: TorrentDownload) -> TorrentDownloadView {
    TorrentDownloadView {
        id: torrent.id,
        name: torrent.name,
        received: torrent.storage_state.bytes_write as usize,
        uploaded: torrent.storage_state.bytes_read as usize,
        length: torrent.process.info.length,
        active: torrent.header.state == TorrentDownloadStatus::Enabled,
    }
}

impl TorrentDownload {
    /// The torrent's row in a listing.
    pub fn view_row(&self) -> (r: TorrentDownloadView)
        ensures
            r == spec_view_of(*self),
    {
        TorrentDownloadView {
            id: self.id,
            name: self.name.clone(),
            received: #[verifier::truncate] (self.storage_state.bytes_write as usize),
            uploaded: #[verifier::truncate] (self.storage_state.bytes_read as usize),
            length: self.process.info.length,
            active: match self.header.state {
                TorrentDownloadStatus::Enabled => true,
                TorrentDownloadStatus::Disabled => false,
            },
        }
    }
}

/// What a start, stop or delete command asks of one torrent.
#[derive(Debug, PartialEq, Eq, Structural, Clone, Copy)]
pub enum TorrentAction {
    Start,
    Stop,
    Delete,
}

/// The engine's state: every known torrent and the next fresh id.
pub struct DownloadEventsState {
    torrents: Vec<TorrentDownload>,
    next_id: usize,
}

/// Does the torrent at `i` match the info hash?
pub open spec fn spec_hash_matches(torrents: Seq<TorrentDownload>, i: int, hash: Seq<u8>) -> bool {
    0 <= i < torrents.len() && torrents[i].process.hash_id@ == hash
}

impl DownloadEventsState {
    /// The known torrents.
    pub closed spec fn spec_torrents(&self) -> Seq<TorrentDownload> {
        self.torrents@
    }

    /// The next id to hand out; every listed torrent's id is below it.
    pub closed spec fn spec_next_id(&self) -> usize {
        self.next_id
    }

    /// Torrent ids are unique and below the next fresh id, and every
    /// process is well formed.
    pub closed spec fn wf(&self) -> bool {
        &&& forall|i: int, j: int|
            0 <= i < self.torrents@.len() && 0 <= j < self.torrents@.len() && i != j ==> (
            #[trigger] self.torrents@[i]).id != (#[trigger] self.torrents@[j]).id
        &&& forall|i: int|
            0 <= i < self.torrents@.len() ==> (#[trigger] self.torrents@[i]).id < self.next_id
        &&& forall|i: int|
            0 <= i < self.torrents@.len() ==> (#[trigger] self.torrents@[i]).process.wf()
    }

    /// An engine with no torrent yet.
    pub fn new() -> (r: Self)
        ensures
            r.wf(),
            r.spec_torrents().len() == 0,
    {
        DownloadEventsState { torrents: Vec::new(), next_id: 0 }
    }

    /// Adds a torrent under a fresh id and returns that id.
    pub fn add_torrent(
        &mut self,
        filename: String,
        state: TorrentDownloadStatus,
        process: TorrentProcess,
    ) -> (r: Option<usize>)
        requires
            old(self).wf(),
            process.wf(),
        ensures
            final(self).wf(),
            r is None <==> old(self).spec_next_id() == usize::MAX,
            match r {
                Some(id) => {
                    &&& id == old(self).spec_next_id()
                    &&& forall|i: int|
                        0 <= i < old(self).spec_torrents().len() ==> (#[trigger] old(self).spec_torrents()[i]).id < id
                    &&& final(self).spec_torrents().len() == old(self).spec_torrents().len() + 1
                    &&& final(self).spec_torrents().last().id == id
                    &&& final(self).spec_torrents().last().process == process
                    &&& final(self).spec_torrents().last().header.state == state
                    &&& final(self).spec_torrents().last().header.file@ == filename@
                    &&& forall|i: int|
                        0 <= i < old(self).spec_torrents().len() ==> final(self).spec_torrents()[i]
                            == old(self).spec_torrents()[i]
                },
                None => *final(self) == *old(self),
            },
    {
        if self.next_id == usize::MAX {
            return None;
        }
        let id = self.next_id;
        self.next_id = id + 1;
        let name = filename.clone();
        let pieces_count = process.info.pieces.len();
        let bitfield_len = crate::count_parts(pieces_count, 8);
        let torrent = TorrentDownload {
            id,
            name,
            header: TorrentDownloadHeader { file: filename, state },
            process,
            storage_state: TorrentStorageState {
                downloaded: vec![0u8; bitfield_len],
                pieces_left: pieces_count,
                bytes_read: 0,
                bytes_write: 0,
            },
        };
        self.torrents.push(torrent);
        Some(id)
    }

    /// Remembers the latest storage snapshot a torrent published: the
    /// torrent with `id` carries exactly the given snapshot afterwards,
    /// and an unknown id changes nothing.
    pub fn update_storage_state(&mut self, id: usize, state: TorrentStorageState)
        requires
            old(self).wf(),
        ensures
            final(self).wf(),
            (forall|i: int|
                0 <= i < old(self).spec_torrents().len() ==> (#[trigger] old(self).spec_torrents()[i]).id != id) ==> *final(self) == *old(self),
            forall|ix: int|
                0 <= ix < old(self).spec_torrents().len() && (#[trigger] old(self).spec_torrents()[ix]).id == id ==> final(self).spec_torrents() == old(
                    self,
                ).spec_torrents().update(
                    ix,
                    TorrentDownload { storage_state: state, ..old(self).spec_torrents()[ix] },
                ),
    {
        let ix = match self.find_torrent(id) {
            Some(ix) => ix,
            None => {
                return ;
            },
        };
        proof {
            assert forall|i: int|
                0 <= i < self.torrents@.len() && (#[trigger] self.torrents@[i]).id
                    == id implies i == ix as int by {
                if i != ix as int {
                    assert(self.torrents@[i].id != self.torrents@[ix as int].id);
                }
            }
        }
        let entry = &mut self.torrents[ix];
        entry.storage_state = state;
    }

    /// Where torrent `id` stands in the list.
    fn find_torrent(&self, id: usize) -> (r: Option<usize>)
        ensures
            match r {
                Some(ix) => ix < self.spec_torrents().len() && self.spec_torrents()[ix as int].id
                    == id,
                None => forall|i: int|
                    0 <= i < self.spec_torrents().len() ==> (#[trigger] self.spec_torrents()[i]).id
                        != id,
            },
    {
        let mut i: usize = 0;
        while i < self.torrents.len()
            invariant
                i <= self.torrents@.len(),
                forall|k: int| 0 <= k < i ==> (#[trigger] self.torrents@[k]).id != id,
            decreases self.torrents@.len() - i,
        {
            if self.torrents[i].id == id {
                return Some(i);
            }
            i = i + 1;
        }
        None
    }

    /// Routes an inbound handshake: the process of the first torrent
    /// whose info hash is the handshake's (no earlier torrent matches),
    /// or nothing — then the caller closes the connection and no peer
    /// state is made.
    pub fn torrent_handshake(&self, handshake_request: &Handshake) -> (r: Option<&TorrentProcess>)
        ensures
            match r {
                Some(process) => exists|i: int|
                    spec_hash_matches(
                        self.spec_torrents(),
                        i,
                        handshake_request.info_hash@,
                    ) && *process == (#[trigger] self.spec_torrents()[i]).process && (forall|
                        j: int,
                    |
                        0 <= j < i ==> !spec_hash_matches(
                            self.spec_torrents(),
                            j,
                            handshake_request.info_hash@,
                        )),
                None => forall|i: int|
                    !#[trigger] spec_hash_matches(
                        self.spec_torrents(),
                        i,
                        handshake_request.info_hash@,
                    ),
            },
    {
        let mut i: usize = 0;
        while i < self.torrents.len()
            invariant
                i <= self.torrents@.len(),
                forall|k: int|
                    0 <= k < i ==> !#[trigger] spec_hash_matches(
                        self.spec_torrents(),
                        k,
                        handshake_request.info_hash@,
                    ),
            decreases self.torrents@.len() - i,
        {
            if bytes_equal(
                self.torrents[i].process.hash_id.as_slice(),
                handshake_request.info_hash.as_slice(),
            ) {
                return Some(&self.torrents[i].process);
            }
            i = i + 1;
        }
        None
    }

    /// A listing of every torrent, in order.
    pub fn torrent_list(&self) -> (r: Vec<TorrentDownloadView>)
        ensures
            r@.len() == self.spec_torrents().len(),
            forall|i: int|
                0 <= i < r@.len() ==> #[trigger] r@[i] == spec_view_of(self.spec_torrents()[i]),
    {
        let mut views: Vec<TorrentDownloadView> = Vec::new();
        let mut i: usize = 0;
        while i < self.torrents.len()
            invariant
                i <= self.torrents@.len(),
                views@.len() == i,
                forall|k: int|
                    0 <= k < i ==> #[trigger] views@[k] == spec_view_of(self.spec_torrents()[k]),
            decreases self.torrents@.len() - i,
        {
            views.push(self.torrents[i].view_row());
            i = i + 1;
        }
        views
    }

    /// Starts, stops or deletes torrent `id`. An unknown id is reported
    /// and changes nothing.
    pub fn torrent_action(&mut self, id: usize, action: TorrentAction) -> (r: Result<
        (),
        RsbtError,
    >)
        requires
            old(self).wf(),
        ensures
            final(self).wf(),
            (forall|i: int|
                0 <= i < old(self).spec_torrents().len() ==> (#[trigger] old(self).spec_torrents()[i]).id != id) ==> r
                == Result::<(), RsbtError>::Err(RsbtError::TorrentNotFound) && *final(self) == *old(
                self,
            ),
            forall|ix: int|
                0 <= ix < old(self).spec_torrents().len() && (#[trigger] old(self).spec_torrents()[ix]).id == id ==> r
                    == Result::<(), RsbtError>::Ok(()) && match action {
                    TorrentAction::Start => final(self).spec_torrents() == old(
                        self,
                    ).spec_torrents().update(
                        ix,
                        TorrentDownload {
                            header: TorrentDownloadHeader {
                                state: TorrentDownloadStatus::Enabled,
                                ..old(self).spec_torrents()[ix].header
                            },
                            ..old(self).spec_torrents()[ix]
                        },
                    ),
                    TorrentAction::Stop => final(self).spec_torrents() == old(
                        self,
                    ).spec_torrents().update(
                        ix,
                        TorrentDownload {
                            header: TorrentDownloadHeader {
                                state: TorrentDownloadStatus::Disabled,
                                ..old(self).spec_torrents()[ix].header
                            },
                            ..old(self).spec_torrents()[ix]
                        },
                    ),
                    TorrentAction::Delete => final(self).spec_torrents() == old(
                        self,
                    ).spec_torrents().remove(ix),
                },
    {
        let ix = match self.find_torrent(id) {
            Some(ix) => ix,
            None => {
                return Err(RsbtError::TorrentNotFound);
            },
        };
        proof {
            assert forall|i: int|
                0 <= i < self.torrents@.len() && (#[trigger] self.torrents@[i]).id
                    == id implies i == ix as int by {
                if i != ix as int {
                    assert(self.torrents@[i].id != self.torrents@[ix as int].id);
                }
            }
        }
        match action {
            TorrentAction::Start => {
                let entry = &mut self.torrents[ix];
                entry.header.state = TorrentDownloadStatus::Enabled;
            },
            TorrentAction::Stop => {
                let entry = &mut self.torrents[ix];
                entry.header.state = TorrentDownloadStatus::Disabled;
            },
            TorrentAction::Delete => {
                self.torrents.remove(ix);
                proof {
                    assert forall|i: int, j: int|
                        0 <= i < self.torrents@.len() && 0 <= j < self.torrents@.len() && i
                            != j implies (#[trigger] self.torrents@[i]).id != (
                    #[trigger] self.torrents@[j]).id by {
                        let f = |k: int|
                            if k < ix as int {
                                k
                            } else {
                                k + 1
                            };
                        assert(self.torrents@[i] == old(self).spec_torrents()[f(i)]);
                        assert(self.torrents@[j] == old(self).spec_torrents()[f(j)]);
                    }
                }
            },
        }
        Ok(())
    }
}

} // verus!
