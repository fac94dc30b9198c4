//! Torrent storage state.
//!
//! [`TorrentStorage`] owns the backing files, the downloaded-pieces
//! bitfield and the byte counters. A delivered piece is saved only after
//! its SHA-1 digest matches the torrent's piece table; a piece that fails
//! verification changes nothing.

use vstd::prelude::*;

use sha1::Digest;

use crate::flat_storage::{
    spec_piece_bytes, FlatStorage, FlatStorageError, FlatStoragePieceIndex, VecFlatStorage,
};
use crate::info::{Piece, TorrentInfo};
use crate::mapping::{piece_size_sum, FileBlockView};
use crate::message::{bit_by_index, set_bit, spec_bit};

verus! {

/// What can go wrong while a torrent runs.
#[derive(Debug, PartialEq, Eq, Structural, Clone, Copy)]
pub enum RsbtError {
    PieceVerification,
    InvalidRange,
    TorrentNotFound,
    Storage(FlatStorageError),
}

/// The SHA-1 digest of a byte string.
pub uninterp spec fn sha1_of(bytes: Seq<u8>) -> Seq<u8>;

/// Relies on sha1::Sha1 through the Digest trait: computes the 20-byte
/// SHA-1 digest of the input, a function of those bytes alone.
#[verifier::external_body]
fn sha1_digest(data: &[u8]) -> (r: Vec<u8>)
    ensures
        r@ == sha1_of(data@),
        r@.len() == crate::SHA1_SIZE,
{
    let mut hasher = sha1::Sha1::new();
    hasher.update(data);
    hasher.finalize().to_vec()
}

/// Are two byte strings equal?
pub fn bytes_equal(a: &[u8], b: &[u8]) -> (r: bool)
    ensures
        r == (a@ == b@),
{
    if a.len() != b.len() {
        return false;
    }
    let mut i: usize = 0;
    while i < a.len()
        invariant
            a@.len() == b@.len(),
            i <= a@.len(),
            forall|k: int| 0 <= k < i ==> a@[k] == b@[k],
        decreases a@.len() - i,
    {
        if a[i] != b[i] {
            return false;
        }
        i = i + 1;
    }
    proof {
        assert(a@ =~= b@);
    }
    true
}

/// Observable snapshot of a torrent's storage: the downloaded-pieces
/// bitfield, how many pieces are still missing, and the byte counters.
#[derive(Debug, PartialEq, Clone)]
pub struct TorrentStorageState {
    pub downloaded: Vec<u8>,
    pub pieces_left: usize,
    pub bytes_read: u64,
    pub bytes_write: u64,
}

/// How many of the first `n` pieces the bitfield still misses.
pub open spec fn spec_missing_count(bits: Seq<u8>, n: int) -> int
    decreases n,
{
    if n <= 0 {
        0
    } else {
        spec_missing_count(bits, n - 1) + if spec_bit(bits, n - 1) {
            0int
        } else {
            1int
        }
    }
}

/// The missing count never exceeds the piece count and never drops below
/// zero.
pub proof fn lemma_missing_count_bounds(bits: Seq<u8>, n: int)
    requires
        0 <= n,
    ensures
        0 <= spec_missing_count(bits, n) <= n,
    decreases n,
{
    if n > 0 {
        lemma_missing_count_bounds(bits, n - 1);
    }
}

/// Setting one missing bit lowers the missing count by exactly one.
proof fn lemma_missing_count_set(bits1: Seq<u8>, bits2: Seq<u8>, n: int, i: int)
    requires
        0 <= i < n,
        !spec_bit(bits1, i),
        spec_bit(bits2, i),
        forall|j: int| 0 <= j && j != i ==> spec_bit(bits2, j) == spec_bit(bits1, j),
    ensures
        spec_missing_count(bits2, n) == spec_missing_count(bits1, n) - 1,
    decreases n,
{
    if n - 1 == i {
        lemma_missing_count_same(bits1, bits2, n - 1, i);
    } else {
        lemma_missing_count_set(bits1, bits2, n - 1, i);
    }
}

/// Two bitfields that agree below `n` have the same missing count there.
proof fn lemma_missing_count_same(bits1: Seq<u8>, bits2: Seq<u8>, n: int, i: int)
    requires
        forall|j: int| 0 <= j && j != i ==> spec_bit(bits2, j) == spec_bit(bits1, j),
        n <= i,
    ensures
        spec_missing_count(bits2, n) == spec_missing_count(bits1, n),
    decreases n,
{
    if n > 0 {
        lemma_missing_count_same(bits1, bits2, n - 1, i);
    }
}

/// A bitfield missing piece `i` misses at least one of the first `n`
/// pieces.
proof fn lemma_missing_count_at_least_one(bits: Seq<u8>, n: int, i: int)
    requires
        0 <= i < n,
        !spec_bit(bits, i),
    ensures
        1 <= spec_missing_count(bits, n),
    decreases n,
{
    if i < n - 1 {
        lemma_missing_count_at_least_one(bits, n - 1, i);
    } else {
        lemma_missing_count_bounds(bits, n - 1);
    }
}

/// In an all-zero bitfield no bit is set.
pub proof fn lemma_zero_bits_clear(bits: Seq<u8>, i: int)
    requires
        forall|b: int| 0 <= b < bits.len() ==> #[trigger] bits[b] == 0u8,
        0 <= i,
    ensures
        !spec_bit(bits, i),
{
    if i / 8 < bits.len() {
        let k = (i % 8) as u8;
        assert(k < 8);
        assert(0u8 & (128u8 >> k) != (128u8 >> k)) by (bit_vector)
            requires
                k < 8,
        ;
    }
}

/// A bitfield with no bit set misses every piece.
proof fn lemma_missing_count_full(bits: Seq<u8>, n: int)
    requires
        0 <= n,
        forall|b: int| 0 <= b < bits.len() ==> #[trigger] bits[b] == 0u8,
    ensures
        spec_missing_count(bits, n) == n,
    decreases n,
{
    if n > 0 {
        lemma_zero_bits_clear(bits, n - 1);
        lemma_missing_count_full(bits, n - 1);
    }
}

/// `a + b`, stopping at the largest counter value.
pub open spec fn spec_sat_add64(a: u64, b: u64) -> u64 {
    if a + b > u64::MAX {
        u64::MAX
    } else {
        (a + b) as u64
    }
}

/// The last piece of a torrent holds what the tiling leaves for it.
pub proof fn lemma_last_piece_length(total: int, piece_length: int)
    requires
        1 <= piece_length,
        1 <= total,
    ensures
        crate::info::spec_last_piece_length(total, piece_length) == total - (crate::spec_count_parts(
            total,
            piece_length,
        ) - 1) * piece_length,
        1 <= crate::info::spec_last_piece_length(total, piece_length) <= piece_length,
{
    crate::lemma_count_parts(total, piece_length);
    vstd::arithmetic::div_mod::lemma_fundamental_div_mod(total, piece_length);
    let q = total / piece_length;
    let r = total % piece_length;
    assert(0 <= r < piece_length) by {
        vstd::arithmetic::div_mod::lemma_mod_bound(total, piece_length);
    }
    if r == 0 {
        assert(1 <= q) by (nonlinear_arith)
            requires
                total == piece_length * q,
                1 <= total,
                1 <= piece_length,
        ;
        assert(total - (q - 1) * piece_length == piece_length) by (nonlinear_arith)
            requires
                total == piece_length * q,
        ;
    } else {
        assert(total - q * piece_length == r) by (nonlinear_arith)
            requires
                total == piece_length * q + r,
        ;
    }
}

/// Bit `i` of a bitfield of `⌈n / 8⌉` bytes lies inside the bitfield.
pub proof fn lemma_bit_byte_in_bounds(n: int, i: int)
    requires
        0 <= i < n,
    ensures
        i / 8 < crate::spec_count_parts(n, 8),
{
    crate::lemma_count_parts(n, 8);
    vstd::arithmetic::div_mod::lemma_fundamental_div_mod(n, 8);
    vstd::arithmetic::div_mod::lemma_fundamental_div_mod(i, 8);
    let q = n / 8;
    let r = n % 8;
    assert(0 <= r < 8) by {
        vstd::arithmetic::div_mod::lemma_mod_bound(n, 8);
    }
    assert(0 <= i % 8 < 8) by {
        vstd::arithmetic::div_mod::lemma_mod_bound(i, 8);
    }
    if r == 0 {
        assert(i / 8 < q) by (nonlinear_arith)
            requires
                i < n,
                n == 8 * q,
                i == 8 * (i / 8) + i % 8,
                0 <= i % 8 < 8,
        ;
    } else {
        assert(i / 8 < q + 1) by (nonlinear_arith)
            requires
                i < n,
                n == 8 * q + r,
                0 <= r < 8,
                i == 8 * (i / 8) + i % 8,
                0 <= i % 8 < 8,
        ;
    }
}

/// Owns a torrent's backing files and its download progress. Pieces go in
/// only through [`TorrentStorage::save`], which verifies their digest.
pub struct TorrentStorage {
    storage: VecFlatStorage,
    pieces: Vec<Piece>,
    piece_length: usize,
    last_piece_length: usize,
    state: TorrentStorageState,
}

impl TorrentStorage {
    /// The expected digests, one per piece.
    pub closed spec fn spec_digests(&self) -> Seq<Seq<u8>> {
        self.pieces@.map_values(|p: Piece| p@)
    }

    /// How many pieces the torrent has.
    pub closed spec fn spec_pieces_count(&self) -> int {
        self.pieces@.len() as int
    }

    /// The bytes every piece is declared to hold.
    pub closed spec fn spec_piece_len(&self, index: int) -> int {
        if index == self.spec_pieces_count() - 1 {
            self.last_piece_length as int
        } else {
            self.piece_length as int
        }
    }

    /// The downloaded-pieces bitfield.
    pub closed spec fn spec_downloaded(&self) -> Seq<u8> {
        self.state.downloaded@
    }

    /// The observable snapshot.
    pub closed spec fn spec_state(&self) -> TorrentStorageState {
        self.state
    }

    /// The bytes of each backing file.
    pub closed spec fn spec_files_data(&self) -> Seq<Seq<u8>> {
        self.storage.files_data()
    }

    /// The piece-to-file mapping of the backing files.
    pub closed spec fn spec_piece_map(&self) -> Seq<Seq<FileBlockView>> {
        self.storage.piece_map()
    }

    /// The bytes piece `index` holds on disk right now.
    pub open spec fn spec_piece_bytes_at(&self, index: int) -> Seq<u8> {
        spec_piece_bytes(self.spec_files_data(), self.spec_piece_map()[index])
    }

    /// The storage's invariant: the mapping agrees with the piece table,
    /// the counters agree with the bitfield, and every piece whose bit is
    /// set holds bytes whose digest is the piece table's.
    pub closed spec fn wf(&self) -> bool {
        &&& self.storage.wf()
        &&& 1 <= self.piece_length
        &&& 1 <= self.last_piece_length <= self.piece_length
        &&& self.storage.piece_map().len() == self.pieces@.len()
        &&& forall|i: int|
            0 <= i < self.pieces@.len() ==> piece_size_sum(#[trigger] self.storage.piece_map()[i])
                == self.spec_piece_len(i)
        &&& forall|i: int| 0 <= i < self.pieces@.len() ==> (#[trigger] self.pieces@[i]).wf()
        &&& forall|i: int|
            0 <= i < self.pieces@.len() ==> #[trigger] (i / 8) < self.state.downloaded@.len()
        &&& self.state.pieces_left as int == spec_missing_count(
            self.state.downloaded@,
            self.pieces@.len() as int,
        )
        &&& self.state.bytes_write as int <= (self.pieces@.len() as int
            - self.state.pieces_left as int) * self.piece_length as int
        &&& self.pieces@.len() as int * self.piece_length as int <= u64::MAX
        &&& self.piece_length <= u32::MAX
        &&& forall|i: int|
            0 <= i < self.pieces@.len() && spec_bit(self.state.downloaded@, i) ==> sha1_of(
                #[trigger] spec_piece_bytes(self.storage.files_data(), self.storage.piece_map()[i]),
            ) == self.spec_digests()[i]
    }

    /// Builds the storage for a normalized torrent: zero-filled backing
    /// files, an all-clear bitfield, and every piece still missing.
    pub fn new(info: TorrentInfo) -> (r: Self)
        requires
            info.wf(),
            1 <= info.length,
            info.pieces@.len() as int == crate::spec_count_parts(
                info.length as int,
                info.piece_length as int,
            ),
            info.pieces@.len() as int * info.piece_length as int <= u64::MAX,
            info.piece_length <= u32::MAX,
        ensures
            r.wf(),
            r.spec_pieces_count() == info.pieces@.len(),
            r.spec_digests() == info.pieces@.map_values(|p: Piece| p@),
            r.spec_state().pieces_left == info.pieces@.len(),
            r.spec_state().bytes_read == 0,
            r.spec_state().bytes_write == 0,
            forall|j: int| 0 <= j ==> !spec_bit(r.spec_downloaded(), j),
    {
        let ghost lengths = crate::mapping::file_lengths(info.files@);
        let pieces_count = info.pieces.len();
        let piece_length = info.piece_length;
        let last_piece_length = info.last_piece_length;
        let storage = VecFlatStorage::create(piece_length, info.files);
        let bitfield_len = crate::count_parts(pieces_count, 8);
        let downloaded = vec![0u8; bitfield_len];
        let state = TorrentStorageState {
            downloaded,
            pieces_left: pieces_count,
            bytes_read: 0,
            bytes_write: 0,
        };
        let r = TorrentStorage {
            storage,
            pieces: info.pieces,
            piece_length,
            last_piece_length,
            state,
        };
        proof {
            assert(forall|i: int|
                0 <= i < lengths.len() ==> 0 <= #[trigger] lengths[i]);
            assert(crate::mapping::seq_sum(lengths) == info.length as int);
            crate::mapping::lemma_map_pieces_tiling(piece_length as int, lengths);
            lemma_last_piece_length(info.length as int, piece_length as int);
            let m = r.storage.piece_map();
            assert(m.len() == r.pieces@.len());
            assert forall|i: int| 0 <= i < r.pieces@.len() implies piece_size_sum(#[trigger] m[i])
                == r.spec_piece_len(i) by {
                if i == m.len() - 1 {
                    assert(m.last() == m[i]);
                }
            }
            assert forall|i: int| 0 <= i < r.pieces@.len() implies #[trigger] (i / 8)
                < r.state.downloaded@.len() by {
                lemma_bit_byte_in_bounds(r.pieces@.len() as int, i);
            }
            lemma_missing_count_full(r.state.downloaded@, r.pieces@.len() as int);
            assert forall|j: int| 0 <= j implies !spec_bit(r.spec_downloaded(), j) by {
                lemma_zero_bits_clear(r.state.downloaded@, j);
            }
            assert forall|i: int|
                0 <= i < r.pieces@.len() && spec_bit(r.state.downloaded@, i) implies sha1_of(
                #[trigger] spec_piece_bytes(r.storage.files_data(), r.storage.piece_map()[i]),
            ) == r.spec_digests()[i] by {
                lemma_zero_bits_clear(r.state.downloaded@, i);
            }
            let c = r.pieces@.len() as int;
            assert((c - c) * r.piece_length as int == 0) by (nonlinear_arith);
        }
        r
    }

    /// Reads `length` bytes of piece `index` starting at `begin`, for
    /// serving a peer's request, and counts them as read. A request
    /// outside the torrent is refused and changes nothing.
    pub fn load(&mut self, index: usize, begin: u32, length: u32) -> (r: Result<Vec<u8>, RsbtError>)
        requires
            old(self).wf(),
        ensures
            final(self).wf(),
            final(self).spec_pieces_count() == old(self).spec_pieces_count(),
            final(self).spec_digests() == old(self).spec_digests(),
            final(self).spec_piece_map() == old(self).spec_piece_map(),
            final(self).spec_files_data() == old(self).spec_files_data(),
            final(self).spec_downloaded() == old(self).spec_downloaded(),
            final(self).spec_state().pieces_left == old(self).spec_state().pieces_left,
            final(self).spec_state().bytes_write == old(self).spec_state().bytes_write,
            match r {
                Ok(bytes) => {
                    &&& (index as int) < old(self).spec_pieces_count()
                    &&& begin as int + length as int <= old(self).spec_piece_len(index as int)
                    &&& bytes@ == old(self).spec_piece_bytes_at(index as int).subrange(
                        begin as int,
                        begin as int + length as int,
                    )
                    &&& final(self).spec_state().bytes_read == spec_sat_add64(
                        old(self).spec_state().bytes_read,
                        length as u64,
                    )
                },
                Err(e) => {
                    &&& e == RsbtError::InvalidRange
                    &&& *final(self) == *old(self)
                    &&& (index as int >= old(self).spec_pieces_count() || begin as int
                        + length as int > old(self).spec_piece_len(index as int))
                },
            },
    {
        if index >= self.pieces.len() {
            return Err(RsbtError::InvalidRange);
        }
        let expected_len = if index == self.pieces.len() - 1 {
            self.last_piece_length
        } else {
            self.piece_length
        };
        if begin as u64 + length as u64 > expected_len as u64 {
            return Err(RsbtError::InvalidRange);
        }
        let piece = match self.storage.read_piece(FlatStoragePieceIndex(index)) {
            Ok(Some(bytes)) => bytes,
            _ => {
                proof {
                    assert(false);
                }
                return Err(RsbtError::InvalidRange);
            },
        };
        proof {
            crate::flat_storage::lemma_vec_storage_piece_len(&self.storage, index as int);
        }
        let slice = vstd::slice::slice_subrange(
            piece.as_slice(),
            begin as usize,
            begin as usize + length as usize,
        );
        let bytes = vstd::slice::slice_to_vec(slice);
        if length as u64 > u64::MAX - self.state.bytes_read {
            self.state.bytes_read = u64::MAX;
        } else {
            self.state.bytes_read = self.state.bytes_read + length as u64;
        }
        Ok(bytes)
    }

    /// The observable snapshot, for publishing to observers.
    pub fn state(&self) -> (r: &TorrentStorageState)
        ensures
            *r == self.spec_state(),
    {
        &self.state
    }

    /// The downloaded-pieces bitfield.
    pub fn downloaded(&self) -> (r: &Vec<u8>)
        ensures
            r@ == self.spec_downloaded(),
    {
        &self.state.downloaded
    }

    /// How many pieces are still missing.
    pub fn pieces_left(&self) -> (r: usize)
        requires
            self.wf(),
        ensures
            r as int == spec_missing_count(self.spec_downloaded(), self.spec_pieces_count()),
    {
        self.state.pieces_left
    }

    /// The declared length of piece `index` (the last piece may be
    /// shorter).
    pub fn piece_len(&self, index: usize) -> (r: usize)
        requires
            self.wf(),
            (index as int) < self.spec_pieces_count(),
        ensures
            r as int == self.spec_piece_len(index as int),
            1 <= r <= u32::MAX,
    {
        if index == self.pieces.len() - 1 {
            self.last_piece_length
        } else {
            self.piece_length
        }
    }

    /// How many pieces the torrent has.
    pub fn pieces_count(&self) -> (r: usize)
        ensures
            r as int == self.spec_pieces_count(),
    {
        self.pieces.len()
    }

    /// Saves a delivered piece: verifies its length and SHA-1 digest
    /// against the piece table, writes it to the backing files, sets its
    /// bit and updates the counters. A piece that fails verification is
    /// discarded and nothing changes; a piece already present is ignored.
    pub fn save(&mut self, index: usize, piece: Vec<u8>) -> (r: Result<(), RsbtError>)
        requires
            old(self).wf(),
            index < old(self).spec_pieces_count(),
        ensures
            final(self).wf(),
            final(self).spec_pieces_count() == old(self).spec_pieces_count(),
            final(self).spec_digests() == old(self).spec_digests(),
            final(self).spec_piece_map() == old(self).spec_piece_map(),
            // the verification gate: a piece of the wrong length or digest
            // changes nothing and is reported
            (piece@.len() != old(self).spec_piece_len(index as int) || sha1_of(piece@) != old(
                self,
            ).spec_digests()[index as int]) ==> r == Result::<(), RsbtError>::Err(
                RsbtError::PieceVerification,
            ) && *final(self) == *old(self),
            // a piece that verifies is acknowledged
            (piece@.len() == old(self).spec_piece_len(index as int) && sha1_of(piece@) == old(
                self,
            ).spec_digests()[index as int]) ==> r == Result::<(), RsbtError>::Ok(()),
            // a duplicate changes nothing
            (piece@.len() == old(self).spec_piece_len(index as int) && sha1_of(piece@) == old(
                self,
            ).spec_digests()[index as int] && spec_bit(old(self).spec_downloaded(), index as int))
                ==> *final(self) == *old(self),
            // a verified new piece lands on disk and in the books
            (piece@.len() == old(self).spec_piece_len(index as int) && sha1_of(piece@) == old(
                self,
            ).spec_digests()[index as int] && !spec_bit(old(self).spec_downloaded(), index as int))
                ==> {
                &&& final(self).spec_piece_bytes_at(index as int) == piece@
                &&& spec_bit(final(self).spec_downloaded(), index as int)
                &&& forall|j: int|
                    0 <= j && j != index as int ==> spec_bit(final(self).spec_downloaded(), j)
                        == spec_bit(old(self).spec_downloaded(), j)
                &&& final(self).spec_state().pieces_left as int == old(
                    self,
                ).spec_state().pieces_left as int - 1
                &&& final(self).spec_state().bytes_write as int == old(
                    self,
                ).spec_state().bytes_write as int + piece@.len()
                &&& final(self).spec_state().bytes_read == old(self).spec_state().bytes_read
                &&& forall|j: int|
                    0 <= j < old(self).spec_pieces_count() && j != index as int
                        ==> final(self).spec_piece_bytes_at(j) == old(self).spec_piece_bytes_at(j)
            },
    {
        let expected_len = if index == self.pieces.len() - 1 {
            self.last_piece_length
        } else {
            self.piece_length
        };
        if piece.len() != expected_len {
            return Err(RsbtError::PieceVerification);
        }
        let digest = sha1_digest(piece.as_slice());
        if !bytes_equal(digest.as_slice(), self.pieces[index].0.as_slice()) {
            proof {
                assert(self.pieces@[index as int]@ == self.spec_digests()[index as int]);
            }
            return Err(RsbtError::PieceVerification);
        }
        if bit_by_index(index, self.state.downloaded.as_slice()).is_some() {
            return Ok(());
        }

        let ghost old_self = *self;
        let ghost piece_view = piece@;
        let piece_len = piece.len();
        match self.storage.write_piece(FlatStoragePieceIndex(index), piece) {
            Ok(u) => {
                proof {
                    assert(u == ());
                }
            },
            Err(_) => {
                proof {
                    assert(false);
                }
                return Err(RsbtError::PieceVerification);
            },
        }
        set_bit(&mut self.state.downloaded, index);
        proof {
            lemma_missing_count_bounds(old_self.state.downloaded@, self.pieces@.len() as int);
            lemma_missing_count_set(
                old_self.state.downloaded@,
                self.state.downloaded@,
                self.pieces@.len() as int,
                index as int,
            );
            assert(self.state.pieces_left >= 1) by {
                lemma_missing_count_at_least_one(
                    old_self.state.downloaded@,
                    self.pieces@.len() as int,
                    index as int,
                );
            }
        }
        self.state.pieces_left = self.state.pieces_left - 1;
        proof {
            let c = self.pieces@.len() as int;
            let l = self.state.pieces_left as int;
            let pl = self.piece_length as int;
            assert((c - l) * pl == (c - (l + 1)) * pl + pl) by (nonlinear_arith);
            assert(piece_len as int <= pl);
            assert(self.state.bytes_write as int + piece_len as int <= c * pl) by (nonlinear_arith)
                requires
                    self.state.bytes_write as int <= (c - (l + 1)) * pl,
                    piece_len as int <= pl,
                    0 <= l,
                    0 <= pl,
                    (c - l) * pl == (c - (l + 1)) * pl + pl,
                    l + 1 <= c,
            ;
        }
        self.state.bytes_write = self.state.bytes_write + piece_len as u64;
        proof {
            let c = old_self.pieces@.len() as int;
            crate::flat_storage::lemma_vec_storage_round_trip(
                &old_self.storage,
                index as int,
                piece_view,
            );
            assert forall|j: int|
                0 <= j < c && j != index as int implies #[trigger] spec_piece_bytes(
                self.storage.files_data(),
                self.storage.piece_map()[j],
            ) == spec_piece_bytes(old_self.storage.files_data(), old_self.storage.piece_map()[j]) by {
                crate::flat_storage::lemma_vec_storage_write_preserves(
                    &old_self.storage,
                    index as int,
                    piece_view,
                    j,
                );
            }
        }
        Ok(())
    }
}

} // verus!
