//! Flat storage of different sized files.
//!
//! A torrent's payload is a linear sequence of bytes split over a list of
//! backing files. A [`FlatStorage`] reads and writes whole pieces of that
//! payload; [`VecFlatStorage`] is the in-memory backend, verified against
//! the piece-to-file mapping.

use vstd::prelude::*;
use vstd::slice::SliceAdditionalExecFns;

use crate::mapping::{
    file_lengths, lemma_cross_piece_disjoint, lemma_map_pieces_wf, map_pieces_to_files,
    mapping_view, piece_size_sum, spec_map_pieces, wf_block, wf_mapping, wf_piece, FileBlockView,
    PieceToFiles,
};

verus! {

/// One backing file of a torrent: where it lives and how long it is.
#[derive(Debug, PartialEq, Clone)]
pub struct FlatStorageFile {
    pub path: String,
    pub length: usize,
}

/// Index of a piece inside a flat storage.
#[derive(Debug, PartialEq, Eq, Structural, Clone, Copy)]
pub struct FlatStoragePieceIndex(pub usize);

impl FlatStoragePieceIndex {
    /// The plain index value.
    pub fn index(&self) -> (r: usize)
        ensures
            r == self.0,
    {
        self.0
    }
}

impl From<usize> for FlatStoragePieceIndex {
    fn from(value: usize) -> (r: Self) {
        FlatStoragePieceIndex(value)
    }
}

impl vstd::std_specs::convert::FromSpecImpl<usize> for FlatStoragePieceIndex {
    open spec fn obeys_from_spec() -> bool {
        true
    }

    open spec fn from_spec(value: usize) -> Self {
        FlatStoragePieceIndex(value)
    }
}

/// What can go wrong inside a flat storage.
#[derive(Debug, PartialEq, Eq, Structural, Clone, Copy)]
pub enum FlatStorageError {
    AllocateFile,
    ReadBlock,
    WriteBlock,
}

/// The bytes of one piece: the concatenation, in order, of the file slices
/// its blocks point at.
pub open spec fn spec_piece_bytes(data: Seq<Seq<u8>>, p: Seq<FileBlockView>) -> Seq<u8>
    decreases p.len(),
{
    if p.len() == 0 {
        Seq::empty()
    } else {
        spec_piece_bytes(data, p.drop_last()) + data[p.last().file_index].subrange(
            p.last().file_offset,
            p.last().file_offset + p.last().size,
        )
    }
}

/// Does block `k` of piece `p` cover byte `pos` of file `f`?
pub open spec fn block_covers(p: Seq<FileBlockView>, k: int, f: int, pos: int) -> bool {
    &&& 0 <= k < p.len()
    &&& p[k].file_index == f
    &&& p[k].file_offset <= pos < p[k].file_offset + p[k].size
}

/// Byte `pos` of file `f` after the first `n` blocks of piece `p` have
/// been written from the piece buffer `block`.
pub open spec fn spec_written_byte(
    data: Seq<Seq<u8>>,
    p: Seq<FileBlockView>,
    block: Seq<u8>,
    n: int,
    f: int,
    pos: int,
) -> u8 {
    if exists|k: int| k < n && #[trigger] block_covers(p, k, f, pos) {
        let k = choose|k: int| k < n && #[trigger] block_covers(p, k, f, pos);
        block[p[k].offset + (pos - p[k].file_offset)]
    } else {
        data[f][pos]
    }
}

/// The backing files after the first `n` blocks of piece `p` have been
/// written from `block`. File lengths do not change.
pub open spec fn spec_write_blocks(
    data: Seq<Seq<u8>>,
    p: Seq<FileBlockView>,
    block: Seq<u8>,
    n: int,
) -> Seq<Seq<u8>> {
    Seq::new(
        data.len(),
        |f: int| Seq::new(data[f].len(), |pos: int| spec_written_byte(data, p, block, n, f, pos)),
    )
}

/// The backing files after the whole piece `p` has been written from
/// `block`.
pub open spec fn spec_write_piece(data: Seq<Seq<u8>>, p: Seq<FileBlockView>, block: Seq<u8>) -> Seq<
    Seq<u8>,
> {
    spec_write_blocks(data, p, block, p.len() as int)
}

/// In a well-formed piece at most one block covers a given file byte:
/// blocks come from strictly increasing files.
proof fn lemma_cover_unique(
    p: Seq<FileBlockView>,
    lengths: Seq<int>,
    k1: int,
    k2: int,
    f: int,
    pos: int,
)
    requires
        wf_piece(p, lengths),
        block_covers(p, k1, f, pos),
        block_covers(p, k2, f, pos),
    ensures
        k1 == k2,
{
    if k1 < k2 {
        assert(p[k1].file_index < p[k2].file_index);
    }
    if k2 < k1 {
        assert(p[k2].file_index < p[k1].file_index);
    }
}

/// When block `k` covers byte `pos` of file `f`, the written byte is the
/// block's byte, whichever covering block the writer picked.
proof fn lemma_written_byte_covered(
    data: Seq<Seq<u8>>,
    p: Seq<FileBlockView>,
    block: Seq<u8>,
    lengths: Seq<int>,
    n: int,
    k: int,
    f: int,
    pos: int,
)
    requires
        wf_piece(p, lengths),
        block_covers(p, k, f, pos),
        k < n,
    ensures
        spec_written_byte(data, p, block, n, f, pos) == block[p[k].offset + (pos
            - p[k].file_offset)],
{
    assert(exists|kk: int| kk < n && #[trigger] block_covers(p, kk, f, pos));
    let kc = choose|kk: int| kk < n && #[trigger] block_covers(p, kk, f, pos);
    lemma_cover_unique(p, lengths, kc, k, f, pos);
}

/// Reads from and writes to a torrent's backing files, a whole piece at a
/// time.
pub trait FlatStorage: Sized {
    /// The backing files the storage was created with.
    spec fn file_list(&self) -> Seq<FlatStorageFile>;

    /// The bytes of each backing file.
    spec fn files_data(&self) -> Seq<Seq<u8>>;

    /// The piece-to-file mapping of the storage.
    spec fn piece_map(&self) -> Seq<Seq<FileBlockView>>;

    /// The storage's files, data and mapping are consistent.
    spec fn wf(&self) -> bool;

    /// The backing files, in payload order.
    fn files(&self) -> (r: &[FlatStorageFile])
        ensures
            r@ == self.file_list(),
    ;

    /// The bytes of piece `index`, read back from the backing files.
    fn read_piece(&self, index: FlatStoragePieceIndex) -> (r: Result<
        Option<Vec<u8>>,
        FlatStorageError,
    >)
        requires
            self.wf(),
            index.0 < self.piece_map().len(),
        ensures
            r matches Ok(v) && v matches Some(bytes) && bytes@ == spec_piece_bytes(
                self.files_data(),
                self.piece_map()[index.0 as int],
            ),
    ;

    /// Writes the full piece buffer `block` as piece `index` into the
    /// backing files.
    fn write_piece(&mut self, index: FlatStoragePieceIndex, block: Vec<u8>) -> (r: Result<
        (),
        FlatStorageError,
    >)
        requires
            old(self).wf(),
            index.0 < old(self).piece_map().len(),
            block@.len() == piece_size_sum(old(self).piece_map()[index.0 as int]),
        ensures
            final(self).wf(),
            final(self).file_list() == old(self).file_list(),
            final(self).piece_map() == old(self).piece_map(),
            final(self).files_data() == spec_write_piece(
                old(self).files_data(),
                old(self).piece_map()[index.0 as int],
                block@,
            ),
            r matches Ok(u) && u == (),
    ;
}

#[verifier::rlimit(50)]
proof fn lemma_read_back_prefix(
    data: Seq<Seq<u8>>,
    p: Seq<FileBlockView>,
    block: Seq<u8>,
    lengths: Seq<int>,
    m: int,
)
    requires
        wf_piece(p, lengths),
        data.len() == lengths.len(),
        forall|f: int| 0 <= f < data.len() ==> (#[trigger] data[f]).len() == lengths[f],
        block.len() == piece_size_sum(p),
        0 <= m <= p.len(),
    ensures
        spec_piece_bytes(spec_write_piece(data, p, block), p.take(m)) == block.take(
            piece_size_sum(p.take(m)),
        ),
    decreases m,
{
    let data2 = spec_write_piece(data, p, block);
    let q = p.take(m);
    crate::mapping::lemma_piece_size_sum_nonneg(q);
    if m == 0 {
        assert(q.len() == 0);
        assert(block.take(0) =~= Seq::<u8>::empty());
    } else {
        let b = p[m - 1];
        assert(q.last() == b);
        assert(q.drop_last() =~= p.take(m - 1));
        lemma_read_back_prefix(data, p, block, lengths, m - 1);
        let sum_prev = piece_size_sum(p.take(m - 1));
        crate::mapping::lemma_piece_size_sum_nonneg(p.take(m - 1));
        assert(b.offset == sum_prev);
        assert(piece_size_sum(q) == sum_prev + b.size);
        crate::mapping::lemma_piece_size_sum_take(p, m);
        assert(sum_prev + b.size <= block.len());
        assert(wf_block(b, lengths));
        let f = b.file_index;
        assert(0 <= f < data.len());
        let row = Seq::new(
            data[f].len(),
            |pos: int| spec_written_byte(data, p, block, p.len() as int, f, pos),
        );
        assert(data2[f] == row);
        assert(row.len() == data[f].len());
        let written = data2[f].subrange(b.file_offset, b.file_offset + b.size);
        let expected = block.subrange(b.offset, b.offset + b.size);
        assert(written.len() == b.size);
        assert(expected.len() == b.size);
        assert forall|idx: int| 0 <= idx < b.size implies #[trigger] written[idx]
            == expected[idx] by {
            let pos = b.file_offset + idx;
            assert(written[idx] == row[pos]);
            assert(row[pos] == spec_written_byte(data, p, block, p.len() as int, f, pos));
            assert(block_covers(p, m - 1, f, pos));
            lemma_written_byte_covered(data, p, block, lengths, p.len() as int, m - 1, f, pos);
            assert(expected[idx] == block[b.offset + idx]);
        }
        assert(written =~= expected);
        assert(block.take(piece_size_sum(q)) =~= block.take(sum_prev) + block.subrange(
            b.offset,
            b.offset + b.size,
        ));
    }
}

/// A byte no block of `p` covers keeps its value when `p` is written.
proof fn lemma_written_byte_uncovered(
    data: Seq<Seq<u8>>,
    p: Seq<FileBlockView>,
    block: Seq<u8>,
    n: int,
    f: int,
    pos: int,
)
    requires
        forall|k: int| !block_covers(p, k, f, pos),
    ensures
        spec_written_byte(data, p, block, n, f, pos) == data[f][pos],
{
    assert(forall|k: int| !(k < n && #[trigger] block_covers(p, k, f, pos)));
}

/// Two file states that agree on every slice a piece's blocks read give
/// the piece the same bytes.
proof fn lemma_piece_bytes_agree(
    data1: Seq<Seq<u8>>,
    data2: Seq<Seq<u8>>,
    p: Seq<FileBlockView>,
    lengths: Seq<int>,
    n: int,
)
    requires
        wf_piece(p, lengths),
        data1.len() == lengths.len(),
        data2.len() == data1.len(),
        forall|f: int|
            0 <= f < data1.len() ==> (#[trigger] data1[f]).len() == lengths[f] && data2[f].len()
                == data1[f].len(),
        forall|k: int, pos: int|
            0 <= k < p.len() && p[k].file_offset <= pos < p[k].file_offset + p[k].size
                ==> #[trigger] data2[p[k].file_index][pos] == data1[p[k].file_index][pos],
        0 <= n <= p.len(),
    ensures
        spec_piece_bytes(data2, p.take(n)) == spec_piece_bytes(data1, p.take(n)),
    decreases n,
{
    if n == 0 {
        assert(p.take(0) =~= Seq::<FileBlockView>::empty());
    } else {
        lemma_piece_bytes_agree(data1, data2, p, lengths, n - 1);
        let b = p[n - 1];
        assert(p.take(n).drop_last() =~= p.take(n - 1));
        assert(p.take(n).last() == b);
        assert(wf_block(b, lengths));
        assert(data2[b.file_index].subrange(b.file_offset, b.file_offset + b.size) =~= data1[
            b.file_index].subrange(b.file_offset, b.file_offset + b.size)) by {
            assert forall|idx: int| 0 <= idx < b.size implies #[trigger] data2[b.file_index][
                b.file_offset + idx] == data1[b.file_index][b.file_offset + idx] by {
                assert(b.file_offset <= b.file_offset + idx < b.file_offset + b.size);
            }
        }
    }
}

/// Writing one piece leaves the bytes of every other piece exactly as
/// they were: distinct pieces occupy disjoint file slices.
pub proof fn lemma_write_preserves_other_pieces(
    data: Seq<Seq<u8>>,
    m: Seq<Seq<FileBlockView>>,
    lengths: Seq<int>,
    piece_size: int,
    index: int,
    block: Seq<u8>,
    i: int,
)
    requires
        wf_mapping(m, lengths, piece_size),
        1 <= piece_size,
        data.len() == lengths.len(),
        forall|f: int| 0 <= f < data.len() ==> (#[trigger] data[f]).len() == lengths[f],
        0 <= index < m.len(),
        0 <= i < m.len(),
        i != index,
    ensures
        spec_piece_bytes(spec_write_piece(data, m[index], block), m[i]) == spec_piece_bytes(
            data,
            m[i],
        ),
{
    let data2 = spec_write_piece(data, m[index], block);
    let p = m[i];
    let w = m[index];
    assert(data2.len() == data.len());
    assert(forall|f: int|
        0 <= f < data.len() ==> (#[trigger] data2[f]).len() == data[f].len());
    assert forall|k: int, pos: int|
        0 <= k < p.len() && p[k].file_offset <= pos < p[k].file_offset
            + p[k].size implies #[trigger] data2[p[k].file_index][pos] == data1_at(
        data,
        p[k].file_index,
        pos,
    ) by {
        let f = p[k].file_index;
        assert(wf_block(p[k], lengths));
        assert(0 <= pos < data[f].len());
        assert(data2[f][pos] == spec_written_byte(data, w, block, w.len() as int, f, pos));
        assert forall|kw: int| !block_covers(w, kw, f, pos) by {
            if block_covers(w, kw, f, pos) {
                lemma_cross_piece_disjoint(m, lengths, piece_size, index, i, kw, k);
            }
        }
        lemma_written_byte_uncovered(data, w, block, w.len() as int, f, pos);
    }
    lemma_piece_bytes_agree(data, data2, p, lengths, p.len() as int);
    assert(p.take(p.len() as int) =~= p);
}

/// Byte `pos` of file `f`, named so quantified claims have a stable
/// trigger.
spec fn data1_at(data: Seq<Seq<u8>>, f: int, pos: int) -> u8 {
    data[f][pos]
}

/// Round trip through the backing files: reading a piece back right after
/// writing it returns exactly the bytes that were written.
pub proof fn lemma_write_read_round_trip(
    data: Seq<Seq<u8>>,
    p: Seq<FileBlockView>,
    block: Seq<u8>,
    lengths: Seq<int>,
)
    requires
        wf_piece(p, lengths),
        data.len() == lengths.len(),
        forall|f: int| 0 <= f < data.len() ==> (#[trigger] data[f]).len() == lengths[f],
        block.len() == piece_size_sum(p),
    ensures
        spec_piece_bytes(spec_write_piece(data, p, block), p) == block,
{
    lemma_read_back_prefix(data, p, block, lengths, p.len() as int);
    assert(p.take(p.len() as int) =~= p);
    assert(block.take(piece_size_sum(p)) =~= block);
}

/// A piece's bytes are as many as its blocks' sizes say.
proof fn lemma_piece_bytes_len(data: Seq<Seq<u8>>, p: Seq<FileBlockView>, lengths: Seq<int>)
    requires
        wf_piece(p, lengths),
        data.len() == lengths.len(),
        forall|f: int| 0 <= f < data.len() ==> (#[trigger] data[f]).len() == lengths[f],
    ensures
        spec_piece_bytes(data, p).len() == piece_size_sum(p),
    decreases p.len(),
{
    if p.len() > 0 {
        let q = p.drop_last();
        assert(wf_piece(q, lengths)) by {
            assert(forall|k: int| 0 <= k < q.len() ==> q[k] == p[k]);
            assert forall|k: int| 0 <= k < q.len() implies #[trigger] q[k].offset
                == piece_size_sum(q.take(k)) by {
                assert(q.take(k) =~= p.take(k));
            }
        }
        lemma_piece_bytes_len(data, q, lengths);
        let b = p.last();
        assert(wf_block(b, lengths));
    }
}

/// Facts about a well-formed in-memory storage, for callers outside this
/// module: reading a piece back right after writing it yields the written
/// bytes.
pub proof fn lemma_vec_storage_round_trip(s: &VecFlatStorage, index: int, block: Seq<u8>)
    requires
        s.wf(),
        0 <= index < s.piece_map().len(),
        block.len() == piece_size_sum(s.piece_map()[index]),
    ensures
        spec_piece_bytes(
            spec_write_piece(s.files_data(), s.piece_map()[index], block),
            s.piece_map()[index],
        ) == block,
{
    let lengths = file_lengths(s.file_list());
    lemma_vec_storage_shape(s);
    lemma_write_read_round_trip(s.files_data(), s.piece_map()[index], block, lengths);
}

/// Writing one piece of a well-formed in-memory storage leaves every
/// other piece's bytes as they were.
pub proof fn lemma_vec_storage_write_preserves(
    s: &VecFlatStorage,
    index: int,
    block: Seq<u8>,
    i: int,
)
    requires
        s.wf(),
        0 <= index < s.piece_map().len(),
        0 <= i < s.piece_map().len(),
        i != index,
    ensures
        spec_piece_bytes(
            spec_write_piece(s.files_data(), s.piece_map()[index], block),
            s.piece_map()[i],
        ) == spec_piece_bytes(s.files_data(), s.piece_map()[i]),
{
    let lengths = file_lengths(s.file_list());
    lemma_vec_storage_shape(s);
    lemma_write_preserves_other_pieces(
        s.files_data(),
        s.piece_map(),
        lengths,
        s.spec_piece_size(),
        index,
        block,
        i,
    );
}

/// A piece of a well-formed in-memory storage holds as many bytes as its
/// blocks' sizes say.
pub proof fn lemma_vec_storage_piece_len(s: &VecFlatStorage, index: int)
    requires
        s.wf(),
        0 <= index < s.piece_map().len(),
    ensures
        spec_piece_bytes(s.files_data(), s.piece_map()[index]).len() == piece_size_sum(
            s.piece_map()[index],
        ),
{
    let lengths = file_lengths(s.file_list());
    lemma_vec_storage_shape(s);
    lemma_piece_bytes_len(s.files_data(), s.piece_map()[index], lengths);
}

/// The backing buffers of a well-formed storage have their files'
/// declared lengths.
proof fn lemma_vec_storage_shape(s: &VecFlatStorage)
    requires
        s.wf(),
    ensures
        s.files_data().len() == file_lengths(s.file_list()).len(),
        forall|f: int|
            0 <= f < s.files_data().len() ==> (#[trigger] s.files_data()[f]).len() == file_lengths(
                s.file_list(),
            )[f],
        wf_mapping(s.piece_map(), file_lengths(s.file_list()), s.spec_piece_size()),
        1 <= s.spec_piece_size(),
{
}

/// In-memory flat storage: every backing file is a byte vector.
pub struct VecFlatStorage {
    files: Vec<FlatStorageFile>,
    data: Vec<Vec<u8>>,
    mapping: Vec<PieceToFiles>,
    piece_size: usize,
}

impl VecFlatStorage {
    /// The piece size the storage was created with.
    pub closed spec fn spec_piece_size(&self) -> int {
        self.piece_size as int
    }

    /// Creates the storage: one zero-filled buffer of the declared length
    /// per file, and the piece-to-file mapping for `piece_size`.
    pub fn create(piece_size: usize, files: Vec<FlatStorageFile>) -> (r: Self)
        requires
            1 <= piece_size,
        ensures
            r.wf(),
            r.file_list() == files@,
            r.piece_map() == spec_map_pieces(piece_size as int, file_lengths(files@)),
            r.files_data().len() == files@.len(),
            forall|f: int, pos: int|
                0 <= f < files@.len() && 0 <= pos < files@[f].length ==> r.files_data()[f][pos]
                    == 0u8,
    {
        let mapping = map_pieces_to_files(piece_size, files.as_slice());
        let mut data: Vec<Vec<u8>> = Vec::new();
        let mut f: usize = 0;
        while f < files.len()
            invariant
                f <= files.len(),
                data@.len() == f,
                forall|i: int| 0 <= i < f ==> (#[trigger] data@[i])@.len() == files@[i].length,
                forall|i: int, pos: int|
                    0 <= i < f && 0 <= pos < files@[i].length ==> #[trigger] data@[i]@[pos]
                        == 0u8,
            decreases files.len() - f,
        {
            let buffer = vec![0u8; files[f].length];
            data.push(buffer);
            f = f + 1;
        }
        proof {
            lemma_map_pieces_wf(piece_size as int, file_lengths(files@));
        }
        VecFlatStorage { files, data, mapping, piece_size }
    }
}

impl FlatStorage for VecFlatStorage {
    closed spec fn file_list(&self) -> Seq<FlatStorageFile> {
        self.files@
    }

    closed spec fn files_data(&self) -> Seq<Seq<u8>> {
        self.data@.map_values(|f: Vec<u8>| f@)
    }

    closed spec fn piece_map(&self) -> Seq<Seq<FileBlockView>> {
        mapping_view(self.mapping@)
    }

    closed spec fn wf(&self) -> bool {
        &&& 1 <= self.piece_size
        &&& self.data@.len() == self.files@.len()
        &&& forall|f: int|
            0 <= f < self.files@.len() ==> (#[trigger] self.data@[f])@.len()
                == self.files@[f].length
        &&& self.piece_map() == spec_map_pieces(
            self.piece_size as int,
            file_lengths(self.files@),
        )
        &&& wf_mapping(self.piece_map(), file_lengths(self.files@), self.piece_size as int)
    }

    fn files(&self) -> (r: &[FlatStorageFile]) {
        self.files.as_slice()
    }

    fn read_piece(&self, index: FlatStoragePieceIndex) -> (r: Result<
        Option<Vec<u8>>,
        FlatStorageError,
    >) {
        let i = index.0;
        let ghost p = self.piece_map()[i as int];
        let blocks = &self.mapping[i];
        proof {
            assert(blocks@ == p);
            assert(wf_piece(p, file_lengths(self.files@)));
        }
        let mut result: Vec<u8> = Vec::new();
        let mut k: usize = 0;
        proof {
            assert(p.take(0) =~= Seq::<FileBlockView>::empty());
        }
        while k < blocks.0.len()
            invariant
                self.wf(),
                i < self.piece_map().len(),
                blocks@ == p,
                p == self.piece_map()[i as int],
                k <= blocks.0.len(),
                result@ == spec_piece_bytes(self.files_data(), p.take(k as int)),
            decreases blocks.0.len() - k,
        {
            let b = &blocks.0[k];
            proof {
                assert(blocks@[k as int] == b@);
                assert(wf_block(b@, file_lengths(self.files@)));
            }
            let file = &self.data[b.file_index];
            let slice = vstd::slice::slice_subrange(
                file.as_slice(),
                b.file_offset,
                b.file_offset + b.size,
            );
            result.extend_from_slice(slice);
            k = k + 1;
            proof {
                assert(p.take(k as int).drop_last() =~= p.take(k as int - 1));
                assert(p.take(k as int).last() == b@);
            }
        }
        proof {
            assert(p.take(blocks.0.len() as int) =~= p);
        }
        Ok(Some(result))
    }

    fn write_piece(&mut self, index: FlatStoragePieceIndex, block: Vec<u8>) -> (r: Result<
        (),
        FlatStorageError,
    >) {
        let i = index.0;
        let ghost p = self.piece_map()[i as int];
        let ghost data0 = self.files_data();
        let ghost lengths = file_lengths(self.files@);
        proof {
            assert(wf_piece(p, lengths));
            assert(spec_write_blocks(data0, p, block@, 0) =~= data0) by {
                assert forall|f: int, pos: int|
                    0 <= f < data0.len() && 0 <= pos < data0[f].len() implies spec_written_byte(
                    data0,
                    p,
                    block@,
                    0,
                    f,
                    pos,
                ) == data0[f][pos] by {
                    assert(forall|k: int| !(k < 0 && #[trigger] block_covers(p, k, f, pos)));
                }
                assert forall|f: int| 0 <= f < data0.len() implies spec_write_blocks(
                    data0,
                    p,
                    block@,
                    0,
                )[f] =~= data0[f] by {}
            }
        }
        let blocks = &self.mapping[i];
        let mut k: usize = 0;
        while k < blocks.0.len()
            invariant
                old(self).wf(),
                i < old(self).piece_map().len(),
                blocks@ == p,
                p == old(self).piece_map()[i as int],
                data0 == old(self).files_data(),
                lengths == file_lengths(old(self).files@),
                block@.len() == piece_size_sum(p),
                k <= blocks.0.len(),
                blocks == &old(self).mapping[i as int],
                self.files == old(self).files,
                self.mapping == old(self).mapping,
                self.piece_size == old(self).piece_size,
                self.data@.len() == old(self).data@.len(),
                self.files_data() == spec_write_blocks(data0, p, block@, k as int),
            decreases blocks.0.len() - k,
        {
            let b = &blocks.0[k];
            proof {
                assert(blocks@[k as int] == b@);
                assert(wf_block(b@, lengths));
                assert(piece_size_sum(p.take(k as int + 1)) <= piece_size_sum(p)) by {
                    crate::mapping::lemma_piece_size_sum_take(p, k as int + 1);
                }
                assert(piece_size_sum(p.take(k as int)) + b@.size == piece_size_sum(
                    p.take(k as int + 1),
                )) by {
                    assert(p.take(k as int + 1).drop_last() =~= p.take(k as int));
                }
                assert(b@.offset + b@.size <= piece_size_sum(p));
            }
            let ghost data_k = self.files_data();
            proof {
                assert(data_k[b@.file_index].len() == data0[b@.file_index].len());
            }
            write_range(&mut self.data[b.file_index], b.file_offset, &block, b.offset, b.size);
            k = k + 1;
            proof {
                assert(self.files_data() =~= data_k.update(
                    b@.file_index,
                    self.files_data()[b@.file_index],
                ));
                lemma_write_block_step(
                    data0,
                    data_k,
                    self.files_data(),
                    p,
                    block@,
                    k as int - 1,
                    lengths,
                );
            }
        }
        proof {
            assert(self.files_data() == spec_write_piece(data0, p, block@));
            assert forall|f: int| 0 <= f < self.files@.len() implies (#[trigger] self.data@[f])@.len()
                == self.files@[f].length by {
                assert(self.files_data()[f].len() == data0[f].len());
            }
            assert(self.wf());
        }
        Ok(())
    }
}

/// Copies `size` bytes of `src` starting at `from` into `file` starting at
/// `at`; every other byte of `file` keeps its value.
fn write_range(file: &mut Vec<u8>, at: usize, src: &Vec<u8>, from: usize, size: usize)
    requires
        at + size <= old(file)@.len(),
        from + size <= src@.len(),
    ensures
        final(file)@.len() == old(file)@.len(),
        forall|pos: int|
            0 <= pos < old(file)@.len() && !(at <= pos < at + size) ==> final(file)@[pos] == old(
                file,
            )@[pos],
        forall|pos: int|
            at <= pos < at + size ==> final(file)@[pos] == src@[from + (pos - at)],
{
    let mut j: usize = 0;
    proof {
        vstd::std_specs::vec::axiom_spec_len(src);
        vstd::std_specs::vec::axiom_spec_len(file);
    }
    while j < size
        invariant
            j <= size,
            at + size <= file@.len(),
            from + size <= src@.len(),
            src@.len() <= usize::MAX,
            file@.len() <= usize::MAX,
            file@.len() == old(file)@.len(),
            forall|pos: int|
                0 <= pos < file@.len() && !(at <= pos < at + j) ==> file@[pos] == old(file)@[pos],
            forall|pos: int| at <= pos < at + j ==> file@[pos] == src@[from + (pos - at)],
        decreases size - j,
    {
        let byte = src[from + j];
        file.as_mut_slice()[at + j] = byte;
        j = j + 1;
    }
}

/// After the bytes of block `n` are copied on top of the state reached
/// after blocks `0..n`, the files hold the state after blocks `0..n + 1`.
proof fn lemma_write_block_step(
    data0: Seq<Seq<u8>>,
    data_k: Seq<Seq<u8>>,
    data_next: Seq<Seq<u8>>,
    p: Seq<FileBlockView>,
    block: Seq<u8>,
    n: int,
    lengths: Seq<int>,
)
    requires
        wf_piece(p, lengths),
        0 <= n < p.len(),
        data_k == spec_write_blocks(data0, p, block, n),
        data_next.len() == data_k.len(),
        data0.len() == lengths.len(),
        forall|f: int| 0 <= f < data0.len() ==> (#[trigger] data0[f]).len() == lengths[f],
        forall|f: int|
            0 <= f < data_next.len() ==> (#[trigger] data_next[f]).len() == data_k[f].len(),
        forall|f: int, pos: int|
            0 <= f < data_next.len() && 0 <= pos < data_next[f].len() && !(f == p[n].file_index
                && p[n].file_offset <= pos < p[n].file_offset + p[n].size)
                ==> #[trigger] data_next[f][pos] == data_k[f][pos],
        forall|f: int, pos: int|
            0 <= f < data_next.len() && 0 <= pos < data_next[f].len() && f == p[n].file_index
                && p[n].file_offset <= pos < p[n].file_offset + p[n].size
                ==> #[trigger] data_next[f][pos] == block[p[n].offset + (pos - p[n].file_offset)],
    ensures
        data_next == spec_write_blocks(data0, p, block, n + 1),
{
    let target = spec_write_blocks(data0, p, block, n + 1);
    assert(data_k.len() == data0.len());
    assert forall|f: int| 0 <= f < data_next.len() implies data_next[f] =~= target[f] by {
        assert(data_k[f].len() == data0[f].len());
        assert forall|pos: int| 0 <= pos < data_next[f].len() implies data_next[f][pos]
            == spec_written_byte(data0, p, block, n + 1, f, pos) by {
            if block_covers(p, n, f, pos) {
                assert(exists|k: int| k < n + 1 && #[trigger] block_covers(p, k, f, pos));
                let kc = choose|k: int| k < n + 1 && #[trigger] block_covers(p, k, f, pos);
                lemma_cover_unique(p, lengths, kc, n, f, pos);
            } else {
                assert(data_k[f][pos] == spec_written_byte(data0, p, block, n, f, pos));
                if exists|k: int| k < n && #[trigger] block_covers(p, k, f, pos) {
                    let k1 = choose|k: int| k < n && #[trigger] block_covers(p, k, f, pos);
                    assert(block_covers(p, k1, f, pos));
                    assert(exists|k: int| k < n + 1 && #[trigger] block_covers(p, k, f, pos));
                    let k2 = choose|k: int| k < n + 1 && #[trigger] block_covers(p, k, f, pos);
                    lemma_cover_unique(p, lengths, k1, k2, f, pos);
                } else {
                    assert(forall|k: int| !(k < n + 1 && #[trigger] block_covers(p, k, f, pos)))
                        by {
                        assert forall|k: int|
                            k < n + 1 && #[trigger] block_covers(p, k, f, pos) implies false by {
                            if k < n {
                                assert(k < n && block_covers(p, k, f, pos));
                            }
                        }
                    }
                }
            }
        }
    }
    assert(data_next =~= target);
}

} // verus!

