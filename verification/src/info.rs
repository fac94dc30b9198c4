//! Normalized torrent metadata.
//!
//! [`TorrentInfoRaw`] is the decoded shape of a torrent's info dictionary;
//! [`TorrentInfo`] is its normalized form, with piece digests split out,
//! the file list flattened, and the last piece's length precomputed.

use vstd::prelude::*;
use vstd::string::StringExecFns;

use crate::flat_storage::FlatStorageFile;
use crate::mapping::{
    file_lengths, lemma_seq_sum_element_bound, lemma_seq_sum_nonneg_suffix, lemma_seq_sum_take_step,
    mapping_view, seq_sum, spec_map_pieces, PieceToFiles,
};
use crate::{count_parts, spec_count_parts, BLOCK_SIZE, SHA1_SIZE};

pub use crate::flat_storage::FlatStorageFile as TorrentInfoFile;

verus! {

/// One 20-byte SHA-1 digest from the torrent's piece table.
#[derive(Debug, PartialEq, Eq, Clone)]
pub struct Piece(pub Vec<u8>);

impl View for Piece {
    type V = Seq<u8>;

    open spec fn view(&self) -> Seq<u8> {
        self.0@
    }
}

impl Piece {
    /// A digest is exactly 20 bytes long.
    pub open spec fn wf(&self) -> bool {
        self@.len() == SHA1_SIZE
    }
}

/// Normalized info from a torrent.
#[derive(Debug, PartialEq, Clone)]
pub struct TorrentInfo {
    pub piece_length: usize,
    pub default_blocks_count: usize,
    pub last_piece_length: usize,
    pub last_piece_blocks_count: usize,
    pub pieces: Vec<Piece>,
    pub length: usize,
    pub files: Vec<TorrentInfoFile>,
}

/// The length of the last piece of a torrent of `length` bytes cut in
/// pieces of `piece_length` bytes: the remainder, or a whole piece when
/// the torrent tiles evenly.
pub open spec fn spec_last_piece_length(length: int, piece_length: int) -> int {
    if length % piece_length == 0 {
        piece_length
    } else {
        length % piece_length
    }
}

impl TorrentInfo {
    /// The derived fields agree with the primary ones.
    pub open spec fn wf(&self) -> bool {
        &&& 1 <= self.piece_length
        &&& self.default_blocks_count == spec_count_parts(
            self.piece_length as int,
            BLOCK_SIZE as int,
        )
        &&& self.last_piece_length as int == spec_last_piece_length(
            self.length as int,
            self.piece_length as int,
        )
        &&& self.last_piece_blocks_count == spec_count_parts(
            self.last_piece_length as int,
            BLOCK_SIZE as int,
        )
        &&& self.length as int == seq_sum(file_lengths(self.files@))
        &&& forall|i: int| 0 <= i < self.pieces@.len() ==> (#[trigger] self.pieces@[i]).wf()
    }

    /// Returns total length of the torrent in bytes.
    ///
    /// For a single file torrent it is the size of this file. For a multi
    /// file torrent it is the sum of all file sizes.
    pub fn len(&self) -> (r: usize)
        ensures
            r == self.length,
    {
        self.length
    }

    /// Does the torrent hold no bytes at all?
    pub fn is_empty(&self) -> (r: bool)
        ensures
            r == (self.length == 0),
    {
        self.length == 0
    }

    /// Returns piece length and blocks count for the piece at `index`.
    /// The last piece may be shorter than the others, so the answer
    /// depends on the index.
    pub fn sizes(&self, index: usize) -> (r: (usize, usize))
        requires
            1 <= self.pieces@.len(),
        ensures
            index as int != self.pieces@.len() - 1 ==> r == (
                self.piece_length,
                self.default_blocks_count,
            ),
            index as int == self.pieces@.len() - 1 ==> r == (
                self.last_piece_length,
                self.last_piece_blocks_count,
            ),
    {
        if index != self.pieces.len() - 1 {
            (self.piece_length, self.default_blocks_count)
        } else {
            (self.last_piece_length, self.last_piece_blocks_count)
        }
    }
}

/// Decoded shape of a torrent's info dictionary: either a single file of
/// `length` bytes named `name`, or a list of `files`.
#[derive(Debug, PartialEq)]
pub struct TorrentInfoRaw {
    pub name: String,
    pub piece_length: i64,
    pub pieces: Vec<u8>,
    pub length: Option<i64>,
    pub files: Option<Vec<TorrentInfoFileRaw>>,
}

/// One entry of a multi-file torrent: a length and a path in components.
#[derive(Debug, PartialEq)]
pub struct TorrentInfoFileRaw {
    pub length: i64,
    pub path: Vec<String>,
}

/// The lengths of the raw file entries.
pub open spec fn raw_file_lengths(files: Seq<TorrentInfoFileRaw>) -> Seq<int> {
    files.map_values(|f: TorrentInfoFileRaw| f.length as int)
}

/// Path components joined by a separator.
pub open spec fn spec_join_path(parts: Seq<String>) -> Seq<char>
    decreases parts.len(),
{
    if parts.len() == 0 {
        Seq::empty()
    } else if parts.len() == 1 {
        parts[0]@
    } else {
        spec_join_path(parts.drop_last()) + seq!['/'] + parts.last()@
    }
}

impl TorrentInfoRaw {
    /// The raw dictionary can be normalized: it declares a single file or
    /// a file list, every length is non-negative, the piece length is
    /// positive, and the total fits the machine.
    pub open spec fn wf(&self) -> bool {
        &&& 1 <= self.piece_length
        &&& self.length is Some || self.files is Some
        &&& match self.length {
            Some(l) => 0 <= l,
            None => true,
        }
        &&& match self.files {
            Some(ref fs) => forall|i: int| 0 <= i < fs@.len() ==> 0 <= (#[trigger] fs@[i]).length,
            None => true,
        }
        &&& self.spec_len() <= usize::MAX
        &&& self.spec_len() <= i64::MAX
        &&& self.piece_length <= usize::MAX
    }

    /// The torrent's total length in bytes: the single file's length, or
    /// the sum of the file list's lengths.
    pub open spec fn spec_len(&self) -> int {
        match self.length {
            Some(l) => l as int,
            None => match self.files {
                Some(ref fs) => seq_sum(raw_file_lengths(fs@)),
                None => 0,
            },
        }
    }

    /// Returns total length of the torrent in bytes.
    ///
    /// For a single file torrent it is the size of this file. For a multi
    /// file torrent it is the sum of all file sizes.
    pub fn len(&self) -> (r: usize)
        requires
            self.wf(),
        ensures
            r as int == self.spec_len(),
    {
        if let Some(len) = self.length {
            len as usize
        } else if let Some(files) = &self.files {
            let mut sum: i64 = 0;
            let mut i: usize = 0;
            proof {
                assert(raw_file_lengths(files@).take(0) =~= Seq::<int>::empty());
            }
            while i < files.len()
                invariant
                    i <= files@.len(),
                    forall|k: int| 0 <= k < files@.len() ==> 0 <= (#[trigger] files@[k]).length,
                    seq_sum(raw_file_lengths(files@)) <= usize::MAX,
                    seq_sum(raw_file_lengths(files@)) <= i64::MAX,
                    sum as int == seq_sum(raw_file_lengths(files@).take(i as int)),
                    0 <= sum,
                decreases files@.len() - i,
            {
                proof {
                    lemma_seq_sum_take_step(raw_file_lengths(files@), i as int);
                    lemma_seq_sum_nonneg_suffix(raw_file_lengths(files@), i as int + 1);
                    assert(sum + files@[i as int].length <= i64::MAX);
                }
                sum = sum + files[i].length;
                i = i + 1;
            }
            proof {
                assert(raw_file_lengths(files@).take(files@.len() as int) =~= raw_file_lengths(
                    files@,
                ));
            }
            sum as usize
        } else {
            proof {
                assert(false);
            }
            0
        }
    }

    /// Does the torrent hold no bytes at all?
    pub fn is_empty(&self) -> (r: bool)
        requires
            self.wf(),
        ensures
            r == (self.spec_len() == 0),
    {
        self.len() == 0
    }

    /// Count of pieces in the torrent's digest table.
    pub fn pieces_count(&self) -> (r: usize)
        ensures
            r as int == self.pieces@.len() as int / SHA1_SIZE as int,
    {
        self.pieces.len() / SHA1_SIZE
    }

    /// The digest of the piece at `index`, while the table holds one.
    pub fn piece(&self, index: usize) -> (r: Option<&[u8]>)
        ensures
            match r {
                Some(s) => index as int * SHA1_SIZE + SHA1_SIZE <= self.pieces@.len() && s@
                    == self.pieces@.subrange(
                    index as int * SHA1_SIZE,
                    index as int * SHA1_SIZE + SHA1_SIZE,
                ),
                None => index as int * SHA1_SIZE + SHA1_SIZE > self.pieces@.len(),
            },
    {
        let count = self.pieces.len() / SHA1_SIZE;
        proof {
            lemma_chunk_in_bounds(self.pieces@.len() as int, index as int);
        }
        if index < count {
            let start = index * SHA1_SIZE;
            Some(vstd::slice::slice_subrange(self.pieces.as_slice(), start, start + SHA1_SIZE))
        } else {
            None
        }
    }
}

/// `index < len / 20` says exactly that the 20-byte chunk at `index` lies
/// inside a table of `len` bytes.
proof fn lemma_chunk_in_bounds(len: int, index: int)
    requires
        0 <= len,
        0 <= index,
    ensures
        index < len / SHA1_SIZE as int <==> index * SHA1_SIZE as int + SHA1_SIZE as int <= len,
{
    let d = SHA1_SIZE as int;
    vstd::arithmetic::div_mod::lemma_fundamental_div_mod(len, d);
    let q = len / d;
    let r = len % d;
    assert(0 <= r < d) by {
        vstd::arithmetic::div_mod::lemma_mod_bound(len, d);
    }
    if index < q {
        assert(index * d + d <= q * d) by (nonlinear_arith)
            requires
                index < q,
                0 < d,
        ;
        assert(q * d <= len) by (nonlinear_arith)
            requires
                len == q * d + r,
                0 <= r,
        ;
    }
    if index >= q {
        assert(index * d + d > len) by (nonlinear_arith)
            requires
                index >= q,
                0 < d,
                len == q * d + r,
                r < d,
        ;
    }
}





/// Path components joined by `/`.
fn join_path(parts: &Vec<String>) -> (r: String)
    ensures
        r@ == spec_join_path(parts@),
{
    let mut s = String::new();
    let mut i: usize = 0;
    proof {
        assert(parts@.take(0) =~= Seq::<String>::empty());
    }
    while i < parts.len()
        invariant
            i <= parts@.len(),
            s@ == spec_join_path(parts@.take(i as int)),
        decreases parts@.len() - i,
    {
        if i > 0 {
            s.append("/");
            proof {
                reveal_strlit("/");
                assert("/"@ =~= seq!['/']);
            }
        }
        s.append(parts[i].as_str());
        i = i + 1;
        proof {
            assert(parts@.take(i as int).drop_last() =~= parts@.take(i as int - 1));
            assert(parts@.take(i as int).last() == parts@[i as int - 1]);
            if i == 1 {
                assert(spec_join_path(parts@.take(1)) == parts@[0]@);
            }
        }
    }
    proof {
        assert(parts@.take(parts@.len() as int) =~= parts@);
    }
    s
}

/// Maps pieces to files for a torrent of total length `length`, cut in
/// pieces of `piece_length` bytes over `files`.
#[allow(unused_variables)]
pub fn map_pieces_to_files(piece_length: usize, length: usize, files: &[TorrentInfoFile]) -> (r:
    Vec<PieceToFiles>)
    requires
        1 <= piece_length,
    ensures
        mapping_view(r@) == spec_map_pieces(piece_length as int, file_lengths(files@)),
{
    crate::mapping::map_pieces_to_files(piece_length, files)
}

impl TorrentInfo {
    /// Normalizes a decoded info dictionary: splits the digest table in
    /// 20-byte pieces, flattens the file list, and derives the block
    /// counts and the last piece's length.
    pub fn from_raw(raw: TorrentInfoRaw) -> (r: TorrentInfo)
        requires
            raw.wf(),
        ensures
            r.wf(),
            r.piece_length as int == raw.piece_length as int,
            r.length as int == raw.spec_len(),
            r.pieces@.len() as int == raw.pieces@.len() as int / SHA1_SIZE as int,
            forall|j: int|
                0 <= j < r.pieces@.len() ==> (#[trigger] r.pieces@[j])@ == raw.pieces@.subrange(
                    j * SHA1_SIZE as int,
                    j * SHA1_SIZE as int + SHA1_SIZE as int,
                ),
            raw.length is Some ==> r.files@.len() == 1 && r.files@[0].path@ == raw.name@
                && r.files@[0].length as int == raw.spec_len(),
            raw.length is None ==> {
                let fs = raw.files.unwrap();
                &&& r.files@.len() == fs@.len()
                &&& forall|j: int|
                    0 <= j < fs@.len() ==> (#[trigger] r.files@[j]).path@ == spec_join_path(
                        fs@[j].path@,
                    ) && r.files@[j].length as int == fs@[j].length as int
            },
    {
        let ghost raw0 = raw;
        let pieces = split_digests(&raw.pieces);

        let length = raw.len();

        let files: Vec<TorrentInfoFile> = if let Some(file_length) = raw.length {
            let mut single: Vec<TorrentInfoFile> = Vec::new();
            single.push(TorrentInfoFile { path: raw.name, length: file_length as usize });
            single
        } else if let Some(file_list) = raw.files {
            let mut converted: Vec<TorrentInfoFile> = Vec::new();
            let mut i: usize = 0;
            while i < file_list.len()
                invariant
                    i <= file_list@.len(),
                    converted@.len() == i,
                    forall|k: int|
                        0 <= k < file_list@.len() ==> 0 <= (#[trigger] file_list@[k]).length,
                    seq_sum(raw_file_lengths(file_list@)) <= usize::MAX,
                    forall|j: int|
                        0 <= j < i ==> (#[trigger] converted@[j]).path@ == spec_join_path(
                            file_list@[j].path@,
                        ) && converted@[j].length as int == file_list@[j].length as int,
                decreases file_list@.len() - i,
            {
                let entry = &file_list[i];
                proof {
                    lemma_seq_sum_element_bound(raw_file_lengths(file_list@), i as int);
                }
                converted.push(
                    TorrentInfoFile { path: join_path(&entry.path), length: entry.length as usize },
                );
                i = i + 1;
            }
            converted
        } else {
            proof {
                assert(false);
            }
            Vec::new()
        };

        let piece_length = raw.piece_length as usize;

        let default_blocks_count = count_parts(piece_length, BLOCK_SIZE);

        let mut last_piece_length = length % piece_length;
        if last_piece_length == 0 {
            last_piece_length = piece_length;
        }

        let last_piece_blocks_count = count_parts(last_piece_length, BLOCK_SIZE);

        let r = TorrentInfo {
            piece_length,
            default_blocks_count,
            last_piece_length,
            last_piece_blocks_count,
            pieces,
            length,
            files,
        };
        proof {
            assert(raw0 == raw);
            if raw0.length is Some {
                assert(file_lengths(r.files@) =~= seq![raw0.spec_len()]);
                assert(file_lengths(r.files@).drop_first() =~= Seq::<int>::empty());
                assert(seq_sum(file_lengths(r.files@)) == raw0.spec_len()) by {
                    reveal_with_fuel(seq_sum, 2);
                }
            } else {
                let fs = raw0.files.unwrap();
                assert(file_lengths(r.files@) =~= raw_file_lengths(fs@));
                assert(seq_sum(file_lengths(r.files@)) == raw0.spec_len());
            }
            assert(r.length as int == seq_sum(file_lengths(r.files@)));
        }
        r
    }
}

/// Splits a digest table in 20-byte pieces; a trailing fragment shorter
/// than a digest is dropped.
fn split_digests(table: &Vec<u8>) -> (r: Vec<Piece>)
    ensures
        r@.len() as int == table@.len() as int / SHA1_SIZE as int,
        forall|j: int|
            0 <= j < r@.len() ==> (#[trigger] r@[j])@ == table@.subrange(
                j * SHA1_SIZE as int,
                j * SHA1_SIZE as int + SHA1_SIZE as int,
            ),
        forall|j: int| 0 <= j < r@.len() ==> (#[trigger] r@[j]).wf(),
{
    let mut pieces: Vec<Piece> = Vec::new();
    let count = table.len() / SHA1_SIZE;
    let mut i: usize = 0;
    proof {
        vstd::std_specs::vec::axiom_spec_len(table);
    }
    while i < count
        invariant
            count as int == table@.len() as int / SHA1_SIZE as int,
            table@.len() <= usize::MAX,
            i <= count,
            pieces@.len() == i,
            forall|j: int|
                0 <= j < i ==> (#[trigger] pieces@[j])@ == table@.subrange(
                    j * SHA1_SIZE as int,
                    j * SHA1_SIZE as int + SHA1_SIZE as int,
                ),
        decreases count - i,
    {
        proof {
            lemma_chunk_in_bounds(table@.len() as int, i as int);
            assert(i as int * SHA1_SIZE as int + SHA1_SIZE as int <= table@.len());
            assert(0 <= i as int * SHA1_SIZE as int) by (nonlinear_arith)
                requires
                    0 <= i,
            ;
        }
        let start = i * SHA1_SIZE;
        let chunk = vstd::slice::slice_subrange(table.as_slice(), start, start + SHA1_SIZE);
        pieces.push(Piece(vstd::slice::slice_to_vec(chunk)));
        i = i + 1;
    }
    pieces
}

} // verus!
