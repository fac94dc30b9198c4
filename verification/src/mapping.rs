//! Mapping from piece indexes to file slices.
//!
//! A torrent's payload is cut into pieces of a fixed size (the last piece
//! may be shorter) and laid out over an ordered list of files. For every
//! piece, [`map_pieces_to_files`] lists the file slices that hold the
//! piece's bytes, in order.

use vstd::prelude::*;

use crate::flat_storage::FlatStorageFile;

verus! {

/// Mathematical image of a [`FileBlock`].
pub ghost struct FileBlockView {
    pub offset: int,
    pub file_index: int,
    pub file_offset: int,
    pub size: int,
}

/// One slice of a piece inside a backing file: `size` bytes at
/// `file_offset` in file `file_index`, holding the piece's bytes starting
/// at `offset` within the piece.
#[derive(Debug, PartialEq, Eq, Clone, Copy)]
pub struct FileBlock {
    pub offset: usize,
    pub file_index: usize,
    pub file_offset: usize,
    pub size: usize,
}

impl View for FileBlock {
    type V = FileBlockView;

    open spec fn view(&self) -> FileBlockView {
        FileBlockView {
            offset: self.offset as int,
            file_index: self.file_index as int,
            file_offset: self.file_offset as int,
            size: self.size as int,
        }
    }
}

/// The ordered file slices that make up one piece.
#[derive(Debug, PartialEq, Eq, Clone)]
pub struct PieceToFiles(pub Vec<FileBlock>);

impl View for PieceToFiles {
    type V = Seq<FileBlockView>;

    open spec fn view(&self) -> Seq<FileBlockView> {
        self.0@.map_values(|b: FileBlock| b@)
    }
}

/// The whole mapping, piece by piece, as sequences of block views.
pub open spec fn mapping_view(m: Seq<PieceToFiles>) -> Seq<Seq<FileBlockView>> {
    m.map_values(|p: PieceToFiles| p@)
}

/// The lengths of a list of files.
pub open spec fn file_lengths(files: Seq<FlatStorageFile>) -> Seq<int> {
    files.map_values(|f: FlatStorageFile| f.length as int)
}

/// Sum of a sequence of integers.
pub open spec fn seq_sum(s: Seq<int>) -> int
    decreases s.len(),
{
    if s.len() == 0 {
        0
    } else {
        s.first() + seq_sum(s.drop_first())
    }
}

/// Summing one more entry extends the sum of a prefix.
pub proof fn lemma_seq_sum_take_step(s: Seq<int>, k: int)
    requires
        0 <= k < s.len(),
    ensures
        seq_sum(s.take(k + 1)) == seq_sum(s.take(k)) + s[k],
    decreases k,
{
    if k == 0 {
        assert(s.take(0) =~= Seq::<int>::empty());
        assert(s.take(1) =~= seq![s[0]]);
        assert(s.take(1).drop_first() =~= Seq::<int>::empty());
    } else {
        lemma_seq_sum_take_step(s.drop_first(), k - 1);
        assert(s.take(k + 1).drop_first() =~= s.drop_first().take(k));
        assert(s.take(k).drop_first() =~= s.drop_first().take(k - 1));
        assert(s.take(k + 1).first() == s[0]);
        assert(s.take(k).first() == s[0]);
    }
}

/// A sum of non-negative entries is non-negative.
pub proof fn lemma_seq_sum_nonneg(s: Seq<int>)
    requires
        forall|i: int| 0 <= i < s.len() ==> 0 <= #[trigger] s[i],
    ensures
        0 <= seq_sum(s),
    decreases s.len(),
{
    if s.len() > 0 {
        lemma_seq_sum_nonneg(s.drop_first());
    }
}

/// A sum of non-negative entries is at least the sum of any prefix.
pub proof fn lemma_seq_sum_nonneg_suffix(s: Seq<int>, k: int)
    requires
        0 <= k <= s.len(),
        forall|i: int| 0 <= i < s.len() ==> 0 <= #[trigger] s[i],
    ensures
        seq_sum(s.take(k)) <= seq_sum(s),
        0 <= seq_sum(s.take(k)),
    decreases s.len() - k,
{
    assert(forall|i: int| 0 <= i < s.take(k).len() ==> 0 <= #[trigger] s.take(k)[i]);
    lemma_seq_sum_nonneg(s.take(k));
    if k == s.len() {
        assert(s.take(k) =~= s);
    } else {
        lemma_seq_sum_take_step(s, k);
        lemma_seq_sum_nonneg_suffix(s, k + 1);
    }
}

/// Each entry of a sum of non-negative entries is at most the sum.
pub proof fn lemma_seq_sum_element_bound(s: Seq<int>, k: int)
    requires
        0 <= k < s.len(),
        forall|i: int| 0 <= i < s.len() ==> 0 <= #[trigger] s[i],
    ensures
        s[k] <= seq_sum(s),
{
    lemma_seq_sum_take_step(s, k);
    lemma_seq_sum_nonneg_suffix(s, k + 1);
    lemma_seq_sum_nonneg_suffix(s, k);
}

/// How many payload bytes lie before file `f`: the sum of the lengths of
/// the files before it.
pub open spec fn prefix_lengths(lengths: Seq<int>, f: int) -> int {
    seq_sum(lengths.take(f))
}

/// Sum of the sizes of a piece's blocks: how many payload bytes the piece
/// holds.
pub open spec fn piece_size_sum(p: Seq<FileBlockView>) -> int
    decreases p.len(),
{
    if p.len() == 0 {
        0
    } else {
        piece_size_sum(p.drop_last()) + p.last().size
    }
}

/// State of the mapping walk: the blocks of the piece being filled, how
/// many bytes that piece still takes, how many it already holds, and the
/// pieces already closed.
pub ghost struct MapState {
    pub cur: Seq<FileBlockView>,
    pub left: int,
    pub offset: int,
    pub done: Seq<Seq<FileBlockView>>,
}

/// The walk's starting state: an empty piece that takes a whole
/// `piece_size` bytes.
pub open spec fn init_map_state(piece_size: int) -> MapState {
    MapState { cur: Seq::empty(), left: piece_size, offset: 0, done: Seq::empty() }
}

/// Walk one file: `rem` bytes of file `fi` starting at `fo`. While the
/// file holds more bytes than the current piece still takes, the piece is
/// completed and closed; the file's remainder joins the piece left open.
pub open spec fn spec_map_file(piece_size: int, fi: int, fo: int, rem: int, st: MapState) -> MapState
    decreases rem, (if st.left == 0 { 1int } else { 0int })
        when 1 <= piece_size && 0 <= rem && 0 <= st.left
{
    if st.left < rem {
        let closed = st.cur.push(
            FileBlockView { offset: st.offset, file_index: fi, file_offset: fo, size: st.left },
        );
        spec_map_file(
            piece_size,
            fi,
            fo + st.left,
            rem - st.left,
            MapState { cur: Seq::empty(), left: piece_size, offset: 0, done: st.done.push(closed) },
        )
    } else {
        MapState {
            cur: st.cur.push(
                FileBlockView { offset: st.offset, file_index: fi, file_offset: fo, size: rem },
            ),
            left: st.left - rem,
            offset: st.offset + rem,
            done: st.done,
        }
    }
}

/// Walk the files whose lengths are `lengths`, the first being file `fi`.
pub open spec fn spec_map_files(piece_size: int, fi: int, lengths: Seq<int>, st: MapState) -> MapState
    decreases lengths.len(),
{
    if lengths.len() == 0 {
        st
    } else {
        spec_map_files(
            piece_size,
            fi + 1,
            lengths.drop_first(),
            spec_map_file(piece_size, fi, 0, lengths.first(), st),
        )
    }
}

/// The mapping of a whole torrent: walk every file, then close the last
/// piece if it holds any block.
pub open spec fn spec_map_pieces(piece_size: int, lengths: Seq<int>) -> Seq<Seq<FileBlockView>> {
    let st = spec_map_files(piece_size, 0, lengths, init_map_state(piece_size));
    if st.cur.len() == 0 {
        st.done
    } else {
        st.done.push(st.cur)
    }
}

/// A block reads a real slice of a real file.
pub open spec fn wf_block(b: FileBlockView, lengths: Seq<int>) -> bool {
    &&& 0 <= b.file_index < lengths.len()
    &&& 0 <= b.size
    &&& 0 <= b.file_offset
    &&& b.file_offset + b.size <= lengths[b.file_index]
    &&& 0 <= b.offset
}

/// A piece's blocks read real file slices, tile the piece in order with no
/// gap and no overlap, and come from strictly increasing files.
pub open spec fn wf_piece(p: Seq<FileBlockView>, lengths: Seq<int>) -> bool {
    &&& forall|k: int| 0 <= k < p.len() ==> wf_block(#[trigger] p[k], lengths)
    &&& forall|k: int| 0 <= k < p.len() ==> #[trigger] p[k].offset == piece_size_sum(p.take(k))
    &&& forall|k: int, j: int| 0 <= k < j < p.len() ==> p[k].file_index < p[j].file_index
}

/// Every piece of the mapping is well formed, every piece holds at most
/// `piece_size` bytes, and every piece but the last holds exactly
/// `piece_size` bytes.
pub open spec fn wf_mapping(m: Seq<Seq<FileBlockView>>, lengths: Seq<int>, piece_size: int) -> bool {
    &&& forall|i: int| 0 <= i < m.len() ==> wf_piece(#[trigger] m[i], lengths)
    &&& forall|i: int| 0 <= i < m.len() ==> piece_size_sum(#[trigger] m[i]) <= piece_size
    &&& forall|i: int| 0 <= i < m.len() - 1 ==> piece_size_sum(#[trigger] m[i]) == piece_size
    &&& forall|i: int, k: int|
        0 <= i < m.len() && 0 <= k < m[i].len() ==> prefix_lengths(
            lengths,
            (#[trigger] m[i][k]).file_index,
        ) + m[i][k].file_offset == i * piece_size + m[i][k].offset
}

/// A piece with no negative block size holds a non-negative number of
/// bytes.
pub proof fn lemma_piece_size_sum_nonneg(p: Seq<FileBlockView>)
    requires
        forall|k: int| 0 <= k < p.len() ==> (#[trigger] p[k]).size >= 0,
    ensures
        0 <= piece_size_sum(p),
    decreases p.len(),
{
    if p.len() > 0 {
        assert(forall|k: int|
            0 <= k < p.drop_last().len() ==> (#[trigger] p.drop_last()[k]).size >= 0);
        lemma_piece_size_sum_nonneg(p.drop_last());
    }
}

/// A prefix of a piece holds at most as many bytes as the whole piece,
/// when no block has a negative size.
pub proof fn lemma_piece_size_sum_take(p: Seq<FileBlockView>, n: int)
    requires
        0 <= n <= p.len(),
        forall|k: int| 0 <= k < p.len() ==> (#[trigger] p[k]).size >= 0,
    ensures
        piece_size_sum(p.take(n)) <= piece_size_sum(p),
    decreases p.len() - n,
{
    if n == p.len() {
        assert(p.take(n) =~= p);
    } else {
        assert(p.take(n + 1).drop_last() =~= p.take(n));
        assert(p.take(n + 1).last() == p[n]);
        lemma_piece_size_sum_take(p, n + 1);
    }
}

/// A block of a well-formed piece lies between the piece's start and its
/// total size.
pub proof fn lemma_block_within_piece(p: Seq<FileBlockView>, lengths: Seq<int>, k: int)
    requires
        wf_piece(p, lengths),
        0 <= k < p.len(),
    ensures
        0 <= p[k].offset,
        p[k].offset + p[k].size <= piece_size_sum(p),
{
    assert(forall|j: int| 0 <= j < p.len() ==> (#[trigger] p[j]).size >= 0);
    assert(p[k].offset == piece_size_sum(p.take(k)));
    assert(forall|j: int|
        0 <= j < p.take(k).len() ==> (#[trigger] p.take(k)[j]).size >= 0);
    lemma_piece_size_sum_nonneg(p.take(k));
    assert(piece_size_sum(p.take(k + 1)) == piece_size_sum(p.take(k)) + p[k].size) by {
        assert(p.take(k + 1).drop_last() =~= p.take(k));
        assert(p.take(k + 1).last() == p[k]);
    }
    lemma_piece_size_sum_take(p, k + 1);
}

/// Blocks of two different pieces that read the same file read disjoint
/// slices of it: distinct pieces never overlap on disk.
pub proof fn lemma_cross_piece_disjoint(
    m: Seq<Seq<FileBlockView>>,
    lengths: Seq<int>,
    piece_size: int,
    i: int,
    j: int,
    k1: int,
    k2: int,
)
    requires
        wf_mapping(m, lengths, piece_size),
        1 <= piece_size,
        0 <= i < m.len(),
        0 <= j < m.len(),
        i != j,
        0 <= k1 < m[i].len(),
        0 <= k2 < m[j].len(),
        m[i][k1].file_index == m[j][k2].file_index,
    ensures
        m[i][k1].file_offset + m[i][k1].size <= m[j][k2].file_offset || m[j][k2].file_offset
            + m[j][k2].size <= m[i][k1].file_offset,
{
    let b1 = m[i][k1];
    let b2 = m[j][k2];
    lemma_block_within_piece(m[i], lengths, k1);
    lemma_block_within_piece(m[j], lengths, k2);
    let pf = prefix_lengths(lengths, b1.file_index);
    assert(pf + b1.file_offset == i * piece_size + b1.offset);
    assert(pf + b2.file_offset == j * piece_size + b2.offset);
    if i < j {
        assert(i * piece_size + piece_size <= j * piece_size) by (nonlinear_arith)
            requires
                i < j,
                1 <= piece_size,
        ;
        assert(b1.offset + b1.size <= piece_size);
        assert(b1.file_offset + b1.size <= b2.file_offset);
    } else {
        assert(j * piece_size + piece_size <= i * piece_size) by (nonlinear_arith)
            requires
                j < i,
                1 <= piece_size,
        ;
        assert(b2.offset + b2.size <= piece_size);
        assert(b2.file_offset + b2.size <= b1.file_offset);
    }
}

/// All the facts the mapping walk keeps true from file to file: the open
/// piece holds `offset` bytes and takes `left` more, its blocks are well
/// formed and come from files before `bound`, every closed piece is well
/// formed and holds exactly `piece_size` bytes, and `consumed` bytes of
/// payload have been walked so far.
pub open spec fn map_state_inv(
    st: MapState,
    piece_size: int,
    lengths: Seq<int>,
    consumed: int,
    bound: int,
) -> bool {
    &&& 0 <= st.offset
    &&& 0 <= st.left
    &&& st.offset + st.left == piece_size
    &&& piece_size_sum(st.cur) == st.offset
    &&& wf_piece(st.cur, lengths)
    &&& forall|k: int| 0 <= k < st.cur.len() ==> (#[trigger] st.cur[k]).file_index < bound
    &&& forall|i: int| 0 <= i < st.done.len() ==> wf_piece(#[trigger] st.done[i], lengths)
    &&& forall|i: int|
        0 <= i < st.done.len() ==> piece_size_sum(#[trigger] st.done[i]) == piece_size
    &&& forall|k: int|
        0 <= k < st.cur.len() ==> prefix_lengths(lengths, (#[trigger] st.cur[k]).file_index)
            + st.cur[k].file_offset == st.done.len() * piece_size + st.cur[k].offset
    &&& forall|i: int, k: int|
        0 <= i < st.done.len() && 0 <= k < st.done[i].len() ==> prefix_lengths(
            lengths,
            (#[trigger] st.done[i][k]).file_index,
        ) + st.done[i][k].file_offset == i * piece_size + st.done[i][k].offset
    &&& consumed == st.done.len() * piece_size + st.offset
}

proof fn lemma_piece_push_wf(p: Seq<FileBlockView>, b: FileBlockView, lengths: Seq<int>, bound: int)
    requires
        wf_piece(p, lengths),
        forall|k: int| 0 <= k < p.len() ==> (#[trigger] p[k]).file_index < bound,
        wf_block(b, lengths),
        b.offset == piece_size_sum(p),
        bound <= b.file_index,
    ensures
        wf_piece(p.push(b), lengths),
        piece_size_sum(p.push(b)) == piece_size_sum(p) + b.size,
        forall|k: int|
            0 <= k < p.push(b).len() ==> (#[trigger] p.push(b)[k]).file_index <= b.file_index,
{
    let q = p.push(b);
    assert(q.drop_last() =~= p);
    assert forall|k: int| 0 <= k < q.len() implies (#[trigger] q[k]).offset == piece_size_sum(
        q.take(k),
    ) by {
        if k < p.len() {
            assert(q.take(k) =~= p.take(k));
        } else {
            assert(q.take(k) =~= p);
        }
    }
}

proof fn lemma_map_file_inv(
    piece_size: int,
    fi: int,
    fo: int,
    rem: int,
    st: MapState,
    lengths: Seq<int>,
    consumed: int,
)
    requires
        1 <= piece_size,
        0 <= rem,
        0 <= fo,
        0 <= fi < lengths.len(),
        fo + rem == lengths[fi],
        consumed == prefix_lengths(lengths, fi) + fo,
        map_state_inv(st, piece_size, lengths, consumed, fi),
    ensures
        map_state_inv(
            spec_map_file(piece_size, fi, fo, rem, st),
            piece_size,
            lengths,
            consumed + rem,
            fi + 1,
        ),
        spec_map_file(piece_size, fi, fo, rem, st).cur.len() > 0,
        1 <= rem ==> 1 <= spec_map_file(piece_size, fi, fo, rem, st).offset,
        rem == 0 ==> spec_map_file(piece_size, fi, fo, rem, st).offset == st.offset,
    decreases rem, (if st.left == 0 { 1int } else { 0int }),
{
    if st.left < rem {
        let b = FileBlockView { offset: st.offset, file_index: fi, file_offset: fo, size: st.left };
        lemma_piece_push_wf(st.cur, b, lengths, fi);
        let closed = st.cur.push(b);
        let st2 = MapState {
            cur: Seq::<FileBlockView>::empty(),
            left: piece_size,
            offset: 0,
            done: st.done.push(closed),
        };
        assert(piece_size_sum(closed) == piece_size);
        assert(st2.done.len() * piece_size == st.done.len() * piece_size + piece_size)
            by (nonlinear_arith)
            requires
                st2.done.len() == st.done.len() + 1,
        ;
        assert(map_state_inv(st2, piece_size, lengths, consumed + st.left, fi));
        lemma_map_file_inv(piece_size, fi, fo + st.left, rem - st.left, st2, lengths, consumed
            + st.left);
    } else {
        let b = FileBlockView { offset: st.offset, file_index: fi, file_offset: fo, size: rem };
        lemma_piece_push_wf(st.cur, b, lengths, fi);
    }
}

proof fn lemma_map_files_inv(piece_size: int, all: Seq<int>, fi: int, st: MapState, consumed: int)
    requires
        1 <= piece_size,
        0 <= fi <= all.len(),
        forall|i: int| 0 <= i < all.len() ==> 0 <= #[trigger] all[i],
        consumed == prefix_lengths(all, fi),
        map_state_inv(st, piece_size, all, consumed, fi),
    ensures
        map_state_inv(
            spec_map_files(piece_size, fi, all.skip(fi), st),
            piece_size,
            all,
            consumed + seq_sum(all.skip(fi)),
            all.len() as int,
        ),
        fi < all.len() ==> spec_map_files(piece_size, fi, all.skip(fi), st).cur.len() > 0,
        1 <= st.offset || 1 <= seq_sum(all.skip(fi)) ==> 1 <= spec_map_files(
            piece_size,
            fi,
            all.skip(fi),
            st,
        ).offset,
        fi == all.len() ==> spec_map_files(piece_size, fi, all.skip(fi), st) == st,
    decreases all.len() - fi,
{
    if fi == all.len() {
        assert(all.skip(fi).len() == 0);
    } else {
        let suffix = all.skip(fi);
        assert(suffix.first() == all[fi]);
        assert(suffix.drop_first() =~= all.skip(fi + 1));
        let st_mid = spec_map_file(piece_size, fi, 0, all[fi], st);
        lemma_map_file_inv(piece_size, fi, 0, all[fi], st, all, consumed);
        assert(map_state_inv(st_mid, piece_size, all, consumed + all[fi], fi + 1));
        assert(consumed + all[fi] == prefix_lengths(all, fi + 1)) by {
            lemma_seq_sum_take_step(all, fi);
        }
        lemma_map_files_inv(piece_size, all, fi + 1, st_mid, consumed + all[fi]);
        assert(seq_sum(suffix) == all[fi] + seq_sum(all.skip(fi + 1)));
        if fi + 1 == all.len() {
            assert(spec_map_files(piece_size, fi + 1, all.skip(fi + 1), st_mid) == st_mid);
        }
        if 1 <= st.offset || 1 <= seq_sum(suffix) {
            assert(forall|i: int|
                0 <= i < all.skip(fi + 1).len() ==> 0 <= #[trigger] all.skip(fi + 1)[i]);
            lemma_seq_sum_nonneg(all.skip(fi + 1));
            if all[fi] >= 1 {
                assert(1 <= st_mid.offset);
            } else {
                assert(st_mid.offset == st.offset);
                assert(1 <= st_mid.offset || 1 <= seq_sum(all.skip(fi + 1)));
            }
        }
    }
}

/// Every piece that [`map_pieces_to_files`] yields is well formed: its
/// blocks read real file slices, tile the piece exactly once, and no piece
/// holds more than `piece_size` bytes.
pub proof fn lemma_map_pieces_wf(piece_size: int, lengths: Seq<int>)
    requires
        1 <= piece_size,
        forall|i: int| 0 <= i < lengths.len() ==> 0 <= #[trigger] lengths[i],
    ensures
        wf_mapping(spec_map_pieces(piece_size, lengths), lengths, piece_size),
{
    let init = init_map_state(piece_size);
    assert(piece_size_sum(init.cur) == 0);
    assert(wf_piece(init.cur, lengths));
    assert(init.done.len() * piece_size == 0) by (nonlinear_arith)
        requires
            init.done.len() == 0,
    ;
    assert(lengths.skip(0) =~= lengths);
    assert(lengths.take(0) =~= Seq::<int>::empty());
    lemma_map_files_inv(piece_size, lengths, 0, init, 0);
    let st = spec_map_files(piece_size, 0, lengths, init);
    let m = spec_map_pieces(piece_size, lengths);
    if st.cur.len() == 0 {
        assert(m == st.done);
    } else {
        assert(m == st.done.push(st.cur));
    }
}

/// The mapping tiles the whole payload: when the torrent holds at least
/// one byte, the mapping has one piece per `piece_size` bytes of payload
/// (rounding up), every piece but the last holds exactly `piece_size`
/// bytes, and the last holds the remainder. Files of zero length only
/// add zero-size blocks and change no piece's byte count.
pub proof fn lemma_map_pieces_tiling(piece_size: int, lengths: Seq<int>)
    requires
        1 <= piece_size,
        forall|i: int| 0 <= i < lengths.len() ==> 0 <= #[trigger] lengths[i],
        1 <= seq_sum(lengths),
    ensures
        spec_map_pieces(piece_size, lengths).len() == crate::spec_count_parts(
            seq_sum(lengths),
            piece_size,
        ),
        forall|i: int|
            0 <= i < spec_map_pieces(piece_size, lengths).len() - 1 ==> piece_size_sum(
                #[trigger] spec_map_pieces(piece_size, lengths)[i],
            ) == piece_size,
        piece_size_sum(spec_map_pieces(piece_size, lengths).last()) == seq_sum(lengths) - (
        spec_map_pieces(piece_size, lengths).len() - 1) * piece_size,
        1 <= piece_size_sum(spec_map_pieces(piece_size, lengths).last()) <= piece_size,
{
    let init = init_map_state(piece_size);
    assert(piece_size_sum(init.cur) == 0);
    assert(wf_piece(init.cur, lengths));
    assert(init.done.len() * piece_size == 0) by (nonlinear_arith)
        requires
            init.done.len() == 0,
    ;
    assert(lengths.skip(0) =~= lengths);
    assert(lengths.take(0) =~= Seq::<int>::empty());
    lemma_map_files_inv(piece_size, lengths, 0, init, 0);
    let st = spec_map_files(piece_size, 0, lengths, init);
    let total = seq_sum(lengths);
    let d = st.done.len() as int;
    assert(total == d * piece_size + st.offset);
    assert(lengths.len() >= 1);
    assert(st.cur.len() > 0);
    assert(1 <= st.offset);
    let m = spec_map_pieces(piece_size, lengths);
    assert(m == st.done.push(st.cur));
    assert(m.len() == d + 1);
    assert(piece_size * (d + 1) + (st.offset - 1) == total + piece_size - 1) by (nonlinear_arith)
        requires
            total == d * piece_size + st.offset,
    ;
    assert((total + piece_size - 1) / piece_size == d + 1) by {
        vstd::arithmetic::div_mod::lemma_div_multiples_vanish_fancy(
            d + 1,
            st.offset - 1,
            piece_size,
        );
    }
    assert(m.last() == st.cur);
    assert(piece_size_sum(m.last()) == total - d * piece_size);
}

/// Maps every piece index of a torrent to the file slices holding it.
///
/// `piece_size` is the torrent's piece length; `files` are the backing
/// files in payload order.
pub fn map_pieces_to_files(piece_size: usize, files: &[FlatStorageFile]) -> (r: Vec<PieceToFiles>)
    requires
        1 <= piece_size,
    ensures
        mapping_view(r@) == spec_map_pieces(piece_size as int, file_lengths(files@)),
{
    let ghost lengths = file_lengths(files@);
    let ghost target = spec_map_files(
        piece_size as int,
        0,
        lengths,
        init_map_state(piece_size as int),
    );

    let mut current_piece_left: usize = piece_size;
    let mut current_piece = PieceToFiles(Vec::new());
    let mut offset: usize = 0;
    let mut mapping: Vec<PieceToFiles> = Vec::new();

    proof {
        assert(current_piece@ =~= Seq::<FileBlockView>::empty());
        assert(mapping_view(mapping@) =~= Seq::<Seq<FileBlockView>>::empty());
        assert(lengths.skip(0) =~= lengths);
    }

    let mut file_index: usize = 0;
    while file_index < files.len()
        invariant
            1 <= piece_size,
            file_index <= files.len(),
            lengths == file_lengths(files@),
            offset + current_piece_left == piece_size,
            spec_map_files(
                piece_size as int,
                file_index as int,
                lengths.skip(file_index as int),
                MapState {
                    cur: current_piece@,
                    left: current_piece_left as int,
                    offset: offset as int,
                    done: mapping_view(mapping@),
                },
            ) == target,
        decreases files.len() - file_index,
    {
        let file = &files[file_index];
        let mut file_remaining_length: usize = file.length;
        let mut file_offset: usize = 0;

        let ghost file_target = spec_map_file(
            piece_size as int,
            file_index as int,
            0,
            file.length as int,
            MapState {
                cur: current_piece@,
                left: current_piece_left as int,
                offset: offset as int,
                done: mapping_view(mapping@),
            },
        );
        proof {
            assert(lengths.skip(file_index as int).first() == lengths[file_index as int]);
        }

        while current_piece_left < file_remaining_length
            invariant
                1 <= piece_size,
                file_index < files.len(),
                offset + current_piece_left == piece_size,
                file_offset + file_remaining_length <= file.length,
                spec_map_file(
                    piece_size as int,
                    file_index as int,
                    file_offset as int,
                    file_remaining_length as int,
                    MapState {
                        cur: current_piece@,
                        left: current_piece_left as int,
                        offset: offset as int,
                        done: mapping_view(mapping@),
                    },
                ) == file_target,
            decreases file_remaining_length, (if current_piece_left == 0 { 1int } else { 0int }),
        {
            let ghost pre_cur = current_piece@;
            let ghost pre_done = mapping_view(mapping@);
            let block = FileBlock {
                offset,
                file_index,
                file_offset,
                size: current_piece_left,
            };
            current_piece.0.push(block);
            proof {
                assert(current_piece@ =~= pre_cur.push(block@));
            }

            file_remaining_length = file_remaining_length - current_piece_left;
            file_offset = file_offset + current_piece_left;

            mapping.push(current_piece);
            proof {
                assert(mapping_view(mapping@) =~= pre_done.push(pre_cur.push(block@)));
            }
            current_piece = PieceToFiles(Vec::new());
            offset = 0;
            current_piece_left = piece_size;
            proof {
                assert(current_piece@ =~= Seq::<FileBlockView>::empty());
            }
        }

        if current_piece_left >= file_remaining_length {
            let ghost pre_cur = current_piece@;
            let block = FileBlock {
                offset,
                file_index,
                file_offset,
                size: file_remaining_length,
            };
            current_piece.0.push(block);
            proof {
                assert(current_piece@ =~= pre_cur.push(block@));
            }
            current_piece_left = current_piece_left - file_remaining_length;
            offset = offset + file_remaining_length;
        }

        file_index = file_index + 1;
        proof {
            assert(lengths.skip(file_index as int - 1).drop_first() =~= lengths.skip(
                file_index as int,
            ));
        }
    }

    if current_piece.0.len() != 0 {
        mapping.push(current_piece);
        proof {
            assert(mapping_view(mapping@) =~= target.done.push(target.cur));
        }
    } else {
        proof {
            assert(mapping_view(mapping@) =~= target.done);
        }
    }
    mapping
}

} // verus!
