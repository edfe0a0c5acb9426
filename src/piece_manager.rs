use vstd::prelude::*;
use crate::hash::{sha1_digest, sha1_of};
use crate::meta_info::MetaInfo;

verus! {

/// Completed bytes held in memory beyond which they should be written out.
pub const SAVE_BYTES_THRESHOLD: usize = 1048576;

/// Where a piece stands.
#[derive(Debug)]
pub enum PieceStatus {
    NotStarted,
    InProgress,
    Completed(Vec<u8>),
    OnDisk,
}

/// The model of a piece status.
pub enum StatusView {
    NotStarted,
    InProgress,
    Completed(Seq<u8>),
    OnDisk,
}

impl View for PieceStatus {
    type V = StatusView;

    open spec fn view(&self) -> StatusView {
        match self {
            PieceStatus::NotStarted => StatusView::NotStarted,
            PieceStatus::InProgress => StatusView::InProgress,
            PieceStatus::Completed(b) => StatusView::Completed(b@),
            PieceStatus::OnDisk => StatusView::OnDisk,
        }
    }
}

/// The model of a piece manager.
pub struct PiecesView {
    pub bitfield: Seq<u8>,
    pub statuses: Seq<StatusView>,
    pub hashes: Seq<Seq<u8>>,
    pub piece_length: nat,
    pub torrent_hash: Seq<u8>,
}

/// Tracks which pieces are held, claimed by a worker, in memory or on disk.
#[derive(Debug)]
pub struct PieceManager {
    bitfield: Vec<u8>,
    piece_hashes: Vec<[u8; 20]>,
    piece_length: usize,
    torrent_hash: [u8; 20],
    piece_map: Vec<PieceStatus>,
}

/// A completed piece to be written at `offset` of the output file.
#[derive(Debug)]
pub struct PieceWrite {
    pub index: usize,
    pub offset: u128,
    pub bytes: Vec<u8>,
}

/// Bit `i` of a bitfield, high bit first within each byte.
pub open spec fn bit_set(bf: Seq<u8>, i: int) -> bool {
    0 <= i && i / 8 < bf.len() && (bf[i / 8] >> ((7 - i % 8) as u8)) & 1u8 == 1u8
}

/// The piece is held, in memory or on disk.
pub open spec fn is_held(s: StatusView) -> bool {
    s is Completed || s is OnDisk
}

/// The invariant: piece indices and lengths that fit the wire's 32-bit fields, one status and
/// one expected digest per piece, a bitfield of one bit per piece
/// that is set exactly for the held pieces, and completed bytes that match their digest.
pub open spec fn pieces_wf(v: PiecesView) -> bool {
    &&& v.hashes.len() == v.statuses.len()
    &&& v.statuses.len() <= u32::MAX
    &&& 0 < v.piece_length <= u32::MAX
    &&& v.bitfield.len() == (v.statuses.len() + 7) / 8
    &&& forall|i: int|
        0 <= i < 8 * v.bitfield.len() ==> (#[trigger] bit_set(v.bitfield, i) <==> (i
            < v.statuses.len() && is_held(v.statuses[i])))
    &&& forall|i: int|
        0 <= i < v.statuses.len() ==> (#[trigger] v.statuses[i] matches StatusView::Completed(b)
            ==> sha1_of(b) == v.hashes[i])
}

/// Piece `i` may be handed to a peer whose bitfield is `their`.
pub open spec fn claimable(v: PiecesView, their: Seq<u8>, i: int) -> bool {
    0 <= i < v.statuses.len() && bit_set(their, i) && v.statuses[i] is NotStarted
}

/// The lowest claimable piece at or after `from`.
pub open spec fn first_claimable(v: PiecesView, their: Seq<u8>, from: int) -> Option<int>
    decreases v.statuses.len() - from,
{
    if from < 0 || from >= v.statuses.len() {
        None
    } else if claimable(v, their, from) {
        Some(from)
    } else {
        first_claimable(v, their, from + 1)
    }
}

/// The state after claiming piece `i`.
pub open spec fn claim(v: PiecesView, i: int) -> PiecesView {
    PiecesView { statuses: v.statuses.update(i, StatusView::InProgress), ..v }
}

/// Total bytes of completed pieces held in memory.
pub open spec fn completed_bytes(s: Seq<StatusView>) -> nat
    decreases s.len(),
{
    if s.len() == 0 {
        0
    } else {
        completed_bytes(s.subrange(0, s.len() - 1)) + match s[s.len() - 1] {
            StatusView::Completed(b) => b.len(),
            _ => 0,
        }
    }
}

/// Every piece is held.
pub open spec fn all_held(s: Seq<StatusView>) -> bool {
    forall|i: int| 0 <= i < s.len() ==> #[trigger] is_held(s[i])
}

proof fn lemma_diff_bit(mine: u8, theirs: u8, k: u8)
    requires
        k < 8,
    ensures
        (((!mine & theirs) >> ((7 - k) as u8)) & 1u8 == 1u8) == (((theirs >> ((7 - k) as u8)) & 1u8 == 1u8) && !(
        (mine >> ((7 - k) as u8)) & 1u8 == 1u8)),
{
    assert((((!mine & theirs) >> ((7 - k) as u8)) & 1u8 == 1u8) == (((theirs >> ((7 - k) as u8)) & 1u8 == 1u8)
        && !((mine >> ((7 - k) as u8)) & 1u8 == 1u8))) by (bit_vector)
        requires
            k < 8,
    ;
}

proof fn lemma_set_bit(b: u8, k: u8, j: u8)
    requires
        k < 8,
        j < 8,
    ensures
        (((b | (0x80u8 >> k)) >> ((7 - j) as u8)) & 1u8 == 1u8) == (j == k || ((b >> ((7 - j) as u8)) & 1u8
            == 1u8)),
{
    assert((((b | (0x80u8 >> k)) >> ((7 - j) as u8)) & 1u8 == 1u8) == (j == k || ((b >> ((7 - j) as u8)) & 1u8
        == 1u8))) by (bit_vector)
        requires
            k < 8,
            j < 8,
    ;
}

proof fn lemma_zero_bits(j: u8)
    requires
        j < 8,
    ensures
        !((0u8 >> ((7 - j) as u8)) & 1u8 == 1u8),
{
    assert(!((0u8 >> ((7 - j) as u8)) & 1u8 == 1u8)) by (bit_vector)
        requires
            j < 8,
    ;
}

/// A piece in progress is never offered again until it is added or cancelled.
pub proof fn lemma_in_progress_not_offered(v: PiecesView, their: Seq<u8>, from: int, i: int)
    requires
        0 <= i < v.statuses.len(),
        v.statuses[i] is InProgress,
    ensures
        first_claimable(v, their, from) != Some(i),
    decreases v.statuses.len() - from,
{
    if 0 <= from < v.statuses.len() && !claimable(v, their, from) {
        lemma_in_progress_not_offered(v, their, from + 1, i);
    }
}

/// A held piece is never offered.
pub proof fn lemma_held_not_offered(v: PiecesView, their: Seq<u8>, from: int, i: int)
    requires
        0 <= i < v.statuses.len(),
        is_held(v.statuses[i]),
    ensures
        first_claimable(v, their, from) != Some(i),
    decreases v.statuses.len() - from,
{
    if 0 <= from < v.statuses.len() && !claimable(v, their, from) {
        lemma_held_not_offered(v, their, from + 1, i);
    }
}

/// Of two claims in a row, whatever bitfields the peers advertise, the second never receives
/// the piece the first received.
pub proof fn lemma_claims_exclusive(v: PiecesView, first: Seq<u8>, second: Seq<u8>)
    ensures
        first_claimable(v, first, 0) matches Some(i) ==> first_claimable(
            claim(v, i),
            second,
            0,
        ) != Some(i),
{
    if let Some(i) = first_claimable(v, first, 0) {
        lemma_first_claimable_range(v, first, 0);
        lemma_in_progress_not_offered(claim(v, i), second, 0, i);
    }
}

pub proof fn lemma_first_claimable_range(v: PiecesView, their: Seq<u8>, from: int)
    ensures
        first_claimable(v, their, from) matches Some(i) ==> claimable(v, their, i) && from <= i,
    decreases v.statuses.len() - from,
{
    if 0 <= from < v.statuses.len() && !claimable(v, their, from) {
        lemma_first_claimable_range(v, their, from + 1);
    }
}

proof fn lemma_first_claimable_skip(v: PiecesView, their: Seq<u8>, from: int, to: int)
    requires
        0 <= from <= to,
        forall|j: int| from <= j < to ==> !#[trigger] claimable(v, their, j),
    ensures
        first_claimable(v, their, from) == first_claimable(v, their, to),
    decreases to - from,
{
    if from < to && from < v.statuses.len() {
        lemma_first_claimable_skip(v, their, from + 1, to);
    } else if from < to {
        lemma_first_claimable_none_after(v, their, from);
        lemma_first_claimable_none_after(v, their, to);
    }
}

proof fn lemma_first_claimable_none_after(v: PiecesView, their: Seq<u8>, from: int)
    requires
        from >= v.statuses.len(),
    ensures
        first_claimable(v, their, from) is None,
{
}

proof fn lemma_completed_bytes_prefix(s: Seq<StatusView>, i: int)
    requires
        0 <= i <= s.len(),
    ensures
        completed_bytes(s.subrange(0, i)) <= completed_bytes(s),
    decreases s.len() - i,
{
    if i < s.len() {
        lemma_completed_bytes_prefix(s, i + 1);
        assert(s.subrange(0, i + 1).subrange(0, i) =~= s.subrange(0, i));
    } else {
        assert(s.subrange(0, i) =~= s);
    }
}

impl PieceManager {
    pub closed spec fn view(&self) -> PiecesView {
        PiecesView {
            bitfield: self.bitfield@,
            statuses: self.piece_map@.map_values(|s: PieceStatus| s@),
            hashes: self.piece_hashes@.map_values(|h: [u8; 20]| h@),
            piece_length: self.piece_length as nat,
            torrent_hash: self.torrent_hash@,
        }
    }

    pub open spec fn wf(&self) -> bool {
        pieces_wf(self.view())
    }

    /// One piece per expected digest of the torrent, none held yet.
    pub fn new(meta_info: &MetaInfo) -> (r: Self)
        requires
            0 < meta_info.info.piece_length <= u32::MAX,
            meta_info.info.pieces@.len() / 20 <= u32::MAX,
        ensures
            r.wf(),
            r.view().statuses.len() == meta_info.info.pieces@.len() / 20,
            forall|i: int|
                0 <= i < r.view().statuses.len() ==> #[trigger] r.view().statuses[i] is NotStarted,
            forall|i: int|
                0 <= i < r.view().hashes.len() ==> #[trigger] r.view().hashes[i]
                    == meta_info.info.pieces@.subrange(i * 20, i * 20 + 20),
            r.view().piece_length == meta_info.info.piece_length,
            r.view().torrent_hash == meta_info.hash@,
    {
        let piece_hashes = meta_info.info.get_piece_hashes();
        let n = piece_hashes.len();
        let mut piece_map: Vec<PieceStatus> = Vec::new();
        let mut i: usize = 0;
        while i < n
            invariant
                i <= n,
                piece_map@.len() == i,
                forall|j: int| 0 <= j < i ==> #[trigger] piece_map@[j] is NotStarted,
            decreases n - i,
        {
            piece_map.push(PieceStatus::NotStarted);
            i += 1;
        }
        let bytes = n / 8 + if n % 8 == 0 { 0 } else { 1 };
        let mut bitfield: Vec<u8> = Vec::new();
        let mut k: usize = 0;
        while k < bytes
            invariant
                k <= bytes,
                bitfield@.len() == k,
                forall|j: int| 0 <= j < k ==> #[trigger] bitfield@[j] == 0u8,
            decreases bytes - k,
        {
            bitfield.push(0);
            k += 1;
        }
        let r = PieceManager {
            bitfield,
            piece_hashes,
            piece_length: meta_info.info.piece_length as usize,
            torrent_hash: meta_info.hash,
            piece_map,
        };
        proof {
            let v = r.view();
            assert(v.bitfield.len() == (v.statuses.len() + 7) / 8);
            assert forall|i: int| 0 <= i < 8 * v.bitfield.len() implies (#[trigger] bit_set(
                v.bitfield,
                i,
            ) <==> (i < v.statuses.len() && is_held(v.statuses[i]))) by {
                assert(v.bitfield[i / 8] == 0u8);
                lemma_zero_bits((i % 8) as u8);
                if i < v.statuses.len() {
                    assert(v.statuses[i] is NotStarted);
                }
            }
        }
        r
    }

    /// A copy of our bitfield.
    pub fn get_bitfield(&self) -> (r: Vec<u8>)
        ensures
            r@ == self.view().bitfield,
    {
        self.bitfield.clone()
    }

    pub fn get_piece_length(&self) -> (r: usize)
        ensures
            r == self.view().piece_length,
    {
        self.piece_length
    }

    pub fn get_torrent_hash(&self) -> (r: &[u8; 20])
        ensures
            r@ == self.view().torrent_hash,
    {
        &self.torrent_hash
    }

    /// The number of pieces.
    pub fn piece_count(&self) -> (r: usize)
        ensures
            r == self.view().statuses.len(),
    {
        self.piece_map.len()
    }

    /// Whether `piece` has the expected digest of piece `piece_index`.
    pub fn is_piece_valid(&self, piece_index: usize, piece: &[u8]) -> (r: bool)
        ensures
            r == (piece_index < self.view().hashes.len() && sha1_of(piece@) == self.view().hashes[piece_index as int]),
    {
        if piece_index >= self.piece_hashes.len() {
            return false;
        }
        let digest = sha1_digest(piece);
        digest_equal(&digest, &self.piece_hashes[piece_index])
    }

    /// Claims the lowest piece that the peer has, we lack, and nobody is fetching.
    pub fn get_next_piece(&mut self, their_bitfield: &[u8]) -> (r: Option<usize>)
        requires
            old(self).wf(),
        ensures
            final(self).wf(),
            match first_claimable(old(self).view(), their_bitfield@, 0) {
                Some(i) => r == Some(i as usize) && final(self).view() == claim(old(self).view(), i),
                None => r is None && final(self).view() == old(self).view(),
            },
    {
        let ghost v = self.view();
        let n = self.piece_map.len();
        let mut byte: usize = 0;
        while byte < self.bitfield.len() && byte < their_bitfield.len()
            invariant
                self.view() == v,
                v == old(self).view(),
                pieces_wf(v),
                n == v.statuses.len(),
                self.bitfield@ == v.bitfield,
                forall|j: int| 0 <= j < 8 * byte ==> !#[trigger] claimable(v, their_bitfield@, j),
            decreases self.bitfield.len() - byte,
        {
            let mine = self.bitfield[byte];
            let theirs = their_bitfield[byte];
            let diff = !mine & theirs;
            let mut bit: u8 = 0;
            while bit < 8
                invariant
                    self.view() == v,
                    v == old(self).view(),
                    pieces_wf(v),
                    n == v.statuses.len(),
                    self.bitfield@ == v.bitfield,
                    byte < self.bitfield@.len(),
                    byte < their_bitfield@.len(),
                    mine == v.bitfield[byte as int],
                    theirs == their_bitfield@[byte as int],
                    diff == !mine & theirs,
                    bit <= 8,
                    forall|j: int|
                        0 <= j < 8 * byte + bit ==> !#[trigger] claimable(v, their_bitfield@, j),
                decreases 8 - bit,
            {
                let piece = byte * 8 + bit as usize;
                let ghost p = piece as int;
                assert(p / 8 == byte && p % 8 == bit);
                proof {
                    lemma_diff_bit(mine, theirs, bit);
                }
                if (diff >> (7 - bit)) & 1 == 1 && piece < n {
                    if let PieceStatus::NotStarted = self.piece_map[piece] {
                        proof {
                            assert(v.statuses[p] == self.piece_map@[p]@);
                            assert(v.statuses[p] is NotStarted);
                            assert(bit_set(their_bitfield@, p));
                            assert(claimable(v, their_bitfield@, p));
                            lemma_first_claimable_skip(v, their_bitfield@, 0, p);
                            assert(first_claimable(v, their_bitfield@, p) == Some(p));
                        }
                        self.piece_map.set(piece, PieceStatus::InProgress);
                        proof {
                            assert(self.view().statuses =~= v.statuses.update(p, StatusView::InProgress));
                            assert(self.view() == claim(v, p));
                            let w = self.view();
                            assert forall|i: int| 0 <= i < 8 * w.bitfield.len() implies (#[trigger] bit_set(
                                w.bitfield,
                                i,
                            ) <==> (i < w.statuses.len() && is_held(w.statuses[i]))) by {
                                assert(bit_set(v.bitfield, i) <==> (i < v.statuses.len() && is_held(v.statuses[i])));
                            }
                            assert forall|i: int| 0 <= i < w.statuses.len() implies (#[trigger] w.statuses[i] matches StatusView::Completed(b)
                                ==> sha1_of(b) == w.hashes[i]) by {
                                if i != p {
                                    assert(w.statuses[i] == v.statuses[i]);
                                }
                            }
                            assert(first_claimable(old(self).view(), their_bitfield@, 0) == Some(p));
                            assert(self.view() == claim(old(self).view(), p));
                        }
                        return Some(piece);
                    }
                }
                proof {
                    if p < n {
                        assert(bit_set(v.bitfield, p) <==> is_held(v.statuses[p]));
                    }
                }
                bit += 1;
            }
            byte += 1;
        }
        proof {
            assert forall|j: int| 0 <= j < n implies !#[trigger] claimable(v, their_bitfield@, j) by {
                if j >= 8 * byte {
                    assert(j / 8 >= byte);
                }
            }
            lemma_first_claimable_skip(v, their_bitfield@, 0, n as int);
        }
        None
    }
}

/// The bitfield with the bit of piece `i` set.
pub open spec fn set_bit(bf: Seq<u8>, i: int) -> Seq<u8> {
    bf.update(i / 8, bf[i / 8] | (0x80u8 >> ((i % 8) as u8)))
}

/// The state after `add_piece(i, bytes)` where `matches` tells whether the digest of `bytes` is
/// the expected one: a piece not yet held becomes completed, or goes back to not started.
pub open spec fn after_add(v: PiecesView, i: int, bytes: Seq<u8>, matches: bool) -> PiecesView {
    if !(0 <= i < v.statuses.len()) || is_held(v.statuses[i]) {
        v
    } else if matches {
        PiecesView {
            statuses: v.statuses.update(i, StatusView::Completed(bytes)),
            bitfield: set_bit(v.bitfield, i),
            ..v
        }
    } else {
        PiecesView { statuses: v.statuses.update(i, StatusView::NotStarted), ..v }
    }
}

/// The state after `cancel_piece(i)`: a piece in progress goes back to not started.
pub open spec fn after_cancel(v: PiecesView, i: int) -> PiecesView {
    if 0 <= i < v.statuses.len() && v.statuses[i] is InProgress {
        PiecesView { statuses: v.statuses.update(i, StatusView::NotStarted), ..v }
    } else {
        v
    }
}

/// Setting the bit of a piece that becomes held keeps the bitfield in step with the statuses.
proof fn lemma_set_bit_wf(v: PiecesView, i: int, w: PiecesView)
    requires
        pieces_wf(v),
        0 <= i < v.statuses.len(),
        w.bitfield == set_bit(v.bitfield, i),
        w.statuses.len() == v.statuses.len(),
        w.hashes == v.hashes,
        w.piece_length == v.piece_length,
        is_held(w.statuses[i]),
        forall|j: int| 0 <= j < v.statuses.len() && j != i ==> w.statuses[j] == v.statuses[j],
        w.statuses[i] matches StatusView::Completed(b) ==> sha1_of(b) == v.hashes[i],
    ensures
        pieces_wf(w),
{
    assert(i / 8 < v.bitfield.len());
    assert forall|j: int| 0 <= j < 8 * w.bitfield.len() implies (#[trigger] bit_set(w.bitfield, j)
        <==> (j < w.statuses.len() && is_held(w.statuses[j]))) by {
        assert(bit_set(v.bitfield, j) <==> (j < v.statuses.len() && is_held(v.statuses[j])));
        if j / 8 == i / 8 {
            lemma_set_bit(v.bitfield[i / 8], (i % 8) as u8, (j % 8) as u8);
        }
    }
    assert forall|j: int| 0 <= j < w.statuses.len() implies (#[trigger] w.statuses[j] matches StatusView::Completed(b)
        ==> sha1_of(b) == w.hashes[j]) by {
        if j != i {
            assert(w.statuses[j] == v.statuses[j]);
        }
    }
}

/// Changing the status of a piece that is not held to another that is not held keeps the
/// invariant.
proof fn lemma_unheld_update_wf(v: PiecesView, i: int, s: StatusView)
    requires
        pieces_wf(v),
        0 <= i < v.statuses.len(),
        !is_held(v.statuses[i]),
        !is_held(s),
    ensures
        pieces_wf(PiecesView { statuses: v.statuses.update(i, s), ..v }),
{
    let w = PiecesView { statuses: v.statuses.update(i, s), ..v };
    assert forall|j: int| 0 <= j < 8 * w.bitfield.len() implies (#[trigger] bit_set(w.bitfield, j)
        <==> (j < w.statuses.len() && is_held(w.statuses[j]))) by {
        assert(bit_set(v.bitfield, j) <==> (j < v.statuses.len() && is_held(v.statuses[j])));
    }
    assert forall|j: int| 0 <= j < w.statuses.len() implies (#[trigger] w.statuses[j] matches StatusView::Completed(b)
        ==> sha1_of(b) == w.hashes[j]) by {
        if j != i {
            assert(w.statuses[j] == v.statuses[j]);
        }
    }
}

impl PieceManager {
    proof fn lemma_view_index(&self, i: int)
        requires
            0 <= i < self.piece_map@.len(),
        ensures
            self.view().statuses[i] == self.piece_map@[i]@,
            self.view().statuses.len() == self.piece_map@.len(),
    {
    }

    fn set_held_bit(&mut self, index: usize)
        requires
            index / 8 < old(self).bitfield@.len(),
        ensures
            final(self).bitfield@ == set_bit(old(self).bitfield@, index as int),
            final(self).piece_map == old(self).piece_map,
            final(self).piece_hashes == old(self).piece_hashes,
            final(self).piece_length == old(self).piece_length,
            final(self).torrent_hash == old(self).torrent_hash,
    {
        let byte = index / 8;
        let k = (index % 8) as u8;
        let b = self.bitfield[byte] | (0x80u8 >> k);
        self.bitfield.set(byte, b);
    }

    fn status_is_held(&self, index: usize) -> (r: bool)
        requires
            index < self.piece_map@.len(),
        ensures
            r == is_held(self.view().statuses[index as int]),
    {
        match &self.piece_map[index] {
            PieceStatus::Completed(_) | PieceStatus::OnDisk => true,
            _ => false,
        }
    }

    /// Records a downloaded piece whose SHA-1 digest is `digest`: it is kept when the digest is
    /// the expected one, and the piece is released for another try when it is not.
    pub fn add_piece_with_digest(&mut self, index: usize, bytes: Vec<u8>, digest: [u8; 20]) -> (r: bool)
        requires
            old(self).wf(),
            digest@ == sha1_of(bytes@),
        ensures
            final(self).wf(),
            r == (index < old(self).view().hashes.len() && digest@ == old(self).view().hashes[index as int]),
            final(self).view() == after_add(old(self).view(), index as int, bytes@, r),
    {
        let ghost v = self.view();
        let ghost bv = bytes@;
        if index >= self.piece_map.len() {
            return false;
        }
        let matches = digest_equal(&digest, &self.piece_hashes[index]);
        if self.status_is_held(index) {
            return matches;
        }
        if matches {
            self.piece_map.set(index, PieceStatus::Completed(bytes));
            self.set_held_bit(index);
            proof {
                let w = self.view();
                assert(w.statuses =~= v.statuses.update(index as int, StatusView::Completed(bv)));
                lemma_set_bit_wf(v, index as int, w);
                assert(w == after_add(v, index as int, bv, true));
            }
        } else {
            self.piece_map.set(index, PieceStatus::NotStarted);
            proof {
                lemma_unheld_update_wf(v, index as int, StatusView::NotStarted);
                assert(self.view().statuses =~= v.statuses.update(index as int, StatusView::NotStarted));
            }
        }
        matches
    }

    /// Verifies a downloaded piece against its expected SHA-1 digest and records it: kept when
    /// the digest matches, released for another try when it does not.
    pub fn add_piece(&mut self, index: usize, bytes: Vec<u8>) -> (r: bool)
        requires
            old(self).wf(),
        ensures
            final(self).wf(),
            r == (index < old(self).view().hashes.len() && sha1_of(bytes@) == old(self).view().hashes[index as int]),
            final(self).view() == after_add(old(self).view(), index as int, bytes@, r),
    {
        let digest = sha1_digest(bytes.as_slice());
        self.add_piece_with_digest(index, bytes, digest)
    }

    /// Releases a piece that a worker held in progress.
    pub fn cancel_piece(&mut self, index: usize)
        requires
            old(self).wf(),
        ensures
            final(self).wf(),
            final(self).view() == after_cancel(old(self).view(), index as int),
    {
        let ghost v = self.view();
        if index < self.piece_map.len() {
            if let PieceStatus::InProgress = &self.piece_map[index] {
                self.piece_map.set(index, PieceStatus::NotStarted);
                proof {
                    lemma_unheld_update_wf(v, index as int, StatusView::NotStarted);
                    assert(self.view().statuses =~= v.statuses.update(index as int, StatusView::NotStarted));
                }
            }
        }
    }

    /// Whether the completed pieces in memory should be written out: they reach the threshold,
    /// or every piece is held.
    pub fn should_save(&self) -> (r: bool)
        ensures
            r == (completed_bytes(self.view().statuses) >= SAVE_BYTES_THRESHOLD || all_held(
                self.view().statuses,
            )),
    {
        let ghost s = self.view().statuses;
        let n = self.piece_map.len();
        let mut total: usize = 0;
        let mut held = true;
        let mut i: usize = 0;
        assert(s.subrange(0, 0) =~= Seq::<StatusView>::empty());
        while i < n
            invariant
                i <= n,
                n == s.len(),
                s == self.view().statuses,
                total == completed_bytes(s.subrange(0, i as int)),
                total < SAVE_BYTES_THRESHOLD,
                held == (forall|j: int| 0 <= j < i ==> #[trigger] is_held(s[j])),
            decreases n - i,
        {
            proof {
                self.lemma_view_index(i as int);
                assert(s.subrange(0, i + 1).subrange(0, i as int) =~= s.subrange(0, i as int));
            }
            match &self.piece_map[i] {
                PieceStatus::Completed(b) => {
                    assert(is_held(s[i as int]));
                    if b.len() >= SAVE_BYTES_THRESHOLD - total {
                        proof {
                            lemma_completed_bytes_prefix(s, i + 1);
                        }
                        return true;
                    }
                    total = total + b.len();
                },
                PieceStatus::OnDisk => {
                    assert(is_held(s[i as int]));
                },
                _ => {
                    assert(!is_held(s[i as int]));
                    held = false;
                },
            }
            i += 1;
        }
        assert(s.subrange(0, n as int) =~= s);
        held
    }

    /// The completed pieces in memory, in index order, each with the file offset it belongs at.
    pub fn pending_writes(&self) -> (r: Vec<PieceWrite>)
        requires
            self.wf(),
        ensures
            forall|k: int|
                0 <= k < r@.len() ==> {
                    let w = #[trigger] r@[k];
                    &&& w.index < self.view().statuses.len()
                    &&& self.view().statuses[w.index as int] == StatusView::Completed(w.bytes@)
                    &&& w.offset == w.index * self.view().piece_length
                    &&& sha1_of(w.bytes@) == self.view().hashes[w.index as int]
                },
            forall|k1: int, k2: int|
                0 <= k1 < k2 < r@.len() ==> #[trigger] r@[k1].index < #[trigger] r@[k2].index,
            forall|i: int|
                0 <= i < self.view().statuses.len() && #[trigger] self.view().statuses[i] is Completed
                    ==> exists|k: int| 0 <= k < r@.len() && r@[k].index == i,
    {
        let ghost v = self.view();
        let n = self.piece_map.len();
        let mut r: Vec<PieceWrite> = Vec::new();
        let mut i: usize = 0;
        while i < n
            invariant
                i <= n,
                n == v.statuses.len(),
                v == self.view(),
                pieces_wf(v),
                forall|k: int|
                    0 <= k < r@.len() ==> {
                        let w = #[trigger] r@[k];
                        &&& w.index < i
                        &&& v.statuses[w.index as int] == StatusView::Completed(w.bytes@)
                        &&& w.offset == w.index * v.piece_length
                        &&& sha1_of(w.bytes@) == v.hashes[w.index as int]
                    },
                forall|k1: int, k2: int|
                    0 <= k1 < k2 < r@.len() ==> #[trigger] r@[k1].index < #[trigger] r@[k2].index,
                forall|j: int|
                    0 <= j < i && #[trigger] v.statuses[j] is Completed ==> exists|k: int|
                        0 <= k < r@.len() && r@[k].index == j,
            decreases n - i,
        {
            proof {
                self.lemma_view_index(i as int);
            }
            let ghost before = r@;
            if let PieceStatus::Completed(b) = &self.piece_map[i] {
                assert((i as int) * (self.piece_length as int) <= u128::MAX) by (nonlinear_arith)
                    requires
                        0 <= i as int <= 0xffff_ffff_ffff_ffffint,
                        0 <= self.piece_length as int <= 0xffff_ffff_ffff_ffffint,
                ;
                let offset = (i as u128) * (self.piece_length as u128);
                let w = PieceWrite { index: i, offset, bytes: b.clone() };
                r.push(w);
                proof {
                    assert(r@[r@.len() - 1].index == i);
                }
            }
            proof {
                assert forall|j: int|
                    0 <= j < i + 1 && #[trigger] v.statuses[j] is Completed implies exists|k: int|
                        0 <= k < r@.len() && r@[k].index == j by {
                    if j < i {
                        let k = choose|k: int| 0 <= k < before.len() && before[k].index == j;
                        assert(r@[k] == before[k]);
                    } else {
                        assert(r@[r@.len() - 1].index == i);
                    }
                }
            }
            i += 1;
        }
        r
    }

    /// Records that a completed piece has been written to the output file.
    pub fn mark_on_disk(&mut self, index: usize)
        requires
            old(self).wf(),
        ensures
            final(self).wf(),
            final(self).view() == if index < old(self).view().statuses.len()
                && old(self).view().statuses[index as int] is Completed {
                PiecesView {
                    statuses: old(self).view().statuses.update(index as int, StatusView::OnDisk),
                    ..old(self).view()
                }
            } else {
                old(self).view()
            },
    {
        let ghost v = self.view();
        if index < self.piece_map.len() {
            if let PieceStatus::Completed(_) = &self.piece_map[index] {
                self.piece_map.set(index, PieceStatus::OnDisk);
                proof {
                    let w = self.view();
                    assert(w.statuses =~= v.statuses.update(index as int, StatusView::OnDisk));
                    assert forall|j: int| 0 <= j < 8 * w.bitfield.len() implies (#[trigger] bit_set(w.bitfield, j)
                        <==> (j < w.statuses.len() && is_held(w.statuses[j]))) by {
                        assert(bit_set(v.bitfield, j) <==> (j < v.statuses.len() && is_held(v.statuses[j])));
                    }
                    assert forall|j: int| 0 <= j < w.statuses.len() implies (#[trigger] w.statuses[j] matches StatusView::Completed(b)
                        ==> sha1_of(b) == w.hashes[j]) by {
                        if j != index {
                            assert(w.statuses[j] == v.statuses[j]);
                        }
                    }
                }
            }
        }
    }

    /// Accepts a piece found in the output file at startup when its SHA-1 digest is `digest`:
    /// a piece not started whose expected digest this is becomes held on disk.
    pub fn restore_piece_with_digest(&mut self, index: usize, digest: &[u8; 20]) -> (r: bool)
        requires
            old(self).wf(),
        ensures
            final(self).wf(),
            r == (index < old(self).view().statuses.len() && old(self).view().statuses[index as int] is NotStarted
                && digest@ == old(self).view().hashes[index as int]),
            final(self).view() == if r {
                PiecesView {
                    statuses: old(self).view().statuses.update(index as int, StatusView::OnDisk),
                    bitfield: set_bit(old(self).view().bitfield, index as int),
                    ..old(self).view()
                }
            } else {
                old(self).view()
            },
    {
        let ghost v = self.view();
        if index >= self.piece_map.len() {
            return false;
        }
        if let PieceStatus::NotStarted = &self.piece_map[index] {
            if digest_equal(digest, &self.piece_hashes[index]) {
                self.piece_map.set(index, PieceStatus::OnDisk);
                self.set_held_bit(index);
                proof {
                    let w = self.view();
                    assert(w.statuses =~= v.statuses.update(index as int, StatusView::OnDisk));
                    lemma_set_bit_wf(v, index as int, w);
                }
                return true;
            }
        }
        false
    }

    /// Accepts the bytes found in the output file for a piece at startup when they have the
    /// expected SHA-1 digest.
    pub fn restore_piece(&mut self, index: usize, bytes: &[u8]) -> (r: bool)
        requires
            old(self).wf(),
        ensures
            final(self).wf(),
            r == (index < old(self).view().statuses.len() && old(self).view().statuses[index as int] is NotStarted
                && sha1_of(bytes@) == old(self).view().hashes[index as int]),
            final(self).view() == if r {
                PiecesView {
                    statuses: old(self).view().statuses.update(index as int, StatusView::OnDisk),
                    bitfield: set_bit(old(self).view().bitfield, index as int),
                    ..old(self).view()
                }
            } else {
                old(self).view()
            },
    {
        let digest = sha1_digest(bytes);
        self.restore_piece_with_digest(index, &digest)
    }
}

/// After a piece is added with its expected digest, its bit is set and no peer is offered it.
pub proof fn lemma_added_piece_settled(v: PiecesView, i: int, bytes: Seq<u8>, their: Seq<u8>)
    requires
        pieces_wf(v),
        pieces_wf(after_add(v, i, bytes, true)),
        0 <= i < v.statuses.len(),
    ensures
        bit_set(after_add(v, i, bytes, true).bitfield, i),
        first_claimable(after_add(v, i, bytes, true), their, 0) != Some(i),
{
    let w = after_add(v, i, bytes, true);
    assert(is_held(w.statuses[i]));
    assert(i < 8 * w.bitfield.len()) by {
        assert(w.bitfield.len() == (w.statuses.len() + 7) / 8);
    }
    lemma_held_not_offered(w, their, 0, i);
}

fn digest_equal(a: &[u8; 20], b: &[u8; 20]) -> (r: bool)
    ensures
        r == (a@ == b@),
{
    crate::byte_order::bytes_equal(a.as_slice(), b.as_slice())
}

} // verus!
