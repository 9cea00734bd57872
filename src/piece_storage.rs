use vstd::prelude::*;
use crate::bitboard::Bitboard;
use crate::color::Color;
use crate::hash::{zobrist_key, lemma_xor_facts};
use crate::piece::{Piece, PieceKind, piece_index, color_of, kind_of, lemma_piece_index_injective};
use crate::square::{Square, sq_index, lemma_square_index_injective};

verus! {

broadcast use lemma_square_index_injective, lemma_piece_index_injective;

/// What square `i` adds to the hash of a position.
pub open spec fn square_term(squares: Seq<Option<Piece>>, i: int) -> u64 {
    match squares[i] {
        Some(p) => zobrist_key((piece_index(p) * 64 + i) as u64),
        None => 0,
    }
}

/// The XOR of what the first `n` squares add to the hash of a position.
pub open spec fn pieces_hash(squares: Seq<Option<Piece>>, n: nat) -> u64
    decreases n,
{
    if n == 0 {
        0
    } else {
        pieces_hash(squares, (n - 1) as nat) ^ square_term(squares, n - 1)
    }
}

/// Whether `c` is the piece numbered `p`.
pub open spec fn holds_piece(c: Option<Piece>, p: int) -> bool {
    c is Some && piece_index(c->0) == p
}

/// `e` pairs a square with the piece `p` that stands on it.
pub open spec fn entry_holds(squares: Seq<Option<Piece>>, e: (Square, Piece), p: Piece) -> bool {
    squares[sq_index(e.0) as int] == Some(p) && e.1 == p
}

/// The place of a listed pair: by piece kind, then by square.
pub open spec fn entry_order(e: (Square, Piece)) -> int {
    (kind_of(e.1) * 64 + sq_index(e.0)) as int
}

/// `e` pairs a square with the piece of side `c` that stands on it.
pub open spec fn color_entry(squares: Seq<Option<Piece>>, e: (Square, Piece), c: Color) -> bool {
    squares[sq_index(e.0) as int] == Some(e.1) && color_of(e.1) == c
}

/// The squares on which `p` stands.
pub open spec fn squares_of_piece(squares: Seq<Option<Piece>>, p: Piece) -> Set<nat> {
    Set::new(|s: nat| s < 64 && squares[s as int] == Some(p))
}

/// A board with no piece hashes to zero.
pub proof fn lemma_pieces_hash_empty(s: Seq<Option<Piece>>, n: nat)
    requires
        n <= s.len(),
        forall|i: int| 0 <= i < s.len() ==> s[i] is None,
    ensures
        pieces_hash(s, n) == 0,
    decreases n,
{
    if n > 0 {
        lemma_pieces_hash_empty(s, (n - 1) as nat);
        lemma_xor_facts(0, 0, 0);
    }
}

proof fn lemma_xor_swap(a: u64, b: u64, c: u64)
    ensures
        (a ^ b) ^ c == (a ^ c) ^ b,
{
    assert((a ^ b) ^ c == (a ^ c) ^ b) by (bit_vector);
}

/// The hash of the squares before `n` does not see a change at `i >= n`.
proof fn lemma_pieces_hash_prefix(s: Seq<Option<Piece>>, i: int, v: Option<Piece>, n: nat)
    requires
        n <= i < s.len(),
    ensures
        pieces_hash(s.update(i, v), n) == pieces_hash(s, n),
    decreases n,
{
    if n > 0 {
        lemma_pieces_hash_prefix(s, i, v, (n - 1) as nat);
    }
}

/// Changing one square changes the hash by the old and the new term of that square.
pub proof fn lemma_pieces_hash_update(s: Seq<Option<Piece>>, i: int, v: Option<Piece>, n: nat)
    requires
        0 <= i < n <= s.len(),
    ensures
        pieces_hash(s.update(i, v), n) == (pieces_hash(s, n) ^ square_term(s, i)) ^ square_term(
            s.update(i, v),
            i,
        ),
    decreases n,
{
    let s2 = s.update(i, v);
    if n - 1 == i {
        lemma_pieces_hash_prefix(s, i, v, (n - 1) as nat);
        let a = pieces_hash(s, (n - 1) as nat);
        lemma_xor_facts(a, square_term(s, i), square_term(s, i));
        lemma_xor_facts(square_term(s, i), square_term(s, i), 0);
        lemma_xor_facts(a, 0, 0);
    } else {
        lemma_pieces_hash_update(s, i, v, (n - 1) as nat);
        let a = pieces_hash(s, (n - 1) as nat);
        let t = square_term(s, n - 1);
        assert(square_term(s2, n - 1) == t);
        lemma_xor_swap(a ^ square_term(s, i), square_term(s2, i), t);
        lemma_xor_swap(a, square_term(s, i), t);
    }
}

/// Where the pieces stand, kept twice: a bitboard per piece and the content of each square.
#[derive(Clone, Copy, Debug, PartialEq, Eq)]
pub struct PieceStorage {
    piece_bitboards: [Bitboard; 12],
    square_contents: [Option<Piece>; 64],
}

impl View for PieceStorage {
    type V = Seq<Option<Piece>>;

    closed spec fn view(&self) -> Seq<Option<Piece>> {
        self.square_contents@
    }
}

impl PieceStorage {
    /// The two forms agree: a piece's bitboard holds exactly the squares that hold it.
    pub closed spec fn wf(&self) -> bool {
        forall|p: int, s: nat|
            0 <= p < 12 ==> (#[trigger] self.piece_bitboards[p]@.contains(s) <==> (s < 64 && holds_piece(self.square_contents[s as int], p)))
    }

    pub proof fn lemma_len(&self)
        ensures
            self@.len() == 64,
    {
    }

    /// The empty board.
    pub fn new() -> (r: PieceStorage)
        ensures
            r.wf(),
            r@ == Seq::new(64, |i: int| None::<Piece>),
    {
        let e = Bitboard::empty();
        let r = PieceStorage { piece_bitboards: [e; 12], square_contents: [None; 64] };
        assert(r@ =~= Seq::new(64, |i: int| None::<Piece>));
        r
    }

    /// What stands on `sq`.
    pub fn get(&self, sq: Square) -> (r: Option<Piece>)
        ensures
            r == self@[sq_index(sq) as int],
    {
        self.square_contents[sq.as_u8() as usize]
    }

    /// Two well-formed storages with the same squares are the same storage.
    pub proof fn lemma_view_determines(&self, other: &PieceStorage)
        requires
            self.wf(),
            other.wf(),
            self@ == other@,
        ensures
            *self == *other,
    {
        assert forall|p: int| 0 <= p < 12 implies self.piece_bitboards[p] == other.piece_bitboards[p] by {
            assert(self.piece_bitboards[p]@ =~= other.piece_bitboards[p]@) by {
                assert forall|n: nat| self.piece_bitboards[p]@.contains(n) == other.piece_bitboards[p]@.contains(n) by {
                    assert(self.piece_bitboards[p]@.contains(n) <==> (n < 64 && holds_piece(self.square_contents[n as int], p)));
                    assert(other.piece_bitboards[p]@.contains(n) <==> (n < 64 && holds_piece(other.square_contents[n as int], p)));
                }
            }
            crate::bitboard::lemma_view_injective(self.piece_bitboards[p], other.piece_bitboards[p]);
        }
        assert(self.piece_bitboards =~= other.piece_bitboards);
        assert(self.square_contents =~= other.square_contents);
    }

    /// Puts `contents` on `sq`, replacing what stood there.
    pub fn set(&mut self, sq: Square, contents: Option<Piece>)
        requires
            old(self).wf(),
        ensures
            final(self).wf(),
            final(self)@ == old(self)@.update(sq_index(sq) as int, contents),
    {
        let i = sq.as_u8() as usize;
        if let Some(piece) = self.get(sq) {
            let k = piece.as_u8() as usize;
            let b = self.piece_bitboards[k].with_removed(sq);
            self.piece_bitboards[k] = b;
        }
        if let Some(piece) = contents {
            let k = piece.as_u8() as usize;
            let b = self.piece_bitboards[k].with_inserted(sq);
            self.piece_bitboards[k] = b;
        }
        self.square_contents[i] = contents;
        proof {
            let o = old(self);
            assert forall|p: int, s: nat| 0 <= p < 12 implies (
                #[trigger] self.piece_bitboards[p]@.contains(s) <==> (s < 64 && holds_piece(self.square_contents[s as int], p))) by {
                assert(o.piece_bitboards[p]@.contains(s) <==> (s < 64 && holds_piece(o.square_contents[s as int], p)));
            }
        }
    }

    /// The squares on which `piece` stands.
    pub fn piece_bitboard(&self, piece: Piece) -> (r: Bitboard)
        requires
            self.wf(),
        ensures
            r@ == squares_of_piece(self@, piece),
    {
        let r = self.piece_bitboards[piece.as_u8() as usize];
        assert forall|s: nat| r@.contains(s) <==> squares_of_piece(self@, piece).contains(s) by {
            assert(self.piece_bitboards[piece_index(piece) as int]@.contains(s) <==> (s < 64 && holds_piece(self.square_contents[s as int], piece_index(piece) as int)));
        }
        assert(r@ =~= squares_of_piece(self@, piece));
        r
    }

    /// Every piece with its square: pieces in the order of their numbers, each one's squares
    /// in ascending order.
    pub fn iter(&self) -> (r: Vec<(Square, Piece)>)
        requires
            self.wf(),
        ensures
            forall|j: int| 0 <= j < r@.len() ==> self@[sq_index(#[trigger] r@[j].0) as int] == Some(r@[j].1),
            forall|s: Square| #[trigger] self@[sq_index(s) as int] is Some ==> r@.contains((s, self@[sq_index(s) as int]->0)),
    {
        let mut out: Vec<(Square, Piece)> = Vec::new();
        let mut k: u8 = 0;
        while k < 12
            invariant
                self.wf(),
                k <= 12,
                forall|j: int| 0 <= j < out@.len() ==> self@[sq_index(#[trigger] out@[j].0) as int] == Some(out@[j].1),
                forall|s: Square| #[trigger] self@[sq_index(s) as int] is Some && piece_index(self@[sq_index(s) as int]->0) < k
                    ==> out@.contains((s, self@[sq_index(s) as int]->0)),
            decreases 12 - k,
        {
            let piece = match Piece::from_u8(k) {
                Some(p) => p,
                None => Piece::BlackPawn,
            };
            let ghost before = out@;
            self.push_squares_of(&mut out, piece);
            proof {
                assert forall|j: int| 0 <= j < out@.len() implies self@[sq_index(#[trigger] out@[j].0) as int] == Some(out@[j].1) by {
                    if j >= before.len() {
                        assert(entry_holds(self@, out@[j], piece));
                    } else {
                        assert(out@[j] == before[j]);
                    }
                }
            }
            k = k + 1;
        }
        out
    }

    /// The pieces of one side with their squares, each once: kinds in the order of their
    /// numbers, each one's squares in ascending order.
    pub fn iter_single_color(&self, color: Color) -> (r: Vec<(Square, Piece)>)
        requires
            self.wf(),
        ensures
            forall|a: int, b: int| 0 <= a < b < r@.len() ==> entry_order(r@[a]) < entry_order(r@[b]),
            forall|j: int| 0 <= j < r@.len() ==> #[trigger] color_entry(self@, r@[j], color),
            forall|s: Square| #[trigger] self@[sq_index(s) as int] is Some && color_of(self@[sq_index(s) as int]->0) == color
                ==> r@.contains((s, self@[sq_index(s) as int]->0)),
    {
        let mut out: Vec<(Square, Piece)> = Vec::new();
        let mut k: u8 = 0;
        while k < 6
            invariant
                self.wf(),
                k <= 6,
                forall|j: int| 0 <= j < out@.len() ==> #[trigger] color_entry(self@, out@[j], color),
                forall|j: int| 0 <= j < out@.len() ==> kind_of((#[trigger] out@[j]).1) < k,
                forall|a: int, b: int| 0 <= a < b < out@.len() ==> entry_order(out@[a]) < entry_order(out@[b]),
                forall|s: Square| #[trigger] self@[sq_index(s) as int] is Some && color_of(self@[sq_index(s) as int]->0) == color
                    && kind_of(self@[sq_index(s) as int]->0) < k
                    ==> out@.contains((s, self@[sq_index(s) as int]->0)),
            decreases 6 - k,
        {
            let kind = match PieceKind::from_u8(k) {
                Some(x) => x,
                None => PieceKind::Pawn,
            };
            let piece = Piece::new(kind, color);
            let ghost before = out@;
            self.push_squares_of(&mut out, piece);
            proof {
                assert forall|j: int| 0 <= j < out@.len() implies kind_of((#[trigger] out@[j]).1) < k + 1 by {
                    if j >= before.len() {
                        assert(entry_holds(self@, out@[j], piece));
                    } else {
                        assert(out@[j] == before[j]);
                    }
                }
                assert forall|a: int, b: int| 0 <= a < b < out@.len() implies entry_order(out@[a]) < entry_order(out@[b]) by {
                    if b < before.len() {
                        assert(out@[a] == before[a]);
                        assert(out@[b] == before[b]);
                    } else if a < before.len() {
                        assert(out@[a] == before[a]);
                        assert(entry_holds(self@, out@[b], piece));
                        assert(kind_of(before[a].1) < k);
                    } else {
                        assert(entry_holds(self@, out@[a], piece));
                        assert(entry_holds(self@, out@[b], piece));
                    }
                }
                assert forall|j: int| 0 <= j < out@.len() implies #[trigger] color_entry(self@, out@[j], color) by {
                    if j >= before.len() {
                        assert(entry_holds(self@, out@[j], piece));
                    } else {
                        assert(out@[j] == before[j]);
                        assert(color_entry(self@, before[j], color));
                    }
                }
                assert forall|s: Square| #[trigger] self@[sq_index(s) as int] is Some && color_of(self@[sq_index(s) as int]->0) == color
                    && kind_of(self@[sq_index(s) as int]->0) < k + 1
                    implies out@.contains((s, self@[sq_index(s) as int]->0)) by {
                    let q = self@[sq_index(s) as int]->0;
                    if kind_of(q) == k {
                        crate::piece::lemma_piece_from_parts(q);
                        assert(q == piece);
                    } else {
                        let j = choose|j: int| 0 <= j < before.len() && before[j] == (s, q);
                        assert(out@[j] == (s, q));
                    }
                }
            }
            k = k + 1;
        }
        out
    }

    /// Appends each square of `piece` with it, in ascending order.
    fn push_squares_of(&self, out: &mut Vec<(Square, Piece)>, piece: Piece)
        requires
            self.wf(),
        ensures
            final(out)@.len() >= old(out)@.len(),
            forall|j: int| 0 <= j < old(out)@.len() ==> #[trigger] final(out)@[j] == old(out)@[j],
            forall|j: int| old(out)@.len() <= j < final(out)@.len() ==> #[trigger] entry_holds(self@, final(out)@[j], piece),
            forall|s: Square| #[trigger] self@[sq_index(s) as int] == Some(piece) ==> final(out)@.contains((s, piece)),
            forall|s: Square, q: Piece| #[trigger] old(out)@.contains((s, q)) ==> final(out)@.contains((s, q)),
            forall|a: int, b: int| old(out)@.len() <= a < b < final(out)@.len() ==> sq_index(final(out)@[a].0)
                < sq_index(final(out)@[b].0),
    {
        let bb = self.piece_bitboard(piece);
        let squares = bb.iter();
        let ghost start = out@;
        let mut i: usize = 0;
        while i < squares.len()
            invariant
                self.wf(),
                bb@ == squares_of_piece(self@, piece),
                crate::bitboard::square_indices(squares@).to_set() == bb@,
                i <= squares@.len(),
                out@.len() == start.len() + i,
                forall|j: int| 0 <= j < start.len() ==> #[trigger] out@[j] == start[j],
                forall|j: int| 0 <= j < i ==> #[trigger] out@[start.len() + j] == (squares@[j], piece),
                forall|j: int| start.len() <= j < out@.len() ==> #[trigger] entry_holds(self@, out@[j], piece),
            decreases squares@.len() - i,
        {
            proof {
                let idx = crate::bitboard::square_indices(squares@);
                assert(idx[i as int] == sq_index(squares@[i as int]));
                assert(idx.to_set().contains(idx[i as int]));
                assert(squares_of_piece(self@, piece).contains(sq_index(squares@[i as int])));
                assert(self@[sq_index(squares@[i as int]) as int] == Some(piece));
            }
            let ghost prev = out@;
            out.push((squares[i], piece));
            proof {
                assert forall|j: int| start.len() <= j < out@.len() implies #[trigger] entry_holds(self@, out@[j], piece) by {
                    if j < prev.len() {
                        assert(out@[j] == prev[j]);
                        assert(entry_holds(self@, prev[j], piece));
                    } else {
                        assert(out@[j] == (squares@[i as int], piece));
                    }
                }
            }
            i = i + 1;
        }
        proof {
            assert forall|a: int, b: int| start.len() <= a < b < out@.len() implies sq_index(out@[a].0) < sq_index(
                out@[b].0,
            ) by {
                assert(out@[start.len() + (a - start.len())] == (squares@[a - start.len()], piece));
                assert(out@[start.len() + (b - start.len())] == (squares@[b - start.len()], piece));
            }
            let idx = crate::bitboard::square_indices(squares@);
            assert forall|s: Square| #[trigger] self@[sq_index(s) as int] == Some(piece) implies out@.contains((s, piece)) by {
                assert(bb@.contains(sq_index(s)));
                assert(idx.to_set().contains(sq_index(s)));
                let a = choose|a: int| 0 <= a < idx.len() && idx[a] == sq_index(s);
                assert(squares@[a] == s);
                assert(out@[start.len() + a] == (s, piece));
            }
            assert forall|s: Square, q: Piece| #[trigger] start.contains((s, q)) implies out@.contains((s, q)) by {
                let j = choose|j: int| 0 <= j < start.len() && start[j] == (s, q);
                assert(out@[j] == (s, q));
            }
        }
    }
}

impl Default for PieceStorage {
    /// The empty board.
    fn default() -> (r: PieceStorage)
        ensures
            r.wf(),
            r@ == Seq::new(64, |i: int| None::<Piece>),
    {
        PieceStorage::new()
    }
}

} // verus!
