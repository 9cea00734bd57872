use vstd::prelude::*;
use crate::bitboard::{Bitboard, has_bit};
use crate::board::{
    Board, BoardView, UnmakeInfo, reversible, sq_at, make_view, unmake_view, unmake_info_matches,
    zobrist_of,
};
use crate::color::{Color, opposite};
use crate::mv::Move;
use crate::piece::{Piece, PieceKind, color_of, kind_of, kind_index, piece_from, lemma_piece_index_injective};
use crate::sliding::SlidingAttackTable;
use crate::square::{Square, sq_index, sq_file, sq_rank, lemma_square_index_injective};

verus! {

broadcast use lemma_square_index_injective, lemma_piece_index_injective, crate::piece::lemma_kind_index_injective;

/// The maximum number of legal moves in a reachable chess position.
pub const MAXIMUM_LEGAL_MOVES: usize = 218;

/// The file distance from square `a` to square `b`, by their numbers.
pub open spec fn file_gap(a: nat, b: nat) -> int {
    (b % 8) as int - (a % 8) as int
}

/// The rank distance from square `a` to square `b`, by their numbers.
pub open spec fn rank_gap(a: nat, b: nat) -> int {
    (b / 8) as int - (a / 8) as int
}

pub open spec fn abs(x: int) -> int {
    if x < 0 { -x } else { x }
}

/// Whether `b` is reached from `a` by a step of the given pattern: 0 a knight's jump, 1 a
/// king's step, 2 a white pawn's capture, 3 a black pawn's capture, 4 a rook's line, 5 a
/// bishop's line (the last two over an empty board).
pub open spec fn pattern(code: u8, a: nat, b: nat) -> bool {
    let df = abs(file_gap(a, b));
    let dr = abs(rank_gap(a, b));
    if code == 0 {
        (df == 1 && dr == 2) || (df == 2 && dr == 1)
    } else if code == 1 {
        a != b && df <= 1 && dr <= 1
    } else if code == 2 {
        df == 1 && rank_gap(a, b) == 1
    } else if code == 3 {
        df == 1 && rank_gap(a, b) == -1
    } else if code == 4 {
        a != b && (df == 0 || dr == 0)
    } else {
        a != b && df == dr
    }
}

/// The squares reached from `a` by the given pattern.
pub open spec fn pattern_set(code: u8, a: nat) -> Set<nat> {
    Set::new(|b: nat| b < 64 && pattern(code, a, b))
}

fn pattern_holds(code: u8, a: u8, b: u8) -> (r: bool)
    requires
        a < 64,
        b < 64,
    ensures
        r == pattern(code, a as nat, b as nat),
{
    let fa = (a % 8) as i32;
    let fb = (b % 8) as i32;
    let ra = (a / 8) as i32;
    let rb = (b / 8) as i32;
    let dfs = fb - fa;
    let drs = rb - ra;
    let df = if dfs < 0 { -dfs } else { dfs };
    let dr = if drs < 0 { -drs } else { drs };
    if code == 0 {
        (df == 1 && dr == 2) || (df == 2 && dr == 1)
    } else if code == 1 {
        a != b && df <= 1 && dr <= 1
    } else if code == 2 {
        df == 1 && drs == 1
    } else if code == 3 {
        df == 1 && drs == -1
    } else if code == 4 {
        a != b && (df == 0 || dr == 0)
    } else {
        a != b && df == dr
    }
}

/// The squares reached from `sq` by the given pattern.
fn pattern_bitboard(code: u8, sq: Square) -> (r: Bitboard)
    ensures
        r@ == pattern_set(code, sq_index(sq)),
{
    let a = sq.as_u8();
    let mut r = Bitboard::empty();
    let mut b: u8 = 0;
    while b < 64
        invariant
            b <= 64,
            a < 64,
            a == sq_index(sq),
            r@ == Set::new(|n: nat| n < b && pattern(code, a as nat, n)),
        decreases 64 - b,
    {
        let t = match Square::from_u8(b) {
            Some(t) => t,
            None => Square::A1,
        };
        let holds = pattern_holds(code, a, b);
        let ghost before = r@;
        r.insert_if(t, holds);
        assert(r@ =~= Set::new(|n: nat| n < b + 1 && pattern(code, a as nat, n)));
        b = b + 1;
    }
    assert(r@ =~= pattern_set(code, sq_index(sq)));
    r
}

/// Returns the squares attacked by a white pawn on the given square.
pub fn white_pawn_attacks(sq: Square) -> (r: Bitboard)
    ensures
        r@ == pattern_set(2, sq_index(sq)),
{
    pattern_bitboard(2, sq)
}

/// Returns the squares attacked by a black pawn on the given square.
pub fn black_pawn_attacks(sq: Square) -> (r: Bitboard)
    ensures
        r@ == pattern_set(3, sq_index(sq)),
{
    pattern_bitboard(3, sq)
}

/// Returns the squares attacked by a knight on the given square.
pub fn knight_attacks(sq: Square) -> (r: Bitboard)
    ensures
        r@ == pattern_set(0, sq_index(sq)),
{
    pattern_bitboard(0, sq)
}

/// Returns the squares attacked by a king on the given square.
pub fn king_attacks(sq: Square) -> (r: Bitboard)
    ensures
        r@ == pattern_set(1, sq_index(sq)),
{
    pattern_bitboard(1, sq)
}

/// Returns the squares attacked by a rook on the given square of an empty board.
pub fn unobstructed_rook_attacks(sq: Square) -> (r: Bitboard)
    ensures
        r@ == pattern_set(4, sq_index(sq)),
{
    pattern_bitboard(4, sq)
}

/// Returns the squares attacked by a bishop on the given square of an empty board.
pub fn unobstructed_bishop_attacks(sq: Square) -> (r: Bitboard)
    ensures
        r@ == pattern_set(5, sq_index(sq)),
{
    pattern_bitboard(5, sq)
}

/// Returns the squares attacked by a queen on the given square of an empty board.
pub fn unobstructed_queen_attacks(sq: Square) -> (r: Bitboard)
    ensures
        r@ == pattern_set(4, sq_index(sq)).union(pattern_set(5, sq_index(sq))),
{
    unobstructed_rook_attacks(sq).union(unobstructed_bishop_attacks(sq))
}

/// The squares that a pawn of `color` on `sq` can be pushed to: one square forward if it is
/// empty, and from its starting rank two squares if both are empty.
pub fn get_pawn_push_bitboard(color: Color, sq: Square, all_pieces_bitboard: Bitboard) -> (r: Bitboard)
    ensures
        forall|n: nat| #[trigger] r@.contains(n) ==> {
            &&& n < 64
            &&& n % 8 == sq_file(sq)
            &&& !all_pieces_bitboard@.contains(n)
        },
{
    proof {
        crate::square::lemma_file_rank(sq);
    }
    let up = color.up();
    let mut result = Bitboard::empty();
    if let Some(push) = sq.translated_by((0, up)) {
        if !all_pieces_bitboard.contains(push) {
            proof {
                crate::square::lemma_file_rank(push);
            }
            result.insert(push);
            if sq.rank() == color.pawn_starting_rank() {
                if let Some(thrust) = sq.translated_by((0, 2 * up)) {
                    if !all_pieces_bitboard.contains(thrust) {
                        proof {
                            crate::square::lemma_file_rank(thrust);
                        }
                        result.insert(thrust);
                    }
                }
            }
        }
    }
    result
}

/// The squares from `origin` in direction `offset` to the edge of the board.
pub fn ray_bitboard_empty(origin: Square, offset: (i32, i32)) -> (r: Bitboard)
    requires
        -1 <= offset.0 <= 1,
        -1 <= offset.1 <= 1,
        offset.0 != 0 || offset.1 != 0,
    ensures
        r@ == crate::sliding::ray_set(
            sq_file(origin) as int,
            sq_rank(origin) as int,
            0,
            offset.0 as int,
            offset.1 as int,
            1,
        ),
{
    crate::sliding::ray_bitboard(origin, Bitboard::empty(), offset)
}

/// The squares that piece `p` on `s` attacks when `occupancy` is occupied.
pub open spec fn attack_set(p: Piece, s: Square, occupancy: u64) -> Set<nat> {
    let k = kind_of(p);
    let i = sq_index(s);
    if k == 0 {
        pattern_set(if color_of(p) == Color::White { 2u8 } else { 3u8 }, i)
    } else if k == 1 {
        pattern_set(0, i)
    } else if k == 2 {
        crate::sliding::bishop_attack_set(s, occupancy)
    } else if k == 3 {
        crate::sliding::rook_attack_set(s, occupancy)
    } else if k == 4 {
        crate::sliding::rook_attack_set(s, occupancy).union(crate::sliding::bishop_attack_set(s, occupancy))
    } else {
        pattern_set(1, i)
    }
}

/// Whether a piece of side `c` stands on `a` and attacks square `n` when `occupancy` is
/// occupied.
pub open spec fn attacks_from(v: BoardView, c: Color, occupancy: u64, a: Square, n: nat) -> bool {
    holds_side(v, sq_index(a), c) && attack_set(v.squares[sq_index(a) as int]->0, a, occupancy).contains(n)
}

/// Whether a piece of side `c` attacks square `n` when `occupancy` is occupied.
pub open spec fn enemy_attacks(v: BoardView, c: Color, occupancy: u64, n: nat) -> bool {
    exists|a: Square| #[trigger] attacks_from(v, c, occupancy, a, n)
}

/// Whether square `n` holds a piece of side `c`.
pub open spec fn holds_side(v: BoardView, n: nat, c: Color) -> bool {
    v.squares[n as int] is Some && color_of(v.squares[n as int]->0) == c
}

/// The word with bit `i` set for each occupied square `i` below `n`.
pub open spec fn occ_word(s: Seq<Option<Piece>>, n: nat) -> u64
    decreases n,
{
    if n == 0 {
        0
    } else if s[n - 1] is Some {
        occ_word(s, (n - 1) as nat) | (1u64 << ((n - 1) as u64))
    } else {
        occ_word(s, (n - 1) as nat)
    }
}

/// The occupied squares of a position, as a word.
pub open spec fn occupancy(v: BoardView) -> u64 {
    occ_word(v.squares, 64)
}

pub proof fn lemma_occ_word(s: Seq<Option<Piece>>, n: nat)
    requires
        n <= 64,
    ensures
        forall|i: nat| #[trigger] has_bit(occ_word(s, n), i) <==> (i < n && s[i as int] is Some),
    decreases n,
{
    if n == 0 {
        assert forall|i: nat| !#[trigger] has_bit(0, i) by {
            if i < 64 {
                crate::bitboard::lemma_bit_zero(i as u64);
            }
        }
    } else {
        lemma_occ_word(s, (n - 1) as nat);
        let w = occ_word(s, (n - 1) as nat);
        let b = 1u64 << ((n - 1) as u64);
        assert(occ_word(s, n) == if s[n - 1] is Some { w | b } else { w });
        assert forall|i: nat| #[trigger] has_bit(occ_word(s, n), i) <==> (i < n && s[i as int] is Some) by {
            assert(has_bit(w, i) <==> (i < n - 1 && s[i as int] is Some));
            if i < 64 {
                crate::bitboard::lemma_bit_or(w, b, i as u64);
                crate::bitboard::lemma_bit_single((n - 1) as u64, i as u64);
            }
        }
    }
}

/// The rank, 0 to 7, on which the pawns of side `c` start.
pub open spec fn pawn_start_rank(c: Color) -> int {
    if c == Color::White { 1 } else { 6 }
}

/// The rank on which the pawns of side `c` promote.
pub open spec fn pawn_last_rank(c: Color) -> int {
    if c == Color::White { 7 } else { 0 }
}

/// The direction in which the pawns of side `c` advance, in ranks.
pub open spec fn pawn_step(c: Color) -> int {
    if c == Color::White { 1 } else { -1 }
}

/// The kind a pawn may promote to: knight, bishop, rook or queen.
pub open spec fn promotion_kind(k: PieceKind) -> bool {
    1 <= kind_index(k) <= 4
}

/// A pawn move by the rules: one square forward to an empty square, two from its starting
/// rank over two empty squares, or one square diagonally forward onto an enemy piece or onto
/// the en-passant target beside an enemy pawn; it names a promotion kind exactly when it
/// reaches the last rank.
pub open spec fn pawn_move(v: BoardView, m: Move) -> bool {
    let s = sq_index(m.source);
    let d = sq_index(m.destination);
    let c = v.color_to_move;
    let step = pawn_step(c);
    let df = file_gap(s, d);
    let dr = rank_gap(s, d);
    let single = df == 0 && dr == step && v.squares[d as int] is None;
    let double = df == 0 && dr == 2 * step && (s / 8) as int == pawn_start_rank(c) && v.squares[d as int] is None
        && v.squares[s + 8 * step] is None;
    let capture = abs(df) == 1 && dr == step && (holds_side(v, d, opposite(c)) || (v.en_passant_destination
        == Some(m.destination) && v.squares[d as int] is None && v.squares[sq_at((d % 8) as int, (s / 8) as int)]
        == Some(piece_from(0, opposite(c)))));
    &&& single || double || capture
    &&& (m.promotion is Some <==> (d / 8) as int == pawn_last_rank(c))
    &&& (m.promotion is Some ==> promotion_kind(m.promotion->0))
}

/// A move of a knight, bishop, rook, queen or king to a square it attacks that holds no piece
/// of its own side.
pub open spec fn piece_step(v: BoardView, m: Move) -> bool {
    let s = sq_index(m.source);
    let d = sq_index(m.destination);
    &&& m.promotion is None
    &&& attack_set(v.squares[s as int]->0, m.source, occupancy(v)).contains(d)
    &&& !holds_side(v, d, v.color_to_move)
}

/// Whether square `n` is attacked by the side not to move, with the piece on `s` taken off.
pub open spec fn attacked_without(v: BoardView, s: nat, n: nat) -> bool {
    enemy_attacks(v, opposite(v.color_to_move), occ_word(v.squares.update(s as int, None), 64), n)
}

/// Castling: the king on its starting square, not in check, moves two files towards a rook
/// of its side in the corner, with the right kept, the squares between empty, and the
/// squares it crosses and lands on not attacked.
pub open spec fn castle_move(v: BoardView, m: Move) -> bool {
    let s = sq_index(m.source);
    let d = sq_index(m.destination);
    let c = v.color_to_move;
    let back = 8 * crate::board::back_rank_of(c);
    let rook = Some(piece_from(3, c));
    let rights = crate::board::rights_of(v, c);
    &&& m.promotion is None
    &&& v.squares[s as int] == Some(piece_from(5, c))
    &&& s == back + 4
    &&& !attacked_without(v, s, s)
    &&& ((d == back + 6 && rights.kingside && v.squares[back + 5] is None && v.squares[back + 6] is None
        && v.squares[back + 7] == rook && !attacked_without(v, s, (back + 5) as nat) && !attacked_without(
        v,
        s,
        (back + 6) as nat,
    )) || (d == back + 2 && rights.queenside && v.squares[back + 1] is None && v.squares[back + 2] is None
        && v.squares[back + 3] is None && v.squares[back] == rook && !attacked_without(v, s, (back + 2) as nat)
        && !attacked_without(v, s, (back + 3) as nat)))
}

/// A move by the rules of chess, king safety aside.
pub open spec fn pseudo_legal(v: BoardView, m: Move) -> bool {
    let s = sq_index(m.source);
    let p = v.squares[s as int]->0;
    &&& holds_side(v, s, v.color_to_move)
    &&& (if kind_of(p) == 0 {
        pawn_move(v, m)
    } else {
        piece_step(v, m) || (kind_of(p) == 5 && castle_move(v, m))
    })
}

/// Whether a king of side `c` stands on a square that the other side attacks.
pub open spec fn in_check(v: BoardView, c: Color) -> bool {
    exists|k: Square| #[trigger] v.squares[sq_index(k) as int] == Some(piece_from(5, c)) && enemy_attacks(
        v,
        opposite(c),
        occupancy(v),
        sq_index(k),
    )
}

/// A legal move: a move by the rules after which no king of the side that made it is
/// attacked.
pub open spec fn legal_move(v: BoardView, m: Move) -> bool {
    pseudo_legal(v, m) && !in_check(make_view(v, m), v.color_to_move)
}

/// The place of a promotion choice in the order the generator tries them: none, queen,
/// rook, knight, bishop.
pub open spec fn promo_index(p: Option<PieceKind>) -> int {
    match p {
        None => 0,
        Some(k) => if kind_index(k) == 4 {
            1
        } else if kind_index(k) == 3 {
            2
        } else if kind_index(k) == 1 {
            3
        } else if kind_index(k) == 2 {
            4
        } else {
            5
        },
    }
}

/// The place of a move in the order the generator tries them.
pub open spec fn move_key(m: Move) -> int {
    sq_index(m.source) * 320 + sq_index(m.destination) * 5 + promo_index(m.promotion)
}

/// Computes the legal moves of a position, with the sliding-piece tables it needs.
#[derive(Clone, Debug)]
pub struct MoveGenerator {
    bishop_attack_table: SlidingAttackTable,
    rook_attack_table: SlidingAttackTable,
}

impl MoveGenerator {
    pub closed spec fn wf(&self) -> bool {
        &&& self.bishop_attack_table.wf()
        &&& self.rook_attack_table.wf()
        &&& !self.bishop_attack_table.is_rook()
        &&& self.rook_attack_table.is_rook()
    }

    pub fn new() -> (r: MoveGenerator)
        ensures
            r.wf(),
    {
        MoveGenerator {
            bishop_attack_table: SlidingAttackTable::compute_for_bishop(),
            rook_attack_table: SlidingAttackTable::compute_for_rook(),
        }
    }

    fn rook_attacks(&self, sq: Square, occupancy: Bitboard) -> (r: Bitboard)
        requires
            self.wf(),
        ensures
            r@ == crate::sliding::rook_attack_set(sq, occupancy.0),
    {
        self.rook_attack_table.get_attack_set(sq, occupancy)
    }

    fn bishop_attacks(&self, sq: Square, occupancy: Bitboard) -> (r: Bitboard)
        requires
            self.wf(),
        ensures
            r@ == crate::sliding::bishop_attack_set(sq, occupancy.0),
    {
        self.bishop_attack_table.get_attack_set(sq, occupancy)
    }

    /// The squares attacked by `piece` on `sq` when `all_pieces_bitboard` is occupied.
    fn get_pseudolegal_attacks_bitboard(&self, piece: Piece, sq: Square, all_pieces_bitboard: Bitboard) -> (r: Bitboard)
        requires
            self.wf(),
        ensures
            r@ == attack_set(piece, sq, all_pieces_bitboard.0),
    {
        match piece.kind() {
            PieceKind::Pawn => if piece.color() == Color::White {
                white_pawn_attacks(sq)
            } else {
                black_pawn_attacks(sq)
            },
            PieceKind::Knight => knight_attacks(sq),
            PieceKind::King => king_attacks(sq),
            PieceKind::Bishop => self.bishop_attacks(sq, all_pieces_bitboard),
            PieceKind::Rook => self.rook_attacks(sq, all_pieces_bitboard),
            PieceKind::Queen => self.rook_attacks(sq, all_pieces_bitboard).union(
                self.bishop_attacks(sq, all_pieces_bitboard),
            ),
        }
    }

    /// Whether piece `p` on `a` attacks square `n` when `w` is occupied.
    fn attacks_square(&self, p: Piece, a: Square, w: u64, n: u8) -> (r: bool)
        requires
            self.wf(),
            n < 64,
        ensures
            r == attack_set(p, a, w).contains(n as nat),
    {
        let t = match Square::from_u8(n) {
            Some(t) => t,
            None => Square::A1,
        };
        match p.kind() {
            PieceKind::Pawn => pattern_holds(if p.color() == Color::White { 2 } else { 3 }, a.as_u8(), n),
            PieceKind::Knight => pattern_holds(0, a.as_u8(), n),
            PieceKind::King => pattern_holds(1, a.as_u8(), n),
            PieceKind::Bishop => self.bishop_attacks(a, Bitboard(w)).contains(t),
            PieceKind::Rook => self.rook_attacks(a, Bitboard(w)).contains(t),
            PieceKind::Queen => self.rook_attacks(a, Bitboard(w)).contains(t) || self.bishop_attacks(
                a,
                Bitboard(w),
            ).contains(t),
        }
    }

    /// Whether a piece of side `c` attacks square `n` when `w` is occupied; `s` holds the
    /// squares of `v`.
    fn square_attacked(&self, s: &[Option<Piece>; 64], Ghost(v): Ghost<BoardView>, c: Color, w: u64, n: u8) -> (r: bool)
        requires
            self.wf(),
            v.squares == s@,
            n < 64,
        ensures
            r == enemy_attacks(v, c, w, n as nat),
    {
        let mut i: u8 = 0;
        while i < 64
            invariant
                self.wf(),
                v.squares == s@,
                n < 64,
                i <= 64,
                forall|a: Square| sq_index(a) < i ==> !#[trigger] attacks_from(v, c, w, a, n as nat),
            decreases 64 - i,
        {
            let a = match Square::from_u8(i) {
                Some(a) => a,
                None => Square::A1,
            };
            if let Some(p) = s[i as usize] {
                if p.color() == c && self.attacks_square(p, a, w, n) {
                    assert(attacks_from(v, c, w, a, n as nat));
                    return true;
                }
            }
            proof {
                assert forall|b: Square| sq_index(b) < i + 1 implies !#[trigger] attacks_from(v, c, w, b, n as nat) by {
                    if sq_index(b) == i {
                        assert(b == a);
                    }
                }
            }
            i = i + 1;
        }
        proof {
            if enemy_attacks(v, c, w, n as nat) {
                let a = choose|a: Square| #[trigger] attacks_from(v, c, w, a, n as nat);
                assert(sq_index(a) < 64);
            }
        }
        false
    }

    /// Whether a king of side `c` is attacked; `s` holds the squares of `v`.
    fn in_check_in(&self, s: &[Option<Piece>; 64], Ghost(v): Ghost<BoardView>, c: Color) -> (r: bool)
        requires
            self.wf(),
            v.squares == s@,
        ensures
            r == in_check(v, c),
    {
        let w = occupancy_word(s);
        let king = Some(Piece::new(PieceKind::King, c));
        let them = c.not();
        let mut k: u8 = 0;
        while k < 64
            invariant
                self.wf(),
                v.squares == s@,
                w == occupancy(v),
                king == Some(piece_from(5, c)),
                them == opposite(c),
                k <= 64,
                forall|q: Square| sq_index(q) < k ==> !(#[trigger] v.squares[sq_index(q) as int] == Some(
                    piece_from(5, c),
                ) && enemy_attacks(v, opposite(c), occupancy(v), sq_index(q))),
            decreases 64 - k,
        {
            let q = match Square::from_u8(k) {
                Some(q) => q,
                None => Square::A1,
            };
            if s[k as usize] == king && self.square_attacked(s, Ghost(v), them, w, k) {
                return true;
            }
            proof {
                assert forall|b: Square| sq_index(b) < k + 1 implies !(#[trigger] v.squares[sq_index(b) as int] == Some(
                    piece_from(5, c),
                ) && enemy_attacks(v, opposite(c), occupancy(v), sq_index(b))) by {
                    if sq_index(b) == k {
                        assert(b == q);
                    }
                }
            }
            k = k + 1;
        }
        proof {
            if in_check(v, c) {
                let q = choose|q: Square| #[trigger] v.squares[sq_index(q) as int] == Some(piece_from(5, c))
                    && enemy_attacks(v, opposite(c), occupancy(v), sq_index(q));
                assert(sq_index(q) < 64);
            }
        }
        false
    }

    /// Whether `m` is a castling move by the rules; `s` holds the squares of `board`.
    fn is_castle_move(&self, board: &Board, s: &[Option<Piece>; 64], m: Move) -> (r: bool)
        requires
            self.wf(),
            board.wf(),
            s@ == board@.squares,
        ensures
            r == castle_move(board@, m),
    {
        let ghost v = board@;
        proof {
            board.lemma_wf();
        }
        let c = board.color_to_move();
        let back: u8 = if c == Color::White { 0 } else { 56 };
        let si = m.source.as_u8();
        let di = m.destination.as_u8();
        if m.promotion.is_some() || s[si as usize] != Some(Piece::new(PieceKind::King, c)) || si != back + 4 {
            return false;
        }
        let rights = if c == Color::White {
            board.white_castling_rights()
        } else {
            board.black_castling_rights()
        };
        let rook = Some(Piece::new(PieceKind::Rook, c));
        let mut without = board.squares();
        without[si as usize] = None;
        let wk = occupancy_word(&without);
        let them = c.not();
        assert(without@ == v.squares.update(si as int, None));
        if self.square_attacked(s, Ghost(v), them, wk, si) {
            return false;
        }
        if di == back + 6 {
            rights.kingside && s[(back + 5) as usize].is_none() && s[(back + 6) as usize].is_none() && s[(back
                + 7) as usize] == rook && !self.square_attacked(s, Ghost(v), them, wk, back + 5)
                && !self.square_attacked(s, Ghost(v), them, wk, back + 6)
        } else if di == back + 2 {
            rights.queenside && s[(back + 1) as usize].is_none() && s[(back + 2) as usize].is_none() && s[(back
                + 3) as usize].is_none() && s[back as usize] == rook && !self.square_attacked(
                s,
                Ghost(v),
                them,
                wk,
                back + 2,
            ) && !self.square_attacked(s, Ghost(v), them, wk, back + 3)
        } else {
            false
        }
    }

    /// Returns the legal moves of the position: exactly the moves by the rules of chess after
    /// which the mover's king is not attacked, each once, ordered by source square, then
    /// destination square, then promotion (none, queen, rook, knight, bishop).
    pub fn compute_legal_moves(&self, board: &Board) -> (r: Vec<Move>)
        requires
            self.wf(),
            board.wf(),
        ensures
            forall|i: int| 0 <= i < r@.len() ==> legal_move(board@, #[trigger] r@[i]),
            forall|m: Move| legal_move(board@, m) ==> r@.contains(m),
            forall|i: int, j: int| 0 <= i < j < r@.len() ==> move_key(r@[i]) < move_key(r@[j]),
    {
        let ghost v = board@;
        proof {
            board.lemma_wf();
        }
        let s = board.squares();
        let w = occupancy_word(&s);
        let c = board.color_to_move();
        let ep = board.en_passant_destination();
        let mut moves: Vec<Move> = Vec::new();
        let mut src: u8 = 0;
        while src < 64
            invariant
                self.wf(),
                board.wf(),
                v == board@,
                v.squares.len() == 64,
                s@ == v.squares,
                w == occupancy(v),
                c == v.color_to_move,
                ep == v.en_passant_destination,
                src <= 64,
                forall|x: int| 0 <= x < moves@.len() ==> legal_move(v, #[trigger] moves@[x]) && move_key(moves@[x])
                    < 320 * src,
                forall|x: int, y: int| 0 <= x < y < moves@.len() ==> move_key(moves@[x]) < move_key(moves@[y]),
                forall|m: Move| move_key(m) < 320 * src && #[trigger] legal_move(v, m) ==> moves@.contains(m),
            decreases 64 - src,
        {
            let source = match Square::from_u8(src) {
                Some(q) => q,
                None => Square::A1,
            };
            let own = match s[src as usize] {
                Some(p) => p.color() == c,
                None => false,
            };
            if own {
                let p = match s[src as usize] {
                    Some(p) => p,
                    None => Piece::WhitePawn,
                };
                let attacks = self.get_pseudolegal_attacks_bitboard(p, source, Bitboard(w));
                let is_pawn = p.kind() == PieceKind::Pawn;
                let is_king = p.kind() == PieceKind::King;
                let mut j: u32 = 0;
                while j < 320
                    invariant
                        self.wf(),
                        board.wf(),
                        v == board@,
                        v.squares.len() == 64,
                        s@ == v.squares,
                        w == occupancy(v),
                        c == v.color_to_move,
                        ep == v.en_passant_destination,
                        src < 64,
                        sq_index(source) == src,
                        v.squares[src as int] == Some(p),
                        color_of(p) == c,
                        attacks@ == attack_set(p, source, w),
                        is_pawn == (kind_of(p) == 0),
                        is_king == (kind_of(p) == 5),
                        j <= 320,
                        forall|x: int| 0 <= x < moves@.len() ==> legal_move(v, #[trigger] moves@[x])
                            && move_key(moves@[x]) < 320 * src + j,
                        forall|x: int, y: int| 0 <= x < y < moves@.len() ==> move_key(moves@[x]) < move_key(
                            moves@[y],
                        ),
                        forall|m: Move| move_key(m) < 320 * src + j && #[trigger] legal_move(v, m) ==> moves@.contains(m),
                    decreases 320 - j,
                {
                    let dst = match Square::from_u8((j / 5) as u8) {
                        Some(q) => q,
                        None => Square::A1,
                    };
                    let promotion = promotion_choice((j % 5) as u8);
                    let m = Move { source, destination: dst, promotion };
                    assert(move_key(m) == 320 * src + j);
                    let di = dst.as_u8() as usize;
                    let pseudo = if is_pawn {
                        is_pawn_move(&s, Ghost(v), m, c, ep)
                    } else {
                        let own_target = match s[di] {
                            Some(q) => q.color() == c,
                            None => false,
                        };
                        (promotion.is_none() && attacks.contains(dst) && !own_target) || (is_king
                            && self.is_castle_move(board, &s, m))
                    };
                    assert(pseudo == pseudo_legal(v, m));
                    let mut legal = false;
                    if pseudo {
                        let after = board.squares_after(m);
                        legal = !self.in_check_in(&after, Ghost(make_view(v, m)), c);
                    }
                    assert(legal == legal_move(v, m));
                    let ghost before = moves@;
                    if legal {
                        moves.push(m);
                    }
                    proof {
                        assert forall|m2: Move| move_key(m2) < 320 * src + j + 1 && #[trigger] legal_move(v, m2)
                            implies moves@.contains(m2) by {
                            if move_key(m2) < 320 * src + j {
                                let x = choose|x: int| 0 <= x < before.len() && before[x] == m2;
                                assert(moves@[x] == m2);
                            } else {
                                lemma_legal_promo_index(v, m2);
                                lemma_key_decode(m2, m, src as int, j as int);
                                assert(moves@[moves@.len() - 1] == m);
                            }
                        }
                    }
                    j = j + 1;
                }
            } else {
                proof {
                    assert forall|m2: Move| move_key(m2) < 320 * (src + 1) && #[trigger] legal_move(v, m2)
                        implies moves@.contains(m2) by {
                        if move_key(m2) >= 320 * src {
                            lemma_legal_promo_index(v, m2);
                            assert(sq_index(m2.source) == src);
                        }
                    }
                }
            }
            src = src + 1;
        }
        moves
    }
}

impl Default for MoveGenerator {
    fn default() -> (r: MoveGenerator)
        ensures
            r.wf(),
    {
        MoveGenerator::new()
    }
}

/// The promotion choice with the given place in the generator's order.
fn promotion_choice(i: u8) -> (r: Option<PieceKind>)
    requires
        i < 5,
    ensures
        promo_index(r) == i,
{
    if i == 0 {
        None
    } else if i == 1 {
        Some(PieceKind::Queen)
    } else if i == 2 {
        Some(PieceKind::Rook)
    } else if i == 3 {
        Some(PieceKind::Knight)
    } else {
        Some(PieceKind::Bishop)
    }
}

/// The occupied squares of `s`, as a word.
fn occupancy_word(s: &[Option<Piece>; 64]) -> (r: u64)
    ensures
        r == occ_word(s@, 64),
{
    let mut w: u64 = 0;
    let mut i: u64 = 0;
    while i < 64
        invariant
            i <= 64,
            w == occ_word(s@, i as nat),
        decreases 64 - i,
    {
        if s[i as usize].is_some() {
            w = w | (1u64 << i);
        }
        i = i + 1;
    }
    w
}

/// Whether `m` is a pawn move by the rules; `s` holds the squares of `v`.
fn is_pawn_move(s: &[Option<Piece>; 64], Ghost(v): Ghost<BoardView>, m: Move, c: Color, ep: Option<Square>) -> (r: bool)
    requires
        v.squares == s@,
        c == v.color_to_move,
        ep == v.en_passant_destination,
    ensures
        r == pawn_move(v, m),
{
    let si = m.source.as_u8() as i32;
    let di = m.destination.as_u8() as i32;
    let df = (di % 8) - (si % 8);
    let dr = (di / 8) - (si / 8);
    let white = c == Color::White;
    let step: i32 = if white { 1 } else { -1 };
    let d = di as usize;
    let single = df == 0 && dr == step && s[d].is_none();
    let start: i32 = if white { 1 } else { 6 };
    let double = df == 0 && dr == 2 * step && si / 8 == start && s[d].is_none() && s[(si + 8 * step) as usize].is_none();
    let enemy_there = match s[d] {
        Some(q) => q.color() != c,
        None => false,
    };
    let adf = if df < 0 { -df } else { df };
    let beside = (di % 8 + 8 * (si / 8)) as usize;
    let ep_capture = ep == Some(m.destination) && s[d].is_none() && s[beside] == Some(
        Piece::new(PieceKind::Pawn, c.not()),
    );
    let capture = adf == 1 && dr == step && (enemy_there || ep_capture);
    let last: i32 = if white { 7 } else { 0 };
    let promotion_ok = match m.promotion {
        Some(k) => di / 8 == last && 1 <= k.as_u8() && k.as_u8() <= 4,
        None => di / 8 != last,
    };
    (single || double || capture) && promotion_ok
}

/// A legal move promotes, if at all, to a knight, bishop, rook or queen.
pub proof fn lemma_legal_promo_index(v: BoardView, m: Move)
    requires
        legal_move(v, m),
    ensures
        0 <= promo_index(m.promotion) <= 4,
{
}

/// A move's place in the generator's order names it.
proof fn lemma_key_decode(m2: Move, m: Move, src: int, j: int)
    requires
        0 <= promo_index(m2.promotion) <= 4,
        0 <= promo_index(m.promotion) <= 4,
        move_key(m2) == 320 * src + j,
        move_key(m) == 320 * src + j,
        0 <= j < 320,
    ensures
        m2 == m,
{
    let a = sq_index(m2.destination) as int;
    let b = sq_index(m.destination) as int;
    assert(sq_index(m2.source) == sq_index(m.source));
    assert(a == b);
    assert(promo_index(m2.promotion) == promo_index(m.promotion));
}

/// A legal move is one whose effect `unmake_last_move` takes back exactly.
pub proof fn lemma_legal_move_reversible(v: BoardView, mv: Move)
    requires
        v.squares.len() == 64,
        legal_move(v, mv),
    ensures
        reversible(v, mv),
{
    crate::square::lemma_file_rank(mv.source);
    crate::square::lemma_file_rank(mv.destination);
    let p = v.squares[sq_index(mv.source) as int]->0;
    if kind_of(p) == 5 && piece_step(v, mv) {
        assert(pattern_set(1, sq_index(mv.source)).contains(sq_index(mv.destination)));
    }
}

/// Taking back a legal move restores the position exactly, hash included: `mv` is legal in
/// `v`, and `um` is what `make_move` returned for it.
pub proof fn lemma_legal_move_unmakes(v: BoardView, mv: Move, um: UnmakeInfo)
    requires
        v.squares.len() == 64,
        legal_move(v, mv),
        unmake_info_matches(v, mv, um),
    ensures
        unmake_view(make_view(v, mv), um) == v,
        zobrist_of(unmake_view(make_view(v, mv), um)) == zobrist_of(v),
{
    lemma_legal_move_reversible(v, mv);
    crate::board::lemma_unmake_inverts_make(v, mv, um);
}

} // verus!
