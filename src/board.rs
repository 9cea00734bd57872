use vstd::prelude::*;
use crate::color::{Color, opposite};
use crate::hash::{
    BoardHash, zobrist_key, castling_key_number, en_passant_key_number, black_to_move_key_number,
};
use crate::mv::Move;
use crate::piece::{
    Piece, PieceKind, kind_index, kind_of, color_of, piece_from,
    lemma_piece_index_injective, lemma_kind_index_injective,
};
use crate::piece_storage::{
    PieceStorage, pieces_hash, square_term, lemma_pieces_hash_update, lemma_pieces_hash_empty,
};
use crate::square::{
    Square, BoardFile, BoardRank, sq_index, sq_file, sq_rank, lemma_square_index_injective,
};

verus! {

broadcast use lemma_square_index_injective, lemma_piece_index_injective, lemma_kind_index_injective;

/// Whether one side may still castle on each wing.
#[derive(Clone, Copy, Debug, PartialEq, Eq, Hash, Structural)]
pub struct CastlingRights {
    pub kingside: bool,
    pub queenside: bool,
}

impl CastlingRights {
    /// No right at all.
    pub fn none() -> (r: CastlingRights)
        ensures
            !r.kingside && !r.queenside,
    {
        CastlingRights { kingside: false, queenside: false }
    }

    /// Both rights.
    pub fn both() -> (r: CastlingRights)
        ensures
            r.kingside && r.queenside,
    {
        CastlingRights { kingside: true, queenside: true }
    }
}

impl Default for CastlingRights {
    /// Both rights.
    fn default() -> (r: CastlingRights)
        ensures
            r.kingside && r.queenside,
    {
        CastlingRights::both()
    }
}

/// The four castling rights as one number in `0..16`: white kingside 1, white queenside 2,
/// black kingside 4, black queenside 8.
pub open spec fn castling_code(w: CastlingRights, b: CastlingRights) -> nat {
    (if w.kingside { 1nat } else { 0 }) + (if w.queenside { 2nat } else { 0 }) + (if b.kingside {
        4nat
    } else {
        0
    }) + (if b.queenside { 8nat } else { 0 })
}

/// What a position is: the content of each square, the side to move, the en-passant target,
/// the castling rights and the two move counters.
pub struct BoardView {
    pub squares: Seq<Option<Piece>>,
    pub color_to_move: Color,
    pub en_passant_destination: Option<Square>,
    pub white_castling_rights: CastlingRights,
    pub black_castling_rights: CastlingRights,
    pub halfmoves_since_event: u32,
    pub fullmoves: u32,
}

/// The part of the hash that does not come from the pieces.
pub open spec fn rest_hash(v: BoardView) -> u64 {
    let side = if v.color_to_move == Color::Black {
        zobrist_key(black_to_move_key_number())
    } else {
        0u64
    };
    let castling = zobrist_key(
        castling_key_number(castling_code(v.white_castling_rights, v.black_castling_rights)),
    );
    let ep = match v.en_passant_destination {
        Some(s) => zobrist_key(en_passant_key_number(sq_file(s))),
        None => 0u64,
    };
    (side ^ castling) ^ ep
}

/// The Zobrist hash of a position, computed from scratch: the key of each piece on its
/// square, of black to move, of the castling rights, and of the en-passant file.
pub open spec fn zobrist_of(v: BoardView) -> u64 {
    pieces_hash(v.squares, 64) ^ rest_hash(v)
}

/// The square on file `f` and rank `r`.
pub open spec fn sq_at(f: int, r: int) -> int {
    f + 8 * r
}

/// The castling rights of one side.
pub open spec fn rights_of(v: BoardView, c: Color) -> CastlingRights {
    if c == Color::White {
        v.white_castling_rights
    } else {
        v.black_castling_rights
    }
}

/// A position with the castling rights of side `c` replaced.
pub open spec fn with_rights(v: BoardView, c: Color, r: CastlingRights) -> BoardView {
    if c == Color::White {
        BoardView { white_castling_rights: r, ..v }
    } else {
        BoardView { black_castling_rights: r, ..v }
    }
}

/// The file difference of a move.
pub open spec fn move_dx(mv: Move) -> int {
    sq_file(mv.destination) - sq_file(mv.source)
}

/// The rank difference of a move.
pub open spec fn move_dy(mv: Move) -> int {
    sq_rank(mv.destination) - sq_rank(mv.source)
}

/// The way a move is carried out.
#[derive(Clone, Copy, PartialEq, Eq, Structural)]
pub enum MoveShape {
    EnPassant,
    Promotion,
    LongCastle,
    ShortCastle,
    DoublePush,
    Plain,
}

/// Which of the ways a move from `v` is carried out, tried in this order.
pub open spec fn move_shape(v: BoardView, mv: Move) -> MoveShape {
    let p = v.squares[sq_index(mv.source) as int]->0;
    let kind = kind_of(p);
    if kind == 0 && v.squares[sq_index(mv.destination) as int] is None && move_dx(mv) != 0 {
        MoveShape::EnPassant
    } else if mv.promotion is Some {
        MoveShape::Promotion
    } else if kind == 5 && move_dx(mv) == -2 {
        MoveShape::LongCastle
    } else if kind == 5 && move_dx(mv) == 2 {
        MoveShape::ShortCastle
    } else if kind == 0 && (move_dy(mv) == 2 || move_dy(mv) == -2) {
        MoveShape::DoublePush
    } else {
        MoveShape::Plain
    }
}

/// The square with number `n` (below 64).
pub open spec fn square_from(n: int) -> Square {
    choose|s: Square| sq_index(s) == n
}

/// The rank of a side's back row: 0 for white, 7 for black.
pub open spec fn back_rank_of(c: Color) -> int {
    if c == Color::White { 0 } else { 7 }
}

/// What a move from `v` does to the squares.
pub open spec fn make_squares(v: BoardView, mv: Move) -> Seq<Option<Piece>> {
    let s = v.squares;
    let src = sq_index(mv.source) as int;
    let dst = sq_index(mv.destination) as int;
    let p = s[src]->0;
    let c = color_of(p);
    let rank = sq_rank(mv.source) as int;
    let moved = s.update(src, None).update(dst, Some(p));
    match move_shape(v, mv) {
        MoveShape::EnPassant => moved.update(sq_at(sq_file(mv.destination) as int, rank), None),
        MoveShape::Promotion => s.update(src, None).update(
            dst,
            Some(piece_from(kind_index(mv.promotion->0), c)),
        ),
        MoveShape::LongCastle => moved.update(sq_at(0, rank), None).update(
            sq_at(3, rank),
            Some(piece_from(3, c)),
        ),
        MoveShape::ShortCastle => moved.update(sq_at(7, rank), None).update(
            sq_at(5, rank),
            Some(piece_from(3, c)),
        ),
        _ => moved,
    }
}

/// The castling rights that the side to move keeps after a move.
pub open spec fn make_rights(v: BoardView, mv: Move) -> CastlingRights {
    let c = v.color_to_move;
    let old = rights_of(v, c);
    let kind = kind_of(v.squares[sq_index(mv.source) as int]->0);
    let src = sq_index(mv.source) as int;
    match move_shape(v, mv) {
        MoveShape::LongCastle | MoveShape::ShortCastle => CastlingRights {
            kingside: false,
            queenside: false,
        },
        MoveShape::Plain => if kind == 5 {
            CastlingRights { kingside: false, queenside: false }
        } else if kind == 3 && src == sq_at(0, back_rank_of(c)) {
            CastlingRights { queenside: false, ..old }
        } else if kind == 3 && src == sq_at(7, back_rank_of(c)) {
            CastlingRights { kingside: false, ..old }
        } else {
            old
        },
        _ => old,
    }
}

/// Whether a move from `v` captures: it takes a piece on its destination, or en passant.
pub open spec fn make_captures(v: BoardView, mv: Move) -> bool {
    move_shape(v, mv) == MoveShape::EnPassant || v.squares[sq_index(mv.destination) as int] is Some
}

/// An enemy pawn stands next to the destination of `mv`, on the same rank: after a double
/// push, only then can it be taken en passant.
pub open spec fn enemy_pawn_beside(v: BoardView, mv: Move) -> bool {
    let d = sq_index(mv.destination) as int;
    let f = sq_file(mv.destination);
    let pawn = Some(piece_from(0, opposite(v.color_to_move)));
    (f > 0 && v.squares[d - 1] == pawn) || (f < 7 && v.squares[d + 1] == pawn)
}

/// The position after a move from `v`.
pub open spec fn make_view(v: BoardView, mv: Move) -> BoardView {
    let kind = kind_of(v.squares[sq_index(mv.source) as int]->0);
    let after = with_rights(v, v.color_to_move, make_rights(v, mv));
    BoardView {
        squares: make_squares(v, mv),
        color_to_move: opposite(v.color_to_move),
        en_passant_destination: if move_shape(v, mv) == MoveShape::DoublePush && enemy_pawn_beside(v, mv) {
            Some(square_from(sq_at(sq_file(mv.destination) as int, sq_rank(mv.destination) - move_dy(mv) / 2)))
        } else {
            None
        },
        halfmoves_since_event: if make_captures(v, mv) || kind == 0 {
            0
        } else {
            v.halfmoves_since_event.wrapping_add(1)
        },
        fullmoves: if v.color_to_move == Color::Black {
            v.fullmoves.wrapping_add(1)
        } else {
            v.fullmoves
        },
        ..after
    }
}

/// The kind of the piece that starts on file `f` of the back rank: rook, knight, bishop,
/// queen, king, bishop, knight, rook.
pub open spec fn back_row_kind_index(f: int) -> nat {
    if f == 0 || f == 7 {
        3
    } else if f == 1 || f == 6 {
        1
    } else if f == 2 || f == 5 {
        2
    } else if f == 3 {
        4
    } else {
        5
    }
}

/// What stands on square `i` in the starting position.
pub open spec fn starting_content(i: int) -> Option<Piece> {
    if i < 8 {
        Some(piece_from(back_row_kind_index(i), Color::White))
    } else if i < 16 {
        Some(piece_from(0, Color::White))
    } else if i < 48 {
        None
    } else if i < 56 {
        Some(piece_from(0, Color::Black))
    } else {
        Some(piece_from(back_row_kind_index(i - 56), Color::Black))
    }
}

fn back_row_kind(f: u8) -> (r: PieceKind)
    ensures
        kind_index(r) == back_row_kind_index(f as int),
{
    if f == 0 || f == 7 {
        PieceKind::Rook
    } else if f == 1 || f == 6 {
        PieceKind::Knight
    } else if f == 2 || f == 5 {
        PieceKind::Bishop
    } else if f == 3 {
        PieceKind::Queen
    } else {
        PieceKind::King
    }
}

/// What is needed to take back one move.
#[derive(Clone, Copy, Debug, PartialEq, Eq, Structural)]
pub struct UnmakeInfo {
    /// The kind of the piece that moved, before any promotion.
    pub piece: PieceKind,
    pub source: Square,
    pub destination: Square,
    pub captured: Option<PieceKind>,
    pub old_en_passant_destination: Option<Square>,
    pub old_castling_rights: CastlingRights,
    pub old_halfmoves_since_event: u32,
    /// Whether the move took a pawn en passant.
    pub en_passant: bool,
}

/// `um` records the move `mv` from `v`.
pub open spec fn unmake_info_matches(v: BoardView, mv: Move, um: UnmakeInfo) -> bool {
    let p = v.squares[sq_index(mv.source) as int]->0;
    let dest = v.squares[sq_index(mv.destination) as int];
    &&& kind_index(um.piece) == kind_of(p)
    &&& um.source == mv.source
    &&& um.destination == mv.destination
    &&& (if move_shape(v, mv) == MoveShape::EnPassant {
        um.captured == Some(PieceKind::Pawn)
    } else {
        (um.captured is Some <==> dest is Some) && (dest is Some ==> kind_index(um.captured->0)
            == kind_of(dest->0))
    })
    &&& um.old_en_passant_destination == v.en_passant_destination
    &&& um.old_castling_rights == rights_of(v, v.color_to_move)
    &&& um.old_halfmoves_since_event == v.halfmoves_since_event
    &&& um.en_passant == (move_shape(v, mv) == MoveShape::EnPassant)
}

/// The position before the move that `um` records, seen from `v`.
pub open spec fn unmake_view(v: BoardView, um: UnmakeInfo) -> BoardView {
    let c = opposite(v.color_to_move);
    let s = v.squares;
    let src = sq_index(um.source) as int;
    let dst = sq_index(um.destination) as int;
    let dx = sq_file(um.destination) - sq_file(um.source);
    let rank = sq_rank(um.source) as int;
    let kind = kind_index(um.piece);
    let squares = if um.en_passant {
        s.update(dst, None).update(src, Some(piece_from(0, c))).update(
            sq_at(sq_file(um.destination) as int, rank),
            Some(piece_from(0, opposite(c))),
        )
    } else if kind == 5 && dx == -2 {
        s.update(dst, None).update(src, Some(piece_from(5, c))).update(sq_at(3, rank), None).update(
            sq_at(0, rank),
            Some(piece_from(3, c)),
        )
    } else if kind == 5 && dx == 2 {
        s.update(dst, None).update(src, Some(piece_from(5, c))).update(sq_at(5, rank), None).update(
            sq_at(7, rank),
            Some(piece_from(3, c)),
        )
    } else {
        s.update(
            dst,
            match um.captured {
                Some(k) => Some(piece_from(kind_index(k), opposite(c))),
                None => None,
            },
        ).update(src, Some(piece_from(kind, c)))
    };
    let after = with_rights(v, c, um.old_castling_rights);
    BoardView {
        squares,
        color_to_move: c,
        en_passant_destination: um.old_en_passant_destination,
        halfmoves_since_event: um.old_halfmoves_since_event,
        fullmoves: if c == Color::Black {
            v.fullmoves.wrapping_sub(1)
        } else {
            v.fullmoves
        },
        ..after
    }
}

/// The moves whose effect `unmake_last_move` takes back exactly: a piece of the side to
/// move leaves its square for another that holds no piece of its own side; only pawns
/// promote; en passant takes an enemy pawn beside the
/// mover, one rank forward; castling moves the king two files from the `e` file along its
/// rank, over empty squares, with its own rook in the corner.
pub open spec fn reversible(v: BoardView, mv: Move) -> bool {
    let s = v.squares;
    let src = sq_index(mv.source) as int;
    let dst = sq_index(mv.destination) as int;
    let p = s[src]->0;
    let c = v.color_to_move;
    let rank = sq_rank(mv.source) as int;
    &&& s.len() == 64
    &&& s[src] is Some
    &&& color_of(p) == c
    &&& src != dst
    &&& (s[dst] is Some ==> color_of(s[dst]->0) != c)
    &&& (mv.promotion is Some ==> kind_of(p) == 0)
    &&& (move_shape(v, mv) == MoveShape::EnPassant ==> {
        &&& v.en_passant_destination == Some(mv.destination)
        &&& (move_dy(mv) == 1 || move_dy(mv) == -1)
        &&& s[sq_at(sq_file(mv.destination) as int, rank)] == Some(piece_from(0, opposite(c)))
    })
    &&& (move_shape(v, mv) == MoveShape::LongCastle ==> {
        &&& sq_file(mv.source) == 4
        &&& move_dy(mv) == 0
        &&& s[dst] is None
        &&& s[sq_at(3, rank)] is None
        &&& s[sq_at(0, rank)] == Some(piece_from(3, c))
    })
    &&& (move_shape(v, mv) == MoveShape::ShortCastle ==> {
        &&& sq_file(mv.source) == 4
        &&& move_dy(mv) == 0
        &&& s[dst] is None
        &&& s[sq_at(5, rank)] is None
        &&& s[sq_at(7, rank)] == Some(piece_from(3, c))
    })
}

/// Taking back a move restores the position exactly; as the hash is a function of the
/// position, it comes back too.
pub proof fn lemma_unmake_inverts_make(v: BoardView, mv: Move, um: UnmakeInfo)
    requires
        reversible(v, mv),
        unmake_info_matches(v, mv, um),
    ensures
        unmake_view(make_view(v, mv), um) == v,
        zobrist_of(unmake_view(make_view(v, mv), um)) == zobrist_of(v),
{
    crate::square::lemma_file_rank(mv.source);
    crate::square::lemma_file_rank(mv.destination);
    let s = v.squares;
    let src = sq_index(mv.source) as int;
    let dst = sq_index(mv.destination) as int;
    let p = s[src]->0;
    let c = v.color_to_move;
    crate::piece::lemma_piece_from_parts(p);
    if s[dst] is Some {
        crate::piece::lemma_piece_from_parts(s[dst]->0);
    }
    if v.en_passant_destination is Some {
        crate::square::lemma_file_rank(v.en_passant_destination->0);
    }
    let w = make_view(v, mv);
    let u = unmake_view(w, um);
    assert(u.squares =~= s);
    assert(u.white_castling_rights == v.white_castling_rights);
    assert(u.black_castling_rights == v.black_castling_rights);
    assert(u.fullmoves == v.fullmoves);
}

proof fn lemma_hash_steps(h: u64, ph: u64, s: u64, c: u64, e: u64, a: u64, b: u64, k: u64)
    ensures
        ((h ^ a) ^ b) ^ ((ph ^ a) ^ b) == h ^ ph,
        h ^ ph == (s ^ c) ^ e ==> ((h ^ a) ^ b) ^ ph == (s ^ b) ^ e || a != c,
        h ^ ph == (s ^ c) ^ e ==> ((h ^ a) ^ b) ^ ph == (s ^ c) ^ b || a != e,
        h ^ ph == (s ^ c) ^ e ==> (h ^ k) ^ ph == ((s ^ k) ^ c) ^ e,
        0u64 ^ k == k,
        k ^ k == 0,
{
    assert(((h ^ a) ^ b) ^ ((ph ^ a) ^ b) == h ^ ph) by (bit_vector);
    assert(h ^ ph == (s ^ c) ^ e ==> ((h ^ a) ^ b) ^ ph == (s ^ b) ^ e || a != c) by (bit_vector);
    assert(h ^ ph == (s ^ c) ^ e ==> ((h ^ a) ^ b) ^ ph == (s ^ c) ^ b || a != e) by (bit_vector);
    assert(h ^ ph == (s ^ c) ^ e ==> (h ^ k) ^ ph == ((s ^ k) ^ c) ^ e) by (bit_vector);
    assert(0u64 ^ k == k && k ^ k == 0) by (bit_vector);
}

/// A chess position, with its Zobrist hash kept up to date.
#[derive(Clone, Debug, PartialEq, Eq)]
pub struct Board {
    pieces: PieceStorage,
    color_to_move: Color,
    en_passant_destination: Option<Square>,
    white_castling_rights: CastlingRights,
    black_castling_rights: CastlingRights,
    halfmoves_since_event: u32,
    fullmoves: u32,
    hash: BoardHash,
}

impl View for Board {
    type V = BoardView;

    closed spec fn view(&self) -> BoardView {
        BoardView {
            squares: self.pieces@,
            color_to_move: self.color_to_move,
            en_passant_destination: self.en_passant_destination,
            white_castling_rights: self.white_castling_rights,
            black_castling_rights: self.black_castling_rights,
            halfmoves_since_event: self.halfmoves_since_event,
            fullmoves: self.fullmoves,
        }
    }
}

/// Computes the castling code of two sides' rights.
pub fn castling_code_of(w: CastlingRights, b: CastlingRights) -> (r: u8)
    ensures
        r as nat == castling_code(w, b),
        r < 16,
{
    (if w.kingside { 1u8 } else { 0 }) + (if w.queenside { 2u8 } else { 0 }) + (if b.kingside {
        4u8
    } else {
        0
    }) + (if b.queenside { 8u8 } else { 0 })
}

impl Board {
    closed spec fn hash_ok(&self) -> bool {
        self.hash.0 ^ pieces_hash(self.pieces@, 64) == rest_hash(self@)
    }

    /// The storage agrees with itself and the hash with the position.
    pub closed spec fn wf(&self) -> bool {
        &&& self.pieces.wf()
        &&& self.hash_ok()
    }

    /// The hash that the board keeps.
    pub closed spec fn kept_hash(&self) -> u64 {
        self.hash.0
    }

    /// The hash that a board keeps is the Zobrist hash of its position computed from scratch.
    /// Every board that `new`, `empty`, `starting` or `from_fen` builds is well formed, and
    /// `make_move` and `unmake_last_move` keep it so, so this holds along every line of play.
    pub proof fn lemma_hash_is_zobrist(&self)
        requires
            self.wf(),
        ensures
            self.kept_hash() == zobrist_of(self@),
    {
        let ph = pieces_hash(self.pieces@, 64);
        let h = self.hash.0;
        let rest = rest_hash(self@);
        assert(h ^ ph == rest);
        assert(h == ph ^ rest) by (bit_vector)
            requires
                h ^ ph == rest,
        ;
    }

    /// Two well-formed boards of the same position are the same board, bitboards and hash
    /// included.
    pub proof fn lemma_view_determines(&self, other: &Board)
        requires
            self.wf(),
            other.wf(),
            self@ == other@,
        ensures
            *self == *other,
    {
        self.pieces.lemma_view_determines(&other.pieces);
        self.lemma_hash_is_zobrist();
        other.lemma_hash_is_zobrist();
    }

    pub proof fn lemma_wf(&self)
        requires
            self.wf(),
        ensures
            self@.squares.len() == 64,
    {
        self.pieces.lemma_len();
    }

    /// The position with the given pieces, side to move, en-passant target, castling rights
    /// and counters; `pieces[i]` stands on square `i`.
    pub fn new(
        pieces: &[Option<Piece>; 64],
        color_to_move: Color,
        en_passant_destination: Option<Square>,
        white_castling_rights: CastlingRights,
        black_castling_rights: CastlingRights,
        halfmoves_since_event: u32,
        fullmoves: u32,
    ) -> (r: Board)
        ensures
            r.wf(),
            r@ == (BoardView {
                squares: pieces@,
                color_to_move,
                en_passant_destination,
                white_castling_rights,
                black_castling_rights,
                halfmoves_since_event,
                fullmoves,
            }),
    {
        let storage = PieceStorage::new();
        let mut board = Board {
            pieces: storage,
            color_to_move: Color::White,
            en_passant_destination: None,
            white_castling_rights: CastlingRights::none(),
            black_castling_rights: CastlingRights::none(),
            halfmoves_since_event,
            fullmoves,
            hash: BoardHash(crate::hash::key(768)),
        };
        proof {
            storage.lemma_len();
            lemma_pieces_hash_empty(storage@, 64);
            lemma_hash_steps(board.hash.0, 0, 0, board.hash.0, 0, 0, 0, 0);
            crate::hash::lemma_xor_facts(board.hash.0, 0, 0);
            crate::hash::lemma_xor_facts(0, board.hash.0, 0);
        }
        let mut i: u8 = 0;
        while i < 64
            invariant
                i <= 64,
                board.wf(),
                board@.squares.len() == 64,
                forall|j: int| 0 <= j < i ==> board@.squares[j] == pieces@[j],
                forall|j: int| i <= j < 64 ==> board@.squares[j] is None,
                board.color_to_move == Color::White,
                board.en_passant_destination is None,
                board.white_castling_rights == (CastlingRights { kingside: false, queenside: false }),
                board.black_castling_rights == (CastlingRights { kingside: false, queenside: false }),
                board.halfmoves_since_event == halfmoves_since_event,
                board.fullmoves == fullmoves,
            decreases 64 - i,
        {
            let sq = match Square::from_u8(i) {
                Some(s) => s,
                None => Square::A1,
            };
            board.put(sq, pieces[i as usize]);
            i = i + 1;
        }
        board.set_rights(Color::White, white_castling_rights);
        board.set_rights(Color::Black, black_castling_rights);
        board.set_en_passant(en_passant_destination);
        if color_to_move == Color::Black {
            board.toggle_color();
        }
        proof {
            assert(board@.squares =~= pieces@);
        }
        board
    }

    /// The board with no piece, white to move, both castling rights kept for each side, and
    /// both counters at zero.
    pub fn empty() -> (r: Board)
        ensures
            r.wf(),
            r@ == (BoardView {
                squares: Seq::new(64, |i: int| None::<Piece>),
                color_to_move: Color::White,
                en_passant_destination: None,
                white_castling_rights: CastlingRights { kingside: true, queenside: true },
                black_castling_rights: CastlingRights { kingside: true, queenside: true },
                halfmoves_since_event: 0,
                fullmoves: 0,
            }),
    {
        let pieces: [Option<Piece>; 64] = [None; 64];
        let r = Board::new(&pieces, Color::White, None, CastlingRights::both(), CastlingRights::both(), 0, 0);
        assert(pieces@ =~= Seq::new(64, |i: int| None::<Piece>));
        r
    }

    /// Where the pieces stand.
    pub fn pieces(&self) -> (r: &PieceStorage)
        requires
            self.wf(),
        ensures
            r.wf(),
            r@ == self@.squares,
    {
        &self.pieces
    }

    pub fn color_to_move(&self) -> (r: Color)
        ensures
            r == self@.color_to_move,
    {
        self.color_to_move
    }

    pub fn en_passant_destination(&self) -> (r: Option<Square>)
        ensures
            r == self@.en_passant_destination,
    {
        self.en_passant_destination
    }

    pub fn white_castling_rights(&self) -> (r: CastlingRights)
        ensures
            r == self@.white_castling_rights,
    {
        self.white_castling_rights
    }

    pub fn black_castling_rights(&self) -> (r: CastlingRights)
        ensures
            r == self@.black_castling_rights,
    {
        self.black_castling_rights
    }

    /// Half-moves since the last capture or pawn move.
    pub fn halfmoves_since_event(&self) -> (r: u32)
        ensures
            r == self@.halfmoves_since_event,
    {
        self.halfmoves_since_event
    }

    /// The number of the full move, counted from the position's start.
    pub fn fullmoves(&self) -> (r: u32)
        ensures
            r == self@.fullmoves,
    {
        self.fullmoves
    }

    /// The usual starting position: white to move, all castling rights, counters 0 and 1.
    pub fn starting() -> (r: Board)
        ensures
            r.wf(),
            r@.color_to_move == Color::White,
            r@.en_passant_destination is None,
            r@.white_castling_rights == (CastlingRights { kingside: true, queenside: true }),
            r@.black_castling_rights == (CastlingRights { kingside: true, queenside: true }),
            r@.halfmoves_since_event == 0,
            r@.fullmoves == 1,
            forall|i: int| 0 <= i < 64 ==> #[trigger] r@.squares[i] == starting_content(i),
    {
        let mut pieces: [Option<Piece>; 64] = [None; 64];
        let mut f: usize = 0;
        while f < 8
            invariant
                f <= 8,
                forall|i: int| 0 <= i < 64 ==> #[trigger] pieces@[i] == (if (i % 8) < f { starting_content(i) } else if 16 <= i < 48 { None } else { pieces@[i] }),
                forall|i: int| 16 <= i < 48 ==> #[trigger] pieces@[i] is None,
                forall|i: int| 0 <= i < 64 && (i % 8) < f ==> #[trigger] pieces@[i] == starting_content(i),
            decreases 8 - f,
        {
            let kind = back_row_kind(f as u8);
            pieces[f] = Some(Piece::new(kind, Color::White));
            pieces[8 + f] = Some(Piece::new(PieceKind::Pawn, Color::White));
            pieces[48 + f] = Some(Piece::new(PieceKind::Pawn, Color::Black));
            pieces[56 + f] = Some(Piece::new(kind, Color::Black));
            f = f + 1;
        }
        Board::new(&pieces, Color::White, None, CastlingRights::both(), CastlingRights::both(), 0, 1)
    }

    /// Puts `contents` on `sq` and updates the hash.
    fn put(&mut self, sq: Square, contents: Option<Piece>)
        requires
            old(self).pieces.wf(),
        ensures
            final(self).pieces.wf(),
            final(self)@ == (BoardView { squares: old(self)@.squares.update(sq_index(sq) as int, contents), ..old(self)@ }),
            old(self).hash_ok() ==> final(self).hash_ok(),
    {
        let prev = self.pieces.get(sq);
        let a: u64 = match prev {
            Some(p) => crate::hash::key(p.as_u8() as u64 * 64 + sq.as_u8() as u64),
            None => 0,
        };
        let b: u64 = match contents {
            Some(p) => crate::hash::key(p.as_u8() as u64 * 64 + sq.as_u8() as u64),
            None => 0,
        };
        let ghost old_squares = self.pieces@;
        let h = self.hash.0;
        self.pieces.set(sq, contents);
        self.hash = BoardHash((h ^ a) ^ b);
        proof {
            self.pieces.lemma_len();
            old(self).pieces.lemma_len();
            let i = sq_index(sq) as int;
            lemma_pieces_hash_update(old_squares, i, contents, 64);
            assert(square_term(old_squares, i) == a);
            assert(square_term(old_squares.update(i, contents), i) == b);
            lemma_hash_steps(h, pieces_hash(old_squares, 64), 0, 0, 0, a, b, 0);
        }
    }

    /// Replaces the castling rights of side `c`.
    fn set_rights(&mut self, c: Color, r: CastlingRights)
        ensures
            final(self).pieces == old(self).pieces,
            final(self)@ == with_rights(old(self)@, c, r),
            old(self).hash_ok() ==> final(self).hash_ok(),
    {
        let old_code = castling_code_of(self.white_castling_rights, self.black_castling_rights);
        if c == Color::White {
            self.white_castling_rights = r;
        } else {
            self.black_castling_rights = r;
        }
        let new_code = castling_code_of(self.white_castling_rights, self.black_castling_rights);
        let ghost h = self.hash.0;
        self.hash = self.hash.update_castling_rights(old_code, new_code);
        proof {
            let ov = old(self)@;
            let side = if ov.color_to_move == Color::Black {
                zobrist_key(black_to_move_key_number())
            } else {
                0u64
            };
            let ep = match ov.en_passant_destination {
                Some(s) => zobrist_key(en_passant_key_number(sq_file(s))),
                None => 0u64,
            };
            lemma_hash_steps(
                h,
                pieces_hash(self.pieces@, 64),
                side,
                zobrist_key(castling_key_number(old_code as nat)),
                ep,
                zobrist_key(castling_key_number(old_code as nat)),
                zobrist_key(castling_key_number(new_code as nat)),
                0,
            );
        }
    }

    /// Replaces the en-passant destination.
    fn set_en_passant(&mut self, e: Option<Square>)
        ensures
            final(self).pieces == old(self).pieces,
            final(self)@ == (BoardView { en_passant_destination: e, ..old(self)@ }),
            old(self).hash_ok() ==> final(self).hash_ok(),
    {
        let prev = match self.en_passant_destination {
            Some(s) => Some(s.file()),
            None => None,
        };
        let next = match e {
            Some(s) => Some(s.file()),
            None => None,
        };
        let ghost h = self.hash.0;
        self.hash = self.hash.set_en_passant_file(prev, next);
        self.en_passant_destination = e;
        proof {
            let ov = old(self)@;
            let side = if ov.color_to_move == Color::Black {
                zobrist_key(black_to_move_key_number())
            } else {
                0u64
            };
            let c = zobrist_key(
                castling_key_number(castling_code(ov.white_castling_rights, ov.black_castling_rights)),
            );
            let ep_old = match ov.en_passant_destination {
                Some(s) => zobrist_key(en_passant_key_number(sq_file(s))),
                None => 0u64,
            };
            let ep_new = match e {
                Some(s) => zobrist_key(en_passant_key_number(sq_file(s))),
                None => 0u64,
            };
            lemma_hash_steps(h, pieces_hash(self.pieces@, 64), side, c, ep_old, ep_old, ep_new, 0);
        }
    }

    /// Hands the move to the other side.
    fn toggle_color(&mut self)
        ensures
            final(self).pieces == old(self).pieces,
            final(self)@ == (BoardView { color_to_move: opposite(old(self)@.color_to_move), ..old(self)@ }),
            old(self).hash_ok() ==> final(self).hash_ok(),
    {
        let ghost h = self.hash.0;
        self.hash = self.hash.toggle_move();
        self.color_to_move = self.color_to_move.not();
        proof {
            let ov = old(self)@;
            let k = zobrist_key(black_to_move_key_number());
            let side = if ov.color_to_move == Color::Black { k } else { 0u64 };
            let c = zobrist_key(
                castling_key_number(castling_code(ov.white_castling_rights, ov.black_castling_rights)),
            );
            let ep = match ov.en_passant_destination {
                Some(s) => zobrist_key(en_passant_key_number(sq_file(s))),
                None => 0u64,
            };
            lemma_hash_steps(h, pieces_hash(self.pieces@, 64), side, c, ep, 0, 0, k);
        }
    }

    /// The castling rights of side `c`.
    fn rights_of(&self, c: Color) -> (r: CastlingRights)
        ensures
            r == rights_of(self@, c),
    {
        if c == Color::White {
            self.white_castling_rights
        } else {
            self.black_castling_rights
        }
    }

    /// The position's Zobrist hash.
    pub fn hash(&self) -> (r: BoardHash)
        requires
            self.wf(),
        ensures
            r.0 == zobrist_of(self@),
    {
        proof {
            self.lemma_hash_is_zobrist();
        }
        self.hash
    }

    /// The way `mv` is carried out from this position.
    fn shape_of(&self, mv: Move) -> (r: MoveShape)
        requires
            self.wf(),
            self@.squares[sq_index(mv.source) as int] is Some,
        ensures
            r == move_shape(self@, mv),
    {
        proof {
            self.lemma_wf();
        }
        let kind: u8 = match self.pieces.get(mv.source) {
            Some(p) => p.kind().as_u8(),
            None => 0,
        };
        let dest_empty = self.pieces.get(mv.destination).is_none();
        let dx: i32 = mv.source.file_diff(mv.destination);
        let dy: i32 = mv.source.rank_diff(mv.destination);
        if kind == 0 && dest_empty && dx != 0 {
            MoveShape::EnPassant
        } else if mv.promotion.is_some() {
            MoveShape::Promotion
        } else if kind == 5 && dx == -2 {
            MoveShape::LongCastle
        } else if kind == 5 && dx == 2 {
            MoveShape::ShortCastle
        } else if kind == 0 && (dy == 2 || dy == -2) {
            MoveShape::DoublePush
        } else {
            MoveShape::Plain
        }
    }

    /// Whether an enemy pawn stands next to the destination of `mv`, on the same rank.
    fn enemy_pawn_beside(&self, mv: Move) -> (r: bool)
        requires
            self.wf(),
        ensures
            r == enemy_pawn_beside(self@, mv),
    {
        proof {
            self.lemma_wf();
            crate::square::lemma_file_rank(mv.destination);
        }
        let d = mv.destination.as_u8();
        let f = d % 8;
        let pawn = Some(Piece::new(PieceKind::Pawn, self.color_to_move.not()));
        let left = if f > 0 {
            match Square::from_u8(d - 1) {
                Some(q) => self.pieces.get(q) == pawn,
                None => false,
            }
        } else {
            false
        };
        let right = if f < 7 {
            match Square::from_u8(d + 1) {
                Some(q) => self.pieces.get(q) == pawn,
                None => false,
            }
        } else {
            false
        };
        left || right
    }

    /// The castling rights that the side to move keeps after `mv`.
    fn rights_after(&self, mv: Move, shape: MoveShape) -> (r: CastlingRights)
        requires
            self.wf(),
            self@.squares[sq_index(mv.source) as int] is Some,
            shape == move_shape(self@, mv),
        ensures
            r == make_rights(self@, mv),
    {
        proof {
            self.lemma_wf();
        }
        let color = self.color_to_move;
        let old = self.rights_of(color);
        let kind: u8 = match self.pieces.get(mv.source) {
            Some(p) => p.kind().as_u8(),
            None => 0,
        };
        match shape {
            MoveShape::LongCastle | MoveShape::ShortCastle => CastlingRights::none(),
            MoveShape::Plain => {
                let corner: u8 = if color == Color::White { 0 } else { 56 };
                let src = mv.source.as_u8();
                if kind == 5 {
                    CastlingRights::none()
                } else if kind == 3 && src == corner {
                    CastlingRights { queenside: false, ..old }
                } else if kind == 3 && src == corner + 7 {
                    CastlingRights { kingside: false, ..old }
                } else {
                    old
                }
            },
            _ => old,
        }
    }

    /// Moves the pieces as `mv` does.
    fn move_pieces(&mut self, mv: Move, shape: MoveShape)
        requires
            old(self).wf(),
            old(self)@.squares[sq_index(mv.source) as int] is Some,
            shape == move_shape(old(self)@, mv),
        ensures
            final(self).wf(),
            final(self)@ == (BoardView { squares: make_squares(old(self)@, mv), ..old(self)@ }),
    {
        proof {
            self.lemma_wf();
        }
        let ghost v = self@;
        let source_piece = match self.pieces.get(mv.source) {
            Some(p) => p,
            None => Piece::WhitePawn,
        };
        let piece_color = source_piece.color();
        let src_rank = mv.source.rank();
        match shape {
            MoveShape::EnPassant => {
                self.put(mv.source, None);
                self.put(mv.destination, Some(source_piece));
                self.put(Square::at(mv.destination.file(), src_rank), None);
            },
            MoveShape::Promotion => {
                let k = match mv.promotion {
                    Some(k) => k,
                    None => PieceKind::Queen,
                };
                self.put(mv.source, None);
                self.put(mv.destination, Some(Piece::new(k, piece_color)));
            },
            MoveShape::LongCastle => {
                self.put(mv.source, None);
                self.put(mv.destination, Some(source_piece));
                self.put(Square::at(BoardFile::A, src_rank), None);
                self.put(Square::at(BoardFile::D, src_rank), Some(Piece::new(PieceKind::Rook, piece_color)));
            },
            MoveShape::ShortCastle => {
                self.put(mv.source, None);
                self.put(mv.destination, Some(source_piece));
                self.put(Square::at(BoardFile::H, src_rank), None);
                self.put(Square::at(BoardFile::F, src_rank), Some(Piece::new(PieceKind::Rook, piece_color)));
            },
            _ => {
                self.put(mv.source, None);
                self.put(mv.destination, Some(source_piece));
            },
        }
        proof {
            assert(self@.squares =~= make_squares(v, mv));
        }
    }

    /// The en-passant destination after `mv`.
    fn en_passant_after(mv: Move, shape: MoveShape, beside: bool) -> (r: Option<Square>)
        requires
            shape == MoveShape::DoublePush ==> (move_dy(mv) == 2 || move_dy(mv) == -2),
        ensures
            r == (if shape == MoveShape::DoublePush && beside {
                Some(square_from(sq_at(sq_file(mv.destination) as int, sq_rank(mv.destination) - move_dy(mv) / 2)))
            } else {
                None
            }),
    {
        if shape == MoveShape::DoublePush && beside {
            proof {
                crate::square::lemma_file_rank(mv.source);
                crate::square::lemma_file_rank(mv.destination);
            }
            let dy: i32 = mv.source.rank_diff(mv.destination);
            let mid = mv.destination.rank().as_u8() as i32 - dy / 2;
            if mid < 0 || mid >= 8 {
                return None;
            }
            let mid_rank = match BoardRank::from_u8(mid as u8) {
                Some(r) => r,
                None => BoardRank::R1,
            };
            let e = Square::at(mv.destination.file(), mid_rank);
            proof {
                let n = sq_at(sq_file(mv.destination) as int, sq_rank(mv.destination) - move_dy(mv) / 2);
                assert(dy == move_dy(mv));
                assert(mid == sq_rank(mv.destination) - move_dy(mv) / 2);
                assert(sq_index(e) == n);
                let q = square_from(n);
                assert(sq_index(q) == sq_index(e));
            }
            Some(e)
        } else {
            None
        }
    }

    /// The content of each square.
    pub fn squares(&self) -> (r: [Option<Piece>; 64])
        requires
            self.wf(),
        ensures
            r@ == self@.squares,
    {
        proof {
            self.lemma_wf();
        }
        let mut arr: [Option<Piece>; 64] = [None; 64];
        let mut i: u8 = 0;
        while i < 64
            invariant
                self.wf(),
                self@.squares.len() == 64,
                i <= 64,
                forall|j: int| 0 <= j < i ==> arr@[j] == self@.squares[j],
            decreases 64 - i,
        {
            let q = match Square::from_u8(i) {
                Some(q) => q,
                None => Square::A1,
            };
            arr[i as usize] = self.pieces.get(q);
            i = i + 1;
        }
        assert(arr@ =~= self@.squares);
        arr
    }

    /// The content of each square after `mv`, the position itself unchanged.
    pub fn squares_after(&self, mv: Move) -> (r: [Option<Piece>; 64])
        requires
            self.wf(),
            self@.squares[sq_index(mv.source) as int] is Some,
        ensures
            r@ == make_squares(self@, mv),
    {
        proof {
            self.lemma_wf();
        }
        let mut arr = self.squares();
        let shape = self.shape_of(mv);
        let source_piece = match self.pieces.get(mv.source) {
            Some(p) => p,
            None => Piece::WhitePawn,
        };
        let piece_color = source_piece.color();
        let src = mv.source.as_u8() as usize;
        let dst = mv.destination.as_u8() as usize;
        let src_rank = mv.source.rank();
        match shape {
            MoveShape::EnPassant => {
                arr[src] = None;
                arr[dst] = Some(source_piece);
                arr[Square::at(mv.destination.file(), src_rank).as_u8() as usize] = None;
            },
            MoveShape::Promotion => {
                let k = match mv.promotion {
                    Some(k) => k,
                    None => PieceKind::Queen,
                };
                arr[src] = None;
                arr[dst] = Some(Piece::new(k, piece_color));
            },
            MoveShape::LongCastle => {
                arr[src] = None;
                arr[dst] = Some(source_piece);
                arr[Square::at(BoardFile::A, src_rank).as_u8() as usize] = None;
                arr[Square::at(BoardFile::D, src_rank).as_u8() as usize] = Some(Piece::new(PieceKind::Rook, piece_color));
            },
            MoveShape::ShortCastle => {
                arr[src] = None;
                arr[dst] = Some(source_piece);
                arr[Square::at(BoardFile::H, src_rank).as_u8() as usize] = None;
                arr[Square::at(BoardFile::F, src_rank).as_u8() as usize] = Some(Piece::new(PieceKind::Rook, piece_color));
            },
            _ => {
                arr[src] = None;
                arr[dst] = Some(source_piece);
            },
        }
        proof {
            assert(arr@ =~= make_squares(self@, mv));
        }
        arr
    }

    /// Plays `mv`, whichever piece stands on its source, and returns what is needed to take
    /// it back. A pawn's double push records the square it passed over as the en-passant
    /// target only when an enemy pawn stands next to its destination and could capture there.
    pub fn make_move(&mut self, mv: Move) -> (r: UnmakeInfo)
        requires
            old(self).wf(),
            old(self)@.squares[sq_index(mv.source) as int] is Some,
        ensures
            final(self).wf(),
            final(self)@ == make_view(old(self)@, mv),
            unmake_info_matches(old(self)@, mv, r),
    {
        proof {
            self.lemma_wf();
        }
        let ghost v = self@;
        let source_piece = match self.pieces.get(mv.source) {
            Some(p) => p,
            None => Piece::WhitePawn,
        };
        let color = self.color_to_move;
        let shape = self.shape_of(mv);
        let captured = match shape {
            MoveShape::EnPassant => Some(PieceKind::Pawn),
            _ => match self.pieces.get(mv.destination) {
                Some(p) => Some(p.kind()),
                None => None,
            },
        };
        let um = UnmakeInfo {
            piece: source_piece.kind(),
            source: mv.source,
            destination: mv.destination,
            captured,
            old_en_passant_destination: self.en_passant_destination,
            old_castling_rights: self.rights_of(color),
            old_halfmoves_since_event: self.halfmoves_since_event,
            en_passant: shape == MoveShape::EnPassant,
        };
        let new_rights = self.rights_after(mv, shape);
        let beside = self.enemy_pawn_beside(mv);
        let new_ep = Board::en_passant_after(mv, shape, beside);
        let resets = captured.is_some() || source_piece.kind() == PieceKind::Pawn;
        assert(resets == (make_captures(v, mv) || kind_of(source_piece) == 0));
        self.move_pieces(mv, shape);
        self.set_rights(color, new_rights);
        self.set_en_passant(new_ep);
        if resets {
            self.halfmoves_since_event = 0;
        } else {
            self.halfmoves_since_event = self.halfmoves_since_event.wrapping_add(1);
        }
        self.toggle_color();
        if self.color_to_move == Color::White {
            self.fullmoves = self.fullmoves.wrapping_add(1);
        }
        proof {
            let w = make_view(v, mv);
            assert(self@.squares =~= w.squares);
        }
        um
    }

    /// Takes back the move that `um` records.
    pub fn unmake_last_move(&mut self, um: UnmakeInfo)
        requires
            old(self).wf(),
        ensures
            final(self).wf(),
            final(self)@ == unmake_view(old(self)@, um),
    {
        proof {
            self.lemma_wf();
        }
        let ghost v = self@;
        let dx: i32 = um.source.file_diff(um.destination);
        self.toggle_color();
        let c = self.color_to_move;
        self.halfmoves_since_event = um.old_halfmoves_since_event;
        if c == Color::Black {
            self.fullmoves = self.fullmoves.wrapping_sub(1);
        }
        self.set_en_passant(um.old_en_passant_destination);
        self.set_rights(c, um.old_castling_rights);
        let src_rank = um.source.rank();
        if um.en_passant {
            self.put(um.destination, None);
            self.put(um.source, Some(Piece::new(PieceKind::Pawn, c)));
            self.put(
                Square::at(um.destination.file(), src_rank),
                Some(Piece::new(PieceKind::Pawn, c.not())),
            );
        } else if um.piece == PieceKind::King && dx == -2 {
            self.put(um.destination, None);
            self.put(um.source, Some(Piece::new(PieceKind::King, c)));
            self.put(Square::at(BoardFile::D, src_rank), None);
            self.put(Square::at(BoardFile::A, src_rank), Some(Piece::new(PieceKind::Rook, c)));
        } else if um.piece == PieceKind::King && dx == 2 {
            self.put(um.destination, None);
            self.put(um.source, Some(Piece::new(PieceKind::King, c)));
            self.put(Square::at(BoardFile::F, src_rank), None);
            self.put(Square::at(BoardFile::H, src_rank), Some(Piece::new(PieceKind::Rook, c)));
        } else {
            let restored = match um.captured {
                Some(k) => Some(Piece::new(k, c.not())),
                None => None,
            };
            self.put(um.destination, restored);
            self.put(um.source, Some(Piece::new(um.piece, c)));
        }
        proof {
            let w = unmake_view(v, um);
            assert(self@.squares =~= w.squares);
            assert(self@.white_castling_rights == w.white_castling_rights);
            assert(self@.black_castling_rights == w.black_castling_rights);
        }
    }
}

} // verus!
