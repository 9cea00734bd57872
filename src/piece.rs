use vstd::prelude::*;
use crate::color::Color;

verus! {

/// The kind of a piece, numbered 0 (pawn) to 5 (king).
#[derive(Clone, Copy, Debug, PartialEq, Eq, Hash, Structural)]
pub enum PieceKind {
    Pawn,
    Knight,
    Bishop,
    Rook,
    Queen,
    King,
}

/// A piece of one side, numbered `kind + 6 * colour` with black 0 and white 1.
#[derive(Clone, Copy, Debug, PartialEq, Eq, Hash, Structural)]
pub enum Piece {
    BlackPawn,
    BlackKnight,
    BlackBishop,
    BlackRook,
    BlackQueen,
    BlackKing,
    WhitePawn,
    WhiteKnight,
    WhiteBishop,
    WhiteRook,
    WhiteQueen,
    WhiteKing,
}

/// The number of a piece kind.
pub open spec fn kind_index(k: PieceKind) -> nat {
    (k as u8) as nat
}

/// The number of a piece.
pub open spec fn piece_index(p: Piece) -> nat {
    (p as u8) as nat
}

/// The number of a side: black 0, white 1.
pub open spec fn color_index(c: Color) -> nat {
    if c == Color::White { 1 } else { 0 }
}

/// The kind number of a piece.
pub open spec fn kind_of(p: Piece) -> nat {
    piece_index(p) % 6
}

/// The side of a piece.
pub open spec fn color_of(p: Piece) -> Color {
    if piece_index(p) >= 6 { Color::White } else { Color::Black }
}

/// The lowercase letter of a piece kind number.
pub open spec fn kind_char(k: nat) -> char {
    if k == 0 { 'p' } else if k == 1 { 'n' } else if k == 2 { 'b' } else if k == 3 { 'r' } else if k == 4 { 'q' } else { 'k' }
}

/// The kind number that a letter names, in either case.
pub open spec fn kind_of_char(c: char) -> Option<nat> {
    if c == 'p' || c == 'P' { Some(0nat) } else if c == 'n' || c == 'N' { Some(1nat) } else if c == 'b' || c == 'B' { Some(2nat) } else if c == 'r' || c == 'R' { Some(3nat) } else if c == 'q' || c == 'Q' { Some(4nat) } else if c == 'k' || c == 'K' { Some(5nat) } else { None }
}

/// The FEN letter of a piece: uppercase for white, lowercase for black.
pub open spec fn piece_char(p: Piece) -> char {
    if color_of(p) == Color::White {
        ((kind_char(kind_of(p)) as u8) - 32) as char
    } else {
        kind_char(kind_of(p))
    }
}

/// The piece of kind number `kind` (below 6) and side `c`.
pub open spec fn piece_from(kind: nat, c: Color) -> Piece {
    choose|p: Piece| piece_index(p) == kind + 6 * color_index(c)
}

/// A piece is the piece of its own kind and side.
pub proof fn lemma_piece_from_parts(p: Piece)
    ensures
        piece_from(kind_of(p), color_of(p)) == p,
{
    let q = piece_from(kind_of(p), color_of(p));
    assert(piece_index(p) == kind_of(p) + 6 * color_index(color_of(p)));
}

/// Two pieces with the same number are the same piece; likewise for kinds.
pub broadcast proof fn lemma_piece_index_injective(a: Piece, b: Piece)
    ensures
        #[trigger] piece_index(a) == #[trigger] piece_index(b) ==> a == b,
        piece_index(a) < 12,
{
}

pub broadcast proof fn lemma_kind_index_injective(a: PieceKind, b: PieceKind)
    ensures
        #[trigger] kind_index(a) == #[trigger] kind_index(b) ==> a == b,
        kind_index(a) < 6,
{
}

impl PieceKind {
    pub fn from_u8(index: u8) -> (r: Option<PieceKind>)
        ensures
            r is Some <==> index < 6,
            r is Some ==> kind_index(r->0) == index,
    {
        match index {
            0 => Some(PieceKind::Pawn),
            1 => Some(PieceKind::Knight),
            2 => Some(PieceKind::Bishop),
            3 => Some(PieceKind::Rook),
            4 => Some(PieceKind::Queen),
            5 => Some(PieceKind::King),
            _ => None,
        }
    }

    pub fn as_u8(self) -> (r: u8)
        ensures
            r as nat == kind_index(self),
            r < 6,
    {
        self as u8
    }

    /// The kind that a letter of algebraic notation names, in either case.
    pub fn from_char(c: char) -> (r: Option<PieceKind>)
        ensures
            r is Some <==> kind_of_char(c) is Some,
            r is Some ==> kind_index(r->0) == kind_of_char(c)->0,
    {
        match c {
            'p' | 'P' => Some(PieceKind::Pawn),
            'n' | 'N' => Some(PieceKind::Knight),
            'b' | 'B' => Some(PieceKind::Bishop),
            'r' | 'R' => Some(PieceKind::Rook),
            'q' | 'Q' => Some(PieceKind::Queen),
            'k' | 'K' => Some(PieceKind::King),
            _ => None,
        }
    }

    /// The lowercase letter of this kind in algebraic notation.
    pub fn as_char(self) -> (r: char)
        ensures
            r == kind_char(kind_index(self)),
    {
        match self {
            PieceKind::Pawn => 'p',
            PieceKind::Knight => 'n',
            PieceKind::Bishop => 'b',
            PieceKind::Rook => 'r',
            PieceKind::Queen => 'q',
            PieceKind::King => 'k',
        }
    }
}

impl Piece {
    /// The piece of the given kind and side.
    pub fn new(kind: PieceKind, color: Color) -> (r: Piece)
        ensures
            piece_index(r) == kind_index(kind) + 6 * color_index(color),
            kind_of(r) == kind_index(kind),
            color_of(r) == color,
            r == piece_from(kind_index(kind), color),
    {
        let c: u8 = if color.is_white() { 1 } else { 0 };
        let r = match Piece::from_u8(kind.as_u8() + 6 * c) {
            Some(p) => p,
            None => Piece::BlackPawn,
        };
        assert(piece_index(r) == kind_index(kind) + 6 * color_index(color));
        let ghost q = piece_from(kind_index(kind), color);
        assert(piece_index(q) == kind_index(kind) + 6 * color_index(color));
        r
    }

    pub fn from_u8(index: u8) -> (r: Option<Piece>)
        ensures
            r is Some <==> index < 12,
            r is Some ==> piece_index(r->0) == index,
    {
        match index {
            0 => Some(Piece::BlackPawn),
            1 => Some(Piece::BlackKnight),
            2 => Some(Piece::BlackBishop),
            3 => Some(Piece::BlackRook),
            4 => Some(Piece::BlackQueen),
            5 => Some(Piece::BlackKing),
            6 => Some(Piece::WhitePawn),
            7 => Some(Piece::WhiteKnight),
            8 => Some(Piece::WhiteBishop),
            9 => Some(Piece::WhiteRook),
            10 => Some(Piece::WhiteQueen),
            11 => Some(Piece::WhiteKing),
            _ => None,
        }
    }

    pub fn as_u8(self) -> (r: u8)
        ensures
            r as nat == piece_index(self),
            r < 12,
    {
        self as u8
    }

    pub fn kind(self) -> (r: PieceKind)
        ensures
            kind_index(r) == kind_of(self),
    {
        match PieceKind::from_u8(self.as_u8() % 6) {
            Some(k) => k,
            None => PieceKind::Pawn,
        }
    }

    pub fn color(self) -> (r: Color)
        ensures
            r == color_of(self),
    {
        Color::from_is_white(self.as_u8() >= 6)
    }

    /// The piece that a FEN letter names: uppercase is white, lowercase black.
    pub fn from_char(c: char) -> (r: Option<Piece>)
        ensures
            r is Some <==> kind_of_char(c) is Some,
            r is Some ==> kind_of(r->0) == kind_of_char(c)->0
                && color_of(r->0) == (if 'A' <= c && c <= 'Z' { Color::White } else { Color::Black }),
    {
        match PieceKind::from_char(c) {
            Some(k) => Some(Piece::new(k, Color::from_is_white('A' <= c && c <= 'Z'))),
            None => None,
        }
    }

    /// The FEN letter of this piece.
    pub fn as_char(self) -> (r: char)
        ensures
            r == piece_char(self),
    {
        let c = self.kind().as_char();
        if self.color().is_white() {
            ((c as u8) - 32) as char
        } else {
            c
        }
    }
}

} // verus!
