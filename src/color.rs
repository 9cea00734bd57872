use vstd::prelude::*;
use crate::square::BoardRank;

verus! {

/// The side a piece belongs to.
#[derive(Clone, Copy, Debug, PartialEq, Eq, Hash, Structural)]
pub enum Color {
    Black,
    White,
}

/// The other side.
pub open spec fn opposite(c: Color) -> Color {
    match c {
        Color::White => Color::Black,
        Color::Black => Color::White,
    }
}

impl Color {
    pub fn from_is_white(is_white: bool) -> (r: Color)
        ensures
            (r == Color::White) == is_white,
    {
        if is_white {
            Color::White
        } else {
            Color::Black
        }
    }

    pub fn is_white(self) -> (r: bool)
        ensures
            r == (self == Color::White),
    {
        match self {
            Color::White => true,
            Color::Black => false,
        }
    }

    /// The letter of this side in FEN: `w` or `b`.
    pub fn as_char(self) -> (r: char)
        ensures
            r == (if self == Color::White { 'w' } else { 'b' }),
    {
        match self {
            Color::White => 'w',
            Color::Black => 'b',
        }
    }

    /// The rank on which the pieces of this side start.
    pub fn back_rank(self) -> (r: BoardRank)
        ensures
            r == (if self == Color::White { BoardRank::R1 } else { BoardRank::R8 }),
    {
        match self {
            Color::White => BoardRank::R1,
            Color::Black => BoardRank::R8,
        }
    }

    /// The rank on which the pawns of this side are promoted.
    pub fn promotion_rank(self) -> (r: BoardRank)
        ensures
            r == (if self == Color::White { BoardRank::R8 } else { BoardRank::R1 }),
    {
        match self {
            Color::White => BoardRank::R8,
            Color::Black => BoardRank::R1,
        }
    }

    /// The rank on which the pawns of this side start.
    pub fn pawn_starting_rank(self) -> (r: BoardRank)
        ensures
            r == (if self == Color::White { BoardRank::R2 } else { BoardRank::R7 }),
    {
        match self {
            Color::White => BoardRank::R2,
            Color::Black => BoardRank::R7,
        }
    }

    /// The direction in which the pawns of this side advance, in ranks.
    pub fn up(self) -> (r: i32)
        ensures
            r == (if self == Color::White { 1i32 } else { -1i32 }),
    {
        match self {
            Color::White => 1,
            Color::Black => -1,
        }
    }

    /// The other side.
    pub fn not(self) -> (r: Color)
        ensures
            r == opposite(self),
    {
        match self {
            Color::White => Color::Black,
            Color::Black => Color::White,
        }
    }
}

} // verus!
