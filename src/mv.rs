use vstd::prelude::*;
use crate::piece::{PieceKind, kind_char, kind_index, kind_of_char};
use crate::square::{Square, sq_index, square_name, square_of_name};

verus! {

/// A move: the square it leaves, the square it reaches, and the kind a pawn becomes.
#[derive(Clone, Copy, Debug, PartialEq, Eq, Hash, Structural)]
pub struct Move {
    pub source: Square,
    pub destination: Square,
    pub promotion: Option<PieceKind>,
}

/// The UCI text of a move: both square names, then the promotion letter if any.
pub open spec fn uci_of(m: Move) -> Seq<char> {
    match m.promotion {
        Some(k) => square_name(m.source) + square_name(m.destination) + seq![kind_char(kind_index(k))],
        None => square_name(m.source) + square_name(m.destination),
    }
}

/// The move that a UCI text names, by square numbers and promotion kind number.
pub open spec fn move_of_uci(s: Seq<char>) -> Option<(nat, nat, Option<nat>)> {
    if s.len() != 4 && s.len() != 5 {
        None
    } else if square_of_name(s.subrange(0, 2)) is None || square_of_name(s.subrange(2, 4)) is None {
        None
    } else if s.len() == 5 && kind_of_char(s[4]) is None {
        None
    } else {
        Some((
            square_of_name(s.subrange(0, 2))->0,
            square_of_name(s.subrange(2, 4))->0,
            if s.len() == 5 { Some(kind_of_char(s[4])->0) } else { None },
        ))
    }
}

impl Move {
    /// Parses a move in UCI notation, such as "e7e8q".
    pub fn from_uci(s: &str) -> (r: Option<Move>)
        ensures
            r is Some <==> move_of_uci(s@) is Some,
            r is Some ==> ({
                let (a, b, p) = move_of_uci(s@)->0;
                &&& sq_index(r->0.source) == a
                &&& sq_index(r->0.destination) == b
                &&& (r->0.promotion is Some <==> p is Some)
                &&& (p is Some ==> kind_index(r->0.promotion->0) == p->0)
            }),
    {
        let len = s.unicode_len();
        if len != 4 && len != 5 {
            return None;
        }
        let source = Square::from_name(s.substring_char(0, 2));
        let destination = Square::from_name(s.substring_char(2, 4));
        let (source, destination) = match (source, destination) {
            (Some(a), Some(b)) => (a, b),
            _ => return None,
        };
        if len == 5 {
            match PieceKind::from_char(s.get_char(4)) {
                Some(k) => Some(Move { source, destination, promotion: Some(k) }),
                None => None,
            }
        } else {
            Some(Move { source, destination, promotion: None })
        }
    }

    /// The move in UCI notation.
    pub fn as_uci(&self) -> (r: String)
        ensures
            r@ == uci_of(*self),
    {
        let mut s = self.source.name();
        let d = self.destination.name();
        crate::text::push_char(&mut s, d.as_str().get_char(0));
        crate::text::push_char(&mut s, d.as_str().get_char(1));
        if let Some(k) = self.promotion {
            crate::text::push_char(&mut s, k.as_char());
        }
        assert(s@ =~= uci_of(*self));
        s
    }
}

} // verus!
