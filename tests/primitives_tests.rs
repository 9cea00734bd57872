use std::collections::HashSet;

use chess_lib::bitboard::Bitboard;
use chess_lib::color::Color;
use chess_lib::hash::BoardHash;
use chess_lib::mv::Move;
use chess_lib::piece::{Piece, PieceKind};
use chess_lib::square::{BoardFile, BoardRank, Square};

#[test]
fn test_bitboard_iterator() {
    let squares = [Square::A1, Square::B2, Square::H1, Square::H8];

    let mut bitboard = Bitboard::empty();
    for square in squares {
        bitboard.insert(square);
    }

    let squares_set: HashSet<Square> = squares.into_iter().collect();
    let recovered_squares_set: HashSet<Square> = bitboard.iter().into_iter().collect();

    assert_eq!(squares_set, recovered_squares_set);
}

#[test]
fn test_bitboard_debug() {
    let bitboard = Bitboard::empty()
        .with_inserted(Square::A1)
        .with_inserted(Square::B1)
        .with_inserted(Square::H8);

    let expected = "\
        .......#\n\
        ........\n\
        ........\n\
        ........\n\
        ........\n\
        ........\n\
        ........\n\
        ##......";

    let formatted = bitboard.debug_string();

    assert_eq!(formatted, expected.to_string());
}

#[test]
fn bitboard_iteration_is_ascending_and_counted() {
    let bitboard = Bitboard(0x8000_0000_0001_0205);
    let squares = bitboard.iter();
    assert_eq!(
        squares,
        vec![Square::A1, Square::C1, Square::B2, Square::A3, Square::H8]
    );
    assert_eq!(bitboard.popcount(), 5);
    assert_eq!(Bitboard::empty().iter(), Vec::<Square>::new());
    assert_eq!(Bitboard::empty().popcount(), 0);
    assert_eq!(Bitboard(u64::MAX).popcount(), 64);
    assert_eq!(Bitboard(u64::MAX).iter().len(), 64);
}

#[test]
fn bitboard_set_operations() {
    let a = Bitboard::single(Square::A1).with_inserted(Square::B1);
    let b = Bitboard::single(Square::B1).with_inserted(Square::C1);
    assert_eq!(a.union(b), Bitboard(0b111));
    assert_eq!(a.intersection(b), Bitboard(0b010));
    assert_eq!(a.symmetric_difference(b), Bitboard(0b101));
    assert_eq!(a.without(b), Bitboard(0b001));
    assert_eq!(a.complement(), Bitboard(!0b011));
    assert!(a.intersects(b));
    assert!(!a.intersects(Bitboard::single(Square::H8)));
    assert!(Bitboard::empty().is_empty());
    assert!(a.contains(Square::A1));
    assert!(!a.contains(Square::C1));
    assert_eq!(a.with_removed(Square::A1), Bitboard(0b010));
    let mut c = a;
    c.remove(Square::B1);
    assert_eq!(c, Bitboard(0b001));
    c.insert_if(Square::H1, false);
    assert_eq!(c, Bitboard(0b001));
    c.insert_if(Square::H1, true);
    assert_eq!(c, Bitboard(0b1000_0001));
    assert_eq!(
        Bitboard::from_ranks([1, 0, 0, 0, 0, 0, 0, 0x80]),
        Bitboard::single(Square::A1).with_inserted(Square::H8)
    );
}

#[test]
fn move_from_uci() {
    assert_eq!(
        Move::from_uci("e7e8"),
        Some(Move {
            source: Square::E7,
            destination: Square::E8,
            promotion: None,
        }),
    );
    assert_eq!(
        Move::from_uci("e7e8q"),
        Some(Move {
            source: Square::E7,
            destination: Square::E8,
            promotion: Some(PieceKind::Queen),
        }),
    );
    assert_eq!(Move::from_uci("lala"), None);
    assert_eq!(Move::from_uci("lalal"), None);
    assert_eq!(Move::from_uci("lalala"), None);
    assert_eq!(Move::from_uci("e7e8l"), None);
}

#[test]
fn move_as_uci() {
    assert_eq!(
        Move {
            source: Square::E7,
            destination: Square::E8,
            promotion: None,
        }
        .as_uci(),
        "e7e8"
    );
    assert_eq!(
        Move {
            source: Square::E7,
            destination: Square::E8,
            promotion: Some(PieceKind::Queen)
        }
        .as_uci(),
        "e7e8q"
    );
}

#[test]
fn test_piece() {
    assert_eq!(
        Piece::new(PieceKind::Bishop, Color::White).kind(),
        PieceKind::Bishop
    );
    assert_eq!(
        Piece::new(PieceKind::Bishop, Color::White).color(),
        Color::White
    );
    assert_eq!(
        Piece::new(PieceKind::Knight, Color::Black).kind(),
        PieceKind::Knight
    );
    assert_eq!(
        Piece::new(PieceKind::Knight, Color::Black).color(),
        Color::Black
    );
}

#[test]
fn piece_chars_and_numbers() {
    assert_eq!(Piece::from_char('Q'), Some(Piece::WhiteQueen));
    assert_eq!(Piece::from_char('n'), Some(Piece::BlackKnight));
    assert_eq!(Piece::from_char('x'), None);
    assert_eq!(Piece::WhiteKing.as_char(), 'K');
    assert_eq!(Piece::BlackPawn.as_char(), 'p');
    assert_eq!(Piece::from_u8(11), Some(Piece::WhiteKing));
    assert_eq!(Piece::from_u8(12), None);
    assert_eq!(Piece::WhiteRook.as_u8(), 9);
    assert_eq!(PieceKind::from_u8(4), Some(PieceKind::Queen));
    assert_eq!(PieceKind::from_u8(6), None);
    assert_eq!(PieceKind::Knight.as_u8(), 1);
    assert_eq!(PieceKind::from_char('B'), Some(PieceKind::Bishop));
    assert_eq!(PieceKind::Rook.as_char(), 'r');
}

#[test]
fn colors() {
    assert_eq!(Color::White.not(), Color::Black);
    assert_eq!(Color::from_is_white(false), Color::Black);
    assert!(Color::White.is_white());
    assert_eq!(Color::Black.as_char(), 'b');
    assert_eq!(Color::White.back_rank(), BoardRank::R1);
    assert_eq!(Color::Black.promotion_rank(), BoardRank::R1);
    assert_eq!(Color::Black.pawn_starting_rank(), BoardRank::R7);
    assert_eq!(Color::Black.up(), -1);
}

#[test]
fn test_square_from_u8() {
    assert_eq!(Square::from_u8(0), Some(Square::A1));
    assert_eq!(Square::from_u8(1), Some(Square::B1));
    assert_eq!(Square::from_u8(63), Some(Square::H8));
    assert_eq!(Square::from_u8(64), None);
}

#[test]
fn test_square_at() {
    assert_eq!(Square::at(BoardFile::A, BoardRank::R1), Square::A1);
    assert_eq!(Square::at(BoardFile::B, BoardRank::R2), Square::B2);
    assert_eq!(Square::at(BoardFile::H, BoardRank::R1), Square::H1);
}

#[test]
fn test_square_file() {
    assert_eq!(Square::A1.file(), BoardFile::A);
    assert_eq!(Square::B2.file(), BoardFile::B);
    assert_eq!(Square::H1.file(), BoardFile::H);
}

#[test]
fn test_square_rank() {
    assert_eq!(Square::A1.rank(), BoardRank::R1);
    assert_eq!(Square::B2.rank(), BoardRank::R2);
    assert_eq!(Square::H1.rank(), BoardRank::R1);
}

#[test]
fn test_square_name() {
    assert_eq!(Square::A1.name(), "a1");
    assert_eq!(Square::B2.name(), "b2");
    assert_eq!(Square::H1.name(), "h1");
}

#[test]
fn test_square_from_name() {
    assert_eq!(Square::from_name("a1"), Some(Square::A1));
    assert_eq!(Square::from_name("b2"), Some(Square::B2));
    assert_eq!(Square::from_name("h1"), Some(Square::H1));
    assert_eq!(Square::from_name("i9"), None);
    assert_eq!(Square::from_name(""), None);
    assert_eq!(Square::from_name("a111"), Some(Square::A1));
}

#[test]
fn square_offsets_and_lists() {
    assert_eq!(Square::E4.translated_by((1, 2)), Some(Square::F6));
    assert_eq!(Square::H4.translated_by((1, 0)), None);
    assert_eq!(Square::A1.translated_by((0, -1)), None);
    assert_eq!(Square::iter_all().len(), 64);
    assert_eq!(Square::iter_all()[63], Square::H8);
    assert_eq!(BoardFile::iter_all()[2], BoardFile::C);
    assert_eq!(BoardRank::iter_all()[7], BoardRank::R8);
    assert_eq!(BoardFile::from_char('c'), Some(BoardFile::C));
    assert_eq!(BoardRank::from_char('9'), None);
    assert_eq!(BoardFile::G.as_char(), 'g');
    assert_eq!(BoardRank::R3.as_char(), '3');
}

#[test]
fn hash_toggles_cancel() {
    let h = BoardHash::zero();
    let once = h.toggle_piece(Piece::WhiteKing, Square::E1);
    assert_ne!(once, h);
    assert_eq!(once.toggle_piece(Piece::WhiteKing, Square::E1), h);
    assert_ne!(h.toggle_move(), h);
    assert_eq!(h.toggle_move().toggle_move(), h);
    assert_eq!(h.update_castling_rights(3, 5).update_castling_rights(5, 3), h);
    assert_eq!(
        h.set_en_passant_file(None, Some(BoardFile::D)).set_en_passant_file(Some(BoardFile::D), None),
        h
    );
}
