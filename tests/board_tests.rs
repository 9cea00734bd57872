use chess_lib::board::{Board, CastlingRights};
use chess_lib::mv::Move;
use chess_lib::piece::PieceKind;
use chess_lib::square::Square;

#[test]
fn test_fen_forward_back() {
    const FEN: &str = "rnbqkbnr/pppppppp/8/8/8/8/PPPPPPPP/RNBQKBNR w KQkq - 0 1";
    assert_eq!(Board::from_fen(FEN).unwrap().to_fen(), FEN);
}

fn test_move_and_unmake(fen_before: &str, mv: Move, fen_after: &str) {
    let mut board = Board::from_fen(fen_before).unwrap();

    let unmake = board.make_move(mv);
    assert_eq!(board.to_fen(), fen_after, "Making the move");

    board.unmake_last_move(unmake);
    assert_eq!(board.to_fen(), fen_before, "Unmaking the move");
}

#[test]
fn test_basic_unmake() {
    test_move_and_unmake(
        "rnbqkbnr/pppppppp/8/8/8/8/PPPPPPPP/RNBQKBNR w KQkq - 0 1",
        Move {
            source: Square::B2,
            destination: Square::B4,
            promotion: None,
        },
        // No black pawn stands beside b4, so no en-passant target is recorded.
        "rnbqkbnr/pppppppp/8/8/1P6/8/P1PPPPPP/RNBQKBNR b KQkq - 0 1",
    )
}

#[test]
fn test_unmake_en_passant_white() {
    test_move_and_unmake(
        "rnbqkbnr/ppp1pppp/8/3pP3/8/8/PPPP1PPP/RNBQKBNR w KQkq d6 0 3",
        Move {
            source: Square::E5,
            destination: Square::D6,
            promotion: None,
        },
        "rnbqkbnr/ppp1pppp/3P4/8/8/8/PPPP1PPP/RNBQKBNR b KQkq - 0 3",
    )
}

#[test]
fn test_unmake_en_passant_black() {
    test_move_and_unmake(
        "rnbqkbnr/pppppppp/8/8/3Pp3/8/PPP1PPPP/RNBQKBNR b KQkq d3 0 2",
        Move {
            source: Square::E4,
            destination: Square::D3,
            promotion: None,
        },
        "rnbqkbnr/pppppppp/8/8/8/3p4/PPP1PPPP/RNBQKBNR w KQkq - 0 3",
    )
}

// A castle neither captures nor moves a pawn, so the half-move clock goes up by one.
#[test]
fn test_unmake_white_short_castle() {
    test_move_and_unmake(
        "rnbqkbnr/pppppppp/8/8/8/8/PPPPPPPP/RNBQK2R w KQkq - 0 1",
        Move {
            source: Square::E1,
            destination: Square::G1,
            promotion: None,
        },
        "rnbqkbnr/pppppppp/8/8/8/8/PPPPPPPP/RNBQ1RK1 b kq - 1 1",
    )
}

#[test]
fn test_unmake_black_short_castle() {
    test_move_and_unmake(
        "rnbqk2r/pppppppp/8/8/8/8/PPPPPPPP/RNBQKBNR b KQkq - 0 1",
        Move {
            source: Square::E8,
            destination: Square::G8,
            promotion: None,
        },
        "rnbq1rk1/pppppppp/8/8/8/8/PPPPPPPP/RNBQKBNR w KQ - 1 2",
    )
}

#[test]
fn test_unmake_white_long_castle() {
    test_move_and_unmake(
        "rnbqkbnr/pppppppp/8/8/8/8/PPPPPPPP/R3KBNR w KQkq - 0 1",
        Move {
            source: Square::E1,
            destination: Square::C1,
            promotion: None,
        },
        "rnbqkbnr/pppppppp/8/8/8/8/PPPPPPPP/2KR1BNR b kq - 1 1",
    )
}

#[test]
fn test_unmake_black_long_castle() {
    test_move_and_unmake(
        "r3kbnr/pppppppp/8/8/8/8/PPPPPPPP/RNBQKBNR b KQkq - 0 1",
        Move {
            source: Square::E8,
            destination: Square::C8,
            promotion: None,
        },
        "2kr1bnr/pppppppp/8/8/8/8/PPPPPPPP/RNBQKBNR w KQ - 1 2",
    )
}

#[test]
fn test_unmake_white_promotion() {
    test_move_and_unmake(
        "8/P7/8/8/8/8/8/k6K w - - 0 1",
        Move {
            source: Square::A7,
            destination: Square::A8,
            promotion: Some(PieceKind::Queen),
        },
        "Q7/8/8/8/8/8/8/k6K b - - 0 1",
    )
}

#[test]
fn test_unmake_black_promotion() {
    test_move_and_unmake(
        "k6K/8/8/8/8/8/p7/8 b - - 0 1",
        Move {
            source: Square::A2,
            destination: Square::A1,
            promotion: Some(PieceKind::Queen),
        },
        "k6K/8/8/8/8/8/8/q7 w - - 0 2",
    )
}

#[test]
fn quiet_move_counts_half_moves_and_rook_move_drops_right() {
    test_move_and_unmake(
        "r3k2r/8/8/8/8/8/8/R3K2R w KQkq - 3 10",
        Move {
            source: Square::H1,
            destination: Square::H5,
            promotion: None,
        },
        "r3k2r/8/8/7R/8/8/8/R3K3 b Qkq - 4 10",
    )
}

#[test]
fn king_move_drops_both_rights() {
    test_move_and_unmake(
        "r3k2r/8/8/8/8/8/8/R3K2R b KQkq - 0 7",
        Move {
            source: Square::E8,
            destination: Square::D8,
            promotion: None,
        },
        "r2k3r/8/8/8/8/8/8/R3K2R w KQ - 1 8",
    )
}

#[test]
fn double_push_beside_enemy_pawn_records_target() {
    test_move_and_unmake(
        "rnbqkbnr/ppp1pppp/8/8/3p4/8/PPPPPPPP/RNBQKBNR w KQkq - 0 3",
        Move {
            source: Square::E2,
            destination: Square::E4,
            promotion: None,
        },
        "rnbqkbnr/ppp1pppp/8/8/3pP3/8/PPPP1PPP/RNBQKBNR b KQkq e3 0 3",
    )
}

#[test]
fn fen_round_trip_on_several_positions() {
    for fen in [
        "r3k2r/p1ppqpb1/bn2pnp1/3PN3/1p2P3/2N2Q1p/PPPBBPPP/R3K2R w KQkq - 0 1",
        "8/2p5/3p4/KP5r/1R3p1k/8/4P1P1/8 w - - 0 1",
        "r3k2r/Pppp1ppp/1b3nbN/nP6/BBP1P3/q4N2/Pp1P2PP/R2Q1RK1 w kq - 0 1",
        "rnbq1k1r/pp1Pbppp/2p5/8/2B5/8/PPP1NnPP/RNBQK2R w KQ - 1 8",
        "8/8/8/K2pP2r/8/8/8/7k w - d6 0 1",
        "8/8/8/8/8/8/8/8 b Kq - 4294967295 0",
    ] {
        assert_eq!(Board::from_fen(fen).unwrap().to_fen(), fen);
    }
}

#[test]
fn fen_errors() {
    for fen in [
        "",
        "rnbqkbnr/pppppppp/8/8/8/8/PPPPPPPP/RNBQKBNR w KQkq - 0",
        "rnbqkbnr/pppppppp/8/8/8/8/PPPPPPPP w KQkq - 0 1",
        "rnbqkbnr/pppppppp/8/8/8/8/PPPPPPPP/RNBQKBNX w KQkq - 0 1",
        "rnbqkbnr/pppppppp/8/8/8/8/PPPPPPPP/RNBQKBN w KQkq - 0 1",
        "rnbqkbnr/pppppppp/9/8/8/8/PPPPPPPP/RNBQKBNR w KQkq - 0 1",
        "rnbqkbnr/pppppppp/8/8/8/8/PPPPPPPP/RNBQKBNR x KQkq - 0 1",
        "rnbqkbnr/pppppppp/8/8/8/8/PPPPPPPP/RNBQKBNR w KQkx - 0 1",
        "rnbqkbnr/pppppppp/8/8/8/8/PPPPPPPP/RNBQKBNR w KQkq e9 0 1",
        "rnbqkbnr/pppppppp/8/8/8/8/PPPPPPPP/RNBQKBNR w KQkq - a 1",
        "rnbqkbnr/pppppppp/8/8/8/8/PPPPPPPP/RNBQKBNR w KQkq - 0 4294967296",
        "rnbqkbnr/pppppppp/8/8/8/8/PPPPPPPP/RNBQKBNR  w KQkq - 0 1",
    ] {
        let r = Board::from_fen(fen);
        assert!(r.is_err(), "{fen}");
        assert!(r.unwrap_err().starts_with("Invalid fen: "));
    }
}

#[test]
fn starting_matches_its_fen() {
    let board = Board::starting();
    assert_eq!(
        board.to_fen(),
        "rnbqkbnr/pppppppp/8/8/8/8/PPPPPPPP/RNBQKBNR w KQkq - 0 1"
    );
    assert_eq!(
        board,
        Board::from_fen("rnbqkbnr/pppppppp/8/8/8/8/PPPPPPPP/RNBQKBNR w KQkq - 0 1").unwrap()
    );
}

#[test]
fn empty_board() {
    let board = Board::empty();
    assert_eq!(board.to_fen(), "8/8/8/8/8/8/8/8 w KQkq - 0 0");
    assert_eq!(board.white_castling_rights(), CastlingRights::both());
    assert_eq!(board.black_castling_rights(), CastlingRights::both());
    assert_eq!(CastlingRights::none(), CastlingRights { kingside: false, queenside: false });
}
