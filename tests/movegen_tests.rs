use chess_lib::bitboard::Bitboard;
use chess_lib::board::Board;
use chess_lib::engine::{search, InterMoveCache};
use chess_lib::movegen::{
    black_pawn_attacks, king_attacks, knight_attacks, unobstructed_queen_attacks,
    unobstructed_rook_attacks, white_pawn_attacks, MoveGenerator,
};
use chess_lib::mv::Move;
use chess_lib::perft::perft;
use chess_lib::sliding::{generate_bishop_attack_set, generate_rook_attack_set, SlidingAttackTable};
use chess_lib::square::Square;

fn legal_uci(fen: &str) -> Vec<String> {
    let board = Board::from_fen(fen).unwrap();
    let movegen = MoveGenerator::new();
    movegen
        .compute_legal_moves(&board)
        .iter()
        .map(|m| m.as_uci())
        .collect()
}

fn perft_fen(fen: &str, depth: u64) -> u64 {
    let mut board = Board::from_fen(fen).unwrap();
    let movegen = MoveGenerator::new();
    perft(&mut board, &movegen, depth)
}

#[test]
fn stupid_test() {
    let board = Board::starting();
    let movegen = MoveGenerator::new();
    let moves = movegen.compute_legal_moves(&board);

    assert_eq!(moves.len(), 20);
}

#[test]
fn simple_king_capture() {
    assert!(legal_uci("8/8/8/8/3Kp2k/8/8/8 w - - 0 1").contains(&"d4e4".to_string()));
}

#[test]
fn no_self_capture() {
    assert!(!legal_uci("8/8/8/8/3KP2k/8/8/8 w - - 0 1").contains(&"d4e4".to_string()));
}

#[test]
fn bishop_pin() {
    assert!(!legal_uci("K7/8/2P5/8/4b3/8/8/k7 w - - 0 1").contains(&"c6c7".to_string()));
}

#[test]
fn castling_through_attacked_squares_is_excluded() {
    let moves = legal_uci("3rkr2/8/8/8/8/8/8/R3K2R w KQ - 0 1");
    assert!(!moves.contains(&"e1g1".to_string()));
    assert!(!moves.contains(&"e1c1".to_string()));
}

#[test]
fn legal_castling() {
    let moves = legal_uci("r3k2r/8/8/8/8/8/8/R3K2R w KQkq - 0 1");
    assert!(moves.contains(&"e1g1".to_string()));
    assert!(moves.contains(&"e1c1".to_string()));
}

#[test]
fn en_passant_horizontal_pin() {
    assert!(!legal_uci("8/8/8/K2pP2r/8/8/8/7k w - d6 0 1").contains(&"e5d6".to_string()));
}

#[test]
fn en_passant_when_not_pinned() {
    assert!(legal_uci("8/8/8/K2pP3/8/8/8/7k w - d6 0 1").contains(&"e5d6".to_string()));
}

#[test]
fn promotion_choices() {
    let moves = legal_uci("8/P7/8/8/8/8/8/K6k w - - 0 1");
    for m in ["a7a8q", "a7a8r", "a7a8b", "a7a8n"] {
        assert!(moves.contains(&m.to_string()), "{m}");
    }
    assert!(!moves.contains(&"a7a8".to_string()));
}

#[test]
fn double_check_allows_only_king_moves() {
    let board = Board::from_fen("4k3/8/8/8/8/5n2/8/R3K2r w - - 0 1").unwrap();
    let movegen = MoveGenerator::new();
    for m in movegen.compute_legal_moves(&board) {
        assert_eq!(m.source, Square::E1);
    }
}

#[test]
fn perft_starting_position() {
    let fen = "rnbqkbnr/pppppppp/8/8/8/8/PPPPPPPP/RNBQKBNR w KQkq - 0 1";
    assert_eq!(perft_fen(fen, 1), 20);
    assert_eq!(perft_fen(fen, 2), 400);
    assert_eq!(perft_fen(fen, 3), 8902);
}

#[test]
fn perft_kiwipete() {
    let fen = "r3k2r/p1ppqpb1/bn2pnp1/3PN3/1p2P3/2N2Q1p/PPPBBPPP/R3K2R w KQkq - 0 1";
    assert_eq!(perft_fen(fen, 1), 48);
    assert_eq!(perft_fen(fen, 2), 2039);
    assert_eq!(perft_fen(fen, 3), 97862);
}

#[test]
fn perft_position_three() {
    let fen = "8/2p5/3p4/KP5r/1R3p1k/8/4P1P1/8 w - - 0 1";
    assert_eq!(perft_fen(fen, 1), 14);
    assert_eq!(perft_fen(fen, 2), 191);
    assert_eq!(perft_fen(fen, 3), 2812);
    assert_eq!(perft_fen(fen, 4), 43238);
}

#[test]
fn perft_position_four() {
    let fen = "r3k2r/Pppp1ppp/1b3nbN/nP6/BBP1P3/q4N2/Pp1P2PP/R2Q1RK1 w kq - 0 1";
    assert_eq!(perft_fen(fen, 1), 6);
    assert_eq!(perft_fen(fen, 2), 264);
    assert_eq!(perft_fen(fen, 3), 9467);
}

#[test]
fn perft_position_five() {
    let fen = "rnbq1k1r/pp1Pbppp/2p5/8/2B5/8/PPP1NnPP/RNBQK2R w KQ - 1 8";
    assert_eq!(perft_fen(fen, 1), 44);
    assert_eq!(perft_fen(fen, 2), 1486);
    assert_eq!(perft_fen(fen, 3), 62379);
}

/// Plays every legal move two plies deep; after each move the hash equals the hash of the
/// same position read afresh, and taking the move back restores the board exactly.
#[test]
fn hash_and_unmake_along_every_line() {
    let movegen = MoveGenerator::new();
    for fen in [
        "rnbqkbnr/pppppppp/8/8/8/8/PPPPPPPP/RNBQKBNR w KQkq - 0 1",
        "r3k2r/p1ppqpb1/bn2pnp1/3PN3/1p2P3/2N2Q1p/PPPBBPPP/R3K2R w KQkq - 0 1",
        "r3k2r/Pppp1ppp/1b3nbN/nP6/BBP1P3/q4N2/Pp1P2PP/R2Q1RK1 w kq - 0 1",
    ] {
        let mut board = Board::from_fen(fen).unwrap();
        let original = board.clone();
        for m in movegen.compute_legal_moves(&board) {
            let um = board.make_move(m);
            let fresh = Board::from_fen(&board.to_fen()).unwrap();
            assert_eq!(board.hash(), fresh.hash(), "{}", m.as_uci());
            for reply in movegen.compute_legal_moves(&board) {
                let before = board.clone();
                let um2 = board.make_move(reply);
                let fresh = Board::from_fen(&board.to_fen()).unwrap();
                assert_eq!(board.hash(), fresh.hash());
                board.unmake_last_move(um2);
                assert_eq!(board, before);
            }
            board.unmake_last_move(um);
            assert_eq!(board, original);
        }
    }
}

#[test]
fn magic_tables_match_ray_walking() {
    let rook = SlidingAttackTable::compute_for_rook();
    let bishop = SlidingAttackTable::compute_for_bishop();
    assert!(rook.is_valid());
    assert!(bishop.is_valid());
    let mut seed: u64 = 0x1234_5678_9abc_def1;
    for square in Square::iter_all() {
        for _ in 0..64 {
            seed ^= seed << 13;
            seed ^= seed >> 7;
            seed ^= seed << 17;
            let occupancy = Bitboard(seed & (seed >> 3));
            assert_eq!(
                rook.get_attack_set(square, occupancy),
                generate_rook_attack_set(square, occupancy)
            );
            assert_eq!(
                bishop.get_attack_set(square, occupancy),
                generate_bishop_attack_set(square, occupancy)
            );
        }
    }
}

#[test]
fn fixed_attack_sets() {
    assert_eq!(knight_attacks(Square::A1), Bitboard(0x0002_0400));
    assert_eq!(king_attacks(Square::A1), Bitboard(0x0302));
    assert_eq!(white_pawn_attacks(Square::B2), Bitboard(0x05_0000));
    assert_eq!(black_pawn_attacks(Square::B2), Bitboard(0x05));
    assert_eq!(unobstructed_rook_attacks(Square::A1), Bitboard(0x0101_0101_0101_01FE));
    assert_eq!(unobstructed_queen_attacks(Square::A1).popcount(), 21);
}

#[test]
fn search_picks_a_legal_move() {
    let mut board = Board::starting();
    let mut cache = InterMoveCache::new();
    let m = search(&mut board, &mut cache).unwrap();
    let legal: Vec<Move> = MoveGenerator::new().compute_legal_moves(&board);
    assert!(legal.contains(&m));
    let mut mated = Board::from_fen("7k/6Q1/6K1/8/8/8/8/8 b - - 0 1").unwrap();
    assert_eq!(search(&mut mated, &mut cache), None);
}
