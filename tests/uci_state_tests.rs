use chess_lib::board::Board;
use chess_lib::dense_integer_map::{DenseIntegerMap, DenseIntegerMapKey};
use chess_lib::piece::Piece;
use chess_lib::piece_storage::PieceStorage;
use chess_lib::color::Color;
use chess_lib::square::{BoardFile, BoardRank, Square};
use chess_lib::uci_state::{GlobalState, UciOptions};

#[test]
fn option_names_ignore_case() {
    assert_eq!(UciOptions::from_string("example"), Some(UciOptions::Example));
    assert_eq!(UciOptions::from_string("EXAMPLE"), Some(UciOptions::Example));
    assert_eq!(UciOptions::from_string("Example"), Some(UciOptions::Example));
    assert_eq!(UciOptions::from_string("examples"), None);
    assert_eq!(UciOptions::from_string(""), None);
    assert_eq!(UciOptions::Example.name(), "Example");
}

#[test]
fn options_are_set_and_unset_by_name() {
    let mut state = GlobalState::new();
    assert!(!state.debug);
    assert_eq!(state.get_option(UciOptions::Example), None);
    assert_eq!(state.set_option_named("example", "on"), Ok(UciOptions::Example));
    assert_eq!(state.get_option(UciOptions::Example), Some("on".to_string()));
    state.set_option(UciOptions::Example, "off");
    assert_eq!(state.get_option(UciOptions::Example), Some("off".to_string()));
    assert_eq!(state.set_option_named("unknown", "x"), Err(()));
    assert_eq!(state.unset_option_named("unknown"), Err(()));
    assert_eq!(state.unset_option_named("EXAMPLE"), Ok(UciOptions::Example));
    assert_eq!(state.get_option(UciOptions::Example), None);
    state.unset_option(UciOptions::Example);
    assert_eq!(state.get_option(UciOptions::Example), None);
}

#[test]
fn commands_in_progress() {
    let mut state = GlobalState::new();
    assert!(state.is_ready());
    let a = state.start_command();
    let b = state.start_command();
    assert_eq!((a, b), (0, 1));
    assert!(!state.is_ready());
    state.end_command(a);
    assert!(!state.is_ready());
    state.end_command(b);
    assert!(state.is_ready());
}

#[test]
fn piece_listings() {
    let board = Board::starting();
    let pieces: &PieceStorage = board.pieces();
    let all = pieces.iter();
    assert_eq!(all.len(), 32);
    assert_eq!(all[0], (Square::A7, Piece::BlackPawn));
    let white = pieces.iter_single_color(Color::White);
    assert_eq!(white.len(), 16);
    assert!(white.iter().all(|(_, p)| p.color() == Color::White));
    assert_eq!(white[15], (Square::E1, Piece::WhiteKing));
    assert_eq!(pieces.get(Square::D8), Some(Piece::BlackQueen));
    assert_eq!(pieces.piece_bitboard(Piece::WhiteRook).iter(), vec![Square::A1, Square::H1]);
}

#[test]
fn indices_and_version() {
    assert_eq!(Square::H8.as_index(), 63);
    assert_eq!(BoardFile::D.as_index(), 3);
    assert_eq!(BoardRank::R6.as_index(), 5);
    assert_eq!(chess_lib::version(), "0.1.0");
}

#[test]
fn dense_integer_map_by_square() {
    let mut map: DenseIntegerMap<Square, u32> = DenseIntegerMap::new();
    assert!(!map.contains(Square::E4));
    map.insert(Square::E4, 7);
    map.insert(Square::A1, 3);
    assert!(map.contains(Square::E4));
    assert_eq!(map.get(Square::E4), Some(&7));
    assert_eq!(map.get(Square::H8), None);
    assert_eq!(map.iter(), vec![(Square::A1, &3), (Square::E4, &7)]);
    assert_eq!(Square::from_index(28), Some(Square::E4));
    assert_eq!(Square::from_index(64), None);
    assert_eq!(<Square as DenseIntegerMapKey>::max_index(), 64);
}

#[test]
fn defaults() {
    let rights: chess_lib::board::CastlingRights = Default::default();
    assert!(rights.kingside && rights.queenside);
    let storage: PieceStorage = Default::default();
    assert_eq!(storage.get(Square::E4), None);
    let state: GlobalState = Default::default();
    assert!(state.is_ready());
    let movegen: chess_lib::movegen::MoveGenerator = Default::default();
    assert_eq!(movegen.compute_legal_moves(&Board::starting()).len(), 20);
}
