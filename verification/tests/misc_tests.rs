use fabchess::board_representation::game_state::{GameMove, GameMoveType, GameState, PieceType};
use fabchess::board_representation::zobrist_hashing::init_zobrist;
use fabchess::misc::{find_castle, find_move, parse_move, without_marks, MoveSpecification};
use fabchess::move_generation::movegen::{generate_moves, MoveList};

const START: &str = "rnbqkbnr/pppppppp/8/8/8/8/PPPPPPPP/RNBQKBNR w KQkq - 0 1";

#[test]
fn marks_are_removed() {
    assert_eq!(without_marks("exd8=Q+").to_string(), "ed8Q");
    assert_eq!(without_marks("Qxf7#").to_string(), "Qf7");
    assert_eq!(without_marks("e4").to_string(), "e4");
}

#[test]
fn parse_pawn_and_knight_moves() {
    let keys = init_zobrist();
    let g = GameState::from_fen(&keys, START);
    let mut list = MoveList::default();
    let (mv, next) = parse_move(&keys, &g, "e4", &mut list).unwrap();
    assert_eq!((mv.from, mv.to), (12, 28));
    assert_eq!(mv.piece_type, PieceType::Pawn);
    assert_eq!(next.color_to_move, 1);
    let (mv, next2) = parse_move(&keys, &next, "Nf6", &mut list).unwrap();
    assert_eq!((mv.from, mv.to), (62, 45));
    assert_eq!(mv.piece_type, PieceType::Knight);
    assert_eq!(next2.full_moves, 2);
    assert!(parse_move(&keys, &g, "e5", &mut list).is_err());
    assert!(parse_move(&keys, &g, "O-O", &mut list).is_err());
    assert!(parse_move(&keys, &g, "z", &mut list).is_err());
}

#[test]
fn parse_castles_and_disambiguation() {
    let keys = init_zobrist();
    let g = GameState::from_fen(&keys, "r3k2r/8/8/8/8/8/8/R3K2R w KQkq - 0 1");
    let mut list = MoveList::default();
    let (mv, _) = parse_move(&keys, &g, "O-O", &mut list).unwrap();
    assert_eq!(mv.move_type, GameMoveType::Castle);
    assert_eq!((mv.from, mv.to), (4, 6));
    let (mv, _) = parse_move(&keys, &g, "O-O-O+", &mut list).unwrap();
    assert_eq!((mv.from, mv.to), (4, 2));
    let (mv, _) = parse_move(&keys, &g, "Rab1", &mut list).unwrap();
    assert_eq!((mv.from, mv.to), (0, 1));
    let (mv, _) = parse_move(&keys, &g, "Rh1h5", &mut list).unwrap();
    assert_eq!((mv.from, mv.to), (7, 39));
    let no_rights = GameState::from_fen(&keys, "r3k2r/8/8/8/8/8/8/R3K2R w - - 0 1");
    assert!(parse_move(&keys, &no_rights, "O-O", &mut list).is_err());
}

#[test]
fn parse_promotion() {
    let keys = init_zobrist();
    let g = GameState::from_fen(&keys, "3r3k/4P3/8/8/8/8/8/K7 w - - 0 1");
    let mut list = MoveList::default();
    let (mv, _) = parse_move(&keys, &g, "exd8=N+", &mut list).unwrap();
    assert_eq!(mv.move_type, GameMoveType::Promotion(PieceType::Knight, Some(PieceType::Rook)));
    let (mv, _) = parse_move(&keys, &g, "e8Q", &mut list).unwrap();
    assert_eq!(mv.move_type, GameMoveType::Promotion(PieceType::Queen, None));
}

#[test]
fn find_the_first_matching_move() {
    let keys = init_zobrist();
    let g = GameState::from_fen(&keys, "r3k2r/8/8/8/8/8/8/R3K2R w KQkq - 0 1");
    let mut list = MoveList::default();
    generate_moves(&g, false, &mut list);
    let (mv, _) = find_castle(&keys, &list, &g, false).unwrap();
    assert_eq!((mv.from, mv.to), (4, 2));
    let ms = MoveSpecification::new(3, PieceType::Rook, None);
    let (mv, _) = find_move(&keys, &list, &g, ms).unwrap();
    assert_eq!((mv.from, mv.to), (0, 3));
    let ms = MoveSpecification::new(60, PieceType::Rook, None);
    assert!(find_move(&keys, &list, &g, ms).is_err());
}

#[test]
fn moves_are_written_in_coordinates() {
    let e4 = GameMove { from: 12, to: 28, move_type: GameMoveType::Quiet, piece_type: PieceType::Pawn };
    assert_eq!(e4.to_move_string(), "e2e4");
    let promo = GameMove {
        from: 52,
        to: 59,
        move_type: GameMoveType::Promotion(PieceType::Knight, Some(PieceType::Rook)),
        piece_type: PieceType::Pawn,
    };
    assert_eq!(promo.to_move_string(), "e7d8n");
    assert_eq!(GameMove::string_to_move(&promo.to_move_string()), (52, 59, Some(PieceType::Knight)));
    let h8 = GameMove { from: 63, to: 0, move_type: GameMoveType::Quiet, piece_type: PieceType::Queen };
    assert_eq!(GameMove::string_to_move(&h8.to_move_string()), (63, 0, None));
}
