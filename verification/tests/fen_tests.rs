use fabchess::board_representation::game_state::GameState;
use fabchess::board_representation::zobrist_hashing::init_zobrist;
use fabchess::move_generation::makemove::make_move;
use fabchess::move_generation::movegen::{generate_moves, MoveList};

#[test]
fn fen_test() {
    let keys = init_zobrist();
    let g = GameState::standard(&keys);
    assert_eq!(
        &g.to_fen(),
        "rnbqkbnr/pppppppp/8/8/8/8/PPPPPPPP/RNBQKBNR w KQkq - 0 1"
    );
    let fen = "4BR1N/1PPPQPp1/p1p2nPP/p1Pr1bp1/p1k3qB/1n1p2N1/1bP2pK1/5R2 w - - 0 1";
    let g = GameState::from_fen(&keys, fen);
    assert_eq!(&g.to_fen(), fen);
    let fen = "1nb1B3/bk1P2p1/p3PBp1/p3r1PP/1p3n1N/1pRNqP1P/p2p1RPK/3Q2r1 w - - 0 1";
    let g = GameState::from_fen(&keys, fen);
    assert_eq!(&g.to_fen(), fen);
    let fen = "8/1R2NP1N/pb1rPPK1/p1q1PpPQ/1Ppp3B/kpn2r2/nRBPP1p1/7b w - - 0 1";
    let g = GameState::from_fen(&keys, fen);
    assert_eq!(&g.to_fen(), fen);
    let fen = "3r4/6k1/pN1q2p1/Pp6/1PPpp3/4brPP/1Q2R1RK/8 b - c3 0 1";
    let g = GameState::from_fen(&keys, fen);
    assert_eq!(&g.to_fen(), fen);
    let fen = "rnbq1k1r/pp1Pbppp/2p5/8/2B5/8/PPP1NnPP/RNBQK2R w KQ - 1 8";
    let g = GameState::from_fen(&keys, fen);
    assert_eq!(&g.to_fen(), fen);
    let fen = "8/8/1P2K3/8/2n5/1q6/8/5k2 b - - 0 1";
    let g = GameState::from_fen(&keys, fen);
    assert_eq!(&g.to_fen(), fen);
    let fen = "4BK2/2rPnppR/pPkp2Rn/2p4P/p3pBqP/4PPPN/2rPp3/b2b1N2 w - - 0 1";
    let g = GameState::from_fen(&keys, fen);
    assert_eq!(&g.to_fen(), fen);
    let fen = "6r1/B3P1p1/K1pP1kp1/Pp6/8/6N1/2P1p3/8 w - - 0 1";
    let g = GameState::from_fen(&keys, fen);
    assert_eq!(&g.to_fen(), fen);
    let fen = "3Rr3/1R1PP3/2P2k2/5n2/p2p1N2/1P6/4K3/1r6 w - - 0 1";
    let g = GameState::from_fen(&keys, fen);
    assert_eq!(&g.to_fen(), fen);
}

#[test]
fn fen_without_counters_reads_zero_and_one() {
    let keys = init_zobrist();
    let g = GameState::from_fen(&keys, "k4b2/2p1P3/8/3P4/6b1/7P/8/R3K2R w KQ -");
    assert_eq!(g.half_moves, 0);
    assert_eq!(g.full_moves, 1);
    assert!(g.castle_white_kingside && g.castle_white_queenside);
    assert!(!g.castle_black_kingside && !g.castle_black_queenside);
    assert_eq!(g.pieces[5][1], 1u64 << 56);
    assert_eq!(g.to_fen(), "k4b2/2p1P3/8/3P4/6b1/7P/8/R3K2R w KQ - 0 1");
}

#[test]
fn fen_en_passant_square() {
    let keys = init_zobrist();
    let g = GameState::from_fen(&keys, "3r4/6k1/pN1q2p1/Pp6/1PPpp3/4brPP/1Q2R1RK/8 b - c3 0 1");
    assert_eq!(g.en_passant, 1u64 << 18);
    assert_eq!(g.color_to_move, 1);
}

#[test]
fn fen_standard_matches_parsed() {
    let keys = init_zobrist();
    let a = GameState::standard(&keys);
    let b = GameState::from_fen(&keys, "rnbqkbnr/pppppppp/8/8/8/8/PPPPPPPP/RNBQKBNR w KQkq - 0 1");
    assert_eq!(a.pieces, b.pieces);
    assert_eq!(a.hash, b.hash);
    assert_eq!(a.color_to_move, b.color_to_move);
}

#[test]
fn fen_malformed_records_are_refused() {
    let keys = init_zobrist();
    assert!(GameState::parse_fen(&keys, "8/8/8/8/8/8/8/8 w").is_none());
    assert!(GameState::parse_fen(&keys, "8/8/8/8/8/8/8 w - -").is_none());
    assert!(GameState::parse_fen(&keys, "8/8/8/8/8/8/8/7 w - -").is_none());
    assert!(GameState::parse_fen(&keys, "8/8/8/8/8/8/8/x7 w - -").is_none());
    assert!(GameState::parse_fen(&keys, "8/8/8/8/8/8/8/8 x - -").is_none());
    assert!(GameState::parse_fen(&keys, "8/8/8/8/8/8/8/8 w - z9").is_none());
    assert!(GameState::parse_fen(&keys, "8/8/8/8/8/8/8/8 w - - 0").is_none());
    assert!(GameState::parse_fen(&keys, "8/8/8/8/8/8/8/8 w - - a 1").is_none());
    assert!(GameState::parse_fen(&keys, "8/8/8/8/8/8/8/8 w - - 0 1").is_some());
    assert!(GameState::parse_fen(&keys, "8/8/8/8/8/8/8/8 w - - +3 12").is_some());
    assert_eq!(GameState::parse_fen(&keys, "8/8/8/8/8/8/8/8 w - - +3 12").unwrap().half_moves, 3);
}

#[test]
fn fen_piece_letters() {
    let keys = init_zobrist();
    let g = GameState::standard(&keys);
    assert_eq!(g.get_piece_on(0), "R");
    assert_eq!(g.get_piece_on(4), "K");
    assert_eq!(g.get_piece_on(60), "k");
    assert_eq!(g.get_piece_on(30), " ");
}

fn same_position(a: &GameState, b: &GameState) {
    assert_eq!(a.color_to_move, b.color_to_move);
    assert_eq!(a.pieces, b.pieces);
    assert_eq!(a.castle_white_kingside, b.castle_white_kingside);
    assert_eq!(a.castle_white_queenside, b.castle_white_queenside);
    assert_eq!(a.castle_black_kingside, b.castle_black_kingside);
    assert_eq!(a.castle_black_queenside, b.castle_black_queenside);
    assert_eq!(a.en_passant, b.en_passant);
    assert_eq!(a.half_moves, b.half_moves);
    assert_eq!(a.full_moves, b.full_moves);
    assert_eq!(a.hash, b.hash);
}

#[test]
fn fen_written_reads_back_as_the_same_position() {
    let keys = init_zobrist();
    let fens = [
        "rnbqkbnr/pppppppp/8/8/8/8/PPPPPPPP/RNBQKBNR w KQkq - 0 1",
        "r3k2r/p1ppqpb1/bn2pnp1/3PN3/1p2P3/2N2Q1p/PPPBBPPP/R3K2R w KQkq - 0 1",
        "3r4/6k1/pN1q2p1/Pp6/1PPpp3/4brPP/1Q2R1RK/8 b - c3 0 1",
        "rnbq1k1r/pp1Pbppp/2p5/8/2B5/8/PPP1NnPP/RNBQK2R w KQ - 1 8",
        "8/2p5/3p4/KP5r/1R3p1k/8/4P1P1/8 w - - 0 1",
    ];
    for fen in fens.iter() {
        let g = GameState::from_fen(&keys, fen);
        let back = GameState::parse_fen(&keys, &g.to_fen()).unwrap();
        same_position(&g, &back);
        // And after every move of the position, too.
        let mut list = MoveList::default();
        generate_moves(&g, false, &mut list);
        for mv in list.move_list.iter() {
            let next = make_move(&keys, &g, mv);
            let back = GameState::parse_fen(&keys, &next.to_fen()).unwrap();
            same_position(&next, &back);
        }
    }
}
