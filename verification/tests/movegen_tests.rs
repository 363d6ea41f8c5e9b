use fabchess::board_representation::game_state::{GameMove, GameMoveType, GameState, PieceType};
use fabchess::move_generation::attackers::{add_moves, attackers_from_black, attackers_from_white};
use fabchess::board_representation::zobrist_hashing::{init_zobrist, Zobrist};
use fabchess::move_generation::makemove::make_move;
use fabchess::move_generation::movegen::{generate_moves, MoveList};
use fabchess::move_generation::position_check::check_position;
use rand::Rng;

fn perft(keys: &Zobrist, g: &GameState, depth: usize) -> u64 {
    assert!(check_position(g));
    let mut movelist = MoveList::default();
    generate_moves(g, false, &mut movelist);
    if depth == 1 {
        return movelist.move_list.len() as u64;
    }
    let mut count = 0u64;
    for mv in movelist.move_list.iter() {
        let next = make_move(keys, g, mv);
        assert_eq!(next.hash, GameState::calculate_zobrist_hash(
            keys,
            next.color_to_move,
            next.pieces,
            next.castle_white_kingside,
            next.castle_white_queenside,
            next.castle_black_kingside,
            next.castle_black_queenside,
            next.en_passant,
        ));
        count += perft(keys, &next, depth - 1);
    }
    count
}

fn perft_of(fen: &str, depth: usize) -> u64 {
    let keys = init_zobrist();
    let g = GameState::from_fen(&keys, fen);
    perft(&keys, &g, depth)
}

#[test]
fn perft_start_position() {
    let fen = "rnbqkbnr/pppppppp/8/8/8/8/PPPPPPPP/RNBQKBNR w KQkq - 0 1";
    assert_eq!(perft_of(fen, 1), 20);
    assert_eq!(perft_of(fen, 2), 400);
    assert_eq!(perft_of(fen, 3), 8902);
}

#[test]
fn perft_tricky_positions_depth_one() {
    assert_eq!(perft_of("r6r/1b2k1bq/8/8/7B/8/8/R3K2R b QK - 3 2", 1), 8);
    assert_eq!(perft_of("8/8/8/2k5/2pP4/8/B7/4K3 b - d3 5 3", 1), 8);
    assert_eq!(perft_of("r1bqkbnr/pppppppp/n7/8/8/P7/1PPPPPPP/RNBQKBNR w QqKk - 2 2", 1), 19);
    assert_eq!(perft_of("r3k2r/p1pp1pb1/bn2Qnp1/2qPN3/1p2P3/2N5/PPPBBPPP/R3K2R b QqKk - 3 2", 1), 5);
    assert_eq!(perft_of("2kr3r/p1ppqpb1/bn2Qnp1/3PN3/1p2P3/2N5/PPPBBPPP/R3K2R b QK - 3 2", 1), 44);
    assert_eq!(perft_of("rnb2k1r/pp1Pbppp/2p5/q7/2B5/8/PPPQNnPP/RNB1K2R w QK - 3 9", 1), 39);
    assert_eq!(perft_of("2r5/3pk3/8/2P5/8/2K5/8/8 w - - 5 4", 1), 9);
    assert_eq!(perft_of("r3k2r/p1ppqpb1/bn2pnp1/3PN3/1p2P3/2N2Q1p/PPPBBPPP/R3K2R w KQkq -", 1), 48);
    assert_eq!(perft_of("8/2p5/3p4/KP5r/1R3p1k/8/4P1P1/8 w - -", 1), 14);
    assert_eq!(perft_of("r3k2r/Pppp1ppp/1b3nbN/nP6/BBP1P3/q4N2/Pp1P2PP/R2Q1RK1 w kq - 0 1", 1), 6);
    assert_eq!(perft_of("rnbq1k1r/pp1Pbppp/2p5/8/2B5/8/PPP1NnPP/RNBQK2R w KQ - 1 8", 1), 44);
    assert_eq!(perft_of("r4rk1/1pp1qppp/p1np1n2/2b1p1B1/2B1P1b1/P1NP1N2/1PP1QPPP/R4RK1 w - - 0 10", 1), 46);
    assert_eq!(perft_of("4rb1k/1p2qb2/1pp4p/8/2P1BR2/5N2/5r1P/Q5RK b - - 3 34", 1), 4);
    assert_eq!(perft_of("6R1/2p2r2/2PP4/2b5/2B3p1/6k1/5p2/4BK2 b - - 0 1", 1), 26);
    assert_eq!(perft_of("3r4/6k1/pN1q2p1/Pp6/1PPpp3/4brPP/1Q2R1RK/8 b - c3 0 1", 1), 48);
    assert_eq!(perft_of("NQbk2nr/1p1pp1bp/6p1/q3Pp2/3K4/8/PB4PP/R4B1R w - f6 0 24", 1), 30);
    assert_eq!(perft_of("8/4q3/6R1/4b3/4QpPk/5P2/8/6K1 b - g3 0 79", 1), 29);
}

#[test]
fn perft_tricky_positions_depth_two() {
    assert_eq!(perft_of("r3k2r/p1ppqpb1/bn2pnp1/3PN3/1p2P3/2N2Q1p/PPPBBPPP/R3K2R w KQkq -", 2), 2039);
    assert_eq!(perft_of("8/2p5/3p4/KP5r/1R3p1k/8/4P1P1/8 w - -", 2), 191);
    assert_eq!(perft_of("r3k2r/Pppp1ppp/1b3nbN/nP6/BBP1P3/q4N2/Pp1P2PP/R2Q1RK1 w kq - 0 1", 2), 264);
    assert_eq!(perft_of("r2q1rk1/pP1p2pp/Q4n2/bbp1p3/Np6/1B3NBn/pPPP1PPP/R3K2R b KQ - 0 1", 2), 264);
    assert_eq!(perft_of("rnbq1k1r/pp1Pbppp/2p5/8/2B5/8/PPP1NnPP/RNBQK2R w KQ - 1 8", 2), 1486);
    assert_eq!(perft_of("4rb1k/1p2qb2/1pp4p/8/2P1BR2/5N2/5r1P/Q5RK b - - 3 34", 2), 198);
    assert_eq!(perft_of("6R1/2p2r2/2PP4/2b5/2B3p1/6k1/5p2/4BK2 b - - 0 1", 2), 613);
    assert_eq!(perft_of("3r4/6k1/pN1q2p1/Pp6/1PPpp3/4brPP/1Q2R1RK/8 b - c3 0 1", 2), 1221);
    assert_eq!(perft_of("NQbk2nr/1p1pp1bp/6p1/q3Pp2/3K4/8/PB4PP/R4B1R w - f6 0 24", 2), 885);
    assert_eq!(perft_of("8/4q3/6R1/4b3/4QpPk/5P2/8/6K1 b - g3 0 79", 2), 865);
}

#[test]
fn check_is_seen() {
    let keys = init_zobrist();
    let g = GameState::from_fen(&keys, "4k3/8/8/8/8/8/8/4K2r w - - 0 1");
    let mut movelist = MoveList::default();
    let info = generate_moves(&g, false, &mut movelist);
    assert!(info.stm_incheck);
    assert!(info.stm_haslegalmove);
    let g = GameState::from_fen(&keys, "4k3/8/8/8/8/8/8/4K3 w - - 0 1");
    let info = generate_moves(&g, false, &mut movelist);
    assert!(!info.stm_incheck);
}

#[test]
fn mate_has_no_legal_move() {
    let keys = init_zobrist();
    let g = GameState::from_fen(&keys, "rnb1kbnr/pppp1ppp/8/4p3/6Pq/5P2/PPPPP2P/RNBQKBNR w KQkq - 1 3");
    let mut movelist = MoveList::default();
    let info = generate_moves(&g, false, &mut movelist);
    assert!(info.stm_incheck);
    assert!(!info.stm_haslegalmove);
    assert_eq!(movelist.move_list.len(), 0);
}

#[test]
fn only_captures_gives_captures() {
    let keys = init_zobrist();
    let g = GameState::from_fen(&keys, "r3k2r/p1ppqpb1/bn2pnp1/3PN3/1p2P3/2N2Q1p/PPPBBPPP/R3K2R w KQkq -");
    let mut movelist = MoveList::default();
    generate_moves(&g, true, &mut movelist);
    assert_eq!(movelist.move_list.len(), 8);
    for mv in movelist.move_list.iter() {
        let capture = match mv.move_type {
            GameMoveType::Capture(_) => true,
            GameMoveType::EnPassant => true,
            GameMoveType::Promotion(_, taken) => taken.is_some(),
            _ => false,
        };
        assert!(capture);
    }
}

#[test]
fn positions_are_checked() {
    let keys = init_zobrist();
    assert!(check_position(&GameState::standard(&keys)));
    // Two white kings.
    assert!(!check_position(&GameState::from_fen(&keys, "k7/8/8/8/8/8/8/K6K w - - 0 1")));
    // The side that has just moved left its king in check.
    assert!(!check_position(&GameState::from_fen(&keys, "k7/8/8/8/8/8/8/K6r b - - 0 1")));
    // Kings side by side.
    assert!(!check_position(&GameState::from_fen(&keys, "8/8/8/3kK3/8/8/8/8 w - - 0 1")));
    // A castle right without its rook.
    assert!(!check_position(&GameState::from_fen(&keys, "r3k2r/8/8/8/8/8/8/4K2R w KQkq - 0 1")));
    // An en-passant square with no pawn behind it.
    assert!(!check_position(&GameState::from_fen(&keys, "k7/8/8/8/8/8/8/K7 w - e6 0 1")));
    assert!(check_position(&GameState::from_fen(&keys, "k7/8/8/4p3/8/8/8/K7 w - e6 0 1")));
    // Two pieces on one square.
    let mut g = GameState::standard(&keys);
    g.pieces[1][0] |= 1u64 << 8;
    assert!(!check_position(&g));
    g = GameState::standard(&keys);
    g.color_to_move = 2;
    assert!(!check_position(&g));
}

#[test]
fn zobrist_hash_test() {
    // The hash kept up move by move equals the hash computed from scratch, along random
    // games.
    let keys = init_zobrist();
    let mut movelist = MoveList::default();
    let mut rng = rand::thread_rng();
    for _i in 0..10000 {
        let mut g = GameState::standard(&keys);
        for _j in 0..200 {
            assert_eq!(
                g.hash,
                GameState::calculate_zobrist_hash(
                    &keys,
                    g.color_to_move,
                    g.pieces,
                    g.castle_white_kingside,
                    g.castle_white_queenside,
                    g.castle_black_kingside,
                    g.castle_black_queenside,
                    g.en_passant,
                )
            );
            let agsi = generate_moves(&g, false, &mut movelist);
            if !agsi.stm_haslegalmove {
                break;
            }
            let n = movelist.move_list.len();
            g = make_move(&keys, &g, &movelist.move_list[rng.gen_range(0..n)]);
        }
    }
}

#[test]
fn pinned_pieces_move_along_the_pin() {
    let keys = init_zobrist();
    // The rook on e2 is pinned by the rook on e7: it moves along the file or takes.
    let g = GameState::from_fen(&keys, "4k3/4r3/8/8/8/8/4R3/4K3 w - - 0 1");
    let mut movelist = MoveList::default();
    let info = generate_moves(&g, false, &mut movelist);
    assert!(info.stm_haslegalmove);
    assert_eq!(movelist.move_list.len(), 9);
    let rook_moves: Vec<usize> = movelist.move_list.iter().filter(|mv| mv.from == 12).map(|mv| mv.to).collect();
    assert_eq!(rook_moves.len(), 5);
    for to in rook_moves.iter() {
        assert_eq!(to % 8, 4);
    }
    assert!(rook_moves.contains(&52));
    // The queen on d2 is pinned by the bishop on a5: it moves along the diagonal or takes.
    let g = GameState::from_fen(&keys, "4k3/8/8/b7/8/8/3Q4/4K3 w - - 0 1");
    let mut movelist = MoveList::default();
    generate_moves(&g, false, &mut movelist);
    let mut queen_moves: Vec<usize> = movelist.move_list.iter().filter(|mv| mv.from == 11).map(|mv| mv.to).collect();
    queen_moves.sort();
    assert_eq!(queen_moves, vec![18, 25, 32]);
    assert_eq!(movelist.move_list.len(), 7);
    // The pawn on d2 is pinned by the bishop on c3: it can only take it.
    let g = GameState::from_fen(&keys, "4k3/8/8/8/8/2b5/3P4/4K3 w - - 0 1");
    let mut movelist = MoveList::default();
    generate_moves(&g, false, &mut movelist);
    let pawn_moves: Vec<usize> = movelist.move_list.iter().filter(|mv| mv.from == 11).map(|mv| mv.to).collect();
    assert_eq!(pawn_moves, vec![18]);
    // With only captures asked for, the pinned rook only takes the pinner.
    let g = GameState::from_fen(&keys, "4k3/4r3/8/8/8/8/4R3/4K3 w - - 0 1");
    let mut movelist = MoveList::default();
    generate_moves(&g, true, &mut movelist);
    let rook_moves: Vec<usize> = movelist.move_list.iter().filter(|mv| mv.from == 12).map(|mv| mv.to).collect();
    assert_eq!(rook_moves, vec![52]);
}

#[test]
fn attackers_of_a_square() {
    // Start position, f3: the g1 knight and the e2 and g2 pawns.
    let all = 0xFFFF_0000_0000_FFFFu64;
    let res = attackers_from_white(1u64 << 21, 21, 0xFF00, 0x42, 0x2C, 0x89, all);
    assert_eq!(res, ((1u64 << 6) | (1u64 << 12) | (1u64 << 14), false, false));
    // A rook on a1 reaches a5 on an empty file.
    let res = attackers_from_white(1u64 << 32, 32, 0, 0, 0, 1, 1);
    assert_eq!(res, (1, true, false));
    // A bishop on c3 reaches e5.
    let res = attackers_from_white(1u64 << 36, 36, 0, 0, 1u64 << 18, 0, 1u64 << 18);
    assert_eq!(res, (1u64 << 18, true, true));
    // A black pawn on d6 attacks e5; a white pawn there would not.
    let res = attackers_from_black(1u64 << 36, 36, 1u64 << 43, 0, 0, 0, 1u64 << 43);
    assert_eq!(res, (1u64 << 43, false, false));
    let res = attackers_from_white(1u64 << 36, 36, 1u64 << 43, 0, 0, 0, 1u64 << 43);
    assert_eq!(res, (0, false, false));
}

#[test]
fn add_moves_appends_in_square_order() {
    let mut list = vec![GameMove { from: 12, to: 28, move_type: GameMoveType::Quiet, piece_type: PieceType::Pawn }];
    add_moves(&mut list, 1, (1u64 << 18) | (1u64 << 16), &PieceType::Knight, GameMoveType::Quiet);
    assert_eq!(list.len(), 3);
    assert_eq!(list[1], GameMove { from: 1, to: 16, move_type: GameMoveType::Quiet, piece_type: PieceType::Knight });
    assert_eq!(list[2], GameMove { from: 1, to: 18, move_type: GameMoveType::Quiet, piece_type: PieceType::Knight });
}

#[test]
fn listed_king_steps_leave_the_king_safe() {
    let keys = init_zobrist();
    for fen in [
        "8/8/8/2k5/2pP4/8/B7/4K3 b - d3 5 3",
        "r6r/1b2k1bq/8/8/7B/8/8/R3K2R b QK - 3 2",
        "8/4q3/6R1/4b3/4QpPk/5P2/8/6K1 b - g3 0 79",
    ] {
        let g = GameState::from_fen(&keys, fen);
        let mut list = MoveList::default();
        generate_moves(&g, false, &mut list);
        let mut steps = 0;
        for mv in list.move_list.iter() {
            if mv.piece_type == PieceType::King && mv.move_type != GameMoveType::Castle {
                steps += 1;
                assert!(check_position(&make_move(&keys, &g, mv)), "{} {:?}", fen, mv);
            }
        }
        assert!(steps > 0, "{}", fen);
    }
}
