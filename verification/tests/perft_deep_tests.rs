use fabchess::board_representation::game_state::GameState;
use fabchess::board_representation::zobrist_hashing::init_zobrist;
use fabchess::{perft, perft_div};

fn perft_deep(fen: &str, depth: usize) -> u64 {
    let keys = init_zobrist();
    let g = GameState::from_fen(&keys, fen);
    perft(&keys, &g, depth).unwrap()
}

#[test]
fn perft_start_position_depth_four() {
    assert_eq!(perft_deep("rnbqkbnr/pppppppp/8/8/8/8/PPPPPPPP/RNBQKBNR w KQkq - 0 1", 4), 197_281);
}

#[test]
fn perft_promotion_position_depth_three() {
    assert_eq!(perft_deep("rnbq1k1r/pp1Pbppp/2p5/8/2B5/8/PPP1NnPP/RNBQK2R w KQ - 1 8", 3), 62379);
}

#[test]
fn perft_middlegame_position_depth_three() {
    assert_eq!(perft_deep("r4rk1/1pp1qppp/p1np1n2/2b1p1B1/2B1P1b1/P1NP1N2/1PP1QPPP/R4RK1 w - - 0 10", 3), 89890);
}

#[test]
fn perft_kiwipete_depth_three() {
    assert_eq!(perft_deep("r3k2r/p1ppqpb1/bn2pnp1/3PN3/1p2P3/2N2Q1p/PPPBBPPP/R3K2R w KQkq -", 3), 97862);
}

#[test]
fn perft_rook_endgame_depths_four_and_five() {
    assert_eq!(perft_deep("8/2p5/3p4/KP5r/1R3p1k/8/4P1P1/8 w - -", 3), 2812);
    assert_eq!(perft_deep("8/2p5/3p4/KP5r/1R3p1k/8/4P1P1/8 w - -", 4), 43238);
    assert_eq!(perft_deep("8/2p5/3p4/KP5r/1R3p1k/8/4P1P1/8 w - -", 5), 674_624);
}

#[test]
fn perft_mirrored_positions_depth_three() {
    assert_eq!(perft_deep("r3k2r/Pppp1ppp/1b3nbN/nP6/BBP1P3/q4N2/Pp1P2PP/R2Q1RK1 w kq - 0 1", 3), 9467);
    assert_eq!(perft_deep("r2q1rk1/pP1p2pp/Q4n2/bbp1p3/Np6/1B3NBn/pPPP1PPP/R3K2R b KQ - 0 1", 3), 9467);
}

#[test]
fn perft_mirrored_positions_depth_four() {
    assert_eq!(perft_deep("r3k2r/Pppp1ppp/1b3nbN/nP6/BBP1P3/q4N2/Pp1P2PP/R2Q1RK1 w kq - 0 1", 4), 422_333);
}

#[test]
fn perft_hall_of_fame_depth_three() {
    assert_eq!(perft_deep("4rb1k/1p2qb2/1pp4p/8/2P1BR2/5N2/5r1P/Q5RK b - - 3 34", 3), 7605);
}

#[test]
fn perft_small_endgames_deep() {
    assert_eq!(perft_deep("8/8/2k5/5q2/5n2/8/5K2/8 b - - 0 1", 4), 23527);
    assert_eq!(perft_deep("K1k5/8/P7/8/8/8/8/8 w - - 0 1", 6), 2217);
    assert_eq!(perft_deep("8/P1k5/K7/8/8/8/8/8 w - - 0 1", 6), 92683);
}

#[test]
fn perft_promotion_endgame_depth_six() {
    assert_eq!(perft_deep("4k3/1P6/8/8/8/8/K7/8 w - - 0 1", 6), 217_342);
}

#[test]
fn perft_castling_endgames_depth_six() {
    assert_eq!(perft_deep("5k2/8/8/8/8/8/8/4K2R w K - 0 1", 6), 661_072);
    assert_eq!(perft_deep("3k4/8/8/8/8/8/8/R3K3 w Q - 0 1", 6), 803_711);
}

#[test]
fn perft_discovered_check_depth_six() {
    assert_eq!(perft_deep("3k4/3p4/8/K1P4r/8/8/8/8 b - - 0 1", 6), 1_134_888);
}

#[test]
fn perft_start_position_depth_five() {
    assert_eq!(perft_deep("rnbqkbnr/pppppppp/8/8/8/8/PPPPPPPP/RNBQKBNR w KQkq - 0 1", 5), 4_865_609);
}

#[test]
fn perft_kiwipete_depth_four() {
    assert_eq!(perft_deep("r3k2r/p1ppqpb1/bn2pnp1/3PN3/1p2P3/2N2Q1p/PPPBBPPP/R3K2R w KQkq -", 4), 4_085_603);
}

#[test]
fn perft_promotion_position_depth_four() {
    assert_eq!(perft_deep("rnbq1k1r/pp1Pbppp/2p5/8/2B5/8/PPP1NnPP/RNBQK2R w KQ - 1 8", 4), 2_103_487);
}

#[test]
fn perft_middlegame_position_depth_four() {
    assert_eq!(perft_deep("r4rk1/1pp1qppp/p1np1n2/2b1p1B1/2B1P1b1/P1NP1N2/1PP1QPPP/R4RK1 w - - 0 10", 4), 3_894_594);
}

#[test]
fn perft_mirrored_black_position_depth_four() {
    assert_eq!(perft_deep("r2q1rk1/pP1p2pp/Q4n2/bbp1p3/Np6/1B3NBn/pPPP1PPP/R3K2R b KQ - 0 1", 4), 422_333);
}

#[test]
fn perft_avoid_illegal_en_passant_depth_six() {
    assert_eq!(perft_deep("8/8/4k3/8/2p5/8/B2P2K1/8 w - - 0 1", 6), 1_015_133);
    assert_eq!(perft_deep("8/8/1k6/2b5/2pP4/8/5K2/8 b - d3 0 1", 6), 1_440_467);
}

#[test]
fn perft_castling_rights_depth_four() {
    assert_eq!(perft_deep("r3k2r/1b4bq/8/8/8/8/7B/R3K2R w KQkq - 0 1", 4), 1_274_206);
    assert_eq!(perft_deep("r3k2r/8/3Q4/8/8/5q2/8/R3K2R b KQkq - 0 1", 4), 1_720_476);
}

#[test]
fn perft_promotion_out_of_check_depth_six() {
    assert_eq!(perft_deep("2K2r2/4P3/8/8/8/8/8/3k4 w - - 0 1", 6), 3_821_001);
}

#[test]
fn perft_discovered_knight_check_depth_five() {
    assert_eq!(perft_deep("8/8/1P2K3/8/2n5/1q6/8/5k2 b - - 0 1", 5), 1_004_658);
}

#[test]
fn perft_underpromotion_depth_seven() {
    assert_eq!(perft_deep("8/k1P5/8/1K6/8/8/8/8 w - - 0 1", 7), 567_584);
}

#[test]
fn perft_test() {
    let cases: [(u64, usize, &str); 46] = [
        (20, 1, "rnbqkbnr/pppppppp/8/8/8/8/PPPPPPPP/RNBQKBNR w KQkq - 0 1"),
        (400, 2, "rnbqkbnr/pppppppp/8/8/8/8/PPPPPPPP/RNBQKBNR w KQkq - 0 1"),
        (8902, 3, "rnbqkbnr/pppppppp/8/8/8/8/PPPPPPPP/RNBQKBNR w KQkq - 0 1"),
        (197_281, 4, "rnbqkbnr/pppppppp/8/8/8/8/PPPPPPPP/RNBQKBNR w KQkq - 0 1"),
        (8, 1, "r6r/1b2k1bq/8/8/7B/8/8/R3K2R b QK - 3 2"),
        (8, 1, "8/8/8/2k5/2pP4/8/B7/4K3 b - d3 5 3"),
        (19, 1, "r1bqkbnr/pppppppp/n7/8/8/P7/1PPPPPPP/RNBQKBNR w QqKk - 2 2"),
        (5, 1, "r3k2r/p1pp1pb1/bn2Qnp1/2qPN3/1p2P3/2N5/PPPBBPPP/R3K2R b QqKk - 3 2"),
        (44, 1, "2kr3r/p1ppqpb1/bn2Qnp1/3PN3/1p2P3/2N5/PPPBBPPP/R3K2R b QK - 3 2"),
        (39, 1, "rnb2k1r/pp1Pbppp/2p5/q7/2B5/8/PPPQNnPP/RNB1K2R w QK - 3 9"),
        (9, 1, "2r5/3pk3/8/2P5/8/2K5/8/8 w - - 5 4"),
        (62379, 3, "rnbq1k1r/pp1Pbppp/2p5/8/2B5/8/PPP1NnPP/RNBQK2R w KQ - 1 8"),
        (89890, 3, "r4rk1/1pp1qppp/p1np1n2/2b1p1B1/2B1P1b1/P1NP1N2/1PP1QPPP/R4RK1 w - - 0 10"),
        (23527, 4, "8/8/2k5/5q2/5n2/8/5K2/8 b - - 0 1"),
        (48, 1, "r3k2r/p1ppqpb1/bn2pnp1/3PN3/1p2P3/2N2Q1p/PPPBBPPP/R3K2R w KQkq -"),
        (2039, 2, "r3k2r/p1ppqpb1/bn2pnp1/3PN3/1p2P3/2N2Q1p/PPPBBPPP/R3K2R w KQkq -"),
        (97862, 3, "r3k2r/p1ppqpb1/bn2pnp1/3PN3/1p2P3/2N2Q1p/PPPBBPPP/R3K2R w KQkq -"),
        (14, 1, "8/2p5/3p4/KP5r/1R3p1k/8/4P1P1/8 w - -"),
        (191, 2, "8/2p5/3p4/KP5r/1R3p1k/8/4P1P1/8 w - -"),
        (2812, 3, "8/2p5/3p4/KP5r/1R3p1k/8/4P1P1/8 w - -"),
        (43238, 4, "8/2p5/3p4/KP5r/1R3p1k/8/4P1P1/8 w - -"),
        (6, 1, "r3k2r/Pppp1ppp/1b3nbN/nP6/BBP1P3/q4N2/Pp1P2PP/R2Q1RK1 w kq - 0 1"),
        (264, 2, "r3k2r/Pppp1ppp/1b3nbN/nP6/BBP1P3/q4N2/Pp1P2PP/R2Q1RK1 w kq - 0 1"),
        (9467, 3, "r3k2r/Pppp1ppp/1b3nbN/nP6/BBP1P3/q4N2/Pp1P2PP/R2Q1RK1 w kq - 0 1"),
        (6, 1, "r2q1rk1/pP1p2pp/Q4n2/bbp1p3/Np6/1B3NBn/pPPP1PPP/R3K2R b KQ - 0 1"),
        (264, 2, "r2q1rk1/pP1p2pp/Q4n2/bbp1p3/Np6/1B3NBn/pPPP1PPP/R3K2R b KQ - 0 1"),
        (9467, 3, "r2q1rk1/pP1p2pp/Q4n2/bbp1p3/Np6/1B3NBn/pPPP1PPP/R3K2R b KQ - 0 1"),
        (44, 1, "rnbq1k1r/pp1Pbppp/2p5/8/2B5/8/PPP1NnPP/RNBQK2R w KQ - 1 8"),
        (1486, 2, "rnbq1k1r/pp1Pbppp/2p5/8/2B5/8/PPP1NnPP/RNBQK2R w KQ - 1 8"),
        (46, 1, "r4rk1/1pp1qppp/p1np1n2/2b1p1B1/2B1P1b1/P1NP1N2/1PP1QPPP/R4RK1 w - - 0 10"),
        (2079, 2, "r4rk1/1pp1qppp/p1np1n2/2b1p1B1/2B1P1b1/P1NP1N2/1PP1QPPP/R4RK1 w - - 0 10"),
        (4, 1, "4rb1k/1p2qb2/1pp4p/8/2P1BR2/5N2/5r1P/Q5RK b - - 3 34"),
        (198, 2, "4rb1k/1p2qb2/1pp4p/8/2P1BR2/5N2/5r1P/Q5RK b - - 3 34"),
        (7605, 3, "4rb1k/1p2qb2/1pp4p/8/2P1BR2/5N2/5r1P/Q5RK b - - 3 34"),
        (26, 1, "6R1/2p2r2/2PP4/2b5/2B3p1/6k1/5p2/4BK2 b - - 0 1"),
        (613, 2, "6R1/2p2r2/2PP4/2b5/2B3p1/6k1/5p2/4BK2 b - - 0 1"),
        (14277, 3, "6R1/2p2r2/2PP4/2b5/2B3p1/6k1/5p2/4BK2 b - - 0 1"),
        (48, 1, "3r4/6k1/pN1q2p1/Pp6/1PPpp3/4brPP/1Q2R1RK/8 b - c3 0 1"),
        (1221, 2, "3r4/6k1/pN1q2p1/Pp6/1PPpp3/4brPP/1Q2R1RK/8 b - c3 0 1"),
        (54983, 3, "3r4/6k1/pN1q2p1/Pp6/1PPpp3/4brPP/1Q2R1RK/8 b - c3 0 1"),
        (30, 1, "NQbk2nr/1p1pp1bp/6p1/q3Pp2/3K4/8/PB4PP/R4B1R w - f6 0 24"),
        (885, 2, "NQbk2nr/1p1pp1bp/6p1/q3Pp2/3K4/8/PB4PP/R4B1R w - f6 0 24"),
        (21360, 3, "NQbk2nr/1p1pp1bp/6p1/q3Pp2/3K4/8/PB4PP/R4B1R w - f6 0 24"),
        (29, 1, "8/4q3/6R1/4b3/4QpPk/5P2/8/6K1 b - g3 0 79"),
        (865, 2, "8/4q3/6R1/4b3/4QpPk/5P2/8/6K1 b - g3 0 79"),
        (22609, 3, "8/4q3/6R1/4b3/4QpPk/5P2/8/6K1 b - g3 0 79"),
    ];
    for case in cases.iter() {
        assert_eq!(case.0, perft_deep(case.2, case.1), "{}", case.2);
    }
}

#[test]
fn perft_pinned_positions_depth_four() {
    assert_eq!(perft_deep("4rb1k/1p2qb2/1pp4p/8/2P1BR2/5N2/5r1P/Q5RK b - - 3 34", 4), 346_440);
    assert_eq!(perft_deep("6R1/2p2r2/2PP4/2b5/2B3p1/6k1/5p2/4BK2 b - - 0 1", 4), 345_436);
    assert_eq!(perft_deep("NQbk2nr/1p1pp1bp/6p1/q3Pp2/3K4/8/PB4PP/R4B1R w - f6 0 24", 4), 601_693);
    assert_eq!(perft_deep("8/4q3/6R1/4b3/4QpPk/5P2/8/6K1 b - g3 0 79", 4), 685_012);
}

#[test]
fn perft_pinned_en_passant_depth_four() {
    assert_eq!(perft_deep("3r4/6k1/pN1q2p1/Pp6/1PPpp3/4brPP/1Q2R1RK/8 b - c3 0 1", 4), 1_520_218);
}

#[test]
fn perft_of_depth_zero_is_one() {
    let keys = init_zobrist();
    let g = GameState::from_fen(&keys, "8/8/8/2k5/2pP4/8/B7/4K3 b - d3 5 3");
    assert_eq!(perft(&keys, &g, 0), Some(1));
}

#[test]
fn perft_div_splits_the_count() {
    let keys = init_zobrist();
    let g = GameState::from_fen(&keys, "rnbqkbnr/pppppppp/8/8/8/8/PPPPPPPP/RNBQKBNR w KQkq - 0 1");
    let split = perft_div(&keys, &g, 3).unwrap();
    assert_eq!(split.len(), 20);
    assert_eq!(split.iter().map(|p| p.1).sum::<u64>(), 8902);
    for (_, c) in split.iter() {
        assert!(*c >= 380 && *c <= 600);
    }
}
