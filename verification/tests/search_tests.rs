use fabchess::board_representation::game_state::{
    GameMove, GameMoveType, GameResult, GameState, PieceType,
};
use fabchess::board_representation::zobrist_hashing::init_zobrist;
use fabchess::search::alphabeta::{
    decrement_history_quiets, is_duplicate, mate_distance_pruning, prepare_futility_pruning,
    prepare_staged_movegen, update_quiet_cutoff,
};
use fabchess::search::quiescence::{
    adjust_standpat, attacks_to, best_move_value, capture_value, delta_pruning, is_capture,
    least_valuable_piece, piece_value, recalculate_sliders, see,
};
use fabchess::search::searcher::{Deepening, DeepeningAction, Search};
use fabchess::search::timecontrol::{TimeControl, TimeControlInformation};
use fabchess::search::{
    clear_pv, concatenate_pv, check_end_condition, check_for_draw, find_move as search_find_move, get_occurences, in_check,
    leaf_score, CombinedSearchParameters, PrincipalVariation, SearchInstruction, MATE_SCORE,
};
use fabchess::board_representation::game_state_attack_container::MutableGameStateAttackContainer;
use fabchess::move_generation::movegen::{generate_moves, MoveList};

fn see_of(fen: &str, from: usize, to: usize, move_type: GameMoveType, piece_type: PieceType) -> i16 {
    let keys = init_zobrist();
    let mut see_buffer = vec![0i16; 128];
    see(
        &GameState::from_fen(&keys, fen),
        &GameMove { from, to, move_type, piece_type },
        true,
        &mut see_buffer,
    )
}

#[test]
fn quiescence_see_test() {
    assert_eq!(
        see_of(
            "1k1r4/1pp4p/p7/4p3/8/P5P1/1PP4P/2K1R3 w - -",
            4,
            36,
            GameMoveType::Capture(PieceType::Pawn),
            PieceType::Rook
        ),
        100
    );
    assert_eq!(
        see_of(
            "1k2r3/1pp4p/p7/4p3/8/P5P1/1PP4P/2K1R3 w - -",
            4,
            36,
            GameMoveType::Capture(PieceType::Pawn),
            PieceType::Rook
        ),
        -400
    );
    assert_eq!(
        see_of(
            "1k1r3q/1ppn3p/p4b2/4p3/8/P2N2P1/1PP1R1BP/2K1Q3 w - -",
            19,
            36,
            GameMoveType::Capture(PieceType::Pawn),
            PieceType::Knight
        ),
        -200
    );
    assert_eq!(
        see_of(
            "1k1r3q/1ppn3p/p4b2/4n3/8/P2N2P1/1PP1R1BP/2K1Q3 w - -",
            19,
            36,
            GameMoveType::Capture(PieceType::Knight),
            PieceType::Knight
        ),
        0
    );
    assert_eq!(
        see_of(
            "1k1r2q1/1ppn3p/p4b2/4p3/8/P2N2P1/1PP1R1BP/2K1Q3 w - -",
            19,
            36,
            GameMoveType::Capture(PieceType::Pawn),
            PieceType::Knight
        ),
        -90
    );
    assert_eq!(
        see_of(
            "8/8/3p4/4r3/2RKP3/5k2/8/8 b - -",
            36,
            28,
            GameMoveType::Capture(PieceType::Pawn),
            PieceType::Rook
        ),
        100
    );
    assert_eq!(
        see_of(
            "k7/8/5q2/8/3r4/2KQ4/8/8 w - -",
            19,
            27,
            GameMoveType::Capture(PieceType::Rook),
            PieceType::Queen
        ),
        500
    );
    assert_eq!(
        see_of(
            "8/8/5q2/2k5/3r4/2KQ4/8/8 w - -",
            19,
            27,
            GameMoveType::Capture(PieceType::Rook),
            PieceType::Queen
        ),
        -400
    );
    assert_eq!(
        see_of(
            "4pq2/3P4/8/8/8/8/8/k1K5 w - -",
            51,
            60,
            GameMoveType::Promotion(PieceType::Queen, Some(PieceType::Pawn)),
            PieceType::Pawn
        ),
        0
    );
    assert_eq!(
        see_of(
            "4pq2/3P4/2B5/8/8/8/8/k1K5 w - -",
            51,
            60,
            GameMoveType::Promotion(PieceType::Queen, Some(PieceType::Pawn)),
            PieceType::Pawn
        ),
        100
    );
}

#[test]
fn see_without_exact_stops_early_on_a_losing_line() {
    let keys = init_zobrist();
    let g = GameState::from_fen(&keys, "1k2r3/1pp4p/p7/4p3/8/P5P1/1PP4P/2K1R3 w - -");
    let mv = GameMove {
        from: 4,
        to: 36,
        move_type: GameMoveType::Capture(PieceType::Pawn),
        piece_type: PieceType::Rook,
    };
    let mut buffer = vec![0i16; 100];
    let exact = see(&g, &mv, true, &mut buffer);
    let cut = see(&g, &mv, false, &mut buffer);
    assert_eq!(exact, -400);
    assert_eq!(cut, -400);
    assert_eq!(buffer.len(), 100);
}

#[test]
fn attacks_to_sees_both_sides() {
    let keys = init_zobrist();
    let g = GameState::from_fen(&keys, "1k1r4/1pp4p/p7/4p3/8/P5P1/1PP4P/2K1R3 w - -");
    let occ = g.get_all_pieces();
    // e5 (36) is attacked by the white rook on e1 and the black rook on d8 does not reach it.
    let att = attacks_to(&g, 36, occ);
    assert_eq!(att, 1u64 << 4);
    // d7 (51): the black rook on d8 and the king on b8 does not reach, c7 pawn does not.
    let att = attacks_to(&g, 51, occ);
    assert_eq!(att, 1u64 << 59);
    // b3 (17): the white pawn on c2, none else (b2 and a3 do not take there).
    let att = attacks_to(&g, 17, occ);
    assert_eq!(att, 1u64 << 10);
}

#[test]
fn recalculate_sliders_of_one_side() {
    let keys = init_zobrist();
    let g = GameState::from_fen(&keys, "k7/8/5q2/8/3r4/2KQ4/8/8 w - -");
    let occ = g.get_all_pieces();
    // d4 (27): the black queen on f6 reaches it on the diagonal; the white queen on d3 too.
    assert_eq!(recalculate_sliders(&g, 1, 27, occ), 1u64 << 45);
    assert_eq!(recalculate_sliders(&g, 0, 27, occ), 1u64 << 19);
}

#[test]
fn least_valuable_piece_picks_cheapest_kind() {
    let keys = init_zobrist();
    let g = GameState::from_fen(&keys, "1k1r3q/1ppn3p/p4b2/4p3/8/P2N2P1/1PP1R1BP/2K1Q3 w - -");
    let occ = g.get_all_pieces();
    let att = attacks_to(&g, 36, occ);
    // White attackers of e5: knight d3, rook e2 (blocked? no: e3, e4 empty), bishop g2? no.
    assert_eq!(least_valuable_piece(att, 0, &g), (1u64 << 19, 1));
    assert_eq!(least_valuable_piece(0, 0, &g), (0, 1000));
}

#[test]
fn piece_values_and_captures() {
    assert_eq!(piece_value(PieceType::Pawn), 100);
    assert_eq!(piece_value(PieceType::Knight), 300);
    assert_eq!(piece_value(PieceType::Bishop), 310);
    assert_eq!(piece_value(PieceType::Rook), 500);
    assert_eq!(piece_value(PieceType::Queen), 900);
    assert_eq!(piece_value(PieceType::King), 30000);
    let cap = GameMove {
        from: 0,
        to: 8,
        move_type: GameMoveType::Capture(PieceType::Rook),
        piece_type: PieceType::Queen,
    };
    assert!(is_capture(&cap));
    assert_eq!(capture_value(&cap), 500);
    let promo = GameMove {
        from: 51,
        to: 60,
        move_type: GameMoveType::Promotion(PieceType::Queen, Some(PieceType::Knight)),
        piece_type: PieceType::Pawn,
    };
    assert!(is_capture(&promo));
    assert_eq!(capture_value(&promo), 300);
    let quiet = GameMove { from: 8, to: 16, move_type: GameMoveType::Quiet, piece_type: PieceType::Pawn };
    assert!(!is_capture(&quiet));
    let ep = GameMove { from: 36, to: 43, move_type: GameMoveType::EnPassant, piece_type: PieceType::Pawn };
    assert!(is_capture(&ep));
    let push = GameMove {
        from: 51,
        to: 59,
        move_type: GameMoveType::Promotion(PieceType::Queen, None),
        piece_type: PieceType::Pawn,
    };
    assert!(!is_capture(&push));
}

#[test]
fn best_move_value_counts_promotions() {
    let keys = init_zobrist();
    let g = GameState::standard(&keys);
    assert_eq!(best_move_value(&g), 900);
    let g = GameState::from_fen(&keys, "k7/8/8/8/8/8/8/K7 w - -");
    assert_eq!(best_move_value(&g), 0);
    let g = GameState::from_fen(&keys, "k7/3P4/8/8/8/8/8/K6r w - -");
    assert_eq!(best_move_value(&g), 500 + 800);
    let g = GameState::from_fen(&keys, "k7/3P4/8/8/8/8/6p1/K6n b - -");
    assert_eq!(best_move_value(&g), 800);
}

#[test]
fn delta_pruning_and_stand_pat() {
    let keys = init_zobrist();
    let g = GameState::from_fen(&keys, "k7/8/8/8/8/8/8/K6r w - -");
    let p = CombinedSearchParameters::from(2000, 3000, 0, &g, 1, 3);
    // 2000 - 0 - 100 = 1900 > 500: no capture brings it back.
    assert_eq!(delta_pruning(&p, 0), SearchInstruction::StopSearching(0));
    assert_eq!(delta_pruning(&p, 1500), SearchInstruction::ContinueSearching);
    let mut p = CombinedSearchParameters::from(-50, 50, 0, &g, 1, 3);
    assert_eq!(adjust_standpat(&mut p, 60), SearchInstruction::StopSearching(60));
    assert_eq!(p.alpha, -50);
    assert_eq!(adjust_standpat(&mut p, 10), SearchInstruction::ContinueSearching);
    assert_eq!(p.alpha, 10);
    assert_eq!(adjust_standpat(&mut p, -20), SearchInstruction::ContinueSearching);
    assert_eq!(p.alpha, 10);
}

#[test]
fn leaf_scores_and_end_conditions() {
    assert_eq!(leaf_score(GameResult::Draw, 1, 5), 0);
    assert_eq!(leaf_score(GameResult::WhiteWin, 1, 5), MATE_SCORE - 5);
    assert_eq!(leaf_score(GameResult::WhiteWin, -1, 5), -(MATE_SCORE - 5));
    assert_eq!(leaf_score(GameResult::BlackWin, 1, 3), -(MATE_SCORE - 3));
    let keys = init_zobrist();
    let g = GameState::standard(&keys);
    assert_eq!(check_end_condition(&g, true, false), GameResult::Ingame);
    assert_eq!(check_end_condition(&g, false, false), GameResult::Draw);
    assert_eq!(check_end_condition(&g, false, true), GameResult::BlackWin);
    let b = GameState::from_fen(&keys, "k7/8/8/8/8/8/8/K7 b - -");
    assert_eq!(check_end_condition(&b, false, true), GameResult::WhiteWin);
}

#[test]
fn duplicates_and_principal_variation() {
    let a = GameMove { from: 12, to: 28, move_type: GameMoveType::Quiet, piece_type: PieceType::Pawn };
    let b = GameMove { from: 6, to: 21, move_type: GameMoveType::Quiet, piece_type: PieceType::Knight };
    assert_eq!(is_duplicate(&a, &Some(a), &None), SearchInstruction::SkipMove);
    assert_eq!(is_duplicate(&a, &None, &Some(a)), SearchInstruction::SkipMove);
    assert_eq!(is_duplicate(&a, &Some(b), &Some(b)), SearchInstruction::ContinueSearching);
    assert_eq!(is_duplicate(&a, &None, &None), SearchInstruction::ContinueSearching);
    let pv = PrincipalVariation::new(4);
    assert_eq!(pv.pv.len(), 5);
    assert!(pv.pv.iter().all(|m| m.is_none()));
}

#[test]
fn mate_distance_pruning_narrows_the_window() {
    let keys = init_zobrist();
    let g = GameState::standard(&keys);
    let mut p = CombinedSearchParameters::from(14990, 15000, 4, &g, 1, 10);
    assert_eq!(mate_distance_pruning(&mut p), SearchInstruction::StopSearching(14990));
    assert_eq!(p.beta, 14989);
    let mut p = CombinedSearchParameters::from(-15000, 100, 4, &g, 1, 10);
    assert_eq!(mate_distance_pruning(&mut p), SearchInstruction::ContinueSearching);
    assert_eq!((p.alpha, p.beta), (-14990, 100));
}

#[test]
fn futility_margin_grows_with_depth() {
    let keys = init_zobrist();
    let g = GameState::standard(&keys);
    let p = CombinedSearchParameters::from(-100, 100, 3, &g, -1, 2);
    assert_eq!(prepare_futility_pruning(&p, Some(50)), -50 + 3 * 90);
    let p = CombinedSearchParameters::from(-100, 100, 7, &g, 1, 2);
    assert_eq!(prepare_futility_pruning(&p, None), MATE_SCORE);
    let p = CombinedSearchParameters::from(-100, 100, 3, &g, 1, 0);
    assert_eq!(prepare_futility_pruning(&p, None), MATE_SCORE);
}

#[test]
fn draws_by_material_rule_and_repetition() {
    let keys = init_zobrist();
    let g = GameState::from_fen(&keys, "k7/8/8/8/8/8/8/KN6 w - - 0 1");
    assert_eq!(check_for_draw(&g, 0), SearchInstruction::StopSearching(0));
    let g = GameState::from_fen(&keys, "k7/8/8/8/8/8/8/KNN5 w - - 0 1");
    assert_eq!(check_for_draw(&g, 0), SearchInstruction::ContinueSearching);
    assert_eq!(check_for_draw(&g, 2), SearchInstruction::StopSearching(0));
    let g = GameState::from_fen(&keys, "k7/p7/8/8/8/8/8/K7 w - - 100 80");
    assert_eq!(check_for_draw(&g, 0), SearchInstruction::StopSearching(0));
    let g = GameState::from_fen(&keys, "k7/p7/8/8/8/8/8/K7 w - - 99 80");
    assert_eq!(check_for_draw(&g, 0), SearchInstruction::ContinueSearching);
}

#[test]
fn occurrences_and_checks() {
    let keys = init_zobrist();
    let start = GameState::standard(&keys);
    let other = GameState::from_fen(&keys, "k7/8/8/8/8/8/8/K6r w - - 0 1");
    let history = vec![start, other, start];
    assert_eq!(get_occurences(&history, &start), 2);
    assert_eq!(get_occurences(&history, &other), 1);
    assert_eq!(get_occurences(&history[..1], &other), 0);
    let mut container = MutableGameStateAttackContainer::default();
    container.write_state(&other);
    assert!(!in_check(&other, &container));
    container.attacks_sum[1] = 1u64;
    assert!(in_check(&other, &container));
    assert!(!in_check(&start, &container));
}

#[test]
fn find_a_move_in_the_list() {
    let keys = init_zobrist();
    let g = GameState::standard(&keys);
    let mut list = MoveList::default();
    generate_moves(&g, false, &mut list);
    let e4 = GameMove { from: 12, to: 28, move_type: GameMoveType::Quiet, piece_type: PieceType::Pawn };
    let i = search_find_move(&e4, &list, true);
    assert_eq!((list.move_list[i].from, list.move_list[i].to), (12, 28));
    let nowhere = GameMove { from: 12, to: 36, move_type: GameMoveType::Quiet, piece_type: PieceType::Pawn };
    assert_eq!(search_find_move(&nowhere, &list, false), list.move_list.len());
}

#[test]
fn quiesence_see_test() {
    assert_eq!(
        see_of(
            "1k1r4/1pp4p/p7/4p3/8/P5P1/1PP4P/2K1R3 w - -",
            4,
            36,
            GameMoveType::Capture(PieceType::Pawn),
            PieceType::Rook
        ),
        100
    );
    assert_eq!(
        see_of(
            "1k2r3/1pp4p/p7/4p3/8/P5P1/1PP4P/2K1R3 w - -",
            4,
            36,
            GameMoveType::Capture(PieceType::Pawn),
            PieceType::Rook
        ),
        -400
    );
    assert_eq!(
        see_of(
            "1k1r3q/1ppn3p/p4b2/4p3/8/P2N2P1/1PP1R1BP/2K1Q3 w - -",
            19,
            36,
            GameMoveType::Capture(PieceType::Pawn),
            PieceType::Knight
        ),
        -200
    );
    assert_eq!(
        see_of(
            "1k1r3q/1ppn3p/p4b2/4n3/8/P2N2P1/1PP1R1BP/2K1Q3 w - -",
            19,
            36,
            GameMoveType::Capture(PieceType::Knight),
            PieceType::Knight
        ),
        0
    );
    assert_eq!(
        see_of(
            "1k1r2q1/1ppn3p/p4b2/4p3/8/P2N2P1/1PP1R1BP/2K1Q3 w - -",
            19,
            36,
            GameMoveType::Capture(PieceType::Pawn),
            PieceType::Knight
        ),
        -90
    );
    assert_eq!(
        see_of(
            "8/8/3p4/4r3/2RKP3/5k2/8/8 b - -",
            36,
            28,
            GameMoveType::Capture(PieceType::Pawn),
            PieceType::Rook
        ),
        100
    );
    assert_eq!(
        see_of(
            "k7/8/5q2/8/3r4/2KQ4/8/8 w - -",
            19,
            27,
            GameMoveType::Capture(PieceType::Rook),
            PieceType::Queen
        ),
        500
    );
    assert_eq!(
        see_of(
            "8/8/5q2/2k5/3r4/2KQ4/8/8 w - -",
            19,
            27,
            GameMoveType::Capture(PieceType::Rook),
            PieceType::Queen
        ),
        -400
    );
    assert_eq!(
        see_of(
            "4pq2/3P4/8/8/8/8/8/k1K5 w - -",
            51,
            60,
            GameMoveType::Promotion(PieceType::Queen, Some(PieceType::Pawn)),
            PieceType::Pawn
        ),
        0
    );
    assert_eq!(
        see_of(
            "4pq2/3P4/2B5/8/8/8/8/k1K5 w - -",
            51,
            60,
            GameMoveType::Promotion(PieceType::Queen, Some(PieceType::Pawn)),
            PieceType::Pawn
        ),
        100
    );
}

#[test]
fn lines_are_joined_and_cleared() {
    let mv = |from: usize, to: usize| GameMove {
        from,
        to,
        move_type: GameMoveType::Quiet,
        piece_type: PieceType::Knight,
    };
    let mut search = Search::new(TimeControl::Infinite, TimeControlInformation::new(0));
    assert_eq!(search.pv_table.len(), 100);
    assert_eq!(search.pv_table[0].pv.len(), 101);
    assert_eq!(search.pv_table[99].pv.len(), 2);
    assert!(search.killer_moves[5][1].is_none() && search.bf_score[1][3][4] == 1);
    search.pv_table[1].pv[0] = Some(mv(1, 18));
    search.pv_table[1].pv[1] = Some(mv(62, 45));
    for (i, m) in [mv(6, 21), mv(57, 42), mv(21, 36), mv(42, 27)].iter().enumerate() {
        search.pv_table[0].pv[i] = Some(*m);
    }
    concatenate_pv(0, &mut search);
    assert_eq!(search.pv_table[0].pv[0], Some(mv(6, 21)));
    assert_eq!(search.pv_table[0].pv[1], Some(mv(1, 18)));
    assert_eq!(search.pv_table[0].pv[2], Some(mv(62, 45)));
    assert_eq!(search.pv_table[0].pv[3], None);
    assert_eq!(search.pv_table[1].pv[1], Some(mv(62, 45)));
    clear_pv(1, &mut search);
    assert!(search.pv_table[1].pv.iter().all(|m| m.is_none()));
    assert_eq!(search.pv_table[0].pv[2], Some(mv(62, 45)));
}

#[test]
fn quiet_cutoffs_update_history_and_killers() {
    let keys = init_zobrist();
    let g = GameState::standard(&keys);
    let mv = |from: usize, to: usize| GameMove {
        from,
        to,
        move_type: GameMoveType::Quiet,
        piece_type: PieceType::Knight,
    };
    let mut search = Search::new(TimeControl::Infinite, TimeControlInformation::new(0));
    search.quiets_tried[2][0] = Some(mv(1, 16));
    search.quiets_tried[2][1] = Some(mv(6, 23));
    let p = CombinedSearchParameters::from(-100, 100, 3, &g, 1, 2);
    update_quiet_cutoff(&p, &mut search, &mv(1, 18), 2);
    assert_eq!(search.hh_score[0][1][18], 9);
    assert_eq!(search.history_score[0][1][18], 9);
    assert_eq!(search.history_score[0][1][16], -9);
    assert_eq!(search.history_score[0][6][23], -9);
    assert_eq!(search.history_score[1][1][16], 0);
    assert_eq!(search.killer_moves[2], [Some(mv(1, 18)), None]);
    update_quiet_cutoff(&p, &mut search, &mv(6, 21), 0);
    assert_eq!(search.killer_moves[2], [Some(mv(6, 21)), Some(mv(1, 18))]);
    update_quiet_cutoff(&p, &mut search, &mv(1, 18), 0);
    assert_eq!(search.killer_moves[2], [Some(mv(6, 21)), Some(mv(1, 18))]);
    assert_eq!(search.hh_score[0][1][18], 18);
    decrement_history_quiets(&mut search, 2, 1, 2, 1);
    assert_eq!(search.history_score[1][1][16], -4);
    assert_eq!(search.history_score[0][1][16], -9);
}

#[test]
fn moves_tried_before_the_generated_ones() {
    let keys = init_zobrist();
    let g = GameState::standard(&keys);
    let a = GameMove { from: 12, to: 28, move_type: GameMoveType::Quiet, piece_type: PieceType::Pawn };
    let b = GameMove { from: 6, to: 21, move_type: GameMoveType::Quiet, piece_type: PieceType::Knight };
    let mut list = MoveList::default();
    generate_moves(&g, false, &mut list);
    assert_eq!(prepare_staged_movegen(&mut list, true, &Some(a), &Some(a)), 1);
    assert_eq!(list.move_list.len(), 20);
    assert_eq!(prepare_staged_movegen(&mut list, true, &Some(a), &Some(b)), 2);
    assert_eq!(prepare_staged_movegen(&mut list, true, &None, &Some(b)), 1);
    assert_eq!(prepare_staged_movegen(&mut list, false, &None, &None), 0);
    assert!(list.move_list.is_empty());
}

#[test]
fn see_with_a_short_buffer() {
    let keys = init_zobrist();
    let mut see_buffer = vec![0i16; 32];
    let g = GameState::from_fen(&keys, "1k2r3/1pp4p/p7/4p3/8/P5P1/1PP4P/2K1R3 w - -");
    let mv = GameMove {
        from: 4,
        to: 36,
        move_type: GameMoveType::Capture(PieceType::Pawn),
        piece_type: PieceType::Rook,
    };
    assert_eq!(see(&g, &mv, true, &mut see_buffer), -400);
    assert_eq!(see_buffer.len(), 32);
}

#[test]
fn deepening_widens_then_deepens() {
    let (none, act) = Deepening::start(0);
    assert_eq!(act, DeepeningAction::Finish { score: -32767 });
    assert_eq!(none.target_depth, 0);

    let (st, act) = Deepening::start(3);
    assert_eq!(act, DeepeningAction::SearchRoot { depth: 1, alpha: -16000, beta: 16000 });
    let (st, act) = st.step(35, false);
    assert_eq!(act, DeepeningAction::SearchRoot { depth: 2, alpha: 15, beta: 55 });
    assert_eq!(st.best_score, 35);
    // Fails low: alpha moves out by 20, the growth becomes 30.
    let (st, act) = st.step(10, false);
    assert_eq!(act, DeepeningAction::SearchRoot { depth: 2, alpha: -5, beta: 55 });
    assert_eq!(st.delta, 30);
    // Fails high: beta moves out by 30, the growth becomes 45.
    let (st, act) = st.step(70, false);
    assert_eq!(act, DeepeningAction::SearchRoot { depth: 2, alpha: -5, beta: 85 });
    assert_eq!(st.delta, 45);
    let (st, act) = st.step(60, false);
    assert_eq!(act, DeepeningAction::SearchRoot { depth: 3, alpha: 40, beta: 80 });
    let (_, act) = st.step(-3000, true);
    assert_eq!(act, DeepeningAction::Finish { score: 60 });
    let (_, act) = st.step(50, false);
    assert_eq!(act, DeepeningAction::Finish { score: 50 });
}

#[test]
fn deepening_opens_the_window_beyond_ten_thousand() {
    let st = Deepening { target_depth: 5, depth: 4, alpha: -10500, beta: 10200, delta: 40, best_score: 0 };
    let (next, act) = st.step(-14000, false);
    assert_eq!(act, DeepeningAction::SearchRoot { depth: 4, alpha: -16000, beta: 10200 });
    assert_eq!(next.delta, 60);
    let (_, act) = st.step(14000, false);
    assert_eq!(act, DeepeningAction::SearchRoot { depth: 4, alpha: -10500, beta: 16000 });
}
