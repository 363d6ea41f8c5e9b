use fabchess::board_representation::game_state::GameState;
use fabchess::board_representation::zobrist_hashing::init_zobrist;
use fabchess::evaluation::psqt_evaluation::{board_sum, PSQT_KNIGHT_EG, PSQT_KNIGHT_MG, PSQT_PAWN_EG, PSQT_PAWN_MG};

#[test]
fn hash_side_castle_and_en_passant_keys_xor_in() {
    let keys = init_zobrist();
    let g = GameState::standard(&keys);
    let p = g.pieces;
    let h = |c: usize, a: bool, b: bool, cc: bool, d: bool, ep: u64| {
        GameState::calculate_zobrist_hash(&keys, c, p, a, b, cc, d, ep)
    };
    assert_eq!(h(1, true, true, true, true, 0), h(0, true, true, true, true, 0) ^ keys.side_to_move);
    assert_eq!(h(0, true, false, true, false, 0), h(0, false, false, true, false, 0) ^ keys.castle_w_kingside);
    assert_eq!(h(1, true, true, false, true, 0), h(1, true, false, false, true, 0) ^ keys.castle_w_queenside);
    assert_eq!(h(0, false, false, true, false, 0), h(0, false, false, false, false, 0) ^ keys.castle_b_kingside);
    assert_eq!(h(0, false, false, false, true, 0), h(0, false, false, false, false, 0) ^ keys.castle_b_queenside);
    let ep = 1u64 << 20; // e3
    assert_eq!(h(1, true, true, true, true, ep), h(1, true, true, true, true, 0) ^ keys.en_passant[4]);
}

#[test]
fn hash_adding_a_piece_xors_its_key() {
    let keys = init_zobrist();
    let g = GameState::standard(&keys);
    let mut p = g.pieces;
    let before = GameState::calculate_zobrist_hash(&keys, 0, p, true, true, true, true, 0);
    p[0][0] |= 1u64 << 27; // a white pawn on d4
    let after = GameState::calculate_zobrist_hash(&keys, 0, p, true, true, true, true, 0);
    assert_eq!(after, before ^ keys.w_pawns[27]);
    p[1][1] |= 1u64 << 35; // a black knight on d5
    let again = GameState::calculate_zobrist_hash(&keys, 0, p, true, true, true, true, 0);
    assert_eq!(again, after ^ keys.b_knights[35]);
}

#[test]
fn black_is_scored_on_the_rotated_board() {
    let boards = [0x0000_0000_0000_FF00u64, 0x00FF_0000_0000_0000u64, 0x0000_0010_2400_0000u64, 0x8100_0000_0000_0042u64];
    for b in boards.iter() {
        let r = b.reverse_bits();
        assert_eq!(board_sum(*b, PSQT_PAWN_MG, PSQT_PAWN_EG, true), board_sum(r, PSQT_PAWN_MG, PSQT_PAWN_EG, false));
        assert_eq!(board_sum(*b, PSQT_KNIGHT_MG, PSQT_KNIGHT_EG, true), board_sum(r, PSQT_KNIGHT_MG, PSQT_KNIGHT_EG, false));
    }
}
