use fabchess::board_representation::game_state::GameState;
use fabchess::board_representation::game_state_attack_container::MutableGameStateAttackContainer;
use fabchess::board_representation::zobrist_hashing::init_zobrist;
use fabchess::bitboards::{
    file_fill, init_king_attacks, init_knight_attacks, initialize_files, initialize_ranks,
    king_attack, knight_attack, nort_fill, north_one, sout_fill, w_front_span,
};

#[test]
fn north_one_moves_up_a_rank() {
    assert_eq!(north_one(0xffu64), 0xff00u64);
    assert_eq!(north_one(0xff00_0000_0000_0000u64), 0);
}

#[test]
fn king_attack_from_corner() {
    // a1 king attacks b1, a2, b2
    assert_eq!(king_attack(1u64), 0x302u64);
    assert_eq!(init_king_attacks()[0], 0x302u64);
}

#[test]
fn knight_attack_from_b1() {
    // knight on b1 attacks a3, c3, d2
    assert_eq!(knight_attack(1u64 << 1), (1u64 << 16) | (1u64 << 18) | (1u64 << 11));
    assert_eq!(init_knight_attacks()[1], (1u64 << 16) | (1u64 << 18) | (1u64 << 11));
}

#[test]
fn files_and_ranks() {
    let files = initialize_files();
    let ranks = initialize_ranks();
    assert_eq!(files[0], 0x0101_0101_0101_0101u64);
    assert_eq!(files[7], 0x8080_8080_8080_8080u64);
    assert_eq!(ranks[0], 0xffu64);
    assert_eq!(ranks[7], 0xff00_0000_0000_0000u64);
}

#[test]
fn fills_and_spans() {
    let e4 = 1u64 << 28;
    assert_eq!(file_fill(e4), 0x1010_1010_1010_1010u64);
    assert_eq!(nort_fill(e4), 0x1010_1010_1000_0000u64);
    assert_eq!(sout_fill(e4), 0x0000_0000_1010_1010u64);
    assert_eq!(w_front_span(e4), 0x1010_1010_0000_0000u64);
}

#[test]
fn attack_container_writes_king_and_pawn_attacks() {
    let keys = init_zobrist();
    let g = GameState::standard(&keys);
    let mut c = MutableGameStateAttackContainer::default();
    assert_eq!(c.attack.len(), 4);
    assert_eq!(c.attack[0][1].len(), 10);
    assert_eq!(c.attack[3][0].len(), 9);
    c.write_state(&g);
    // e1: d1, f1, d2, e2, f2.
    assert_eq!(c.king_attacks[0], (1u64 << 3) | (1u64 << 5) | (1u64 << 11) | (1u64 << 12) | (1u64 << 13));
    // e8: d8, f8, d7, e7, f7.
    assert_eq!(c.king_attacks[1], (1u64 << 59) | (1u64 << 61) | (1u64 << 51) | (1u64 << 52) | (1u64 << 53));
    assert_eq!(c.pawn_attacks[0], 0x0000_0000_00ff_0000u64);
    assert_eq!(c.pawn_attacks[1], 0x0000_fefe_0000_0000u64);
    assert_eq!(c.knights, [0, 0]);
}
