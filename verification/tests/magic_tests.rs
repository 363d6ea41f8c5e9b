use fabchess::move_generation::magic::{
    bishop_attacks_slow, blockers_to_bitboard, generate_magic_for_square, init_magics,
    is_valid_magic, is_valid_magic_square_bishop, is_valid_magic_square_rook,
    occupancy_mask_rooks, rook_attacks_slow, transform, MAGIC_NUMS_BISHOPS, MAGIC_NUMS_ROOKS,
    ROOK_BITS,
};

#[test]
fn blockers_follow_the_bits_of_the_index() {
    let mask = (1u64 << 3) | (1u64 << 4) | (1u64 << 6);
    assert_eq!(blockers_to_bitboard(0, 3, mask), 0);
    assert_eq!(blockers_to_bitboard(5, 3, mask), (1u64 << 3) | (1u64 << 6));
    assert_eq!(blockers_to_bitboard(7, 3, mask), mask);
    assert_eq!(blockers_to_bitboard(7, 2, mask), (1u64 << 3) | (1u64 << 4));
}

#[test]
fn magic_tables_give_the_slow_attacks() {
    let (rooks, bishops) = init_magics().expect("the magic numbers fit");
    assert_eq!(rooks.len(), 64);
    assert_eq!(bishops.len(), 64);
    let boards = [
        0u64,
        0xffff_0000_0000_ffffu64,
        0x0012_4000_0810_2200u64,
        0x8100_0000_0000_0081u64,
        0x00ff_0000_2000_ff00u64,
        0xdead_beef_0bad_f00du64,
    ];
    for sq in 0..64usize {
        for occ in boards.iter() {
            assert_eq!(rooks[sq].get_attacks(*occ), rook_attacks_slow(sq, *occ));
            assert_eq!(bishops[sq].get_attacks(*occ), bishop_attacks_slow(sq, *occ));
        }
    }
}

#[test]
fn stored_magic_numbers_are_valid() {
    for sq in 0..64usize {
        assert!(is_valid_magic_square_rook(MAGIC_NUMS_ROOKS[sq], sq));
        assert!(is_valid_magic_square_bishop(MAGIC_NUMS_BISHOPS[sq], sq));
    }
    assert!(!is_valid_magic_square_rook(0, 0));
    assert!(!is_valid_magic_square_bishop(0, 27));
}

#[test]
fn is_valid_magic_spots_collisions() {
    let mask = occupancy_mask_rooks(0);
    let bits = ROOK_BITS[0];
    let n = 1usize << bits;
    let blockers: Vec<u64> = (0..n).map(|i| blockers_to_bitboard(i, bits, mask)).collect();
    let attacks: Vec<u64> = blockers.iter().map(|b| rook_attacks_slow(0, *b)).collect();
    assert!(is_valid_magic(MAGIC_NUMS_ROOKS[0], bits, &blockers, &attacks));
    assert!(!is_valid_magic(1, bits, &blockers, &attacks));
    let j = transform(blockers[5], MAGIC_NUMS_ROOKS[0], bits);
    assert!(j < n);
}

#[test]
fn a_magic_number_is_found_for_a_corner_bishop() {
    let found = generate_magic_for_square(0, false).expect("a magic number");
    assert!(is_valid_magic_square_bishop(found, 0));
}
