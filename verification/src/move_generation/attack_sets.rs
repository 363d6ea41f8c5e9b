use crate::bitboards::{bit, file_of, king_adjacent, knight_adjacent, rank_of};
use crate::move_generation::attacks::{covers, lowest_square, single_square};
use crate::move_generation::magic::{bishop_reaches, rook_reaches};
use crate::move_generation::movegen::{
    add_enemy_attacks, b_pawn_east_targets, b_pawn_west_targets, bishop_attack, king_attack,
    knight_attack, rook_attack, w_pawn_east_targets, w_pawn_west_targets,
};
use vstd::prelude::*;

verus! {

broadcast use crate::bitboards::group_bit_ops;

/// A white pawn of `pawns` attacks `t`.
pub open spec fn white_pawn_covers(pawns: u64, t: int) -> bool {
    (rank_of(t) >= 1 && file_of(t) <= 6 && bit(pawns, t - 7)) || (rank_of(t) >= 1 && file_of(t)
        >= 1 && bit(pawns, t - 9))
}

/// A black pawn of `pawns` attacks `t`.
pub open spec fn black_pawn_covers(pawns: u64, t: int) -> bool {
    (rank_of(t) <= 6 && file_of(t) >= 1 && bit(pawns, t + 7)) || (rank_of(t) <= 6 && file_of(t)
        <= 6 && bit(pawns, t + 9))
}

/// The squares a side attacks: around its king on `king_idx`, diagonally ahead of its
/// pawns, and from its knights, bishops and rooks with `blocked_squares` in the way.
pub open spec fn side_attacks(
    white: bool,
    king_idx: int,
    pawns: u64,
    knights: u64,
    bishops: u64,
    rooks: u64,
    blocked_squares: u64,
    t: int,
) -> bool {
    ||| king_adjacent(king_idx, t)
    ||| if white {
        white_pawn_covers(pawns, t)
    } else {
        black_pawn_covers(pawns, t)
    }
    ||| covers(1, 0, knights, blocked_squares, t)
    ||| covers(2, 0, bishops, blocked_squares, t)
    ||| covers(3, 0, rooks, blocked_squares, t)
}

/// The board of the first square holds that square alone.
proof fn lemma_first_square_single()
    ensures
        single_square(1u64),
{
    assert(1u64 << 0u64 == 1u64) by (bit_vector);
    vstd::std_specs::bits::axiom_u64_trailing_zeros(1u64);
    assert(bit(1u64, 0));
    assert(lowest_square(1u64) == 0);
}

/// The squares white attacks with the king on `white_king_idx` and the given pieces
/// (queens belong with the bishops and the rooks).
pub fn get_w_attacked_squares(
    white_king_idx: usize,
    white_pawns: u64,
    white_knights: u64,
    white_bishops: u64,
    white_rooks: u64,
    blocked_squares: u64,
) -> (res: u64)
    requires
        white_king_idx < 64,
    ensures
        forall|t: int|
            0 <= t < 64 ==> #[trigger] bit(res, t) == side_attacks(
                true,
                white_king_idx as int,
                white_pawns,
                white_knights,
                white_bishops,
                white_rooks,
                blocked_squares,
                t,
            ),
{
    proof {
        lemma_first_square_single();
    }
    let mut res = king_attack(white_king_idx);
    res = res | (w_pawn_west_targets(white_pawns) | w_pawn_east_targets(white_pawns));
    let (with_knights, _) = add_enemy_attacks(1, white_knights, blocked_squares, 1u64, res, 0u64);
    let (with_bishops, _) = add_enemy_attacks(
        2,
        white_bishops,
        blocked_squares,
        1u64,
        with_knights,
        0u64,
    );
    let (with_rooks, _) = add_enemy_attacks(
        3,
        white_rooks,
        blocked_squares,
        1u64,
        with_bishops,
        0u64,
    );
    with_rooks
}

/// The squares black attacks with the king on `black_king_idx` and the given pieces
/// (queens belong with the bishops and the rooks).
pub fn get_b_attacked_squares(
    black_king_idx: usize,
    black_pawns: u64,
    black_knights: u64,
    black_bishops: u64,
    black_rooks: u64,
    blocked_squares: u64,
) -> (res: u64)
    requires
        black_king_idx < 64,
    ensures
        forall|t: int|
            0 <= t < 64 ==> #[trigger] bit(res, t) == side_attacks(
                false,
                black_king_idx as int,
                black_pawns,
                black_knights,
                black_bishops,
                black_rooks,
                blocked_squares,
                t,
            ),
{
    proof {
        lemma_first_square_single();
    }
    let mut res = king_attack(black_king_idx);
    res = res | (b_pawn_west_targets(black_pawns) | b_pawn_east_targets(black_pawns));
    let (with_knights, _) = add_enemy_attacks(1, black_knights, blocked_squares, 1u64, res, 0u64);
    let (with_bishops, _) = add_enemy_attacks(
        2,
        black_bishops,
        blocked_squares,
        1u64,
        with_knights,
        0u64,
    );
    let (with_rooks, _) = add_enemy_attacks(
        3,
        black_rooks,
        blocked_squares,
        1u64,
        with_bishops,
        0u64,
    );
    with_rooks
}

} // verus!
