use crate::bitboards::{bit, file_of, knight_adjacent, rank_of};
use crate::board_representation::game_state::{GameMove, GameMoveType, PieceType};
use crate::move_generation::magic::{bishop_reaches, rook_reaches};
use crate::move_generation::movegen::{
    b_pawn_east_targets, b_pawn_west_targets, bishop_attack, knight_attack, rook_attack,
    w_pawn_east_targets, w_pawn_west_targets,
};
use vstd::prelude::*;

verus! {

broadcast use crate::bitboards::group_bit_ops;

/// A pawn on `t` that moves up the board (a white pawn) attacks a square of `target`.
pub open spec fn white_pawn_hits(target: u64, t: int) -> bool {
    (rank_of(t) <= 6 && file_of(t) >= 1 && bit(target, t + 7)) || (rank_of(t) <= 6 && file_of(t)
        <= 6 && bit(target, t + 9))
}

/// A pawn on `t` that moves down the board (a black pawn) attacks a square of `target`.
pub open spec fn black_pawn_hits(target: u64, t: int) -> bool {
    (rank_of(t) >= 1 && file_of(t) <= 6 && bit(target, t - 7)) || (rank_of(t) >= 1 && file_of(t)
        >= 1 && bit(target, t - 9))
}

/// A piece of `pieces` on `t` reaches `square` past `blockers` along a diagonal (where
/// `diagonal`) or a rank or file.
pub open spec fn slider_hit(diagonal: bool, pieces: u64, square: int, blockers: u64, t: int) -> bool {
    bit(pieces, t) && if diagonal {
        bishop_reaches(square, blockers, t)
    } else {
        rook_reaches(square, blockers, t)
    }
}

/// The pieces of one side that attack `square`, given as `square_board` too: the knights a
/// knight's jump away, the pawns of `pawns` that hit it (moving up the board where
/// `up`), and the bishops and rooks (queens counted in both) that reach it past
/// `blockers`. With them, whether a slider attacks, and whether a diagonal slider does.
pub open spec fn attackers_result(
    res: (u64, bool, bool),
    square_board: u64,
    square: int,
    up: bool,
    pawns: u64,
    knights: u64,
    bishops: u64,
    rooks: u64,
    blockers: u64,
) -> bool {
    let diagonal = exists|t: int| 0 <= t < 64 && #[trigger] slider_hit(true, bishops, square, blockers, t);
    let straight = exists|t: int| 0 <= t < 64 && #[trigger] slider_hit(false, rooks, square, blockers, t);
    &&& forall|t: int|
        0 <= t < 64 ==> #[trigger] bit(res.0, t) == ((bit(knights, t) && knight_adjacent(square, t))
            || (bit(pawns, t) && if up {
            white_pawn_hits(square_board, t)
        } else {
            black_pawn_hits(square_board, t)
        }) || (bit(bishops, t) && bishop_reaches(square, blockers, t)) || (bit(rooks, t)
            && rook_reaches(square, blockers, t)))
    &&& res.1 == (diagonal || straight)
    &&& res.2 == diagonal
}

proof fn lemma_part_nonzero(part: u64, pieces: u64, square: int, blockers: u64, diagonal: bool)
    requires
        forall|t: int|
            0 <= t < 64 ==> #[trigger] bit(part, t) == slider_hit(diagonal, pieces, square, blockers, t),
    ensures
        (part != 0u64) == (exists|t: int|
            0 <= t < 64 && #[trigger] slider_hit(diagonal, pieces, square, blockers, t)),
{
    crate::bitboards::lemma_zero_board(part);
    if part != 0u64 {
        assert(!(forall|t: int| 0 <= t < 64 ==> !#[trigger] bit(part, t)));
        let t = choose|t: int| 0 <= t < 64 && #[trigger] bit(part, t);
        assert(slider_hit(diagonal, pieces, square, blockers, t));
    } else {
        assert forall|t: int| 0 <= t < 64 implies !#[trigger] slider_hit(
            diagonal,
            pieces,
            square,
            blockers,
            t,
        ) by {
            assert(!bit(part, t));
        }
    }
}

/// The white pieces that attack `square`.
pub fn attackers_from_white(
    square_board: u64,
    square: usize,
    white_pawns: u64,
    white_knights: u64,
    white_bishops: u64,
    white_rooks: u64,
    blockers: u64,
) -> (res: (u64, bool, bool))
    requires
        square < 64,
    ensures
        attackers_result(
            res,
            square_board,
            square as int,
            true,
            white_pawns,
            white_knights,
            white_bishops,
            white_rooks,
            blockers,
        ),
{
    let mut attackers = 0u64;
    let mut slider_flag = false;
    let mut bishop_slider = false;
    let knights = knight_attack(square) & white_knights;
    attackers = attackers | knights;
    let pawns = (b_pawn_west_targets(square_board) | b_pawn_east_targets(square_board)) & white_pawns;
    attackers = attackers | pawns;
    let bishop_attacks = bishop_attack(square, blockers) & white_bishops;
    attackers = attackers | bishop_attacks;
    if bishop_attacks != 0 {
        slider_flag = true;
        bishop_slider = true;
    }
    let rook_attacks = rook_attack(square, blockers) & white_rooks;
    attackers = attackers | rook_attacks;
    if rook_attacks != 0 {
        slider_flag = true;
    }
    proof {
        assert forall|t: int| 0 <= t < 64 implies #[trigger] bit(bishop_attacks, t) == (bit(
            white_bishops,
            t,
        ) && bishop_reaches(square as int, blockers, t)) by {}
        assert forall|t: int| 0 <= t < 64 implies #[trigger] bit(rook_attacks, t) == (bit(
            white_rooks,
            t,
        ) && rook_reaches(square as int, blockers, t)) by {}
        lemma_part_nonzero(bishop_attacks, white_bishops, square as int, blockers, true);
        lemma_part_nonzero(rook_attacks, white_rooks, square as int, blockers, false);
    }
    (attackers, slider_flag, bishop_slider)
}

/// The black pieces that attack `square`.
pub fn attackers_from_black(
    square_board: u64,
    square: usize,
    black_pawns: u64,
    black_knights: u64,
    black_bishops: u64,
    black_rooks: u64,
    blockers: u64,
) -> (res: (u64, bool, bool))
    requires
        square < 64,
    ensures
        attackers_result(
            res,
            square_board,
            square as int,
            false,
            black_pawns,
            black_knights,
            black_bishops,
            black_rooks,
            blockers,
        ),
{
    let mut attackers = 0u64;
    let mut slider_flag = false;
    let mut bishop_slider = false;
    let knights = knight_attack(square) & black_knights;
    attackers = attackers | knights;
    let pawns = (w_pawn_west_targets(square_board) | w_pawn_east_targets(square_board)) & black_pawns;
    attackers = attackers | pawns;
    let bishop_attacks = bishop_attack(square, blockers) & black_bishops;
    attackers = attackers | bishop_attacks;
    if bishop_attacks != 0 {
        slider_flag = true;
        bishop_slider = true;
    }
    let rook_attacks = rook_attack(square, blockers) & black_rooks;
    attackers = attackers | rook_attacks;
    if rook_attacks != 0 {
        slider_flag = true;
    }
    proof {
        assert forall|t: int| 0 <= t < 64 implies #[trigger] bit(bishop_attacks, t) == (bit(
            black_bishops,
            t,
        ) && bishop_reaches(square as int, blockers, t)) by {}
        assert forall|t: int| 0 <= t < 64 implies #[trigger] bit(rook_attacks, t) == (bit(
            black_rooks,
            t,
        ) && rook_reaches(square as int, blockers, t)) by {}
        lemma_part_nonzero(bishop_attacks, black_bishops, square as int, blockers, true);
        lemma_part_nonzero(rook_attacks, black_rooks, square as int, blockers, false);
    }
    (attackers, slider_flag, bishop_slider)
}

/// Appends to `move_list`, for each square of `to_board` from the lowest up, the move of a
/// `piece_type` of kind `move_type` from `from` to it.
pub fn add_moves(
    move_list: &mut Vec<GameMove>,
    from: usize,
    to_board: u64,
    piece_type: &PieceType,
    move_type: GameMoveType,
)
    ensures
        final(move_list)@.len() >= old(move_list)@.len(),
        final(move_list)@.subrange(0, old(move_list)@.len() as int) == old(move_list)@,
        forall|i: int|
            old(move_list)@.len() <= i < final(move_list)@.len() ==> {
                let mv = #[trigger] final(move_list)@[i];
                &&& mv.from == from
                &&& mv.piece_type == *piece_type
                &&& mv.move_type == move_type
                &&& mv.to < 64
                &&& bit(to_board, mv.to as int)
            },
        forall|i: int, j: int|
            old(move_list)@.len() <= i < j < final(move_list)@.len()
                ==> (#[trigger] final(move_list)@[i]).to < (#[trigger] final(move_list)@[j]).to,
        forall|t: int|
            0 <= t < 64 && bit(to_board, t) ==> exists|i: int|
                old(move_list)@.len() <= i < final(move_list)@.len()
                    && (#[trigger] final(move_list)@[i]).to == t,
{
    let ghost start = move_list@;
    let mut rest = to_board;
    while rest != 0u64
        invariant
            move_list@.len() >= start.len(),
            move_list@.subrange(0, start.len() as int) == start,
            forall|t: int| #[trigger] bit(rest, t) ==> bit(to_board, t),
            forall|i: int|
                start.len() <= i < move_list@.len() ==> {
                    let mv = #[trigger] move_list@[i];
                    &&& mv.from == from
                    &&& mv.piece_type == *piece_type
                    &&& mv.move_type == move_type
                    &&& mv.to < 64
                    &&& bit(to_board, mv.to as int)
                    &&& forall|t: int| 0 <= t < 64 && #[trigger] bit(rest, t) ==> mv.to < t
                },
            forall|i: int, j: int|
                start.len() <= i < j < move_list@.len() ==> #[trigger] move_list@[i].to
                    < #[trigger] move_list@[j].to,
            forall|t: int|
                0 <= t < 64 && bit(to_board, t) && !bit(rest, t) ==> exists|i: int|
                    start.len() <= i < move_list@.len() && (#[trigger] move_list@[i]).to == t,
        decreases rest,
    {
        proof {
            crate::bitboards::lemma_clear_lowest(rest);
        }
        let to = rest.trailing_zeros() as usize;
        let ghost before = move_list@;
        move_list.push(GameMove { from, to, move_type, piece_type: *piece_type });
        let ghost old_rest = rest;
        rest = rest ^ (1u64 << to as u64);
        proof {
            let now = move_list@;
            assert(now.subrange(0, start.len() as int) =~= before.subrange(0, start.len() as int));
            assert forall|t: int|
                0 <= t < 64 && bit(to_board, t) && !bit(rest, t) implies exists|i: int|
                start.len() <= i < now.len() && (#[trigger] now[i]).to == t by {
                if t == to {
                    assert(now[before.len() as int].to == t);
                } else {
                    assert(!bit(old_rest, t));
                    let i = choose|i: int| start.len() <= i < before.len() && (#[trigger] before[i]).to == t;
                    assert(now[i] == before[i]);
                }
            }
        }
    }
}

} // verus!
