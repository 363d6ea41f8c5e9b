use crate::bitboards::bit;
use crate::board_representation::game_state::{piece_index, GameMove, GameMoveType, GameState, PieceType};
use crate::board_representation::zobrist_hashing::Zobrist;
use crate::move_generation::attacks::{
    attacked_by, covers, lemma_slider_reach_ignores_target, lowest_square, occupancy,
    piece_attacks, side_board, slider_reaches,
};
use crate::move_generation::makemove::move_result;
use crate::move_generation::movegen::{
    enemy_attacks, is_without_king_board, king_square, king_step, position_ok, side_at,
    sound_move, without_king_board,
};
use vstd::prelude::*;

verus! {

broadcast use crate::bitboards::group_bit_ops;

/// The board of every piece but the king of the side to move exists.
proof fn lemma_without_king_board(g: GameState)
    requires
        position_ok(g),
    ensures
        is_without_king_board(g, without_king_board(g)),
{
    let c = g.color_to_move as int;
    let b = occupancy(g.pieces) & !g.pieces[5][c];
    assert forall|t: int| 0 <= t < 64 implies #[trigger] bit(b, t) == (side_at(g.pieces, 1 - c, t)
        || bit(g.pieces[0][c], t) || bit(g.pieces[1][c], t) || bit(g.pieces[2][c], t) || bit(
        g.pieces[3][c],
        t,
    ) || bit(g.pieces[4][c], t)) by {
        assert(bit(side_board(g.pieces, 0), t) == side_at(g.pieces, 0, t));
        assert(bit(side_board(g.pieces, 1), t) == side_at(g.pieces, 1, t));
        if bit(g.pieces[5][c], t) {
            assert forall|p: int, a: int| 0 <= p < 6 && 0 <= a < 2 && bit(g.pieces[p][a], t) implies p
                == 5 && a == c by {}
        }
    }
    assert(is_without_king_board(g, b));
}

/// A king step that the move generator lists, a quiet step or a capture by the king onto
/// a square that the other side does not attack once the king has left its square, leaves
/// the king of the side that made it on that square and attacked by no piece of the other
/// side in the position after it.
pub proof fn lemma_king_step_leaves_king_safe(keys: Zobrist, g: GameState, mv: GameMove, res: GameState)
    requires
        position_ok(g),
        mv.from == king_square(g),
        king_step(g, mv.to as int),
        mv.piece_type == PieceType::King,
        mv.move_type is Quiet || mv.move_type is Capture,
        sound_move(g, mv),
        move_result(keys, g, mv, res),
    ensures
        bit(res.pieces[5][g.color_to_move as int], mv.to as int),
        !attacked_by(res.pieces, 1 - g.color_to_move as int, occupancy(res.pieces), mv.to as int),
{
    let c = g.color_to_move as int;
    let e = 1 - c;
    let t = mv.to as int;
    let f = mv.from as int;
    let wk = without_king_board(g);
    let occ = occupancy(res.pieces);
    lemma_without_king_board(g);
    crate::bitboards::lemma_clear_lowest(g.pieces[5][c]);
    assert(bit(g.pieces[5][c], f));
    // The boards after the step: the king moved, perhaps a piece of the other side taken.
    assert forall|p: int, a: int| 0 <= p < 6 && 0 <= a < 2 implies #[trigger] res.pieces[p][a] == if p
        == 5 && a == c {
        (g.pieces[p][a] ^ (1u64 << mv.from as u64)) | (1u64 << mv.to as u64)
    } else if a == e && (mv.move_type matches GameMoveType::Capture(q) && p == piece_index(q)) {
        g.pieces[p][a] ^ (1u64 << mv.to as u64)
    } else {
        g.pieces[p][a]
    } by {}
    assert(bit(res.pieces[5][c], t));
    // The board after the step and the board without the king differ on `t` alone.
    assert forall|u: int| u != t implies #[trigger] bit(occ, u) == bit(wk, u) by {
        if 0 <= u < 64 {
            assert(bit(side_board(res.pieces, 0), u) == side_at(res.pieces, 0, u));
            assert(bit(side_board(res.pieces, 1), u) == side_at(res.pieces, 1, u));
            if u == f {
                assert forall|p: int, a: int| 0 <= p < 6 && 0 <= a < 2 && !(p == 5 && a == c) implies !bit(
                    #[trigger] g.pieces[p][a],
                    u,
                ) by {}
            }
            if bit(g.pieces[5][c], u) {
                assert(u == f);
            }
        }
    }
    // No piece of the other side attacks `t` after the step.
    if attacked_by(res.pieces, e, occ, t) {
        let p = choose|p: int| 0 <= p < 6 && #[trigger] covers(p, e, res.pieces[p][e], occ, t);
        let s = choose|s: int|
            0 <= s < 64 && bit(res.pieces[p][e], s) && #[trigger] piece_attacks(p, e, s, occ, t);
        assert(bit(g.pieces[p][e], s));
        if p == 2 || p == 4 {
            lemma_slider_reach_ignores_target(false, s, occ, wk, t);
        }
        if p == 3 || p == 4 {
            lemma_slider_reach_ignores_target(true, s, occ, wk, t);
        }
        assert(piece_attacks(p, e, s, wk, t));
        if p == 0 {
            assert(covers(0, e, g.pieces[0][e], wk, t));
        } else if p < 5 {
            assert(piece_attacks(p, 0, s, wk, t));
            assert(covers(p, 0, g.pieces[p][e], wk, t));
        } else {
            assert(s == lowest_square(g.pieces[5][e]));
        }
        assert(enemy_attacks(
            c == 0,
            g.pieces[0][e],
            g.pieces[1][e],
            g.pieces[2][e],
            g.pieces[3][e],
            g.pieces[4][e],
            g.pieces[5][e],
            wk,
            t,
        ));
        assert(false);
    }
}

} // verus!
