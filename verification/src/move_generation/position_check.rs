use crate::bitboards::{bit, king_adjacent, lemma_bit_rank_mask, lemma_bit_shl, lemma_bit_shr, rank_of};
use crate::board_representation::game_state::{GameState, BLACK, KING, PAWN, ROOK, WHITE};
use crate::move_generation::attacks::{
    attacked_by, covers, lemma_slider_reach_ignores_target, lowest_square, occupancy,
    pawn_attacks, piece_attacks, single_square,
};
use crate::move_generation::movegen::{
    boards_disjoint, calculate_additionalbitboards, checks_king, en_passant_square_ok,
    king_attack, lemma_occupancy, position_ok, side_at,
};
use vstd::prelude::*;

verus! {

broadcast use crate::bitboards::group_bit_ops;

// ---------------------------------------------------------------------------
// Checking that a position is one the move generator works on.
// ---------------------------------------------------------------------------

/// The board of kind `k / 2` and colour `k % 2`.
pub open spec fn board_at(pieces: [[u64; 2]; 6], k: int) -> u64 {
    pieces[k / 2][k % 2]
}

/// Whether no square holds two pieces.
pub fn boards_are_disjoint(pieces: &[[u64; 2]; 6]) -> (res: bool)
    ensures
        res == boards_disjoint(*pieces),
{
    let mut seen: u64 = 0;
    let mut k: usize = 0;
    while k < 12
        invariant
            k <= 12,
            forall|t: int|
                0 <= t < 64 ==> #[trigger] bit(seen, t) == exists|j: int|
                    0 <= j < k && #[trigger] bit(board_at(*pieces, j), t),
            forall|j1: int, j2: int, t: int|
                0 <= j1 < j2 < k && #[trigger] bit(board_at(*pieces, j1), t) ==> !#[trigger] bit(
                    board_at(*pieces, j2),
                    t,
                ),
        decreases 12 - k,
    {
        let b = pieces[k / 2][k % 2];
        if b & seen != 0u64 {
            proof {
                crate::bitboards::lemma_and_zero(b, seen);
                let t = choose|t: int| 0 <= t < 64 && bit(b, t) && bit(seen, t);
                let j = choose|j: int| 0 <= j < k && #[trigger] bit(board_at(*pieces, j), t);
                assert(bit(pieces[j / 2][j % 2], t));
                assert(bit(pieces[k as int / 2][k as int % 2], t));
                assert(!boards_disjoint(*pieces));
            }
            return false;
        }
        proof {
            crate::bitboards::lemma_and_zero(b, seen);
        }
        let ghost old_seen = seen;
        seen = seen | b;
        proof {
            assert forall|t: int| 0 <= t < 64 implies #[trigger] bit(seen, t) == exists|j: int|
                0 <= j < k + 1 && #[trigger] bit(board_at(*pieces, j), t) by {
                if bit(b, t) {
                    assert(bit(board_at(*pieces, k as int), t));
                }
                if exists|j: int| 0 <= j < k + 1 && #[trigger] bit(board_at(*pieces, j), t) {
                    let j = choose|j: int| 0 <= j < k + 1 && #[trigger] bit(board_at(*pieces, j), t);
                    if j < k {
                        assert(bit(old_seen, t));
                    }
                }
            }
            assert forall|j1: int, j2: int, t: int|
                0 <= j1 < j2 < k + 1 && #[trigger] bit(board_at(*pieces, j1), t) implies !#[trigger] bit(
                board_at(*pieces, j2),
                t,
            ) by {
                if j2 == k && 0 <= t < 64 {
                    assert(bit(old_seen, t));
                }
            }
        }
        k = k + 1;
    }
    proof {
        assert forall|p: int, a: int, q: int, b: int, t: int|
            0 <= p < 6 && 0 <= q < 6 && 0 <= a < 2 && 0 <= b < 2 && #[trigger] bit(pieces[p][a], t)
                && #[trigger] bit(pieces[q][b], t) implies p == q && a == b by {
            let j1 = 2 * p + a;
            let j2 = 2 * q + b;
            assert(board_at(*pieces, j1) == pieces[p][a]);
            assert(board_at(*pieces, j2) == pieces[q][b]);
            if j1 < j2 {
                assert(bit(board_at(*pieces, j1), t));
            } else if j2 < j1 {
                assert(bit(board_at(*pieces, j2), t));
            }
        }
    }
    true
}

/// Whether the board holds exactly one square.
pub fn is_single_square(b: u64) -> (res: bool)
    ensures
        res == single_square(b),
{
    if b == 0u64 {
        return false;
    }
    proof {
        vstd::std_specs::bits::axiom_u64_trailing_zeros(b);
        crate::bitboards::lemma_clear_lowest(b);
    }
    let low = 1u64 << b.trailing_zeros() as u64;
    let ghost sq = vstd::std_specs::bits::u64_trailing_zeros(b) as int;
    proof {
        assert forall|t: int| 0 <= t < 64 implies #[trigger] bit(low, t) == (t == sq) by {
            crate::bitboards::lemma_bit_single(sq as u64, t);
        }
        assert(bit(b, sq));
    }
    if b == low {
        proof {
            assert forall|t: int| #[trigger] bit(b, t) implies t == lowest_square(b) by {
                assert(bit(low, t));
            }
        }
        true
    } else {
        proof {
            if single_square(b) {
                assert forall|t: int| 0 <= t < 64 implies #[trigger] bit(b, t) == bit(low, t) by {
                    if bit(b, t) {
                        assert(t == lowest_square(b));
                    }
                }
                crate::bitboards::lemma_bit_extensional(b, low);
            }
        }
        false
    }
}

/// Whether every square of the en-passant board fits the position.
pub fn en_passant_ok(g: &GameState) -> (res: bool)
    requires
        g.color_to_move < 2,
    ensures
        res == forall|t: int| #[trigger] bit(g.en_passant, t) ==> en_passant_square_ok(*g, t),
{
    let p = &g.pieces;
    let occ = (p[0][0] | p[1][0] | p[2][0] | p[3][0] | p[4][0] | p[5][0]) | (p[0][1] | p[1][1]
        | p[2][1] | p[3][1] | p[4][1] | p[5][1]);
    let ep = g.en_passant;
    let white = g.color_to_move == WHITE;
    let rank: u64 = if white {
        5
    } else {
        2
    };
    let rank_mask = 0xffu64 << (8 * rank);
    let behind = if white {
        ep >> 8u64
    } else {
        ep << 8u64
    };
    let pawns = if white {
        p[PAWN][BLACK]
    } else {
        p[PAWN][WHITE]
    };
    let res = (ep & occ) == 0u64 && (ep & !rank_mask) == 0u64 && (behind & !pawns) == 0u64;
    proof {
        assert(occ == occupancy(g.pieces));
        assert forall|t: int| 0 <= t < 64 implies #[trigger] bit(rank_mask, t) == (rank_of(t)
            == rank) by {
            lemma_bit_rank_mask(rank, t);
        }
        assert forall|t: int| 0 <= t < 64 implies #[trigger] bit(behind, t) == if white {
            t + 8 < 64 && bit(ep, t + 8)
        } else {
            t >= 8 && bit(ep, t - 8)
        } by {
            if white {
                lemma_bit_shr(ep, 8, t);
            } else {
                lemma_bit_shl(ep, 8, t);
            }
        }
        crate::bitboards::lemma_and_zero(ep, occ);
        crate::bitboards::lemma_and_zero(ep, !rank_mask);
        crate::bitboards::lemma_and_zero(behind, !pawns);
        if res {
            assert forall|t: int| #[trigger] bit(ep, t) implies en_passant_square_ok(*g, t) by {
                assert(!bit(occ, t));
                assert(bit(rank_mask, t));
                if white {
                    assert(bit(behind, t - 8));
                } else {
                    assert(bit(behind, t + 8));
                }
            }
        } else {
            if (ep & occ) != 0u64 {
                let t = choose|t: int| 0 <= t < 64 && bit(ep, t) && bit(occ, t);
                assert(!en_passant_square_ok(*g, t));
            } else if (ep & !rank_mask) != 0u64 {
                let t = choose|t: int| 0 <= t < 64 && bit(ep, t) && bit(!rank_mask, t);
                assert(!en_passant_square_ok(*g, t));
            } else {
                let u = choose|u: int| 0 <= u < 64 && bit(behind, u) && bit(!pawns, u);
                if white {
                    assert(!en_passant_square_ok(*g, u + 8));
                } else {
                    assert(!en_passant_square_ok(*g, u - 8));
                }
            }
        }
    }
    res
}

/// The king of side `c` (on `k`) is attacked by the other side exactly where a piece of
/// that side other than its king checks it, or that side's king stands next to it.
proof fn lemma_king_attacked(g: GameState, c: int, occ_without_king: u64, checkers: u64, k: int)
    requires
        0 <= c < 2,
        boards_disjoint(g.pieces),
        single_square(g.pieces[5][c]),
        single_square(g.pieces[5][1 - c]),
        k == lowest_square(g.pieces[5][c]),
        forall|t: int|
            0 <= t < 64 ==> #[trigger] bit(occ_without_king, t) == (side_at(g.pieces, 1 - c, t)
                || bit(g.pieces[0][c], t) || bit(g.pieces[1][c], t) || bit(g.pieces[2][c], t)
                || bit(g.pieces[3][c], t) || bit(g.pieces[4][c], t)),
        forall|s: int|
            0 <= s < 64 ==> #[trigger] bit(checkers, s) == checks_king(
                c == 0,
                g.pieces[0][1 - c],
                g.pieces[1][1 - c],
                g.pieces[2][1 - c],
                g.pieces[3][1 - c],
                g.pieces[4][1 - c],
                occ_without_king,
                k,
                s,
            ),
    ensures
        attacked_by(g.pieces, 1 - c, occupancy(g.pieces), k) == (checkers != 0u64 || king_adjacent(
            lowest_square(g.pieces[5][1 - c]),
            k,
        )),
{
    let e = 1 - c;
    let occ = occupancy(g.pieces);
    vstd::std_specs::bits::axiom_u64_trailing_zeros(g.pieces[5][c]);
    vstd::std_specs::bits::axiom_u64_trailing_zeros(g.pieces[5][e]);
    crate::bitboards::lemma_zero_board(g.pieces[5][c]);
    crate::bitboards::lemma_zero_board(g.pieces[5][e]);
    assert(bit(g.pieces[5][c], k));
    let ke = lowest_square(g.pieces[5][e]);
    assert(bit(g.pieces[5][e], ke));
    assert forall|u: int| u != k implies #[trigger] bit(occ_without_king, u) == bit(occ, u) by {
        lemma_occupancy(g.pieces, u);
    }
    crate::bitboards::lemma_zero_board(checkers);
    if checkers != 0u64 {
        let s = choose|s: int| 0 <= s < 64 && #[trigger] bit(checkers, s);
        lemma_slider_reach_ignores_target(true, s, occ_without_king, occ, k);
        lemma_slider_reach_ignores_target(false, s, occ_without_king, occ, k);
        if bit(g.pieces[0][e], s) && pawn_attacks(e, s, k) {
            assert(piece_attacks(0, e, s, occ, k));
            assert(covers(0, e, g.pieces[0][e], occ, k));
        } else if bit(g.pieces[1][e], s) && piece_attacks(1, 0, s, occ_without_king, k) {
            assert(piece_attacks(1, e, s, occ, k));
            assert(covers(1, e, g.pieces[1][e], occ, k));
        } else if bit(g.pieces[2][e], s) && piece_attacks(2, 0, s, occ_without_king, k) {
            assert(piece_attacks(2, e, s, occ, k));
            assert(covers(2, e, g.pieces[2][e], occ, k));
        } else if bit(g.pieces[3][e], s) && piece_attacks(3, 0, s, occ_without_king, k) {
            assert(piece_attacks(3, e, s, occ, k));
            assert(covers(3, e, g.pieces[3][e], occ, k));
        } else {
            assert(piece_attacks(4, e, s, occ, k));
            assert(covers(4, e, g.pieces[4][e], occ, k));
        }
    }
    if king_adjacent(ke, k) {
        assert(piece_attacks(5, e, ke, occ, k));
        assert(covers(5, e, g.pieces[5][e], occ, k));
    }
    if attacked_by(g.pieces, e, occ, k) {
        let p = choose|p: int| 0 <= p < 6 && #[trigger] covers(p, e, g.pieces[p][e], occ, k);
        let s = choose|s: int|
            0 <= s < 64 && bit(g.pieces[p][e], s) && #[trigger] piece_attacks(p, e, s, occ, k);
        lemma_slider_reach_ignores_target(true, s, occ_without_king, occ, k);
        lemma_slider_reach_ignores_target(false, s, occ_without_king, occ, k);
        if p == 5 {
            assert(s == ke);
        } else {
            assert(bit(checkers, s));
        }
    }
}

/// Whether `g` is a position the move generator works on: a side to move, one piece at
/// most per square, one king per side, a rook on its corner for each castle right, an
/// en-passant square behind a pawn that has just moved two squares, and the king of the
/// side that has just moved not attacked.
pub fn check_position(g: &GameState) -> (res: bool)
    ensures
        res == position_ok(*g),
{
    if g.color_to_move >= 2 {
        return false;
    }
    let c = g.color_to_move;
    let e = 1 - c;
    if !boards_are_disjoint(&g.pieces) {
        return false;
    }
    if !is_single_square(g.pieces[KING][WHITE]) || !is_single_square(g.pieces[KING][BLACK]) {
        return false;
    }
    proof {
        crate::bitboards::lemma_bit_test(g.pieces[3][0], 7);
        crate::bitboards::lemma_bit_test(g.pieces[3][0], 0);
        crate::bitboards::lemma_bit_test(g.pieces[3][1], 63);
        crate::bitboards::lemma_bit_test(g.pieces[3][1], 56);
    }
    if g.castle_white_kingside && (g.pieces[ROOK][WHITE] >> 7u64) & 1u64 == 0u64 {
        return false;
    }
    if g.castle_white_queenside && (g.pieces[ROOK][WHITE] >> 0u64) & 1u64 == 0u64 {
        return false;
    }
    if g.castle_black_kingside && (g.pieces[ROOK][BLACK] >> 63u64) & 1u64 == 0u64 {
        return false;
    }
    if g.castle_black_queenside && (g.pieces[ROOK][BLACK] >> 56u64) & 1u64 == 0u64 {
        return false;
    }
    if !en_passant_ok(g) {
        return false;
    }
    let abb = calculate_additionalbitboards(
        g.pieces[0][e],
        g.pieces[0][c],
        g.pieces[1][e],
        g.pieces[1][c],
        g.pieces[2][e],
        g.pieces[2][c],
        g.pieces[3][e],
        g.pieces[3][c],
        g.pieces[4][e],
        g.pieces[4][c],
        g.pieces[KING][e],
        g.pieces[KING][c],
        e == WHITE,
    );
    proof {
        vstd::std_specs::bits::axiom_u64_trailing_zeros(g.pieces[5][c as int]);
        vstd::std_specs::bits::axiom_u64_trailing_zeros(g.pieces[5][e as int]);
        crate::bitboards::lemma_zero_board(g.pieces[5][c as int]);
    }
    let kc = g.pieces[KING][c].trailing_zeros() as usize;
    let ke = g.pieces[KING][e].trailing_zeros() as usize;
    let around = king_attack(kc);
    let adjacent = (around >> ke as u64) & 1u64 != 0u64;
    proof {
        crate::bitboards::lemma_bit_test(around, ke as u64);
        assert forall|t: int| 0 <= t < 64 implies #[trigger] bit(abb.all_pieces_without_stmking, t)
            == (side_at(g.pieces, 1 - e, t) || bit(g.pieces[0][e as int], t) || bit(
            g.pieces[1][e as int],
            t,
        ) || bit(g.pieces[2][e as int], t) || bit(g.pieces[3][e as int], t) || bit(
            g.pieces[4][e as int],
            t,
        )) by {}
        lemma_king_attacked(
            *g,
            e as int,
            abb.all_pieces_without_stmking,
            abb.all_checkers,
            ke as int,
        );
        let k = ke as int;
        assert(bit(g.pieces[5][e as int], k));
        if abb.all_checkers == 0u64 && !adjacent {
            assert forall|t: int| #[trigger] bit(g.pieces[5][1 - c as int], t) implies !attacked_by(
                g.pieces,
                c as int,
                occupancy(g.pieces),
                t,
            ) by {
                assert(t == k);
            }
        }
    }
    abb.all_checkers == 0u64 && !adjacent
}

} // verus!
