use crate::bitboards::{
    self, bit, file_of, lemma_and_zero, lemma_clear_lowest, lemma_count_bits_bound, popcount,
    rank_of,
};
use crate::evaluation::king_evaluation::file_touched;
use crate::evaluation::psqt_evaluation::{board_sum, lemma_small_coords, table_bounded, table_sum};
use vstd::prelude::*;

verus! {

broadcast use crate::bitboards::group_bit_ops;

pub const KNIGHT_PIECE_VALUE_MG: i16 = 500;
pub const KNIGHT_PIECE_VALUE_EG: i16 = 500;
pub const KNIGHT_VALUE_WITH_PAWNS: [i16; 17] = [
    -30, -27, -25, -22, -20, -17, -15, -12, -10, -7, -5, -2, 0, 2, 5, 7, 10,
];
pub const KNIGHT_SUPPORTED_BY_PAWN_MG: i16 = 10;
pub const KNIGHT_SUPPORTED_BY_PAWN_EG: i16 = 5;
pub const KNIGHT_OUTPOST_MG_TABLE: [[i16; 8]; 8] = [
    [0, 0, 0, 0, 0, 0, 0, 0],
    [0, 0, 0, 0, 0, 0, 0, 0],
    [0, 0, 0, 0, 0, 0, 0, 0],
    [5, 7, 8, 10, 10, 8, 7, 5],
    [5, 10, 10, 15, 15, 10, 10, 5],
    [10, 15, 15, 20, 20, 15, 15, 10],
    [15, 20, 20, 25, 25, 20, 20, 15],
    [0, 0, 0, 0, 0, 0, 0, 0],
];
pub const KNIGHT_OUTPOST_EG_TABLE: [[i16; 8]; 8] = [
    [0, 0, 0, 0, 0, 0, 0, 0],
    [0, 0, 0, 0, 0, 0, 0, 0],
    [0, 0, 0, 0, 0, 0, 0, 0],
    [5, 7, 8, 10, 10, 8, 7, 5],
    [5, 10, 10, 15, 15, 10, 10, 5],
    [10, 15, 15, 20, 20, 15, 15, 10],
    [15, 20, 20, 25, 25, 20, 20, 15],
    [0, 0, 0, 0, 0, 0, 0, 0],
];

/// One side's knights: how many, the pawns on the board, how many a pawn of the side
/// guards, and the guarded ones on outposts.
pub struct KnightEvaluation {
    pub amount_of_knights: i16,
    pub pawns_on_board: usize,
    pub supported_knights: i16,
    pub outpost_knights: u64,
    pub is_white: bool,
}

/// `t` is the lowest square of `b` on its file.
pub open spec fn lowest_on_file(b: u64, t: int) -> bool {
    &&& bit(b, t)
    &&& forall|u: int| #[trigger] bit(b, u) && file_of(u) == file_of(t) ==> u >= t
}

/// An enemy pawn stands on a file next to `t`'s, ahead of it (further up the board for
/// white, further down for black).
pub open spec fn pawn_ahead_beside(enemy_pawns: u64, is_white: bool, t: int) -> bool {
    exists|u: int|
        #[trigger] bit(enemy_pawns, u) && (file_of(u) == file_of(t) - 1 || file_of(u) == file_of(t)
            + 1) && if is_white {
            rank_of(u) > rank_of(t)
        } else {
            rank_of(u) < rank_of(t)
        }
}

/// The knights of `knight` guarded by the pawn attacks `my_pawns_attacks`, counted; and,
/// for each file, the lowest guarded knight there marked as on an outpost where an enemy
/// pawn stands ahead of it on a neighbouring file.
pub fn knight_eval(
    knight: u64,
    my_pawns_attacks: u64,
    pawns_on_board: usize,
    enemy_pawns: u64,
    is_white: bool,
) -> (res: KnightEvaluation)
    ensures
        res.amount_of_knights as nat == popcount(knight),
        res.pawns_on_board == pawns_on_board,
        res.supported_knights as nat == popcount(my_pawns_attacks & knight),
        res.is_white == is_white,
        forall|t: int|
            0 <= t < 64 ==> #[trigger] bit(res.outpost_knights, t) == (lowest_on_file(
                my_pawns_attacks & knight,
                t,
            ) && pawn_ahead_beside(enemy_pawns, is_white, t)),
{
    let supported_knights = my_pawns_attacks & knight;
    let files = bitboards::initialize_files();
    let mut outposts = 0u64;
    let mut supp = supported_knights;
    while supp != 0u64
        invariant
            forall|f: int, t: int|
                0 <= f < 8 && 0 <= t < 64 ==> #[trigger] bit(files[f], t) == (file_of(t) == f),
            forall|t: int| #[trigger] bit(supp, t) ==> bit(supported_knights, t),
            forall|t: int, u: int|
                #![trigger bit(supported_knights, t), bit(supp, u)]
                bit(supported_knights, t) && bit(supp, u) && file_of(t) == file_of(u) ==> bit(
                    supp,
                    t,
                ),
            forall|t: int|
                #[trigger] bit(supported_knights, t) && !bit(supp, t) ==> !file_touched(
                    supp,
                    file_of(t),
                ),
            forall|t: int|
                0 <= t < 64 ==> #[trigger] bit(outposts, t) == (lowest_on_file(supported_knights, t)
                    && !bit(supp, t) && pawn_ahead_beside(enemy_pawns, is_white, t)),
        decreases supp,
    {
        proof {
            lemma_clear_lowest(supp);
        }
        let supp_knight_index = supp.trailing_zeros() as usize;
        let file_int = supp_knight_index % 8;
        let file = files[file_int];
        let ghost idx = supp_knight_index as int;
        let ghost old_supp = supp;
        let ghost old_out = outposts;
        let outpost = 1u64 << supp_knight_index as u64;
        let attacked_ahead = enemy_pawn_ahead_beside(supp_knight_index, enemy_pawns, is_white);
        proof {
            // The lowest square left is the lowest guarded knight on its file.
            assert(lowest_on_file(supported_knights, idx)) by {
                assert forall|u: int| #[trigger] bit(supported_knights, u) && file_of(u) == file_of(idx)
                    implies u >= idx by {
                    assert(bit(supp, u));
                }
            }
        }
        if attacked_ahead {
            outposts = outposts | outpost;
        }
        proof {
            assert(bit(supp & file, idx));
            crate::bitboards::lemma_mask_off_smaller(supp, file);
        }
        supp = supp & !file;
        proof {
            assert(!file_touched(supp, file_of(idx)));
            assert forall|t: int|
                #[trigger] bit(supported_knights, t) && !bit(supp, t) implies !file_touched(
                supp,
                file_of(t),
            ) by {
                if file_of(t) != file_of(idx) && bit(old_supp, t) {
                    assert(bit(supp, t));
                }
                if file_of(t) != file_of(idx) && !bit(old_supp, t) {
                    assert(!file_touched(old_supp, file_of(t)));
                    if file_touched(supp, file_of(t)) {
                        let w = choose|w: int| #[trigger] bit(supp, w) && file_of(w) == file_of(t);
                        assert(bit(old_supp, w));
                    }
                }
            }
            assert forall|t: int|
                0 <= t < 64 implies #[trigger] bit(outposts, t) == (lowest_on_file(supported_knights, t)
                && !bit(supp, t) && pawn_ahead_beside(enemy_pawns, is_white, t)) by {
                if t != idx && file_of(t) == file_of(idx) && bit(supported_knights, t) {
                    assert(bit(old_supp, t));
                    assert(t > idx);
                    assert(!lowest_on_file(supported_knights, t));
                }
            }
        }
    }
    proof {
        lemma_count_bits_bound(knight, 64);
        lemma_count_bits_bound(supported_knights, 64);
    }
    KnightEvaluation {
        amount_of_knights: knight.count_ones() as i16,
        pawns_on_board,
        supported_knights: supported_knights.count_ones() as i16,
        outpost_knights: outposts,
        is_white,
    }
}

/// Whether an enemy pawn stands ahead of the square `square` on a neighbouring file: the
/// front span of a piece there, moved a file to either side, meets the enemy pawns.
#[verifier::spinoff_prover]
#[verifier::rlimit(40)]
fn enemy_pawn_ahead_beside(square: usize, enemy_pawns: u64, is_white: bool) -> (res: bool)
    requires
        square < 64,
    ensures
        res == pawn_ahead_beside(enemy_pawns, is_white, square as int),
{
    let ghost idx = square as int;
    let outpost = 1u64 << square as u64;
    let span = if is_white {
        bitboards::w_front_span(outpost)
    } else {
        bitboards::b_front_span(outpost)
    };
    let front_span = bitboards::west_one(span) | bitboards::east_one(span);
    proof {
            lemma_and_zero(enemy_pawns, front_span);
        assert(((enemy_pawns & front_span) != 0u64) == pawn_ahead_beside(
            enemy_pawns,
            is_white,
            idx,
        )) by {
            if pawn_ahead_beside(enemy_pawns, is_white, idx) {
                let u = choose|u: int|
                    #[trigger] bit(enemy_pawns, u) && (file_of(u) == file_of(idx) - 1 || file_of(
                        u,
                    ) == file_of(idx) + 1) && if is_white {
                        rank_of(u) > rank_of(idx)
                    } else {
                        rank_of(u) < rank_of(idx)
                    };
                if file_of(u) == file_of(idx) - 1 {
                    assert(bit(outpost, idx));
                    assert(bit(span, u + 1));
                } else {
                    assert(bit(outpost, idx));
                    assert(bit(span, u - 1));
                }
                assert(bit(front_span, u));
            }
            if (enemy_pawns & front_span) != 0u64 {
                let u = choose|u: int| 0 <= u < 64 && !!(#[trigger] bit(enemy_pawns, u) && bit(front_span, u));
                if file_of(u) <= 6 && bit(span, u + 1) {
                    let s = choose|s: int| #[trigger] bit(outpost, s) && file_of(s) == file_of(u + 1) && (if is_white {
                        rank_of(s) < rank_of(u + 1)
                    } else {
                        rank_of(s) > rank_of(u + 1)
                    });
                    assert(s == idx);
                } else {
                    let s = choose|s: int| #[trigger] bit(outpost, s) && file_of(s) == file_of(u - 1) && (if is_white {
                        rank_of(s) < rank_of(u - 1)
                    } else {
                        rank_of(s) > rank_of(u - 1)
                    });
                    assert(s == idx);
                }
            }
        }
    }
    enemy_pawns & front_span != 0u64
}

/// The outpost tables hold no value further than 100 from zero.
proof fn lemma_outpost_tables_bounded()
    ensures
        table_bounded(KNIGHT_OUTPOST_MG_TABLE),
        table_bounded(KNIGHT_OUTPOST_EG_TABLE),
{
    assert forall|r: int, f: int| 0 <= r < 8 && 0 <= f < 8 implies -100
        <= #[trigger] KNIGHT_OUTPOST_MG_TABLE[r][f] <= 100 by {
        lemma_small_coords(r, f);
    }
    assert forall|r: int, f: int| 0 <= r < 8 && 0 <= f < 8 implies -100
        <= #[trigger] KNIGHT_OUTPOST_EG_TABLE[r][f] <= 100 by {
        lemma_small_coords(r, f);
    }
}

impl KnightEvaluation {
    /// The knights' own worth when each is worth `piece_value`, with the adjustment for
    /// the pawns on the board.
    pub open spec fn base_worth(&self, piece_value: int) -> int {
        self.amount_of_knights * (piece_value + KNIGHT_VALUE_WITH_PAWNS[self.pawns_on_board as int])
    }

    /// The knights' worth: their own, the bonus for each one a pawn guards, and the
    /// outpost table's value for each one on an outpost (mirrored for black).
    pub open spec fn worth(
        &self,
        piece_value: int,
        support_value: int,
        table: [[i16; 8]; 8],
    ) -> int {
        self.base_worth(piece_value) + self.supported_knights * support_value + table_sum(
            self.outpost_knights,
            table,
            !self.is_white,
            64,
        )
    }

    /// The knights' worth in the middle game.
    pub fn eval_mg(&self) -> (res: i16)
        requires
            self.pawns_on_board < 17,
            i16::MIN <= self.base_worth(KNIGHT_PIECE_VALUE_MG as int) <= i16::MAX,
            i16::MIN <= self.supported_knights * KNIGHT_SUPPORTED_BY_PAWN_MG <= i16::MAX,
            i16::MIN <= self.base_worth(KNIGHT_PIECE_VALUE_MG as int) + self.supported_knights
                * KNIGHT_SUPPORTED_BY_PAWN_MG <= i16::MAX,
            i16::MIN <= self.worth(
                KNIGHT_PIECE_VALUE_MG as int,
                KNIGHT_SUPPORTED_BY_PAWN_MG as int,
                KNIGHT_OUTPOST_MG_TABLE,
            ) <= i16::MAX,
        ensures
            res == self.worth(
                KNIGHT_PIECE_VALUE_MG as int,
                KNIGHT_SUPPORTED_BY_PAWN_MG as int,
                KNIGHT_OUTPOST_MG_TABLE,
            ),
    {
        proof {
            lemma_outpost_tables_bounded();
        }
        let mut res: i16 = 0;
        res += self.amount_of_knights * (KNIGHT_PIECE_VALUE_MG
            + KNIGHT_VALUE_WITH_PAWNS[self.pawns_on_board]);
        res += self.supported_knights * KNIGHT_SUPPORTED_BY_PAWN_MG;
        let outposts = board_sum(
            self.outpost_knights,
            KNIGHT_OUTPOST_MG_TABLE,
            KNIGHT_OUTPOST_EG_TABLE,
            !self.is_white,
        );
        res += outposts.0;
        res
    }

    /// The knights' worth in the end game.
    pub fn eval_eg(&self) -> (res: i16)
        requires
            self.pawns_on_board < 17,
            i16::MIN <= self.base_worth(KNIGHT_PIECE_VALUE_EG as int) <= i16::MAX,
            i16::MIN <= self.supported_knights * KNIGHT_SUPPORTED_BY_PAWN_EG <= i16::MAX,
            i16::MIN <= self.base_worth(KNIGHT_PIECE_VALUE_EG as int) + self.supported_knights
                * KNIGHT_SUPPORTED_BY_PAWN_EG <= i16::MAX,
            i16::MIN <= self.worth(
                KNIGHT_PIECE_VALUE_EG as int,
                KNIGHT_SUPPORTED_BY_PAWN_EG as int,
                KNIGHT_OUTPOST_EG_TABLE,
            ) <= i16::MAX,
        ensures
            res == self.worth(
                KNIGHT_PIECE_VALUE_EG as int,
                KNIGHT_SUPPORTED_BY_PAWN_EG as int,
                KNIGHT_OUTPOST_EG_TABLE,
            ),
    {
        proof {
            lemma_outpost_tables_bounded();
        }
        let mut res: i16 = 0;
        res += self.amount_of_knights * (KNIGHT_PIECE_VALUE_EG
            + KNIGHT_VALUE_WITH_PAWNS[self.pawns_on_board]);
        res += self.supported_knights * KNIGHT_SUPPORTED_BY_PAWN_EG;
        let outposts = board_sum(
            self.outpost_knights,
            KNIGHT_OUTPOST_MG_TABLE,
            KNIGHT_OUTPOST_EG_TABLE,
            !self.is_white,
        );
        res += outposts.1;
        res
    }
}

} // verus!
