use crate::bitboards::{lemma_count_bits_bound, popcount};
use vstd::prelude::*;

verus! {

pub const BISHOP_PIECE_VALUE_EG: i16 = 510;
pub const BISHOP_PIECE_VALUE_MG: i16 = 510;
pub const BISHOP_PAIR_BONUS: i16 = 50;

/// One side's bishops: how many, and whether it has the pair.
pub struct BishopEvaluation {
    pub amount_of_bishops: i16,
    pub bishop_pair: bool,
}

pub fn bishop_eval(bishop: u64) -> (res: BishopEvaluation)
    ensures
        res.amount_of_bishops as nat == popcount(bishop),
        res.bishop_pair == (popcount(bishop) > 1),
{
    let bishops = bishop.count_ones();
    proof {
        lemma_count_bits_bound(bishop, 64);
    }
    BishopEvaluation { amount_of_bishops: bishops as i16, bishop_pair: bishops > 1 }
}

impl BishopEvaluation {
    /// The bishops' worth when each is worth `piece_value`: their values, and the bonus
    /// for the pair.
    pub open spec fn worth(&self, piece_value: int) -> int {
        self.amount_of_bishops * piece_value + if self.bishop_pair {
            BISHOP_PAIR_BONUS as int
        } else {
            0
        }
    }

    /// The bishops' worth in the middle game.
    pub fn eval_mg(&self) -> (res: i16)
        requires
            i16::MIN <= self.amount_of_bishops * BISHOP_PIECE_VALUE_MG <= i16::MAX,
            i16::MIN <= self.worth(BISHOP_PIECE_VALUE_MG as int) <= i16::MAX,
        ensures
            res == self.worth(BISHOP_PIECE_VALUE_MG as int),
    {
        let mut res: i16 = 0;
        res += self.amount_of_bishops * BISHOP_PIECE_VALUE_MG;
        if self.bishop_pair {
            res += BISHOP_PAIR_BONUS;
        }
        res
    }

    /// The bishops' worth in the end game.
    pub fn eval_eg(&self) -> (res: i16)
        requires
            i16::MIN <= self.amount_of_bishops * BISHOP_PIECE_VALUE_EG <= i16::MAX,
            i16::MIN <= self.worth(BISHOP_PIECE_VALUE_EG as int) <= i16::MAX,
        ensures
            res == self.worth(BISHOP_PIECE_VALUE_EG as int),
    {
        let mut res: i16 = 0;
        res += self.amount_of_bishops * BISHOP_PIECE_VALUE_EG;
        if self.bishop_pair {
            res += BISHOP_PAIR_BONUS;
        }
        res
    }
}

} // verus!
