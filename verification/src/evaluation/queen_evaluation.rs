use crate::bitboards::{lemma_count_bits_bound, popcount};
use vstd::prelude::*;

verus! {

pub const QUEEN_PIECE_VALUE_MG: i16 = 1500;
pub const QUEEN_PIECE_VALUE_EG: i16 = 1600;

/// One side's queens, by count.
pub struct QueenEvaluation {
    pub amount_of_queens: i16,
}

pub fn queen_eval(queen: u64) -> (res: QueenEvaluation)
    ensures
        res.amount_of_queens as nat == popcount(queen),
{
    let queens = queen.count_ones();
    proof {
        lemma_count_bits_bound(queen, 64);
    }
    QueenEvaluation { amount_of_queens: queens as i16 }
}

impl QueenEvaluation {
    /// The queens' worth in the middle game.
    pub fn eval_mg(&self) -> (res: i16)
        requires
            i16::MIN <= self.amount_of_queens * QUEEN_PIECE_VALUE_MG <= i16::MAX,
        ensures
            res == self.amount_of_queens * QUEEN_PIECE_VALUE_MG,
    {
        let mut res: i16 = 0;
        res += self.amount_of_queens * QUEEN_PIECE_VALUE_MG;
        res
    }

    /// The queens' worth in the end game.
    pub fn eval_eg(&self) -> (res: i16)
        requires
            i16::MIN <= self.amount_of_queens * QUEEN_PIECE_VALUE_EG <= i16::MAX,
        ensures
            res == self.amount_of_queens * QUEEN_PIECE_VALUE_EG,
    {
        let mut res: i16 = 0;
        res += self.amount_of_queens * QUEEN_PIECE_VALUE_EG;
        res
    }
}

} // verus!
