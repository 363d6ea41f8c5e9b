use crate::bitboards::popcount;
use vstd::prelude::*;

verus! {

/// One side's rooks, by count.
pub struct RookEvaluation {
    pub amount_of_rooks: u32,
}

pub fn rook_eval(rook: u64) -> (res: RookEvaluation)
    ensures
        res.amount_of_rooks as nat == popcount(rook),
{
    RookEvaluation { amount_of_rooks: rook.count_ones() }
}

} // verus!
