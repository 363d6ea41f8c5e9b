use crate::bitboards::{
    self, bit, lemma_and_zero, lemma_bit_ops, lemma_bit_single, lemma_clear_lowest, on_file_above,
    on_file_below,
};
use vstd::prelude::*;

verus! {

/// One side's passed pawns, and those of them whose path is free of enemy pieces.
pub struct PassedEvaluation {
    pub passed_pawns: u64,
    pub passed_not_blocked_pawns: u64,
    pub is_white: bool,
}

impl PassedEvaluation {
    pub fn new(passed_pawns: u64, passed_not_blocked_pawns: u64, is_white: bool) -> (res: PassedEvaluation)
        ensures
            res.passed_pawns == passed_pawns,
            res.passed_not_blocked_pawns == passed_not_blocked_pawns,
            res.is_white == is_white,
    {
        PassedEvaluation { passed_pawns, passed_not_blocked_pawns, is_white }
    }

    pub fn copy(&self) -> (res: PassedEvaluation)
        ensures
            res.passed_pawns == self.passed_pawns,
            res.passed_not_blocked_pawns == self.passed_not_blocked_pawns,
            res.is_white == self.is_white,
    {
        PassedEvaluation::new(self.passed_pawns, self.passed_not_blocked_pawns, self.is_white)
    }
}

/// The passed white pawns (those outside the black pawns' front spans), and those of
/// them with no enemy piece ahead on their file.
pub fn w_passed_pawns(w_pawns: u64, b_pawns_all_front_spans: u64, enemy_pieces: u64) -> (res: (u64, u64))
    ensures
        forall|t: int|
            0 <= t < 64 ==> #[trigger] bit(res.0, t) == (bit(w_pawns, t) && !bit(
                b_pawns_all_front_spans,
                t,
            )),
        forall|t: int|
            0 <= t < 64 ==> #[trigger] bit(res.1, t) == (bit(res.0, t) && !on_file_above(
                enemy_pieces,
                t,
            )),
{
    let mut passed_board = w_pawns & !b_pawns_all_front_spans;
    let passed_board_cl = passed_board;
    let mut passed_not_blocked = 0u64;
    proof {
        assert forall|t: int| 0 <= t < 64 implies #[trigger] bit(passed_board_cl, t) == (bit(
            w_pawns,
            t,
        ) && !bit(b_pawns_all_front_spans, t)) by {
            lemma_bit_ops(w_pawns, !b_pawns_all_front_spans, t);
            lemma_bit_ops(b_pawns_all_front_spans, 0, t);
        }
        assert forall|t: int| 0 <= t < 64 implies !#[trigger] bit(passed_not_blocked, t) by {
            lemma_bit_single(0, t);
        }
    }
    while passed_board != 0u64
        invariant
            forall|t: int| 0 <= t < 64 ==> #[trigger] bit(passed_board, t) ==> bit(passed_board_cl, t),
            forall|t: int|
                0 <= t < 64 ==> #[trigger] bit(passed_not_blocked, t) == (bit(passed_board_cl, t)
                    && !bit(passed_board, t) && !on_file_above(enemy_pieces, t)),
        decreases passed_board,
    {
        proof {
            lemma_clear_lowest(passed_board);
        }
        let idx = passed_board.trailing_zeros() as usize;
        let piece = 1u64 << idx as u64;
        let span = bitboards::w_front_span(piece);
        let ghost old_pnb = passed_not_blocked;
        let ghost old_pb = passed_board;
        proof {
            lemma_and_zero(span, enemy_pieces);
            if span & enemy_pieces == 0u64 {
                if on_file_above(enemy_pieces, idx as int) {
                    let s = choose|s: int|
                        #[trigger] bit(enemy_pieces, s) && bitboards::file_of(s) == bitboards::file_of(
                            idx as int,
                        ) && bitboards::rank_of(s) > bitboards::rank_of(idx as int);
                    lemma_bit_single(idx as u64, idx as int);
                    assert(bit(piece, idx as int) && bitboards::file_of(idx as int) == bitboards::file_of(s)
                        && bitboards::rank_of(idx as int) < bitboards::rank_of(s));
                    assert(bit(span, s));
                }
            } else {
                let u = choose|u: int| 0 <= u < 64 && #[trigger] bit(span, u) && bit(enemy_pieces, u);
                assert(on_file_below(piece, u));
                let w = choose|w: int|
                    #[trigger] bit(piece, w) && bitboards::file_of(w) == bitboards::file_of(u)
                        && bitboards::rank_of(w) < bitboards::rank_of(u);
                lemma_bit_single(idx as u64, w);
                assert(bit(enemy_pieces, u) && bitboards::file_of(u) == bitboards::file_of(idx as int)
                    && bitboards::rank_of(u) > bitboards::rank_of(idx as int));
            }
        }
        if span & enemy_pieces == 0u64 {
            passed_not_blocked = passed_not_blocked | piece;
        }
        passed_board = passed_board ^ piece;
        proof {
            assert forall|t: int| 0 <= t < 64 implies #[trigger] bit(passed_not_blocked, t) == (bit(
                passed_board_cl,
                t,
            ) && !bit(passed_board, t) && !on_file_above(enemy_pieces, t)) by {
                lemma_bit_ops(old_pnb, piece, t);
                lemma_bit_single(idx as u64, t);
                assert(bit(passed_board, t) == (bit(old_pb, t) && t != idx));
            }
        }
    }
    proof {
        bitboards::lemma_zero_board(passed_board);
    }
    (passed_board_cl, passed_not_blocked)
}

/// The passed black pawns, and those of them with no enemy piece ahead (towards rank 1)
/// on their file.
pub fn b_passed_pawns(b_pawns: u64, w_pawns_all_front_spans: u64, enemy_pieces: u64) -> (res: (u64, u64))
    ensures
        forall|t: int|
            0 <= t < 64 ==> #[trigger] bit(res.0, t) == (bit(b_pawns, t) && !bit(
                w_pawns_all_front_spans,
                t,
            )),
        forall|t: int|
            0 <= t < 64 ==> #[trigger] bit(res.1, t) == (bit(res.0, t) && !on_file_below(
                enemy_pieces,
                t,
            )),
{
    let mut passed_board = b_pawns & !w_pawns_all_front_spans;
    let passed_board_cl = passed_board;
    let mut passed_not_blocked = 0u64;
    proof {
        assert forall|t: int| 0 <= t < 64 implies #[trigger] bit(passed_board_cl, t) == (bit(
            b_pawns,
            t,
        ) && !bit(w_pawns_all_front_spans, t)) by {
            lemma_bit_ops(b_pawns, !w_pawns_all_front_spans, t);
            lemma_bit_ops(w_pawns_all_front_spans, 0, t);
        }
        assert forall|t: int| 0 <= t < 64 implies !#[trigger] bit(passed_not_blocked, t) by {
            lemma_bit_single(0, t);
        }
    }
    while passed_board != 0u64
        invariant
            forall|t: int| 0 <= t < 64 ==> #[trigger] bit(passed_board, t) ==> bit(passed_board_cl, t),
            forall|t: int|
                0 <= t < 64 ==> #[trigger] bit(passed_not_blocked, t) == (bit(passed_board_cl, t)
                    && !bit(passed_board, t) && !on_file_below(enemy_pieces, t)),
        decreases passed_board,
    {
        proof {
            lemma_clear_lowest(passed_board);
        }
        let idx = passed_board.trailing_zeros() as usize;
        let piece = 1u64 << idx as u64;
        let span = bitboards::b_front_span(piece);
        let ghost old_pnb = passed_not_blocked;
        let ghost old_pb = passed_board;
        proof {
            lemma_and_zero(span, enemy_pieces);
            if span & enemy_pieces == 0u64 {
                if on_file_below(enemy_pieces, idx as int) {
                    let s = choose|s: int|
                        #[trigger] bit(enemy_pieces, s) && bitboards::file_of(s) == bitboards::file_of(
                            idx as int,
                        ) && bitboards::rank_of(s) < bitboards::rank_of(idx as int);
                    lemma_bit_single(idx as u64, idx as int);
                    assert(bit(piece, idx as int) && bitboards::file_of(idx as int) == bitboards::file_of(s)
                        && bitboards::rank_of(idx as int) > bitboards::rank_of(s));
                    assert(bit(span, s));
                }
            } else {
                let u = choose|u: int| 0 <= u < 64 && #[trigger] bit(span, u) && bit(enemy_pieces, u);
                assert(on_file_above(piece, u));
                let w = choose|w: int|
                    #[trigger] bit(piece, w) && bitboards::file_of(w) == bitboards::file_of(u)
                        && bitboards::rank_of(w) > bitboards::rank_of(u);
                lemma_bit_single(idx as u64, w);
                assert(bit(enemy_pieces, u) && bitboards::file_of(u) == bitboards::file_of(idx as int)
                    && bitboards::rank_of(u) < bitboards::rank_of(idx as int));
            }
        }
        if span & enemy_pieces == 0u64 {
            passed_not_blocked = passed_not_blocked | piece;
        }
        passed_board = passed_board ^ piece;
        proof {
            assert forall|t: int| 0 <= t < 64 implies #[trigger] bit(passed_not_blocked, t) == (bit(
                passed_board_cl,
                t,
            ) && !bit(passed_board, t) && !on_file_below(enemy_pieces, t)) by {
                lemma_bit_ops(old_pnb, piece, t);
                lemma_bit_single(idx as u64, t);
                assert(bit(passed_board, t) == (bit(old_pb, t) && t != idx));
            }
        }
    }
    proof {
        bitboards::lemma_zero_board(passed_board);
    }
    (passed_board_cl, passed_not_blocked)
}

/// White's passed pawns, counting only the front pawn of a doubled file.
pub fn passed_eval_white(w_pawns: u64, b_pawns_all_front_spans: u64, enemy_pieces: u64) -> (res: PassedEvaluation)
    ensures
        res.is_white,
        forall|t: int|
            0 <= t < 64 ==> #[trigger] bit(res.passed_pawns, t) == (bit(w_pawns, t) && !on_file_above(
                w_pawns,
                t,
            ) && !bit(b_pawns_all_front_spans, t)),
        forall|t: int|
            0 <= t < 64 ==> #[trigger] bit(res.passed_not_blocked_pawns, t) == (bit(
                res.passed_pawns,
                t,
            ) && !on_file_above(enemy_pieces, t)),
{
    let rear = bitboards::w_rear_span(w_pawns);
    let front_pawns = w_pawns & !rear;
    let (passed_pawns, passed_not_blocked) = w_passed_pawns(
        front_pawns,
        b_pawns_all_front_spans,
        enemy_pieces,
    );
    proof {
        assert forall|t: int| 0 <= t < 64 implies #[trigger] bit(front_pawns, t) == (bit(w_pawns, t)
            && !on_file_above(w_pawns, t)) by {
            lemma_bit_ops(w_pawns, !rear, t);
            lemma_bit_ops(rear, 0, t);
        }
    }
    PassedEvaluation { passed_pawns, passed_not_blocked_pawns: passed_not_blocked, is_white: true }
}

/// Black's passed pawns, counting only the front pawn of a doubled file.
pub fn passed_eval_black(b_pawns: u64, w_pawns_all_front_spans: u64, enemy_pieces: u64) -> (res: PassedEvaluation)
    ensures
        !res.is_white,
        forall|t: int|
            0 <= t < 64 ==> #[trigger] bit(res.passed_pawns, t) == (bit(b_pawns, t) && !on_file_below(
                b_pawns,
                t,
            ) && !bit(w_pawns_all_front_spans, t)),
        forall|t: int|
            0 <= t < 64 ==> #[trigger] bit(res.passed_not_blocked_pawns, t) == (bit(
                res.passed_pawns,
                t,
            ) && !on_file_below(enemy_pieces, t)),
{
    let rear = bitboards::b_rear_span(b_pawns);
    let front_pawns = b_pawns & !rear;
    let (passed_pawns, passed_not_blocked) = b_passed_pawns(
        front_pawns,
        w_pawns_all_front_spans,
        enemy_pieces,
    );
    proof {
        assert forall|t: int| 0 <= t < 64 implies #[trigger] bit(front_pawns, t) == (bit(b_pawns, t)
            && !on_file_below(b_pawns, t)) by {
            lemma_bit_ops(b_pawns, !rear, t);
            lemma_bit_ops(rear, 0, t);
        }
    }
    PassedEvaluation { passed_pawns, passed_not_blocked_pawns: passed_not_blocked, is_white: false }
}

} // verus!
