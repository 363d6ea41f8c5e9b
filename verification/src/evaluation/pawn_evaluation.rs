use crate::bitboards::{self, bit, count_where, file_of, lemma_bit_ops, lemma_popcount_where, on_file, popcount, rank_of};
use vstd::prelude::*;

verus! {

/// The pawn structure of one side, by counts.
pub struct PawnEvaluation {
    pub amount_of_pawns: u32,
    pub doubled_pawns: u32,
    pub isolated_pawns: u32,
    pub backwards_pawns: u32,
}

/// A white pawn's stop square (the square in front of it) is attacked by a black pawn
/// and no white pawn can ever guard it.
pub open spec fn w_backward_stop(w_pawns: u64, w_pawn_attack_span: u64, black_pawn_attacks: u64, t: int) -> bool {
    rank_of(t) >= 1 && bit(w_pawns, t - 8) && bit(black_pawn_attacks, t) && !bit(w_pawn_attack_span, t)
}

/// The black counterpart of `w_backward_stop`.
pub open spec fn b_backward_stop(b_pawns: u64, b_pawn_attack_span: u64, white_pawn_attacks: u64, t: int) -> bool {
    rank_of(t) <= 6 && bit(b_pawns, t + 8) && bit(white_pawn_attacks, t) && !bit(b_pawn_attack_span, t)
}

/// A pawn with no friendly pawn filled on a neighbouring file.
pub open spec fn isolated_at(pawns: u64, file_fill: u64, t: int) -> bool {
    bit(pawns, t) && !(file_of(t) <= 6 && bit(file_fill, t + 1)) && !(file_of(t) >= 1 && bit(
        file_fill,
        t - 1,
    ))
}

/// The number of backward white pawns.
pub fn w_backwards(w_pawns: u64, w_pawn_attack_span: u64, black_pawn_attacks: u64) -> (res: u32)
    ensures
        res as nat == count_where(
            |t: int| w_backward_stop(w_pawns, w_pawn_attack_span, black_pawn_attacks, t),
            64,
        ),
{
    let stops = w_pawns << 8u64;
    let a = stops & black_pawn_attacks;
    let x = a & !w_pawn_attack_span;
    proof {
        assert forall|t: int| 0 <= t < 64 implies #[trigger] bit(x, t) == w_backward_stop(
            w_pawns,
            w_pawn_attack_span,
            black_pawn_attacks,
            t,
        ) by {
            lemma_bit_ops(a, !w_pawn_attack_span, t);
            lemma_bit_ops(stops, black_pawn_attacks, t);
            lemma_bit_ops(w_pawn_attack_span, 0, t);
            bitboards::lemma_bit_shl(w_pawns, 8, t);
        }
        lemma_popcount_where(
            x,
            |t: int| w_backward_stop(w_pawns, w_pawn_attack_span, black_pawn_attacks, t),
        );
    }
    x.count_ones()
}

/// The number of backward black pawns.
pub fn b_backwards(b_pawns: u64, b_pawn_attack_span: u64, white_pawn_attacks: u64) -> (res: u32)
    ensures
        res as nat == count_where(
            |t: int| b_backward_stop(b_pawns, b_pawn_attack_span, white_pawn_attacks, t),
            64,
        ),
{
    let stops = b_pawns >> 8u64;
    let a = stops & white_pawn_attacks;
    let x = a & !b_pawn_attack_span;
    proof {
        assert forall|t: int| 0 <= t < 64 implies #[trigger] bit(x, t) == b_backward_stop(
            b_pawns,
            b_pawn_attack_span,
            white_pawn_attacks,
            t,
        ) by {
            lemma_bit_ops(a, !b_pawn_attack_span, t);
            lemma_bit_ops(stops, white_pawn_attacks, t);
            lemma_bit_ops(b_pawn_attack_span, 0, t);
            bitboards::lemma_bit_shr(b_pawns, 8, t);
        }
        lemma_popcount_where(
            x,
            |t: int| b_backward_stop(b_pawns, b_pawn_attack_span, white_pawn_attacks, t),
        );
    }
    x.count_ones()
}

/// The number of pawns standing inside `front_span` (behind another own pawn when that
/// is the pawns' front span).
pub fn pawns_behind_own(pawns: u64, front_span: u64) -> (res: u32)
    ensures
        res as nat == count_where(|t: int| bit(pawns, t) && bit(front_span, t), 64),
{
    let x = pawns & front_span;
    proof {
        assert forall|t: int| 0 <= t < 64 implies #[trigger] bit(x, t) == (bit(pawns, t) && bit(
            front_span,
            t,
        )) by {
            lemma_bit_ops(pawns, front_span, t);
        }
        lemma_popcount_where(x, |t: int| bit(pawns, t) && bit(front_span, t));
    }
    x.count_ones()
}

/// The number of pawns with no square of `file_fill` on a neighbouring file.
pub fn isolated_pawns(pawns: u64, file_fill: u64) -> (res: u32)
    ensures
        res as nat == count_where(|t: int| isolated_at(pawns, file_fill, t), 64),
{
    let w = bitboards::west_one(file_fill);
    let e = bitboards::east_one(file_fill);
    let a = pawns & !w;
    let x = a & !e;
    proof {
        assert forall|t: int| 0 <= t < 64 implies #[trigger] bit(x, t) == isolated_at(
            pawns,
            file_fill,
            t,
        ) by {
            lemma_bit_ops(a, !e, t);
            lemma_bit_ops(pawns, !w, t);
            lemma_bit_ops(w, e, t);
            lemma_bit_ops(e, w, t);
        }
        lemma_popcount_where(x, |t: int| isolated_at(pawns, file_fill, t));
    }
    x.count_ones()
}

/// The pawn structure of white's pawns.
pub fn pawn_eval_white(
    w_pawns: u64,
    w_pawns_front_span: u64,
    w_pawn_attack_span: u64,
    black_pawn_attacks: u64,
) -> (res: PawnEvaluation)
    ensures
        res.amount_of_pawns as nat == popcount(w_pawns),
        res.doubled_pawns as nat == count_where(
            |t: int| bit(w_pawns, t) && bit(w_pawns_front_span, t),
            64,
        ),
        res.isolated_pawns as nat == count_where(
            |t: int| bit(w_pawns, t) && !(file_of(t) <= 6 && on_file(w_pawns, t + 1)) && !(file_of(t)
                >= 1 && on_file(w_pawns, t - 1)),
            64,
        ),
        res.backwards_pawns as nat == count_where(
            |t: int| w_backward_stop(w_pawns, w_pawn_attack_span, black_pawn_attacks, t),
            64,
        ),
{
    let file_fill = bitboards::file_fill(w_pawns);
    let amount_of_pawns = w_pawns.count_ones();
    let doubled_pawns = pawns_behind_own(w_pawns, w_pawns_front_span);
    let isolated_pawns = isolated_pawns(w_pawns, file_fill);
    let backwards_pawns = w_backwards(w_pawns, w_pawn_attack_span, black_pawn_attacks);
    proof {
        lemma_isolated_by_files(w_pawns, file_fill);
    }
    PawnEvaluation { amount_of_pawns, doubled_pawns, isolated_pawns, backwards_pawns }
}

/// The pawn structure of black's pawns.
pub fn pawn_eval_black(
    b_pawns: u64,
    b_pawns_front_span: u64,
    b_pawn_attack_span: u64,
    white_pawn_attacks: u64,
) -> (res: PawnEvaluation)
    ensures
        res.amount_of_pawns as nat == popcount(b_pawns),
        res.doubled_pawns as nat == count_where(
            |t: int| bit(b_pawns, t) && bit(b_pawns_front_span, t),
            64,
        ),
        res.isolated_pawns as nat == count_where(
            |t: int| bit(b_pawns, t) && !(file_of(t) <= 6 && on_file(b_pawns, t + 1)) && !(file_of(t)
                >= 1 && on_file(b_pawns, t - 1)),
            64,
        ),
        res.backwards_pawns as nat == count_where(
            |t: int| b_backward_stop(b_pawns, b_pawn_attack_span, white_pawn_attacks, t),
            64,
        ),
{
    let file_fill = bitboards::file_fill(b_pawns);
    let amount_of_pawns = b_pawns.count_ones();
    let doubled_pawns = pawns_behind_own(b_pawns, b_pawns_front_span);
    let isolated_pawns = isolated_pawns(b_pawns, file_fill);
    let backwards_pawns = b_backwards(b_pawns, b_pawn_attack_span, white_pawn_attacks);
    proof {
        lemma_isolated_by_files(b_pawns, file_fill);
    }
    PawnEvaluation { amount_of_pawns, doubled_pawns, isolated_pawns, backwards_pawns }
}

proof fn lemma_isolated_by_files(pawns: u64, file_fill: u64)
    requires
        forall|t: int| 0 <= t < 64 ==> #[trigger] bit(file_fill, t) == on_file(pawns, t),
    ensures
        count_where(|t: int| isolated_at(pawns, file_fill, t), 64) == count_where(
            |t: int| bit(pawns, t) && !(file_of(t) <= 6 && on_file(pawns, t + 1)) && !(file_of(t)
                >= 1 && on_file(pawns, t - 1)),
            64,
        ),
{
    let p = |t: int| isolated_at(pawns, file_fill, t);
    let q = |t: int| bit(pawns, t) && !(file_of(t) <= 6 && on_file(pawns, t + 1)) && !(file_of(t)
        >= 1 && on_file(pawns, t - 1));
    assert forall|t: int| 0 <= t < 64 implies #[trigger] p(t) == q(t) by {
        if file_of(t) <= 6 {
            assert(bit(file_fill, t + 1) == on_file(pawns, t + 1));
        }
        if file_of(t) >= 1 {
            assert(bit(file_fill, t - 1) == on_file(pawns, t - 1));
        }
    }
    lemma_count_where_same(p, q, 64);
}

/// Two predicates that agree on the board count alike.
pub proof fn lemma_count_where_same(p: spec_fn(int) -> bool, q: spec_fn(int) -> bool, n: nat)
    requires
        n <= 64,
        forall|t: int| 0 <= t < 64 ==> #[trigger] p(t) == q(t),
    ensures
        count_where(p, n) == count_where(q, n),
    decreases n,
{
    if n > 0 {
        lemma_count_where_same(p, q, (n - 1) as nat);
        assert(p(n - 1) == q(n - 1));
    }
}

} // verus!
