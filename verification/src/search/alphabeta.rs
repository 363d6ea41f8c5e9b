use crate::board_representation::game_state::GameMove;
use crate::move_generation::movegen::MoveList;
use crate::search::searcher::Search;
use crate::search::{CombinedSearchParameters, SearchInstruction, MATE_SCORE};
use vstd::prelude::*;

verus! {

pub const FUTILITY_MARGIN: i16 = 90;
pub const FUTILITY_DEPTH: i16 = 6;
pub const STATIC_NULL_MOVE_MARGIN: i16 = 120;
pub const STATIC_NULL_MOVE_DEPTH: i16 = 5;
pub const NULL_MOVE_PRUNING_DEPTH: i16 = 3;

/// A move already tried as the line's move or the table's move is skipped.
pub fn is_duplicate(mv: &GameMove, pv_table_move: &Option<GameMove>, tt_move: &Option<GameMove>) -> (res:
    SearchInstruction)
    ensures
        res == if *pv_table_move == Some(*mv) || *tt_move == Some(*mv) {
            SearchInstruction::SkipMove
        } else {
            SearchInstruction::ContinueSearching
        },
{
    if let Some(pv_move) = pv_table_move.as_ref() {
        if *mv == *pv_move {
            return SearchInstruction::SkipMove;
        }
    }
    if let Some(tt_mv) = tt_move.as_ref() {
        if *mv == *tt_mv {
            return SearchInstruction::SkipMove;
        }
    }
    SearchInstruction::ContinueSearching
}

/// The window narrowed to the mate scores still possible at this depth: no better than
/// mating with the next move, no worse than being mated now.
pub open spec fn mate_window(p: CombinedSearchParameters) -> (int, int) {
    let beta = if p.beta <= MATE_SCORE - (p.current_depth + 1) {
        p.beta as int
    } else {
        MATE_SCORE - (p.current_depth + 1)
    };
    let alpha = if p.alpha >= -(MATE_SCORE - p.current_depth) {
        p.alpha as int
    } else {
        -(MATE_SCORE - p.current_depth)
    };
    (alpha, beta)
}

/// Mate-distance pruning only narrows the window, and to the scores a mate can still
/// reach from the node: no better than mating at the next ply, no worse than being mated
/// here. A bound already inside that range is kept as it is.
pub proof fn lemma_mate_window_narrows(p: CombinedSearchParameters)
    ensures
        mate_window(p).0 >= p.alpha,
        mate_window(p).1 <= p.beta,
        mate_window(p).0 >= -(MATE_SCORE - p.current_depth),
        mate_window(p).1 <= MATE_SCORE - (p.current_depth + 1),
        p.alpha >= -(MATE_SCORE - p.current_depth) ==> mate_window(p).0 == p.alpha,
        p.beta <= MATE_SCORE - (p.current_depth + 1) ==> mate_window(p).1 == p.beta,
{
}

/// Narrows the window to the mate scores still possible, and stops the search where
/// nothing is left between its bounds.
pub fn mate_distance_pruning(p: &mut CombinedSearchParameters) -> (res: SearchInstruction)
    requires
        old(p).current_depth < i16::MAX,
    ensures
        final(p).alpha == mate_window(*old(p)).0,
        final(p).beta == mate_window(*old(p)).1,
        final(p).depth_left == old(p).depth_left,
        final(p).game_state == old(p).game_state,
        final(p).color == old(p).color,
        final(p).current_depth == old(p).current_depth,
        res == if mate_window(*old(p)).0 >= mate_window(*old(p)).1 {
            SearchInstruction::StopSearching(final(p).alpha)
        } else {
            SearchInstruction::ContinueSearching
        },
{
    let depth = p.current_depth as i16;
    let most = MATE_SCORE - (depth + 1);
    if most < p.beta {
        p.beta = most;
    }
    let least = -(MATE_SCORE - depth);
    if least > p.alpha {
        p.alpha = least;
    }
    if p.alpha >= p.beta {
        return SearchInstruction::StopSearching(p.alpha);
    }
    SearchInstruction::ContinueSearching
}

/// Futility pruning applies near the leaves, below the root.
pub open spec fn futility_applies(p: CombinedSearchParameters) -> bool {
    p.depth_left <= FUTILITY_DEPTH && p.current_depth > 0
}

/// The score under which a quiet move is futile: the static evaluation from the side to
/// move's view with a margin for each ply left, where futility pruning applies; the mate
/// score, which no move falls under, elsewhere.
pub fn prepare_futility_pruning(p: &CombinedSearchParameters, static_evaluation: Option<i16>) -> (res:
    i16)
    requires
        futility_applies(*p) ==> static_evaluation is Some,
        futility_applies(*p) ==> i16::MIN <= static_evaluation->0 * p.color <= i16::MAX,
        futility_applies(*p) ==> i16::MIN <= p.depth_left * FUTILITY_MARGIN <= i16::MAX,
        futility_applies(*p) ==> i16::MIN <= static_evaluation->0 * p.color + p.depth_left
            * FUTILITY_MARGIN <= i16::MAX,
    ensures
        res == if futility_applies(*p) {
            static_evaluation->0 * p.color + p.depth_left * FUTILITY_MARGIN
        } else {
            MATE_SCORE as int
        },
{
    let futil_pruning = p.depth_left <= FUTILITY_DEPTH && p.current_depth > 0;
    if futil_pruning {
        let evaluation = static_evaluation.unwrap();
        evaluation * p.color + p.depth_left * FUTILITY_MARGIN
    } else {
        MATE_SCORE
    }
}

/// How often the pair of squares (`f`, `t`) occurs among the first `n` quiet moves tried.
pub open spec fn tried_count(tried: [Option<GameMove>; 128], n: int, f: int, t: int) -> nat
    decreases n,
{
    if n <= 0 {
        0
    } else {
        tried_count(tried, n - 1, f, t) + if (tried[n - 1] matches Some(m) && m.from == f && m.to
            == t) {
            1nat
        } else {
            0nat
        }
    }
}

/// The first `n` quiet moves tried are there, and on the board.
pub open spec fn tried_moves_ok(tried: [Option<GameMove>; 128], n: int) -> bool {
    &&& 0 <= n <= 128
    &&& forall|i: int|
        0 <= i < n ==> ((#[trigger] tried[i]) matches Some(m) && m.from < 64 && m.to < 64)
}

/// Lowers the history score of each of the first `quiets_tried` quiet moves tried at
/// `current_depth` by the square of `depth_left`, for the side `side_to_move`.
pub fn decrement_history_quiets(
    search: &mut Search,
    current_depth: usize,
    quiets_tried: usize,
    depth_left: isize,
    side_to_move: usize,
)
    requires
        current_depth < 100,
        side_to_move < 2,
        tried_moves_ok(old(search).quiets_tried[current_depth as int], quiets_tried as int),
        0 <= depth_left * depth_left <= isize::MAX,
        forall|f: int, t: int|
            0 <= f < 64 && 0 <= t < 64 ==> isize::MIN <= #[trigger] old(search).history_score[side_to_move as int][f][t]
                - depth_left * depth_left * tried_count(
                old(search).quiets_tried[current_depth as int],
                quiets_tried as int,
                f,
                t,
            ),
    ensures
        final(search).quiets_tried == old(search).quiets_tried,
        final(search).hh_score == old(search).hh_score,
        final(search).killer_moves == old(search).killer_moves,
        final(search).history_score[1 - side_to_move] == old(search).history_score[1 - side_to_move],
        forall|f: int, t: int|
            0 <= f < 64 && 0 <= t < 64 ==> #[trigger] final(search).history_score[side_to_move as int][f][t]
                == old(search).history_score[side_to_move as int][f][t] - depth_left * depth_left
                * tried_count(old(search).quiets_tried[current_depth as int], quiets_tried as int, f, t),
{
    let penalty = depth_left * depth_left;
    proof {
        assert forall|f: int, t: int| 0 <= f < 64 && 0 <= t < 64 implies #[trigger] search.history_score[side_to_move as int][f][t]
            == old(search).history_score[side_to_move as int][f][t] - penalty * tried_count(
            search.quiets_tried[current_depth as int],
            0,
            f,
            t,
        ) by {
            assert(tried_count(search.quiets_tried[current_depth as int], 0, f, t) == 0);
            assert(penalty * 0 == 0) by (nonlinear_arith);
        }
    }
    let mut i: usize = 0;
    while i < quiets_tried
        invariant
            i <= quiets_tried,
            current_depth < 100,
            side_to_move < 2,
            search.quiets_tried == old(search).quiets_tried,
            search.hh_score == old(search).hh_score,
            search.killer_moves == old(search).killer_moves,
            search.history_score[1 - side_to_move] == old(search).history_score[1 - side_to_move],
            tried_moves_ok(search.quiets_tried[current_depth as int], quiets_tried as int),
            penalty == depth_left * depth_left,
            0 <= penalty,
            forall|f: int, t: int|
                0 <= f < 64 && 0 <= t < 64 ==> isize::MIN <= #[trigger] old(search).history_score[side_to_move as int][f][t]
                    - penalty * tried_count(search.quiets_tried[current_depth as int], quiets_tried as int, f, t),
            forall|f: int, t: int|
                0 <= f < 64 && 0 <= t < 64 ==> #[trigger] search.history_score[side_to_move as int][f][t]
                    == old(search).history_score[side_to_move as int][f][t] - penalty * tried_count(
                    search.quiets_tried[current_depth as int],
                    i as int,
                    f,
                    t,
                ),
        decreases quiets_tried - i,
    {
        let mv = search.quiets_tried[current_depth][i].unwrap();
        let from = mv.from;
        let to = mv.to;
        proof {
            lemma_tried_count_mono(search.quiets_tried[current_depth as int], i as int + 1, quiets_tried as int, from as int, to as int);
            assert(penalty * tried_count(search.quiets_tried[current_depth as int], i as int + 1, from as int, to as int)
                <= penalty * tried_count(search.quiets_tried[current_depth as int], quiets_tried as int, from as int, to as int)) by (nonlinear_arith)
                requires
                    0 <= penalty,
                    tried_count(search.quiets_tried[current_depth as int], i as int + 1, from as int, to as int)
                        <= tried_count(search.quiets_tried[current_depth as int], quiets_tried as int, from as int, to as int);
            assert(penalty * tried_count(search.quiets_tried[current_depth as int], i as int + 1, from as int, to as int)
                == penalty * tried_count(search.quiets_tried[current_depth as int], i as int, from as int, to as int) + penalty) by (nonlinear_arith)
                requires
                    tried_count(search.quiets_tried[current_depth as int], i as int + 1, from as int, to as int)
                        == tried_count(search.quiets_tried[current_depth as int], i as int, from as int, to as int) + 1;
        }
        let old_value = search.history_score[side_to_move][from][to];
        let mut side = search.history_score[side_to_move];
        let mut row = side[from];
        row[to] = old_value - penalty;
        side[from] = row;
        search.history_score[side_to_move] = side;
        i += 1;
    }
}

proof fn lemma_tried_count_mono(tried: [Option<GameMove>; 128], a: int, b: int, f: int, t: int)
    requires
        a <= b,
    ensures
        tried_count(tried, a, f, t) <= tried_count(tried, b, f, t),
    decreases b - a,
{
    if a < b {
        lemma_tried_count_mono(tried, a, b - 1, f, t);
    }
}

/// The killer moves after `mv` cut off: unchanged where it is one of them already, else
/// `mv` first and the former first one second (where there was one).
pub open spec fn killers_after(k: [Option<GameMove>; 2], mv: GameMove) -> (Option<GameMove>, Option<GameMove>) {
    if k[0] == Some(mv) || k[1] == Some(mv) {
        (k[0], k[1])
    } else if k[0] is Some {
        (Some(mv), k[0])
    } else {
        (Some(mv), k[1])
    }
}

/// Rewards the quiet move `mv` that cut off the search: its history and butterfly-hit
/// scores grow by the square of the depth left, the quiet moves tried before it lose as
/// much history score, and it becomes a killer move of the ply.
pub fn update_quiet_cutoff(
    p: &CombinedSearchParameters,
    search: &mut Search,
    mv: &GameMove,
    quiets_tried: usize,
)
    requires
        p.game_state.color_to_move < 2,
        p.current_depth < 100,
        0 <= p.depth_left,
        mv.from < 64,
        mv.to < 64,
        tried_moves_ok(old(search).quiets_tried[p.current_depth as int], quiets_tried as int),
        old(search).hh_score[p.game_state.color_to_move as int][mv.from as int][mv.to as int]
            + p.depth_left * p.depth_left <= usize::MAX,
        old(search).history_score[p.game_state.color_to_move as int][mv.from as int][mv.to as int]
            + p.depth_left * p.depth_left <= isize::MAX,
        forall|f: int, t: int|
            0 <= f < 64 && 0 <= t < 64 ==> isize::MIN <= #[trigger] old(search).history_score[p.game_state.color_to_move as int][f][t]
                + (if f == mv.from && t == mv.to {
                p.depth_left * p.depth_left
            } else {
                0
            }) - p.depth_left * p.depth_left * tried_count(
                old(search).quiets_tried[p.current_depth as int],
                quiets_tried as int,
                f,
                t,
            ),
    ensures
        final(search).quiets_tried == old(search).quiets_tried,
        forall|f: int, t: int|
            0 <= f < 64 && 0 <= t < 64 ==> #[trigger] final(search).hh_score[p.game_state.color_to_move as int][f][t]
                == old(search).hh_score[p.game_state.color_to_move as int][f][t] + if f == mv.from
                && t == mv.to {
                p.depth_left * p.depth_left
            } else {
                0
            },
        final(search).hh_score[1 - p.game_state.color_to_move] == old(search).hh_score[1
            - p.game_state.color_to_move],
        forall|f: int, t: int|
            0 <= f < 64 && 0 <= t < 64 ==> #[trigger] final(search).history_score[p.game_state.color_to_move as int][f][t]
                == old(search).history_score[p.game_state.color_to_move as int][f][t] + (if f
                == mv.from && t == mv.to {
                p.depth_left * p.depth_left
            } else {
                0
            }) - p.depth_left * p.depth_left * tried_count(
                old(search).quiets_tried[p.current_depth as int],
                quiets_tried as int,
                f,
                t,
            ),
        final(search).history_score[1 - p.game_state.color_to_move] == old(
            search,
        ).history_score[1 - p.game_state.color_to_move],
        (final(search).killer_moves[p.current_depth as int][0], final(search).killer_moves[p.current_depth as int][1])
            == killers_after(old(search).killer_moves[p.current_depth as int], *mv),
        forall|d: int|
            0 <= d < 100 && d != p.current_depth ==> #[trigger] final(search).killer_moves[d]
                == old(search).killer_moves[d],
{
    let c = p.game_state.color_to_move;
    let cd = p.current_depth;
    let ghost start = *search;
    proof {
        let d = p.depth_left as int;
        assert(0 <= d * d <= 32767 * 32767) by (nonlinear_arith)
            requires
                0 <= d <= 32767,
        ;
    }
    let bonus = (p.depth_left as usize) * (p.depth_left as usize);
    let mut hh_side = search.hh_score[c];
    let mut hh_row = hh_side[mv.from];
    hh_row[mv.to] = hh_row[mv.to] + bonus;
    hh_side[mv.from] = hh_row;
    search.hh_score[c] = hh_side;
    let weight = (p.depth_left as isize) * (p.depth_left as isize);
    let mut h_side = search.history_score[c];
    let mut h_row = h_side[mv.from];
    h_row[mv.to] = h_row[mv.to] + weight;
    h_side[mv.from] = h_row;
    search.history_score[c] = h_side;
    decrement_history_quiets(search, cd, quiets_tried, p.depth_left as isize, c);
    if let Some(s) = search.killer_moves[cd][0] {
        if *mv == s {
            return;
        }
    }
    if let Some(s) = search.killer_moves[cd][1] {
        if *mv == s {
            return;
        }
    }
    let mut killers = search.killer_moves[cd];
    if let Some(s) = killers[0] {
        killers[1] = Some(s);
    }
    killers[0] = Some(*mv);
    search.killer_moves[cd] = killers;
}

/// How many moves are tried before the generated ones: the line's move where there is
/// one, and the table's move where there is one that differs from it.
pub open spec fn moves_before_generated(pv_table_move: Option<GameMove>, tt_move: Option<GameMove>) -> nat {
    (if pv_table_move is Some {
        1nat
    } else {
        0nat
    }) + (if tt_move is Some && tt_move != pv_table_move {
        1nat
    } else {
        0nat
    })
}

/// Readies the staged move generation of a node: empties the node's move list where its
/// moves were not generated yet, and counts the moves tried before the generated ones.
pub fn prepare_staged_movegen(
    move_list: &mut MoveList,
    has_generated_moves: bool,
    pv_table_move: &Option<GameMove>,
    tt_move: &Option<GameMove>,
) -> (res: usize)
    ensures
        res == moves_before_generated(*pv_table_move, *tt_move),
        final(move_list).move_list@ == if has_generated_moves {
            old(move_list).move_list@
        } else {
            Seq::<GameMove>::empty()
        },
{
    if !has_generated_moves {
        move_list.move_list = Vec::new();
    }
    let mut hash_and_pv_move_counter: usize = 0;
    if pv_table_move.is_some() {
        hash_and_pv_move_counter += 1;
    }
    if tt_move.is_some() && pv_table_move.is_none() {
        hash_and_pv_move_counter += 1;
    } else if tt_move.is_some() {
        if tt_move.unwrap() != pv_table_move.unwrap() {
            hash_and_pv_move_counter += 1;
        }
    }
    hash_and_pv_move_counter
}

} // verus!
