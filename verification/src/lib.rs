use crate::board_representation::game_state::{GameMove, GameState};
use crate::board_representation::zobrist_hashing::Zobrist;
use crate::move_generation::makemove::{make_move, move_result};
use crate::move_generation::movegen::{
    generate_moves, generated_move_list, position_ok, AdditionalBitBoards, MoveList,
};
use crate::move_generation::position_check::check_position;
use vstd::prelude::*;

pub mod bitboards;
pub mod board_representation;
pub mod evaluation;
pub mod misc;
pub mod move_generation;
pub mod search;

verus! {

/// The sum of a sequence of counts.
pub open spec fn count_sum(s: Seq<int>) -> int
    decreases s.len(),
{
    if s.len() == 0 {
        0
    } else {
        count_sum(s.drop_last()) + s.last()
    }
}

/// `n` counts the move paths of length `depth` from `g`: at every position on a path
/// the moves are those of a list that the move generator may give for it, and each move
/// leads to the position that making it gives.
pub open spec fn perft_count(keys: Zobrist, g: GameState, depth: nat, n: int) -> bool
    decreases depth,
{
    if depth == 0 {
        n == 1
    } else {
        exists|abb: AdditionalBitBoards, moves: Seq<GameMove>, children: Seq<GameState>, counts: Seq<int>|
            #[trigger] perft_level(g, depth, n, abb, moves, children, counts) && (depth > 1
                ==> forall|i: int|
                0 <= i < moves.len() ==> move_result(keys, g, #[trigger] moves[i], children[i])
                    && perft_count(keys, children[i], (depth - 1) as nat, counts[i]))
    }
}

/// One level of [`perft_count`]: `moves` is a move list for `g`; for depth one `n` is its
/// length, and for a greater depth `n` is the sum of `counts`, one count for each move.
pub open spec fn perft_level(
    g: GameState,
    depth: nat,
    n: int,
    abb: AdditionalBitBoards,
    moves: Seq<GameMove>,
    children: Seq<GameState>,
    counts: Seq<int>,
) -> bool {
    &&& generated_move_list(g, abb, false, moves)
    &&& depth == 1 ==> n == moves.len()
    &&& depth > 1 ==> {
        &&& children.len() == moves.len()
        &&& counts.len() == moves.len()
        &&& n == count_sum(counts)
    }
}

proof fn lemma_perft_count_intro(
    keys: Zobrist,
    g: GameState,
    depth: nat,
    n: int,
    abb: AdditionalBitBoards,
    moves: Seq<GameMove>,
    children: Seq<GameState>,
    counts: Seq<int>,
)
    requires
        depth > 1,
        perft_level(g, depth, n, abb, moves, children, counts),
        forall|i: int|
            0 <= i < moves.len() ==> move_result(keys, g, #[trigger] moves[i], children[i])
                && perft_count(keys, children[i], (depth - 1) as nat, counts[i]),
    ensures
        perft_count(keys, g, depth, n),
{
    assert(exists|a: AdditionalBitBoards, m: Seq<GameMove>, c: Seq<GameState>, k: Seq<int>|
        #[trigger] perft_level(g, depth, n, a, m, c, k) && (depth > 1 ==> forall|i: int|
            0 <= i < m.len() ==> move_result(keys, g, #[trigger] m[i], c[i]) && perft_count(
                keys,
                c[i],
                (depth - 1) as nat,
                k[i],
            ))) by {
        assert(perft_level(g, depth, n, abb, moves, children, counts));
    }
    reveal_with_fuel(perft_count, 2);
}

proof fn lemma_count_sum_push(s: Seq<int>, x: int)
    ensures
        count_sum(s.push(x)) == count_sum(s) + x,
{
    assert(s.push(x).drop_last() =~= s);
}

/// The number of move paths of length `depth` from `g`. `None` where the count does not
/// fit in a `u64`, where a move counter stands at its largest value, or where a move
/// leads to a position that [`position_ok`] refuses.
#[verifier::spinoff_prover]
pub fn perft(keys: &Zobrist, g: &GameState, depth: usize) -> (res: Option<u64>)
    requires
        position_ok(*g),
    ensures
        depth == 0 ==> res == Some(1u64),
        res matches Some(n) ==> perft_count(*keys, *g, depth as nat, n as int),
    decreases depth,
{
    if depth == 0 {
        return Some(1);
    }
    let mut movelist = MoveList::default();
    let info = generate_moves(g, false, &mut movelist);
    let ghost abb = info.additional_bitboards;
    let ghost moves = movelist.move_list@;
    if depth == 1 {
        let n = movelist.move_list.len() as u64;
        proof {
            assert(perft_level(*g, depth as nat, n as int, abb, moves, Seq::empty(), Seq::empty()));
        }
        return Some(n);
    }
    if g.half_moves == usize::MAX || g.full_moves == usize::MAX {
        return None;
    }
    let mut total: u64 = 0;
    let mut i: usize = 0;
    let ghost mut children: Seq<GameState> = Seq::empty();
    let ghost mut counts: Seq<int> = Seq::empty();
    while i < movelist.move_list.len()
        invariant
            position_ok(*g),
            depth > 1,
            g.half_moves < usize::MAX,
            g.full_moves < usize::MAX,
            movelist.move_list@ == moves,
            generated_move_list(*g, abb, false, moves),
            crate::move_generation::movegen::all_sound(*g, moves),
            i <= moves.len(),
            children.len() == i,
            counts.len() == i,
            total == count_sum(counts),
            forall|j: int|
                0 <= j < i ==> move_result(*keys, *g, #[trigger] moves[j], children[j])
                    && perft_count(*keys, children[j], (depth - 1) as nat, counts[j]),
        decreases moves.len() - i,
    {
        let mv = movelist.move_list[i];
        proof {
            assert(crate::move_generation::movegen::sound_move(*g, moves[i as int]));
        }
        let next = make_move(keys, g, &mv);
        if !check_position(&next) {
            return None;
        }
        let c = match perft(keys, &next, depth - 1) {
            Some(c) => c,
            None => {
                return None;
            },
        };
        total = match total.checked_add(c) {
            Some(t) => t,
            None => {
                return None;
            },
        };
        proof {
            lemma_count_sum_push(counts, c as int);
            children = children.push(next);
            counts = counts.push(c as int);
        }
        i += 1;
    }
    proof {
        assert(perft_level(*g, depth as nat, total as int, abb, moves, children, counts));
        lemma_perft_count_intro(*keys, *g, depth as nat, total as int, abb, moves, children, counts);
    }
    Some(total)
}

/// The first moves of `pairs` make a move list that the move generator may give for `g`,
/// and `children[i]` is the position after the `i`-th of them.
pub open spec fn perft_div_level(
    keys: Zobrist,
    g: GameState,
    abb: AdditionalBitBoards,
    pairs: Seq<(GameMove, u64)>,
    children: Seq<GameState>,
) -> bool {
    &&& generated_move_list(g, abb, false, pairs.map_values(|p: (GameMove, u64)| p.0))
    &&& children.len() == pairs.len()
    &&& forall|i: int|
        0 <= i < pairs.len() ==> move_result(keys, g, (#[trigger] pairs[i]).0, children[i])
}

/// `pairs` holds, for each move of a list that the move generator may give for `g`, the
/// move and the number of move paths of length `depth` that begin with it.
pub open spec fn perft_div_result(
    keys: Zobrist,
    g: GameState,
    depth: nat,
    pairs: Seq<(GameMove, u64)>,
) -> bool {
    exists|abb: AdditionalBitBoards, children: Seq<GameState>|
        #[trigger] perft_div_level(keys, g, abb, pairs, children) && forall|i: int|
            0 <= i < pairs.len() ==> perft_count(
                keys,
                #[trigger] children[i],
                (depth - 1) as nat,
                pairs[i].1 as int,
            )
}

/// For each move of `g`, the move and the number of move paths of length `depth` that
/// begin with it. `None` in the cases where [`perft`] gives `None` for a position after a
/// move, or where a move leads to a position that [`position_ok`] refuses.
#[verifier::spinoff_prover]
pub fn perft_div(keys: &Zobrist, g: &GameState, depth: usize) -> (res: Option<Vec<(GameMove, u64)>>)
    requires
        position_ok(*g),
        depth >= 1,
    ensures
        res matches Some(v) ==> perft_div_result(*keys, *g, depth as nat, v@),
{
    let mut movelist = MoveList::default();
    let info = generate_moves(g, false, &mut movelist);
    let ghost abb = info.additional_bitboards;
    let ghost moves = movelist.move_list@;
    if g.half_moves == usize::MAX || g.full_moves == usize::MAX {
        return None;
    }
    let mut out: Vec<(GameMove, u64)> = Vec::new();
    let mut i: usize = 0;
    let ghost mut children: Seq<GameState> = Seq::empty();
    while i < movelist.move_list.len()
        invariant
            position_ok(*g),
            depth >= 1,
            g.half_moves < usize::MAX,
            g.full_moves < usize::MAX,
            movelist.move_list@ == moves,
            generated_move_list(*g, abb, false, moves),
            crate::move_generation::movegen::all_sound(*g, moves),
            i <= moves.len(),
            children.len() == i,
            out@.len() == i,
            forall|j: int| 0 <= j < i ==> (#[trigger] out@[j]).0 == moves[j],
            forall|j: int|
                0 <= j < i ==> move_result(*keys, *g, moves[j], #[trigger] children[j])
                    && perft_count(*keys, children[j], (depth - 1) as nat, out@[j].1 as int),
        decreases moves.len() - i,
    {
        let mv = movelist.move_list[i];
        proof {
            assert(crate::move_generation::movegen::sound_move(*g, moves[i as int]));
        }
        let next = make_move(keys, g, &mv);
        if !check_position(&next) {
            return None;
        }
        let c = match perft(keys, &next, depth - 1) {
            Some(c) => c,
            None => {
                return None;
            },
        };
        out.push((mv, c));
        proof {
            children = children.push(next);
        }
        i += 1;
    }
    proof {
        assert(out@.map_values(|p: (GameMove, u64)| p.0) =~= moves);
        assert(perft_div_level(*keys, *g, abb, out@, children));
        assert(forall|j: int|
            0 <= j < out@.len() ==> perft_count(
                *keys,
                #[trigger] children[j],
                ((depth as nat) - 1) as nat,
                out@[j].1 as int,
            ));
        assert(perft_div_result(*keys, *g, depth as nat, out@));
    }
    Some(out)
}

} // verus!
