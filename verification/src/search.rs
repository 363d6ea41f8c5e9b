pub mod alphabeta;
pub mod cache;
pub mod quiescence;
pub mod searcher;
pub mod statistics;
pub mod timecontrol;

use crate::bitboards::{bit, popcount};
use crate::board_representation::game_state::{
    GameMove, GameResult, GameState, BISHOP, BLACK, KING, KNIGHT, PAWN, QUEEN, ROOK, WHITE,
};
use crate::board_representation::game_state_attack_container::MutableGameStateAttackContainer;
use crate::move_generation::movegen::MoveList;
use crate::search::searcher::Search;
use vstd::prelude::*;

verus! {

pub const MAX_SEARCH_DEPTH: usize = 100;

pub const MATE_SCORE: i16 = 15000;

pub const MATED_IN_MAX: i16 = -14000;

pub const STANDARD_SCORE: i16 = -32767;

/// The window, depth and position of a node of the search.
pub struct CombinedSearchParameters<'a> {
    pub alpha: i16,
    pub beta: i16,
    pub depth_left: i16,
    pub game_state: &'a GameState,
    pub color: i16,
    pub current_depth: usize,
}

impl<'a> CombinedSearchParameters<'a> {
    /// The parameters of a node.
    pub fn from(
        alpha: i16,
        beta: i16,
        depth_left: i16,
        game_state: &'a GameState,
        color: i16,
        current_depth: usize,
    ) -> (res: Self)
        ensures
            res.alpha == alpha,
            res.beta == beta,
            res.depth_left == depth_left,
            res.game_state == game_state,
            res.color == color,
            res.current_depth == current_depth,
    {
        CombinedSearchParameters { alpha, beta, depth_left, game_state, color, current_depth }
    }
}

/// What a step of the search tells the node to do.
#[derive(PartialEq, Eq, Structural, Clone, Copy, Debug)]
pub enum SearchInstruction {
    SkipMove,
    ContinueSearching,
    StopSearching(i16),
}

/// The best line found from a node.
pub struct PrincipalVariation {
    pub pv: Vec<Option<GameMove>>,
}

impl PrincipalVariation {
    /// An empty line with room for `depth_left + 1` moves.
    pub fn new(depth_left: usize) -> (res: PrincipalVariation)
        requires
            depth_left < usize::MAX,
        ensures
            res.pv.len() == depth_left + 1,
            forall|i: int| 0 <= i < res.pv.len() ==> res.pv[i] is None,
    {
        let mut pv: Vec<Option<GameMove>> = Vec::new();
        while pv.len() < depth_left + 1
            invariant
                depth_left < usize::MAX,
                pv.len() <= depth_left + 1,
                forall|i: int| 0 <= i < pv.len() ==> pv[i] is None,
            decreases depth_left + 1 - pv.len(),
        {
            pv.push(None);
        }
        PrincipalVariation { pv }
    }
}

/// The score of a finished game at ply `current_depth`, from the side of `color` (1
/// white, -1 black): a draw is 0, a win is worth the mate score less the plies it took.
pub fn leaf_score(game_status: GameResult, color: i16, current_depth: i16) -> (res: i16)
    requires
        game_status != GameResult::Ingame,
        color == 1 || color == -1,
        0 <= current_depth <= MATE_SCORE,
    ensures
        game_status == GameResult::Draw ==> res == 0,
        game_status == GameResult::WhiteWin ==> res == (MATE_SCORE - current_depth) * color,
        game_status == GameResult::BlackWin ==> res == (MATE_SCORE - current_depth) * -color,
{
    match game_status {
        GameResult::Draw => 0,
        GameResult::WhiteWin => (MATE_SCORE - current_depth) * color,
        _ => (MATE_SCORE - current_depth) * -color,
    }
}

/// The state of the game when the side to move has (or has not) a legal move and is
/// (or is not) in check: mated, stalemated, or going on.
pub fn check_end_condition(game_state: &GameState, has_legal_moves: bool, in_check: bool) -> (res:
    GameResult)
    ensures
        in_check && !has_legal_moves ==> res == if game_state.color_to_move == WHITE {
            GameResult::BlackWin
        } else {
            GameResult::WhiteWin
        },
        !in_check && !has_legal_moves ==> res == GameResult::Draw,
        has_legal_moves ==> res == GameResult::Ingame,
{
    if in_check && !has_legal_moves {
        if game_state.color_to_move == WHITE {
            return GameResult::BlackWin;
        } else {
            return GameResult::WhiteWin;
        }
    }
    if !in_check && !has_legal_moves {
        return GameResult::Draw;
    }
    GameResult::Ingame
}

/// Neither side has mating material: no pawn, rook or queen on the board, and at most
/// one knight or bishop for each side.
pub open spec fn insufficient_material(g: GameState) -> bool {
    &&& g.pieces[0][0] | g.pieces[3][0] | g.pieces[4][0] | g.pieces[0][1] | g.pieces[3][1]
        | g.pieces[4][1] == 0u64
    &&& popcount(g.pieces[1][0] | g.pieces[2][0]) <= 1
    &&& popcount(g.pieces[1][1] | g.pieces[2][1]) <= 1
}

/// A pawn, a rook or a queen of either side on the board is mating material: such a
/// position is never drawn for want of material.
pub proof fn lemma_pawn_rook_or_queen_is_material(g: GameState, p: int, c: int, t: int)
    requires
        p == 0 || p == 3 || p == 4,
        0 <= c < 2,
        bit(g.pieces[p][c], t),
    ensures
        !insufficient_material(g),
{
    broadcast use crate::bitboards::group_bit_ops;

    let all = g.pieces[0][0] | g.pieces[3][0] | g.pieces[4][0] | g.pieces[0][1] | g.pieces[3][1]
        | g.pieces[4][1];
    assert(bit(all, t));
    assert(!bit(0u64, t));
}

/// Two knights or bishops of one side are mating material: such a position is never drawn
/// for want of material.
pub proof fn lemma_two_minor_pieces_are_material(g: GameState, c: int, s1: int, s2: int)
    requires
        0 <= c < 2,
        s1 != s2,
        bit(g.pieces[1][c], s1) || bit(g.pieces[2][c], s1),
        bit(g.pieces[1][c], s2) || bit(g.pieces[2][c], s2),
    ensures
        !insufficient_material(g),
{
    broadcast use crate::bitboards::group_bit_ops;

    let m = g.pieces[1][c] | g.pieces[2][c];
    assert(bit(m, s1) && bit(m, s2));
    let rest = m ^ (1u64 << s1 as u64);
    assert forall|t: int| 0 <= t < 64 implies #[trigger] bit(rest, t) == (bit(m, t) && t != s1) by {}
    crate::bitboards::lemma_popcount_remove(m, rest, s1);
    assert(bit(rest, s2));
    crate::bitboards::lemma_popcount_nonzero(rest);
    if c == 0 {
        assert(popcount(g.pieces[1][0] | g.pieces[2][0]) >= 2);
    } else {
        assert(popcount(g.pieces[1][1] | g.pieces[2][1]) >= 2);
    }
}

/// With nothing on the board but the two kings, no side can mate: the position is drawn for
/// want of material.
pub proof fn lemma_bare_kings_are_drawn(g: GameState)
    requires
        forall|p: int, c: int| 0 <= p < 5 && 0 <= c < 2 ==> #[trigger] g.pieces[p][c] == 0u64,
    ensures
        insufficient_material(g),
{
    assert(g.pieces[0][0] == 0u64 && g.pieces[3][0] == 0u64 && g.pieces[4][0] == 0u64);
    assert(g.pieces[0][1] == 0u64 && g.pieces[3][1] == 0u64 && g.pieces[4][1] == 0u64);
    assert(g.pieces[1][0] == 0u64 && g.pieces[2][0] == 0u64);
    assert(g.pieces[1][1] == 0u64 && g.pieces[2][1] == 0u64);
    let z = 0u64;
    assert(z | z | z | z | z | z == 0u64 && z | z == 0u64) by (bit_vector)
        requires
            z == 0u64,
    ;
    crate::bitboards::lemma_popcount_nonzero(z);
}

/// Stops the search with a draw score where the position is drawn: by insufficient
/// material, by the fifty-move rule, or because it occurred before (`occurrences` is how
/// often the game's history holds it).
pub fn check_for_draw(game_state: &GameState, occurrences: usize) -> (res: SearchInstruction)
    ensures
        res == if insufficient_material(*game_state) || game_state.half_moves >= 100
            || occurrences >= 1 {
            SearchInstruction::StopSearching(0)
        } else {
            SearchInstruction::ContinueSearching
        },
        (exists|p: int, c: int, t: int|
            (p == 0 || p == 3 || p == 4) && 0 <= c < 2 && #[trigger] bit(game_state.pieces[p][c], t))
            && game_state.half_moves < 100 && occurrences == 0 ==> res
            == SearchInstruction::ContinueSearching,
        game_state.half_moves >= 100 ==> res == SearchInstruction::StopSearching(0),
        occurrences >= 1 ==> res == SearchInstruction::StopSearching(0),
{
    proof {
        if exists|p: int, c: int, t: int|
            (p == 0 || p == 3 || p == 4) && 0 <= c < 2 && #[trigger] bit(game_state.pieces[p][c], t) {
            let (p, c, t) = choose|p: int, c: int, t: int|
                (p == 0 || p == 3 || p == 4) && 0 <= c < 2 && #[trigger] bit(game_state.pieces[p][c], t);
            lemma_pawn_rook_or_queen_is_material(*game_state, p, c, t);
        }
    }
    if game_state.pieces[PAWN][WHITE] | game_state.pieces[ROOK][WHITE]
        | game_state.pieces[QUEEN][WHITE] | game_state.pieces[PAWN][BLACK]
        | game_state.pieces[ROOK][BLACK] | game_state.pieces[QUEEN][BLACK] == 0u64 && (
    game_state.pieces[KNIGHT][WHITE] | game_state.pieces[BISHOP][WHITE]).count_ones() <= 1 && (
    game_state.pieces[KNIGHT][BLACK] | game_state.pieces[BISHOP][BLACK]).count_ones() <= 1 {
        return SearchInstruction::StopSearching(0);
    }
    if game_state.half_moves >= 100 {
        return SearchInstruction::StopSearching(0);
    }
    if occurrences >= 1 {
        return SearchInstruction::StopSearching(0);
    }
    SearchInstruction::ContinueSearching
}

/// How many positions of `history` have the hash of `state`.
pub open spec fn occurrences_in(history: Seq<GameState>, hash: u64) -> nat
    decreases history.len(),
{
    if history.len() == 0 {
        0
    } else {
        occurrences_in(history.drop_last(), hash) + if history.last().hash == hash {
            1nat
        } else {
            0nat
        }
    }
}

/// Counts the positions of the game's history with the hash of `state`.
pub fn get_occurences(history: &[GameState], state: &GameState) -> (res: usize)
    ensures
        res == occurrences_in(history@, state.hash),
{
    let mut occ: usize = 0;
    let mut i: usize = 0;
    while i < history.len()
        invariant
            i <= history@.len(),
            occ == occurrences_in(history@.subrange(0, i as int), state.hash),
            occ <= i,
        decreases history.len() - i,
    {
        assert(history@.subrange(0, i + 1).drop_last() =~= history@.subrange(0, i as int));
        if history[i].hash == state.hash {
            occ += 1;
        }
        i += 1;
    }
    assert(history@.subrange(0, history@.len() as int) =~= history@);
    occ
}

/// The side to move's king stands on a square the other side attacks.
pub fn in_check(game_state: &GameState, attack_container: &MutableGameStateAttackContainer) -> (res:
    bool)
    requires
        game_state.color_to_move < 2,
    ensures
        res == (game_state.pieces[5][game_state.color_to_move as int]
            & attack_container.attacks_sum[1 - game_state.color_to_move] != 0u64),
{
    (game_state.pieces[KING][game_state.color_to_move] & attack_container.attacks_sum[1
        - game_state.color_to_move]) != 0u64
}

/// Two moves with the same squares and kind.
pub open spec fn same_move(a: GameMove, b: GameMove) -> bool {
    a.from == b.from && a.to == b.to && a.move_type == b.move_type
}

/// The index of the first move of the list with the squares and kind of `mv`; the list's
/// length where there is none, which only a caller that does not know the move to be
/// there (`contains`) may meet.
pub fn find_move(mv: &GameMove, mv_list: &MoveList, contains: bool) -> (res: usize)
    requires
        contains ==> exists|i: int|
            0 <= i < mv_list.move_list@.len() && same_move(#[trigger] mv_list.move_list@[i], *mv),
    ensures
        res <= mv_list.move_list@.len(),
        res < mv_list.move_list@.len() ==> same_move(mv_list.move_list@[res as int], *mv),
        forall|j: int| 0 <= j < res ==> !same_move(#[trigger] mv_list.move_list@[j], *mv),
{
    let mut mv_index: usize = 0;
    while mv_index < mv_list.move_list.len()
        invariant
            mv_index <= mv_list.move_list@.len(),
            forall|j: int| 0 <= j < mv_index ==> !same_move(#[trigger] mv_list.move_list@[j], *mv),
        decreases mv_list.move_list.len() - mv_index,
    {
        let mvs = &mv_list.move_list[mv_index];
        if mvs.from == mv.from && mvs.to == mv.to && mvs.move_type == mv.move_type {
            return mv_index;
        }
        mv_index += 1;
    }
    mv_index
}

/// `n` is the first empty place of the line at or after `start`.
pub open spec fn first_empty_from(line: Seq<Option<GameMove>>, start: int, n: int) -> bool {
    &&& start <= n < line.len()
    &&& line[n] is None
    &&& forall|i: int| start <= i < n ==> #[trigger] line[i] is Some
}

/// The search is the same but for its table of lines.
pub open spec fn same_but_lines(a: Search, b: Search) -> bool {
    &&& a.principal_variation == b.principal_variation
    &&& a.killer_moves == b.killer_moves
    &&& a.quiets_tried == b.quiets_tried
    &&& a.hh_score == b.hh_score
    &&& a.bf_score == b.bf_score
    &&& a.history_score == b.history_score
    &&& a.see_buffer == b.see_buffer
    &&& a.search_statistics == b.search_statistics
    &&& a.tc == b.tc
    &&& a.tc_information == b.tc_information
    &&& a.stop == b.stop
    &&& a.pv_table.len() == b.pv_table.len()
}

/// The table's lines other than the one at `d` are unchanged, and that one keeps its
/// length.
pub open spec fn other_lines_kept(a: Search, b: Search, d: int) -> bool {
    &&& forall|e: int| 0 <= e < a.pv_table.len() && e != d ==> #[trigger] b.pv_table[e] == a.pv_table[e]
    &&& b.pv_table[d].pv.len() == a.pv_table[d].pv.len()
}

/// Empties the line at `at_depth` up to its first empty place.
pub fn clear_pv(at_depth: usize, search: &mut Search)
    requires
        at_depth < old(search).pv_table.len(),
        exists|n: int| first_empty_from(old(search).pv_table[at_depth as int].pv@, 0, n),
    ensures
        same_but_lines(*old(search), *final(search)),
        other_lines_kept(*old(search), *final(search), at_depth as int),
        exists|n: int|
            #![trigger first_empty_from(old(search).pv_table[at_depth as int].pv@, 0, n)]
            first_empty_from(old(search).pv_table[at_depth as int].pv@, 0, n) && forall|i: int|
                0 <= i < final(search).pv_table[at_depth as int].pv.len() ==> #[trigger] final(search).pv_table[at_depth as int].pv[i] == if i < n {
                    None
                } else {
                    old(search).pv_table[at_depth as int].pv[i]
                },
{
    let ghost start = *search;
    let ghost n = choose|n: int| first_empty_from(start.pv_table[at_depth as int].pv@, 0, n);
    let mut line = PrincipalVariation { pv: Vec::new() };
    std::mem::swap(&mut line, &mut search.pv_table[at_depth]);
    let ghost before = line.pv@;
    let mut index: usize = 0;
    while line.pv[index].is_some()
        invariant
            first_empty_from(before, 0, n),
            index <= n,
            line.pv.len() == before.len(),
            forall|i: int| 0 <= i < line.pv.len() ==> #[trigger] line.pv[i] == if i < index {
                None
            } else {
                before[i]
            },
        decreases n - index,
    {
        line.pv.set(index, None);
        index += 1;
    }
    std::mem::swap(&mut line, &mut search.pv_table[at_depth]);
}

/// Makes the line at `at_depth` its first move followed by the line at `at_depth + 1` (up
/// to that line's first empty place), and empties what follows of the old line up to its
/// first empty place.
pub fn concatenate_pv(at_depth: usize, search: &mut Search)
    requires
        at_depth + 1 < old(search).pv_table.len(),
        exists|k: int|
            #![trigger first_empty_from(old(search).pv_table[at_depth + 1].pv@, 0, k)]
            first_empty_from(old(search).pv_table[at_depth + 1].pv@, 0, k) && exists|m: int|
                #![trigger first_empty_from(old(search).pv_table[at_depth as int].pv@, k + 1, m)]
                first_empty_from(old(search).pv_table[at_depth as int].pv@, k + 1, m),
    ensures
        same_but_lines(*old(search), *final(search)),
        other_lines_kept(*old(search), *final(search), at_depth as int),
        exists|k: int, m: int|
            #![trigger first_empty_from(old(search).pv_table[at_depth + 1].pv@, 0, k), first_empty_from(old(search).pv_table[at_depth as int].pv@, k + 1, m)]
            first_empty_from(old(search).pv_table[at_depth + 1].pv@, 0, k) && first_empty_from(
                old(search).pv_table[at_depth as int].pv@,
                k + 1,
                m,
            ) && forall|i: int|
                0 <= i < final(search).pv_table[at_depth as int].pv.len() ==> #[trigger] final(search).pv_table[at_depth as int].pv[i] == if 1 <= i <= k {
                    old(search).pv_table[at_depth + 1].pv[i - 1]
                } else if k < i < m {
                    None
                } else {
                    old(search).pv_table[at_depth as int].pv[i]
                },
{
    let ghost start = *search;
    let ghost k = choose|k: int|
        #![trigger first_empty_from(start.pv_table[at_depth + 1].pv@, 0, k)]
        first_empty_from(start.pv_table[at_depth + 1].pv@, 0, k) && exists|m: int|
            #![trigger first_empty_from(start.pv_table[at_depth as int].pv@, k + 1, m)]
            first_empty_from(start.pv_table[at_depth as int].pv@, k + 1, m);
    let ghost m = choose|m: int|
        #![trigger first_empty_from(start.pv_table[at_depth as int].pv@, k + 1, m)]
        first_empty_from(start.pv_table[at_depth as int].pv@, k + 1, m);
    let mut line = PrincipalVariation { pv: Vec::new() };
    std::mem::swap(&mut line, &mut search.pv_table[at_depth]);
    let ghost before = line.pv@;
    let ghost child = search.pv_table[at_depth + 1].pv@;
    let mut index: usize = 0;
    while search.pv_table[at_depth + 1].pv[index].is_some()
        invariant
            at_depth + 1 < search.pv_table.len(),
            search.pv_table[at_depth + 1].pv@ == child,
            first_empty_from(child, 0, k),
            first_empty_from(before, k + 1, m),
            index <= k,
            line.pv.len() == before.len(),
            forall|i: int| 0 <= i < line.pv.len() ==> #[trigger] line.pv[i] == if 1 <= i <= index {
                child[i - 1]
            } else {
                before[i]
            },
        decreases k - index,
    {
        let mv = search.pv_table[at_depth + 1].pv[index];
        line.pv.set(index + 1, mv);
        index += 1;
    }
    while line.pv[index + 1].is_some()
        invariant
            first_empty_from(before, k + 1, m),
            k <= index < m,
            line.pv.len() == before.len(),
            forall|i: int| 0 <= i < line.pv.len() ==> #[trigger] line.pv[i] == if 1 <= i <= k {
                child[i - 1]
            } else if k < i <= index {
                None
            } else {
                before[i]
            },
        decreases m - index,
    {
        line.pv.set(index + 1, None);
        index += 1;
    }
    std::mem::swap(&mut line, &mut search.pv_table[at_depth]);
}

} // verus!
