use crate::board_representation::game_state::GameMove;
use crate::search::cache::CacheEntry;
use crate::search::statistics::SearchStatistics;
use crate::search::timecontrol::{TimeControl, TimeControlInformation};
use crate::search::{PrincipalVariation, MAX_SEARCH_DEPTH, MATE_SCORE, STANDARD_SCORE};
use vstd::prelude::*;

verus! {

/// What one search keeps while it runs: the line it found at each ply and the best line
/// so far at each distance from the root, the killer moves and the quiet moves tried at
/// each ply, the move-ordering scores, a buffer for static exchange evaluation, its
/// statistics, its clock, and whether it was told to stop.
pub struct Search {
    pub principal_variation: [Option<CacheEntry>; 100],
    pub pv_table: Vec<PrincipalVariation>,
    pub killer_moves: [[Option<GameMove>; 2]; 100],
    pub quiets_tried: [[Option<GameMove>; 128]; 100],
    pub hh_score: [[[usize; 64]; 64]; 2],
    pub bf_score: [[[usize; 64]; 64]; 2],
    pub history_score: [[[isize; 64]; 64]; 2],
    pub see_buffer: Vec<i16>,
    pub search_statistics: SearchStatistics,
    pub tc: TimeControl,
    pub tc_information: TimeControlInformation,
    pub stop: bool,
}

impl Search {
    /// A search under the clock `tc`: no line found yet, the table's line at distance `i`
    /// from the root empty with room for `MAX_SEARCH_DEPTH - i + 1` moves, no killer or
    /// tried moves, the history scores at zero and the butterfly scores at one.
    pub fn new(tc: TimeControl, tc_information: TimeControlInformation) -> (res: Search)
        ensures
            forall|d: int| 0 <= d < 100 ==> #[trigger] res.principal_variation[d] is None,
            res.pv_table.len() == MAX_SEARCH_DEPTH,
            forall|d: int|
                0 <= d < MAX_SEARCH_DEPTH ==> (#[trigger] res.pv_table[d]).pv.len()
                    == MAX_SEARCH_DEPTH - d + 1,
            forall|d: int, i: int|
                0 <= d < MAX_SEARCH_DEPTH && 0 <= i < res.pv_table[d].pv.len()
                    ==> #[trigger] res.pv_table[d].pv[i] is None,
            forall|d: int, k: int|
                0 <= d < 100 && 0 <= k < 2 ==> #[trigger] res.killer_moves[d][k] is None,
            forall|d: int, k: int|
                0 <= d < 100 && 0 <= k < 128 ==> #[trigger] res.quiets_tried[d][k] is None,
            forall|c: int, f: int, t: int|
                0 <= c < 2 && 0 <= f < 64 && 0 <= t < 64 ==> #[trigger] res.hh_score[c][f][t] == 0
                    && res.bf_score[c][f][t] == 1 && res.history_score[c][f][t] == 0,
            res.see_buffer@ == Seq::new(MAX_SEARCH_DEPTH as nat, |i: int| 0i16),
            res.tc == tc,
            res.tc_information == tc_information,
            !res.stop,
    {
        let mut pv_table: Vec<PrincipalVariation> = Vec::new();
        let mut i: usize = 0;
        while i < MAX_SEARCH_DEPTH
            invariant
                i <= MAX_SEARCH_DEPTH,
                pv_table.len() == i,
                forall|d: int|
                    0 <= d < i ==> (#[trigger] pv_table[d]).pv.len() == MAX_SEARCH_DEPTH - d + 1,
                forall|d: int, j: int|
                    0 <= d < i && 0 <= j < pv_table[d].pv.len() ==> #[trigger] pv_table[d].pv[j] is None,
            decreases MAX_SEARCH_DEPTH - i,
        {
            pv_table.push(PrincipalVariation::new(MAX_SEARCH_DEPTH - i));
            i += 1;
        }
        let mut see_buffer: Vec<i16> = Vec::new();
        while see_buffer.len() < MAX_SEARCH_DEPTH
            invariant
                see_buffer.len() <= MAX_SEARCH_DEPTH,
                forall|j: int| 0 <= j < see_buffer.len() ==> see_buffer[j] == 0i16,
            decreases MAX_SEARCH_DEPTH - see_buffer.len(),
        {
            see_buffer.push(0i16);
        }
        assert(see_buffer@ =~= Seq::new(MAX_SEARCH_DEPTH as nat, |i: int| 0i16));
        let none_entry: Option<CacheEntry> = None;
        let none_move: Option<GameMove> = None;
        let killers: [Option<GameMove>; 2] = [none_move; 2];
        let quiets: [Option<GameMove>; 128] = [none_move; 128];
        let zero_row: [usize; 64] = [0usize; 64];
        let one_row: [usize; 64] = [1usize; 64];
        let zero_signed_row: [isize; 64] = [0isize; 64];
        let zero_side: [[usize; 64]; 64] = [zero_row; 64];
        let one_side: [[usize; 64]; 64] = [one_row; 64];
        let zero_signed_side: [[isize; 64]; 64] = [zero_signed_row; 64];
        Search {
            principal_variation: [none_entry; 100],
            pv_table,
            killer_moves: [killers; 100],
            quiets_tried: [quiets; 100],
            hh_score: [zero_side; 2],
            bf_score: [one_side; 2],
            history_score: [zero_signed_side; 2],
            see_buffer,
            search_statistics: SearchStatistics::default(),
            tc,
            tc_information,
            stop: false,
        }
    }
}

/// What iterative deepening does next: search the root to `depth` within the window
/// `alpha`..`beta`, or stop with `score`.
#[derive(PartialEq, Eq, Structural, Clone, Copy, Debug)]
pub enum DeepeningAction {
    SearchRoot { depth: i16, alpha: i16, beta: i16 },
    Finish { score: i16 },
}

/// Where iterative deepening stands: the depth asked for, the depth being searched, the
/// window of that search and how far it is widened on a failure, and the score of the
/// last depth searched to the end.
#[derive(PartialEq, Eq, Structural, Clone, Copy, Debug)]
pub struct Deepening {
    pub target_depth: i16,
    pub depth: i16,
    pub alpha: i16,
    pub beta: i16,
    pub delta: i16,
    pub best_score: i16,
}

/// The window half-width each deeper search starts with.
pub const ASPIRATION_DELTA: i16 = 20;

/// The widest window, used at depth one and where a bound passes ten thousand.
pub const FULL_WINDOW: i16 = 16000;

impl Deepening {
    /// The window growth after a failed search: one and a half times `delta`, rounded
    /// down, at most `i16::MAX`.
    pub open spec fn grown(delta: i16) -> int {
        if 3 * delta / 2 > 32767 {
            32767
        } else {
            3 * delta / 2
        }
    }

    /// The state of a search in progress.
    pub open spec fn in_progress(self) -> bool {
        &&& 1 <= self.depth <= self.target_depth
        &&& self.delta >= ASPIRATION_DELTA
    }

    /// A search score that is not a mate beyond the board's reach.
    pub open spec fn score_in_range(score: i16) -> bool {
        -MATE_SCORE <= score <= MATE_SCORE
    }

    /// The searches for `depth`: none where it is below one; else depth one with the
    /// full window, and no score found yet.
    pub fn start(depth: i16) -> (res: (Deepening, DeepeningAction))
        ensures
            depth < 1 ==> res.1 == (DeepeningAction::Finish { score: STANDARD_SCORE }),
            depth >= 1 ==> res.1 == (DeepeningAction::SearchRoot {
                depth: 1,
                alpha: (-FULL_WINDOW) as i16,
                beta: FULL_WINDOW,
            }) && res.0.in_progress(),
            res.0 == (Deepening {
                target_depth: depth,
                depth: 1,
                alpha: (-FULL_WINDOW) as i16,
                beta: FULL_WINDOW,
                delta: ASPIRATION_DELTA,
                best_score: STANDARD_SCORE,
            }),
    {
        let st = Deepening {
            target_depth: depth,
            depth: 1,
            alpha: -FULL_WINDOW,
            beta: FULL_WINDOW,
            delta: ASPIRATION_DELTA,
            best_score: STANDARD_SCORE,
        };
        if depth < 1 {
            (st, DeepeningAction::Finish { score: STANDARD_SCORE })
        } else {
            (st, DeepeningAction::SearchRoot { depth: 1, alpha: -FULL_WINDOW, beta: FULL_WINDOW })
        }
    }

    /// The next step once the search the last action asked for has given `score`, or has
    /// been stopped. A stopped search ends with the last complete depth's score. At depth
    /// one, or inside the window, the score is taken: the search ends at the depth asked
    /// for, else goes one deeper with a window of `ASPIRATION_DELTA` on each side of the
    /// score. Otherwise the failed bound moves out by `delta` (to the full window beyond
    /// ten thousand), `delta` grows by half, and the same depth is searched again.
    pub fn step(&self, score: i16, stopped: bool) -> (res: (Deepening, DeepeningAction))
        requires
            self.in_progress(),
            !stopped ==> Self::score_in_range(score),
            !stopped && self.depth > 1 && score <= self.alpha && self.alpha >= -10000 ==> self.alpha
                - self.delta >= i16::MIN,
            !stopped && self.depth > 1 && score >= self.beta && self.beta <= 10000 ==> self.beta
                + self.delta <= i16::MAX,
        ensures
            stopped ==> res.1 == (DeepeningAction::Finish { score: self.best_score }) && res.0
                == *self,
            !stopped && (self.depth == 1 || (self.alpha < score && score < self.beta)) ==> {
                &&& res.0.best_score == score
                &&& self.depth == self.target_depth ==> res.1 == (DeepeningAction::Finish { score })
                &&& self.depth < self.target_depth ==> res.1 == (DeepeningAction::SearchRoot {
                    depth: (self.depth + 1) as i16,
                    alpha: (score - ASPIRATION_DELTA) as i16,
                    beta: (score + ASPIRATION_DELTA) as i16,
                }) && res.0 == (Deepening {
                    target_depth: self.target_depth,
                    depth: (self.depth + 1) as i16,
                    alpha: (score - ASPIRATION_DELTA) as i16,
                    beta: (score + ASPIRATION_DELTA) as i16,
                    delta: ASPIRATION_DELTA,
                    best_score: score,
                }) && res.0.in_progress()
            },
            !stopped && self.depth > 1 && !(self.alpha < score && score < self.beta) ==> {
                let alpha = if score <= self.alpha {
                    if self.alpha < -10000 {
                        -FULL_WINDOW as int
                    } else {
                        self.alpha - self.delta
                    }
                } else {
                    self.alpha as int
                };
                let beta = if score >= self.beta {
                    if self.beta > 10000 {
                        FULL_WINDOW as int
                    } else {
                        self.beta + self.delta
                    }
                } else {
                    self.beta as int
                };
                &&& res.1 == (DeepeningAction::SearchRoot {
                    depth: self.depth,
                    alpha: alpha as i16,
                    beta: beta as i16,
                })
                &&& res.0 == (Deepening {
                    target_depth: self.target_depth,
                    depth: self.depth,
                    alpha: alpha as i16,
                    beta: beta as i16,
                    delta: Self::grown(self.delta) as i16,
                    best_score: self.best_score,
                })
                &&& res.0.in_progress()
                &&& res.0.delta >= self.delta
            },
    {
        if stopped {
            return (*self, DeepeningAction::Finish { score: self.best_score });
        }
        if self.depth == 1 || (self.alpha < score && score < self.beta) {
            if self.depth == self.target_depth {
                let st = Deepening { best_score: score, ..*self };
                return (st, DeepeningAction::Finish { score });
            }
            let st = Deepening {
                target_depth: self.target_depth,
                depth: self.depth + 1,
                alpha: score - ASPIRATION_DELTA,
                beta: score + ASPIRATION_DELTA,
                delta: ASPIRATION_DELTA,
                best_score: score,
            };
            return (st, DeepeningAction::SearchRoot { depth: st.depth, alpha: st.alpha, beta: st.beta });
        }
        let mut alpha = self.alpha;
        let mut beta = self.beta;
        if score <= alpha {
            if alpha < -10000 {
                alpha = -FULL_WINDOW;
            } else {
                alpha = alpha - self.delta;
            }
        }
        if score >= beta {
            if beta > 10000 {
                beta = FULL_WINDOW;
            } else {
                beta = beta + self.delta;
            }
        }
        let grown: i32 = 3 * (self.delta as i32) / 2;
        let delta: i16 = if grown > 32767 {
            32767
        } else {
            grown as i16
        };
        let st = Deepening {
            target_depth: self.target_depth,
            depth: self.depth,
            alpha,
            beta,
            delta,
            best_score: self.best_score,
        };
        (st, DeepeningAction::SearchRoot { depth: self.depth, alpha, beta })
    }
}

} // verus!
