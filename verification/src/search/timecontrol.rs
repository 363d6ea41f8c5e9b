use vstd::prelude::*;

verus! {

/// The time kept back for each move to answer in, in milliseconds.
pub const MOVE_OVERHEAD: u64 = 25;

/// What the search tells the clock: the time saved so far, whether the best line stayed
/// the same, and whether the score moved much.
pub struct TimeControlInformation {
    pub time_saved: u64,
    pub stable_pv: bool,
    pub high_score_diff: bool,
}

impl TimeControlInformation {
    /// The information before a search, with `time_saved` milliseconds saved.
    pub fn new(time_saved: u64) -> (res: Self)
        ensures
            res.time_saved == time_saved,
            !res.stable_pv,
            !res.high_score_diff,
    {
        TimeControlInformation { time_saved, stable_pv: false, high_score_diff: false }
    }
}

/// The clock the engine plays under: time and increment, a fixed time per move, no limit,
/// or time, increment and moves to go.
#[derive(PartialEq, Eq, Structural, Clone, Copy, Debug)]
pub enum TimeControl {
    Incremental(u64, u64),
    MoveTime(u64),
    Infinite,
    Tournament(u64, u64, usize),
}

} // verus!
