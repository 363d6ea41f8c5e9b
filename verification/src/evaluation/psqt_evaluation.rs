use crate::bitboards::{bit, lemma_clear_lowest};
use crate::board_representation::game_state::GameState;
use vstd::prelude::*;

verus! {

broadcast use crate::bitboards::group_bit_ops;

// ---------------------------------------------------------------------------
// Piece-square tables: the worth of a piece on each square, rank by rank from the
// first, seen from white (a black piece's square is mirrored through the board's middle).
// ---------------------------------------------------------------------------

pub const PSQT_PAWN_MG: [[i16; 8]; 8] = [
    [0, 0, 0, 0, 0, 0, 0, 0],
    [-5, -5, -5, -5, -5, -5, -5, -5],
    [-7, 3, 6, 10, 10, 6, 3, -7],
    [-14, -7, 15, 20, 20, 15, -7, -14],
    [-10, -2, 1, 12, 12, 1, -2, -10],
    [-7, -1, 0, 5, 5, 0, -1, -7],
    [-3, 10, 5, 5, 5, 5, 10, -3],
    [0, 0, 0, 0, 0, 0, 0, 0],
];

pub const PSQT_PAWN_EG: [[i16; 8]; 8] = [
    [0, 0, 0, 0, 0, 0, 0, 0],
    [-20, -20, -20, -20, -20, -20, -20, -20],
    [-10, -10, -10, -10, -10, -10, -10, -10],
    [-5, -5, -5, -5, -5, -5, -5, -5],
    [0, 0, 0, 0, 0, 0, 0, 0],
    [5, 5, 5, 5, 5, 5, 5, 5],
    [10, 10, 10, 10, 10, 10, 10, 10],
    [0, 0, 0, 0, 0, 0, 0, 0],
];

pub const PSQT_KNIGHT_MG: [[i16; 8]; 8] = [
    [-40, -20, -30, -30, -30, -30, -20, -40],
    [-40, -20, 0, 5, 5, 0, -20, -40],
    [-30, 0, 10, 10, 10, 10, 0, -30],
    [-30, 5, 20, 15, 15, 20, 5, -30],
    [-30, 30, 40, 40, 40, 20, 30, -30],
    [-30, 15, 25, 35, 35, 25, 15, -30],
    [-40, -20, 0, 5, 5, 0, -20, -40],
    [-50, -40, -30, -30, -30, -30, -40, -50],
];

pub const PSQT_KNIGHT_EG: [[i16; 8]; 8] = [
    [-50, -40, -30, -30, -30, -30, -40, -50],
    [-40, -25, -10, 0, 0, -10, -25, -40],
    [-30, -10, 5, 10, 10, 5, -10, -30],
    [-30, 0, 10, 20, 20, 10, 0, -30],
    [-30, 0, 10, 20, 20, 10, 0, -30],
    [-30, -10, 5, 10, 10, 5, -10, -30],
    [-40, -25, -10, 0, 0, -10, -25, -40],
    [-50, -40, -30, -30, -30, -30, -40, -50],
];

pub const PSQT_BISHOP_MG: [[i16; 8]; 8] = [
    [-50, -10, -10, -30, -30, -10, -10, -50],
    [-30, 10, 15, 0, 0, 15, 10, -30],
    [-10, 10, 15, 10, 10, 15, 10, -10],
    [-10, 15, 20, 25, 25, 20, 0, -10],
    [-10, 10, 20, 25, 25, 20, 0, -10],
    [-10, 10, 15, 10, 10, 15, 10, -10],
    [-30, 10, 15, 0, 0, 15, 10, -30],
    [-50, -10, -10, -30, -30, -10, -10, -50],
];

pub const PSQT_BISHOP_EG: [[i16; 8]; 8] = [
    [-50, -30, -30, -20, -20, -30, -30, -50],
    [-30, -10, -10, 5, 5, -10, -10, -30],
    [-20, 0, 0, 12, 12, 0, 0, -20],
    [-20, 0, 0, 12, 12, 0, 0, -20],
    [-20, 0, 0, 12, 12, 0, 0, -20],
    [-20, 0, 0, 12, 12, 0, 0, -20],
    [-30, -10, -10, 5, 5, -10, -10, -30],
    [-50, -30, -30, -20, -20, -30, -30, -50],
];

pub const PSQT_KING_MG: [[i16; 8]; 8] = [
    [40, 60, 20, 0, 0, 20, 60, 40],
    [40, 40, 0, 0, 0, 0, 20, 20],
    [-20, -40, -40, -40, -40, -40, -40, -20],
    [-40, -60, -60, -80, -80, -60, -60, -40],
    [-60, -80, -80, -100, -100, -80, -80, -60],
    [-60, -80, -80, -100, -100, -80, -80, -60],
    [-60, -80, -80, -100, -100, -80, -80, -60],
    [-60, -80, -80, -100, -100, -80, -80, -60],
];

pub const PSQT_KING_EG: [[i16; 8]; 8] = [
    [-50, -30, -30, -30, -30, -30, -30, -50],
    [-30, -30, 0, 0, 0, 0, -30, -30],
    [-30, -10, 20, 30, 30, 20, -10, -30],
    [-30, -10, 30, 40, 40, 30, -10, -30],
    [-30, -10, 30, 40, 40, 30, -10, -30],
    [-30, -10, 20, 30, 30, 20, -10, -30],
    [-30, -20, -10, 0, 0, -10, -20, -30],
    [-50, -40, -30, -20, -20, -30, -40, -50],
];

/// The table's value for a piece on `sq` of the side `is_black`.
pub open spec fn table_at(table: [[i16; 8]; 8], is_black: bool, sq: int) -> int {
    let i = if is_black {
        63 - sq
    } else {
        sq
    };
    table[i / 8][i % 8] as int
}

/// The table's values summed over the pieces of `b` on the first `n` squares.
pub open spec fn table_sum(b: u64, table: [[i16; 8]; 8], is_black: bool, n: nat) -> int
    decreases n,
{
    if n == 0 {
        0
    } else {
        table_sum(b, table, is_black, (n - 1) as nat) + if bit(b, n - 1) {
            table_at(table, is_black, n - 1)
        } else {
            0
        }
    }
}

/// The middle-game square-table score of one side's pieces.
pub open spec fn psqt_mg_value(p: PSQT) -> int {
    table_sum(p.pawns, PSQT_PAWN_MG, !p.is_white, 64) + table_sum(p.knights, PSQT_KNIGHT_MG, !p.is_white, 64)
        + table_sum(p.bishops, PSQT_BISHOP_MG, !p.is_white, 64) + table_at(
        PSQT_KING_MG,
        !p.is_white,
        vstd::std_specs::bits::u64_trailing_zeros(p.king) as int,
    )
}

/// The endgame square-table score of one side's pieces.
pub open spec fn psqt_eg_value(p: PSQT) -> int {
    table_sum(p.pawns, PSQT_PAWN_EG, !p.is_white, 64) + table_sum(p.knights, PSQT_KNIGHT_EG, !p.is_white, 64)
        + table_sum(p.bishops, PSQT_BISHOP_EG, !p.is_white, 64) + table_at(
        PSQT_KING_EG,
        !p.is_white,
        vstd::std_specs::bits::u64_trailing_zeros(p.king) as int,
    )
}

/// Black pieces score as white pieces on the board turned half a turn: with black's pawns,
/// knights, bishops and king turned onto white's, both score alike in the middle game and
/// the endgame, whatever the rooks and queens.
pub proof fn lemma_psqt_mirror(black: PSQT, white: PSQT, k: int)
    requires
        !black.is_white,
        white.is_white,
        is_rotated(black.pawns, white.pawns),
        is_rotated(black.knights, white.knights),
        is_rotated(black.bishops, white.bishops),
        is_rotated(black.king, white.king),
        0 <= k < 64,
        forall|t: int| 0 <= t < 64 ==> #[trigger] bit(black.king, t) == (t == k),
    ensures
        psqt_mg_value(black) == psqt_mg_value(white),
        psqt_eg_value(black) == psqt_eg_value(white),
{
    lemma_black_scores_rotated(black.pawns, white.pawns, PSQT_PAWN_MG);
    lemma_black_scores_rotated(black.knights, white.knights, PSQT_KNIGHT_MG);
    lemma_black_scores_rotated(black.bishops, white.bishops, PSQT_BISHOP_MG);
    lemma_black_scores_rotated(black.pawns, white.pawns, PSQT_PAWN_EG);
    lemma_black_scores_rotated(black.knights, white.knights, PSQT_KNIGHT_EG);
    lemma_black_scores_rotated(black.bishops, white.bishops, PSQT_BISHOP_EG);
    assert(bit(black.king, k));
    assert(bit(white.king, 63 - k));
    vstd::std_specs::bits::axiom_u64_trailing_zeros(black.king);
    vstd::std_specs::bits::axiom_u64_trailing_zeros(white.king);
    crate::bitboards::lemma_zero_board(black.king);
    crate::bitboards::lemma_zero_board(white.king);
    let kb = vstd::std_specs::bits::u64_trailing_zeros(black.king) as int;
    let kw = vstd::std_specs::bits::u64_trailing_zeros(white.king) as int;
    assert(kb == k) by {
        if kb < k {
            assert(!bit(black.king, kb));
        }
        if kb > k {
            assert(!bit(black.king, k));
        }
    }
    assert(kw == 63 - k) by {
        assert forall|t: int| 0 <= t < 64 implies #[trigger] bit(white.king, t) == (t == 63 - k) by {
            assert(bit(white.king, t) == bit(black.king, 63 - t));
        }
        if kw < 63 - k {
            assert(!bit(white.king, kw));
        }
        if kw > 63 - k {
            assert(!bit(white.king, 63 - k));
        }
    }
}

/// `r` is the board `b` turned half a turn: square `i` of `r` is square `63 - i` of `b`.
pub open spec fn is_rotated(b: u64, r: u64) -> bool {
    forall|i: int| 0 <= i < 64 ==> #[trigger] bit(r, i) == bit(b, 63 - i)
}

/// The black sum up to `n` and the white sum of the rotated board over the last `64 - n`
/// squares (as seen from black) make up the whole black sum.
proof fn lemma_rotated_partial(b: u64, r: u64, table: [[i16; 8]; 8], n: nat)
    requires
        is_rotated(b, r),
        n <= 64,
    ensures
        table_sum(b, table, true, n) + table_sum(r, table, false, (64 - n) as nat) == table_sum(
            b,
            table,
            true,
            64,
        ),
    decreases 64 - n,
{
    if n < 64 {
        lemma_rotated_partial(b, r, table, n + 1);
        let m = (64 - n) as nat;
        assert(table_sum(r, table, false, m) == table_sum(r, table, false, (m - 1) as nat) + if bit(
            r,
            m - 1,
        ) {
            table_at(table, false, m - 1)
        } else {
            0
        });
        assert(bit(r, m - 1) == bit(b, n as int));
        assert(table_at(table, false, m - 1) == table_at(table, true, n as int));
    }
}

/// A square table scores the black pieces of a board as it scores white pieces on the
/// board turned half a turn.
pub proof fn lemma_black_scores_rotated(b: u64, r: u64, table: [[i16; 8]; 8])
    requires
        is_rotated(b, r),
    ensures
        table_sum(b, table, true, 64) == table_sum(r, table, false, 64),
{
    lemma_rotated_partial(b, r, table, 0);
}

/// Every value of the table lies within 100 of zero.
pub open spec fn table_bounded(table: [[i16; 8]; 8]) -> bool {
    forall|r: int, f: int| 0 <= r < 8 && 0 <= f < 8 ==> -100 <= #[trigger] table[r][f] <= 100
}

proof fn lemma_table_sum_bound(b: u64, table: [[i16; 8]; 8], is_black: bool, n: nat)
    requires
        table_bounded(table),
        n <= 64,
    ensures
        -100 * n <= table_sum(b, table, is_black, n) <= 100 * n,
    decreases n,
{
    if n > 0 {
        lemma_table_sum_bound(b, table, is_black, (n - 1) as nat);
        let i = if is_black {
            63 - (n - 1)
        } else {
            n - 1
        };
        assert(-100 <= table[i / 8][i % 8] <= 100);
    }
}

proof fn lemma_table_sum_add(b: u64, b2: u64, s: int, table: [[i16; 8]; 8], is_black: bool, n: nat)
    requires
        0 <= s < 64,
        n <= 64,
        !bit(b, s),
        forall|t: int| #[trigger] bit(b2, t) == (bit(b, t) || t == s),
    ensures
        table_sum(b2, table, is_black, n) == table_sum(b, table, is_black, n) + if s < n {
            table_at(table, is_black, s)
        } else {
            0
        },
    decreases n,
{
    if n > 0 {
        lemma_table_sum_add(b, b2, s, table, is_black, (n - 1) as nat);
    }
}

/// The table's values summed over the pieces of `board`, as (midgame, endgame).
pub fn board_sum(board: u64, mg_table: [[i16; 8]; 8], eg_table: [[i16; 8]; 8], is_black: bool) -> (res: (
    i16,
    i16,
))
    requires
        table_bounded(mg_table),
        table_bounded(eg_table),
    ensures
        res.0 == table_sum(board, mg_table, is_black, 64),
        res.1 == table_sum(board, eg_table, is_black, 64),
{
    let mut mg_res: i16 = 0;
    let mut eg_res: i16 = 0;
    let mut rest = board;
    let ghost mut done: u64 = 0u64;
    proof {
        assert forall|t: int| #[trigger] bit(done, t) == (bit(board, t) && !bit(rest, t)) by {}
        lemma_table_sum_zero(done, mg_table, is_black, 64);
        lemma_table_sum_zero(done, eg_table, is_black, 64);
    }
    while rest != 0u64
        invariant
            table_bounded(mg_table),
            table_bounded(eg_table),
            forall|t: int| #[trigger] bit(done, t) == (bit(board, t) && !bit(rest, t)),
            forall|t: int| #[trigger] bit(rest, t) ==> bit(board, t),
            mg_res == table_sum(done, mg_table, is_black, 64),
            eg_res == table_sum(done, eg_table, is_black, 64),
        decreases rest,
    {
        proof {
            lemma_clear_lowest(rest);
        }
        let mut idx = rest.trailing_zeros() as usize;
        let ghost sq = idx as int;
        rest = rest ^ (1u64 << idx as u64);
        if is_black {
            idx = 63 - idx;
        }
        let ghost old_done = done;
        proof {
            done = done | (1u64 << sq as u64);
            lemma_table_sum_add(old_done, done, sq, mg_table, is_black, 64);
            lemma_table_sum_add(old_done, done, sq, eg_table, is_black, 64);
            lemma_table_sum_bound(done, mg_table, is_black, 64);
            lemma_table_sum_bound(done, eg_table, is_black, 64);
        }
        mg_res = mg_res + mg_table[idx / 8][idx % 8];
        eg_res = eg_res + eg_table[idx / 8][idx % 8];
    }
    proof {
        assert forall|t: int| #[trigger] bit(done, t) == bit(board, t) by {}
        lemma_table_sum_same(done, board, mg_table, is_black, 64);
        lemma_table_sum_same(done, board, eg_table, is_black, 64);
    }
    (mg_res, eg_res)
}

proof fn lemma_table_sum_zero(b: u64, table: [[i16; 8]; 8], is_black: bool, n: nat)
    requires
        forall|t: int| !#[trigger] bit(b, t),
    ensures
        table_sum(b, table, is_black, n) == 0,
    decreases n,
{
    if n > 0 {
        lemma_table_sum_zero(b, table, is_black, (n - 1) as nat);
    }
}

proof fn lemma_table_sum_same(b: u64, b2: u64, table: [[i16; 8]; 8], is_black: bool, n: nat)
    requires
        forall|t: int| #[trigger] bit(b, t) == bit(b2, t),
    ensures
        table_sum(b, table, is_black, n) == table_sum(b2, table, is_black, n),
    decreases n,
{
    if n > 0 {
        lemma_table_sum_same(b, b2, table, is_black, (n - 1) as nat);
    }
}

pub proof fn lemma_small_coords(r: int, f: int)
    requires
        0 <= r < 8,
        0 <= f < 8,
    ensures
        r == 0 || r == 1 || r == 2 || r == 3 || r == 4 || r == 5 || r == 6 || r == 7,
        f == 0 || f == 1 || f == 2 || f == 3 || f == 4 || f == 5 || f == 6 || f == 7,
{
}

/// The tables hold no value further than 100 from zero.
proof fn lemma_tables_bounded()
    ensures
        table_bounded(PSQT_PAWN_MG),
        table_bounded(PSQT_PAWN_EG),
        table_bounded(PSQT_KNIGHT_MG),
        table_bounded(PSQT_KNIGHT_EG),
        table_bounded(PSQT_BISHOP_MG),
        table_bounded(PSQT_BISHOP_EG),
        table_bounded(PSQT_KING_MG),
        table_bounded(PSQT_KING_EG),
{
    assert forall|r: int, f: int| 0 <= r < 8 && 0 <= f < 8 implies -100 <= #[trigger] PSQT_PAWN_MG[r][f] <= 100 by {
        lemma_small_coords(r, f);
    }
    assert forall|r: int, f: int| 0 <= r < 8 && 0 <= f < 8 implies -100 <= #[trigger] PSQT_PAWN_EG[r][f] <= 100 by {
        lemma_small_coords(r, f);
    }
    assert forall|r: int, f: int| 0 <= r < 8 && 0 <= f < 8 implies -100 <= #[trigger] PSQT_KNIGHT_MG[r][f] <= 100 by {
        lemma_small_coords(r, f);
    }
    assert forall|r: int, f: int| 0 <= r < 8 && 0 <= f < 8 implies -100 <= #[trigger] PSQT_KNIGHT_EG[r][f] <= 100 by {
        lemma_small_coords(r, f);
    }
    assert forall|r: int, f: int| 0 <= r < 8 && 0 <= f < 8 implies -100 <= #[trigger] PSQT_BISHOP_MG[r][f] <= 100 by {
        lemma_small_coords(r, f);
    }
    assert forall|r: int, f: int| 0 <= r < 8 && 0 <= f < 8 implies -100 <= #[trigger] PSQT_BISHOP_EG[r][f] <= 100 by {
        lemma_small_coords(r, f);
    }
    assert forall|r: int, f: int| 0 <= r < 8 && 0 <= f < 8 implies -100 <= #[trigger] PSQT_KING_MG[r][f] <= 100 by {
        lemma_small_coords(r, f);
    }
    assert forall|r: int, f: int| 0 <= r < 8 && 0 <= f < 8 implies -100 <= #[trigger] PSQT_KING_EG[r][f] <= 100 by {
        lemma_small_coords(r, f);
    }
}

/// The pawns' table values, (midgame, endgame).
pub fn eval_pawns(pawns: u64, is_black: bool) -> (res: (i16, i16))
    ensures
        res.0 == table_sum(pawns, PSQT_PAWN_MG, is_black, 64),
        res.1 == table_sum(pawns, PSQT_PAWN_EG, is_black, 64),
{
    proof {
        lemma_tables_bounded();
    }
    board_sum(pawns, PSQT_PAWN_MG, PSQT_PAWN_EG, is_black)
}

/// The knights' table values, (midgame, endgame).
pub fn eval_knights(knights: u64, is_black: bool) -> (res: (i16, i16))
    ensures
        res.0 == table_sum(knights, PSQT_KNIGHT_MG, is_black, 64),
        res.1 == table_sum(knights, PSQT_KNIGHT_EG, is_black, 64),
{
    proof {
        lemma_tables_bounded();
    }
    board_sum(knights, PSQT_KNIGHT_MG, PSQT_KNIGHT_EG, is_black)
}

/// The bishops' table values, (midgame, endgame).
pub fn eval_bishops(bishops: u64, is_black: bool) -> (res: (i16, i16))
    ensures
        res.0 == table_sum(bishops, PSQT_BISHOP_MG, is_black, 64),
        res.1 == table_sum(bishops, PSQT_BISHOP_EG, is_black, 64),
{
    proof {
        lemma_tables_bounded();
    }
    board_sum(bishops, PSQT_BISHOP_MG, PSQT_BISHOP_EG, is_black)
}

/// The king's table values, (midgame, endgame), for the king on the lowest square of
/// `king`.
pub fn eval_king(king: u64, is_black: bool) -> (res: (i16, i16))
    requires
        king != 0u64,
    ensures
        res.0 == table_at(
            PSQT_KING_MG,
            is_black,
            vstd::std_specs::bits::u64_trailing_zeros(king) as int,
        ),
        res.1 == table_at(
            PSQT_KING_EG,
            is_black,
            vstd::std_specs::bits::u64_trailing_zeros(king) as int,
        ),
{
    proof {
        vstd::std_specs::bits::axiom_u64_trailing_zeros(king);
    }
    let mut idx = king.trailing_zeros() as usize;
    if is_black {
        idx = 63 - idx;
    }
    (PSQT_KING_MG[idx / 8][idx % 8], PSQT_KING_EG[idx / 8][idx % 8])
}

/// One side's pieces for the piece-square evaluation.
pub struct PSQT {
    pub pawns: u64,
    pub knights: u64,
    pub bishops: u64,
    pub rooks: u64,
    pub queens: u64,
    pub king: u64,
    pub is_white: bool,
}

impl PSQT {
    pub fn new(
        pawns: u64,
        knights: u64,
        bishops: u64,
        rooks: u64,
        queens: u64,
        king: u64,
        is_white: bool,
    ) -> (res: PSQT)
        ensures
            res == (PSQT { pawns, knights, bishops, rooks, queens, king, is_white }),
    {
        PSQT { pawns, knights, bishops, rooks, queens, king, is_white }
    }

    pub fn copy(&self) -> (res: PSQT)
        ensures
            res == *self,
    {
        PSQT::new(
            self.pawns,
            self.knights,
            self.bishops,
            self.rooks,
            self.queens,
            self.king,
            self.is_white,
        )
    }

    /// The midgame worth of the pieces' squares: pawns, knights, bishops and the king.
    pub fn eval_mg(&self) -> (res: i16)
        requires
            self.king != 0u64,
        ensures
            res == table_sum(self.pawns, PSQT_PAWN_MG, !self.is_white, 64) + table_sum(
                self.knights,
                PSQT_KNIGHT_MG,
                !self.is_white,
                64,
            ) + table_sum(self.bishops, PSQT_BISHOP_MG, !self.is_white, 64) + table_at(
                PSQT_KING_MG,
                !self.is_white,
                vstd::std_specs::bits::u64_trailing_zeros(self.king) as int,
            ),
    {
        proof {
            lemma_tables_bounded();
            lemma_table_sum_bound(self.pawns, PSQT_PAWN_MG, !self.is_white, 64);
            lemma_table_sum_bound(self.knights, PSQT_KNIGHT_MG, !self.is_white, 64);
            lemma_table_sum_bound(self.bishops, PSQT_BISHOP_MG, !self.is_white, 64);
            vstd::std_specs::bits::axiom_u64_trailing_zeros(self.king);
            let k = vstd::std_specs::bits::u64_trailing_zeros(self.king) as int;
            let i = if !self.is_white { 63 - k } else { k };
            assert(-100 <= PSQT_KING_MG[i / 8][i % 8] <= 100);
        }
        let p = eval_pawns(self.pawns, !self.is_white);
        let n = eval_knights(self.knights, !self.is_white);
        let b = eval_bishops(self.bishops, !self.is_white);
        let k = eval_king(self.king, !self.is_white);
        p.0 + n.0 + b.0 + k.0
    }

    /// The endgame worth of the pieces' squares: pawns, knights, bishops and the king.
    pub fn eval_eg(&self) -> (res: i16)
        requires
            self.king != 0u64,
        ensures
            res == table_sum(self.pawns, PSQT_PAWN_EG, !self.is_white, 64) + table_sum(
                self.knights,
                PSQT_KNIGHT_EG,
                !self.is_white,
                64,
            ) + table_sum(self.bishops, PSQT_BISHOP_EG, !self.is_white, 64) + table_at(
                PSQT_KING_EG,
                !self.is_white,
                vstd::std_specs::bits::u64_trailing_zeros(self.king) as int,
            ),
    {
        proof {
            lemma_tables_bounded();
            lemma_table_sum_bound(self.pawns, PSQT_PAWN_EG, !self.is_white, 64);
            lemma_table_sum_bound(self.knights, PSQT_KNIGHT_EG, !self.is_white, 64);
            lemma_table_sum_bound(self.bishops, PSQT_BISHOP_EG, !self.is_white, 64);
            vstd::std_specs::bits::axiom_u64_trailing_zeros(self.king);
            let k = vstd::std_specs::bits::u64_trailing_zeros(self.king) as int;
            let i = if !self.is_white { 63 - k } else { k };
            assert(-100 <= PSQT_KING_EG[i / 8][i % 8] <= 100);
        }
        let p = eval_pawns(self.pawns, !self.is_white);
        let n = eval_knights(self.knights, !self.is_white);
        let b = eval_bishops(self.bishops, !self.is_white);
        let k = eval_king(self.king, !self.is_white);
        p.1 + n.1 + b.1 + k.1
    }
}

/// The piece-square evaluation of one side's pieces.
pub fn psqt_eval(
    pawns: u64,
    knights: u64,
    bishops: u64,
    rooks: u64,
    queens: u64,
    king: u64,
    is_white: bool,
) -> (res: PSQT)
    ensures
        res == (PSQT { pawns, knights, bishops, rooks, queens, king, is_white }),
{
    PSQT::new(pawns, knights, bishops, rooks, queens, king, is_white)
}

/// Each partial sum of `a - b + c - d + e - f + g - h`, taken from the left, fits in an
/// `i16`.
pub open spec fn alternating_sum_fits(a: int, b: int, c: int, d: int, e: int, f: int, g: int, h: int) -> bool {
    &&& i16::MIN <= a - b <= i16::MAX
    &&& i16::MIN <= a - b + c <= i16::MAX
    &&& i16::MIN <= a - b + c - d <= i16::MAX
    &&& i16::MIN <= a - b + c - d + e <= i16::MAX
    &&& i16::MIN <= a - b + c - d + e - f <= i16::MAX
    &&& i16::MIN <= a - b + c - d + e - f + g <= i16::MAX
    &&& i16::MIN <= a - b + c - d + e - f + g - h <= i16::MAX
}

/// The pawn table's value of each of the pawn, knight, bishop and king boards of both
/// sides, white's minus black's, in the order they are summed.
pub open spec fn slow_terms(pieces: [[u64; 2]; 6], table: [[i16; 8]; 8]) -> (int, int, int, int, int, int, int, int) {
    (
        table_sum(pieces[0][0], table, false, 64),
        table_sum(pieces[0][1], table, true, 64),
        table_sum(pieces[1][0], table, false, 64),
        table_sum(pieces[1][1], table, true, 64),
        table_sum(pieces[2][0], table, false, 64),
        table_sum(pieces[2][1], table, true, 64),
        table_sum(pieces[5][0], table, false, 64),
        table_sum(pieces[5][1], table, true, 64),
    )
}

/// The terms' alternating sum fits at every step.
pub open spec fn slow_terms_fit(t: (int, int, int, int, int, int, int, int)) -> bool {
    alternating_sum_fits(t.0, t.1, t.2, t.3, t.4, t.5, t.6, t.7)
}

/// The terms' alternating sum.
pub open spec fn slow_total(t: (int, int, int, int, int, int, int, int)) -> int {
    t.0 - t.1 + t.2 - t.3 + t.4 - t.5 + t.6 - t.7
}

/// The piece-square evaluation computed board by board, (midgame, endgame): every board
/// is valued with the pawn tables, white's boards counted for and black's against.
pub fn psqt_slow(game_state: &GameState) -> (res: (i16, i16))
    requires
        slow_terms_fit(slow_terms(game_state.pieces, PSQT_PAWN_MG)),
        slow_terms_fit(slow_terms(game_state.pieces, PSQT_PAWN_EG)),
    ensures
        res.0 == slow_total(slow_terms(game_state.pieces, PSQT_PAWN_MG)),
        res.1 == slow_total(slow_terms(game_state.pieces, PSQT_PAWN_EG)),
{
    let pieces = game_state.pieces;
    let mut mg_res: i16 = 0;
    let mut eg_res: i16 = 0;
    let pawns_white = eval_pawns(pieces[0][0], false);
    let pawns_black = eval_pawns(pieces[0][1], true);
    let knights_white = eval_pawns(pieces[1][0], false);
    let knights_black = eval_pawns(pieces[1][1], true);
    let bishops_white = eval_pawns(pieces[2][0], false);
    let bishops_black = eval_pawns(pieces[2][1], true);
    let king_white = eval_pawns(pieces[5][0], false);
    let king_black = eval_pawns(pieces[5][1], true);
    mg_res += pawns_white.0 - pawns_black.0 + knights_white.0 - knights_black.0 + bishops_white.0
        - bishops_black.0 + king_white.0 - king_black.0;
    eg_res += pawns_white.1 - pawns_black.1 + knights_white.1 - knights_black.1 + bishops_white.1
        - bishops_black.1 + king_white.1 - king_black.1;
    (mg_res, eg_res)
}

} // verus!
