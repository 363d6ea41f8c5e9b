use crate::bitboards::{
    self, bit, diagonally_adjacent, file_of, knight_adjacent, lemma_and_zero, lemma_clear_lowest,
    rank_of,
};
use crate::evaluation::mobility::{
    count_squares, lemma_bishop_reach_diagonal, lemma_count_bits_squares, lemma_count_squares_mono,
    lemma_count_squares_union, lemma_diagonal_count, lemma_diagonally_adjacent_count,
    lemma_knight_count, lemma_rook_line_count, lemma_rook_reach_line, on_diagonal, on_rook_line,
};
use crate::move_generation::magic::{bishop_reaches, rook_reaches};
use crate::move_generation::movegen::{bishop_attack, knight_attack, rook_attack};
use vstd::prelude::*;

verus! {

broadcast use crate::bitboards::group_bit_ops;

pub const ROOK_ON_OPEN_FILE_BONUS_MG: i16 = 20;
pub const ROOK_ON_SEVENTH_MG: i16 = 10;
pub const ROOK_ON_OPEN_FILE_BONUS_EG: i16 = 20;
pub const ROOK_ON_SEVENTH_EG: i16 = 10;
pub const DIAGONALLY_ADJACENT_SQUARES_WITH_OWN_PAWNS_MG: [i16; 5] = [0, 0, 0, -40, -100];
pub const DIAGONALLY_ADJACENT_SQUARES_WITH_OWN_PAWNS_EG: [i16; 5] = [0, 0, 0, -40, -100];

pub const KNIGHT_MOBILITY_BONUS_MG: [i16; 9] = [-75, -50, -15, -5, 5, 15, 25, 35, 45];
pub const KNIGHT_MOBILITY_BONUS_EG: [i16; 9] = [-75, -50, -15, -5, 3, 7, 12, 15, 20];
pub const BISHOP_MOBILITY_BONUS_MG: [i16; 14] =
    [-50, -25, 0, 15, 25, 35, 45, 55, 65, 70, 75, 80, 85, 90];
pub const BISHOP_MOBILITY_BONUS_EG: [i16; 14] =
    [-50, -25, 0, 8, 12, 17, 23, 27, 35, 40, 45, 50, 55, 60];
pub const ROOK_MOBILITY_BONUS_MG: [i16; 15] =
    [-30, -10, -5, 0, 2, 5, 7, 10, 13, 15, 17, 20, 25, 30, 35];
pub const ROOK_MOBILITY_BONUS_EG: [i16; 15] = [
    -80, -60, -40, -30, -25, 0, 25, 35, 45, 50, 55, 60, 65, 70, 75,
];
pub const QUEEN_MOBILITY_BONUS_MG: [i16; 28] = [
    -40, -30, -20, -10, -5, 0, 3, 5, 8, 10, 13, 15, 18, 20, 23, 25, 28, 30, 33, 35, 38, 40, 43, 45,
    48, 50, 53, 55,
];

pub const QUEEN_MOBILITY_BONUS_EG: [i16; 28] = [
    -40, -30, -20, -10, -5, 0, 3, 5, 8, 10, 13, 15, 18, 20, 23, 25, 30, 35, 40, 45, 50, 55, 60, 65,
    70, 75, 80, 85,
];


/// The boards one side's piece-by-piece evaluation looks at.
pub struct PiecewiseEvaluation {
    pub my_pawns: u64,
    pub my_rooks: u64,
    pub my_bishops: u64,
    pub my_knights: u64,
    pub my_queens: u64,
    pub is_white: bool,
    pub all_pawns: u64,
    pub my_pieces: u64,
    pub all_pieces_without_enemy_king: u64,
}

pub fn piecewise_eval(
    my_pawns: u64,
    my_rooks: u64,
    my_bishops: u64,
    my_knights: u64,
    my_queens: u64,
    is_white: bool,
    all_pawns: u64,
    my_pieces: u64,
    all_pieces_without_enemy_king: u64,
) -> (res: PiecewiseEvaluation)
    ensures
        res == (PiecewiseEvaluation {
            my_pawns,
            my_rooks,
            my_bishops,
            my_knights,
            my_queens,
            is_white,
            all_pawns,
            my_pieces,
            all_pieces_without_enemy_king,
        }),
{
    PiecewiseEvaluation {
        my_pawns,
        my_rooks,
        my_bishops,
        my_knights,
        my_queens,
        is_white,
        all_pawns,
        my_pieces,
        all_pieces_without_enemy_king,
    }
}

/// The values `v` gives the squares of `b` below `n`, summed.
pub open spec fn value_sum(b: u64, v: spec_fn(int) -> int, n: nat) -> int
    decreases n,
{
    if n == 0 {
        0
    } else {
        value_sum(b, v, (n - 1) as nat) + if bit(b, n - 1) {
            v(n - 1)
        } else {
            0
        }
    }
}

proof fn lemma_value_sum_zero(b: u64, v: spec_fn(int) -> int, n: nat)
    requires
        forall|t: int| !#[trigger] bit(b, t),
    ensures
        value_sum(b, v, n) == 0,
    decreases n,
{
    if n > 0 {
        lemma_value_sum_zero(b, v, (n - 1) as nat);
    }
}

proof fn lemma_value_sum_same(b: u64, b2: u64, v: spec_fn(int) -> int, n: nat)
    requires
        forall|t: int| #[trigger] bit(b, t) == bit(b2, t),
    ensures
        value_sum(b, v, n) == value_sum(b2, v, n),
    decreases n,
{
    if n > 0 {
        lemma_value_sum_same(b, b2, v, (n - 1) as nat);
    }
}

proof fn lemma_value_sum_add(b: u64, b2: u64, s: int, v: spec_fn(int) -> int, n: nat)
    requires
        0 <= s < 64,
        !bit(b, s),
        forall|t: int| #[trigger] bit(b2, t) == (bit(b, t) || t == s),
    ensures
        value_sum(b2, v, n) == value_sum(b, v, n) + if s < n {
            v(s)
        } else {
            0
        },
    decreases n,
{
    if n > 0 {
        lemma_value_sum_add(b, b2, s, v, (n - 1) as nat);
    }
}

proof fn lemma_value_sum_bound(b: u64, v: spec_fn(int) -> int, n: nat, lo: int, hi: int)
    requires
        n <= 64,
        lo <= 0 <= hi,
        forall|t: int| 0 <= t < 64 ==> lo <= #[trigger] v(t) <= hi,
    ensures
        lo * n <= value_sum(b, v, n) <= hi * n,
    decreases n,
{
    if n > 0 {
        lemma_value_sum_bound(b, v, (n - 1) as nat, lo, hi);
        assert(v(n - 1) <= hi);
        assert(lo * (n - 1) + lo == lo * n && hi * (n - 1) + hi == hi * n) by (nonlinear_arith);
    }
}

/// The squares a rook of `e` on `t` can move to: those it reaches that hold none of the
/// side's own pieces, counted.
pub open spec fn rook_mobility(e: PiecewiseEvaluation, t: int) -> nat {
    count_squares(
        |u: int| rook_reaches(t, e.all_pieces_without_enemy_king, u) && !bit(e.my_pieces, u),
        64,
    )
}

/// The squares a bishop of `e` on `t` can move to, counted.
pub open spec fn bishop_mobility(e: PiecewiseEvaluation, t: int) -> nat {
    count_squares(
        |u: int| bishop_reaches(t, e.all_pieces_without_enemy_king, u) && !bit(e.my_pieces, u),
        64,
    )
}

/// The squares a knight of `e` on `t` can move to, counted.
pub open spec fn knight_mobility(e: PiecewiseEvaluation, t: int) -> nat {
    count_squares(|u: int| knight_adjacent(t, u) && !bit(e.my_pieces, u), 64)
}

/// The squares a queen of `e` on `t` can move to, counted.
pub open spec fn queen_mobility(e: PiecewiseEvaluation, t: int) -> nat {
    count_squares(
        |u: int|
            (rook_reaches(t, e.all_pieces_without_enemy_king, u) || bishop_reaches(
                t,
                e.all_pieces_without_enemy_king,
                u,
            )) && !bit(e.my_pieces, u),
        64,
    )
}

/// The side's own pawns diagonally next to `t`, counted.
pub open spec fn pawn_neighbours(e: PiecewiseEvaluation, t: int) -> nat {
    count_squares(|u: int| diagonally_adjacent(t, u) && bit(e.my_pawns, u), 64)
}

/// `t` lies on the side's seventh rank.
pub open spec fn on_seventh(e: PiecewiseEvaluation, t: int) -> bool {
    if e.is_white {
        rank_of(t) == 6
    } else {
        rank_of(t) == 1
    }
}

/// No pawn of either side stands on `t`'s file.
pub open spec fn open_file(e: PiecewiseEvaluation, t: int) -> bool {
    forall|u: int| 0 <= u < 64 && #[trigger] bit(e.all_pawns, u) ==> file_of(u) != file_of(t)
}

/// `t` lies off the board's outer ring.
pub open spec fn in_center(t: int) -> bool {
    1 <= file_of(t) <= 6 && 1 <= rank_of(t) <= 6
}

/// A rook on `t`: the bonus on the seventh rank and on an open file, and its mobility's.
pub open spec fn rook_value(e: PiecewiseEvaluation, t: int, seventh: int, open: int, mob: [i16; 15]) -> int {
    (if on_seventh(e, t) {
        seventh
    } else {
        0
    }) + (if open_file(e, t) {
        open
    } else {
        0
    }) + mob[rook_mobility(e, t) as int]
}

/// A bishop on `t`: the value for the own pawns diagonally next to it (a bonus only in
/// the center), and its mobility's.
pub open spec fn bishop_value(e: PiecewiseEvaluation, t: int, pawns: [i16; 5], mob: [i16; 14]) -> int {
    let bonus = pawns[pawn_neighbours(e, t) as int] as int;
    (if bonus <= 0 || in_center(t) {
        bonus
    } else {
        0
    }) + mob[bishop_mobility(e, t) as int]
}

/// A knight on `t`: its mobility's value.
pub open spec fn knight_value(e: PiecewiseEvaluation, t: int, mob: [i16; 9]) -> int {
    mob[knight_mobility(e, t) as int] as int
}

/// A queen on `t`: its mobility's value.
pub open spec fn queen_value(e: PiecewiseEvaluation, t: int, mob: [i16; 28]) -> int {
    mob[queen_mobility(e, t) as int] as int
}

/// The rooks' values summed.
pub open spec fn rooks_sum(e: PiecewiseEvaluation, seventh: int, open: int, mob: [i16; 15]) -> int {
    value_sum(e.my_rooks, |t: int| rook_value(e, t, seventh, open, mob), 64)
}

/// The bishops' values summed.
pub open spec fn bishops_sum(e: PiecewiseEvaluation, pawns: [i16; 5], mob: [i16; 14]) -> int {
    value_sum(e.my_bishops, |t: int| bishop_value(e, t, pawns, mob), 64)
}

/// The knights' values summed.
pub open spec fn knights_sum(e: PiecewiseEvaluation, mob: [i16; 9]) -> int {
    value_sum(e.my_knights, |t: int| knight_value(e, t, mob), 64)
}

/// The queens' values summed.
pub open spec fn queens_sum(e: PiecewiseEvaluation, mob: [i16; 28]) -> int {
    value_sum(e.my_queens, |t: int| queen_value(e, t, mob), 64)
}

/// A rook moves to at most fourteen squares.
proof fn lemma_rook_mobility_bound(e: PiecewiseEvaluation, t: int)
    requires
        0 <= t < 64,
    ensures
        rook_mobility(e, t) <= 14,
{
    let q = |u: int| rook_reaches(t, e.all_pieces_without_enemy_king, u) && !bit(e.my_pieces, u);
    let line = |u: int| on_rook_line(t, u);
    assert forall|u: int| 0 <= u < 64 && #[trigger] q(u) implies line(u) by {
        lemma_rook_reach_line(t, e.all_pieces_without_enemy_king, u);
    }
    lemma_count_squares_mono(q, line, 64);
    lemma_rook_line_count(t);
}

/// The rooks' part of the evaluation, with the given bonuses and mobility table.
fn rooks_worth(e: &PiecewiseEvaluation, seventh: i16, open: i16, mob: [i16; 15]) -> (res: i16)
    requires
        0 <= seventh <= 10,
        0 <= open <= 20,
        forall|i: int| 0 <= i < 15 ==> -80 <= #[trigger] mob[i] <= 75,
    ensures
        res == rooks_sum(*e, seventh as int, open as int, mob),
        -5120 <= res <= 6720,
{
    let files = bitboards::initialize_files();
    let ghost v = |t: int| rook_value(*e, t, seventh as int, open as int, mob);
    proof {
        assert forall|t: int| 0 <= t < 64 implies -80 <= #[trigger] v(t) <= 105 by {
            lemma_rook_mobility_bound(*e, t);
        }
    }
    let mut res: i16 = 0;
    let mut rest = e.my_rooks;
    let ghost mut done: u64 = 0u64;
    proof {
        lemma_value_sum_zero(done, v, 64);
    }
    while rest != 0u64
        invariant
            0 <= seventh <= 10,
            0 <= open <= 20,
            forall|i: int| 0 <= i < 15 ==> -80 <= #[trigger] mob[i] <= 75,
            forall|f: int, t: int|
                0 <= f < 8 && 0 <= t < 64 ==> #[trigger] bit(files[f], t) == (file_of(t) == f),
            v == (|t: int| rook_value(*e, t, seventh as int, open as int, mob)),
            forall|t: int| 0 <= t < 64 ==> -80 <= #[trigger] v(t) <= 105,
            forall|t: int| #[trigger] bit(done, t) == (bit(e.my_rooks, t) && !bit(rest, t)),
            forall|t: int| #[trigger] bit(rest, t) ==> bit(e.my_rooks, t),
            res == value_sum(done, v, 64),
        decreases rest,
    {
        proof {
            lemma_clear_lowest(rest);
        }
        let idx = rest.trailing_zeros() as usize;
        let ghost sq = idx as int;
        let mut val: i16 = 0;
        if e.is_white {
            if idx / 8 == 6 {
                val += seventh;
            }
        } else {
            if idx / 8 == 1 {
                val += seventh;
            }
        }
        let pawns_on_file = files[idx % 8] & e.all_pawns;
        proof {
            lemma_and_zero(files[(idx % 8) as int], e.all_pawns);
        }
        if pawns_on_file == 0u64 {
            val += open;
        }
        let targets = rook_attack(idx, e.all_pieces_without_enemy_king) & !e.my_pieces;
        let n = targets.count_ones() as usize;
        proof {
            let q = |u: int|
                rook_reaches(sq, e.all_pieces_without_enemy_king, u) && !bit(e.my_pieces, u);
            lemma_count_bits_squares(targets, q, 64);
            lemma_rook_mobility_bound(*e, sq);
            let f = (idx % 8) as int;
            assert(pawns_on_file == 0u64 <==> open_file(*e, sq)) by {
                if pawns_on_file == 0u64 {
                    assert forall|u: int| 0 <= u < 64 && #[trigger] bit(e.all_pawns, u) implies file_of(
                        u,
                    ) != file_of(sq) by {
                        assert(!(bit(files[f], u) && bit(e.all_pawns, u)));
                    }
                } else {
                    let u = choose|u: int|
                        0 <= u < 64 && !!(#[trigger] bit(files[f], u) && bit(e.all_pawns, u));
                    assert(bit(files[f], u) == (file_of(u) == f));
                }
            }
        }
        val += mob[n];
        assert(val == v(sq));
        rest = rest ^ (1u64 << idx as u64);
        let ghost old_done = done;
        proof {
            done = done | (1u64 << sq as u64);
            lemma_value_sum_add(old_done, done, sq, v, 64);
            lemma_value_sum_bound(done, v, 64, -80, 105);
        }
        res = res + val;
    }
    proof {
        assert forall|t: int| #[trigger] bit(done, t) == bit(e.my_rooks, t) by {}
        lemma_value_sum_same(done, e.my_rooks, v, 64);
        lemma_value_sum_bound(e.my_rooks, v, 64, -80, 105);
    }
    res
}

/// A bishop moves to at most thirteen squares.
proof fn lemma_bishop_mobility_bound(e: PiecewiseEvaluation, t: int)
    requires
        0 <= t < 64,
    ensures
        bishop_mobility(e, t) <= 13,
{
    let q = |u: int| bishop_reaches(t, e.all_pieces_without_enemy_king, u) && !bit(e.my_pieces, u);
    let diag = |u: int| on_diagonal(t, u);
    assert forall|u: int| 0 <= u < 64 && #[trigger] q(u) implies diag(u) by {
        lemma_bishop_reach_diagonal(t, e.all_pieces_without_enemy_king, u);
    }
    lemma_count_squares_mono(q, diag, 64);
    lemma_diagonal_count(t);
}

/// A knight moves to at most eight squares.
proof fn lemma_knight_mobility_bound(e: PiecewiseEvaluation, t: int)
    requires
        0 <= t < 64,
    ensures
        knight_mobility(e, t) <= 8,
{
    let q = |u: int| knight_adjacent(t, u) && !bit(e.my_pieces, u);
    let all = |u: int| knight_adjacent(t, u);
    lemma_count_squares_mono(q, all, 64);
    lemma_knight_count(t);
}

/// A queen moves to at most twenty-seven squares.
proof fn lemma_queen_mobility_bound(e: PiecewiseEvaluation, t: int)
    requires
        0 <= t < 64,
    ensures
        queen_mobility(e, t) <= 27,
{
    let occ = e.all_pieces_without_enemy_king;
    let q = |u: int|
        (rook_reaches(t, occ, u) || bishop_reaches(t, occ, u)) && !bit(e.my_pieces, u);
    let line = |u: int| on_rook_line(t, u);
    let diag = |u: int| on_diagonal(t, u);
    assert forall|u: int| 0 <= u < 64 && #[trigger] q(u) implies line(u) || diag(u) by {
        if rook_reaches(t, occ, u) {
            lemma_rook_reach_line(t, occ, u);
        } else {
            lemma_bishop_reach_diagonal(t, occ, u);
        }
    }
    lemma_count_squares_union(q, line, diag, 64);
    lemma_rook_line_count(t);
    lemma_diagonal_count(t);
}

/// At most four own pawns stand diagonally next to a square.
proof fn lemma_pawn_neighbours_bound(e: PiecewiseEvaluation, t: int)
    requires
        0 <= t < 64,
    ensures
        pawn_neighbours(e, t) <= 4,
{
    let q = |u: int| diagonally_adjacent(t, u) && bit(e.my_pawns, u);
    let all = |u: int| diagonally_adjacent(t, u);
    lemma_count_squares_mono(q, all, 64);
    lemma_diagonally_adjacent_count(t);
}

/// The bishops' part of the evaluation, with the given pawn and mobility tables.
fn bishops_worth(e: &PiecewiseEvaluation, pawns: [i16; 5], mob: [i16; 14]) -> (res: i16)
    requires
        forall|i: int| 0 <= i < 5 ==> -100 <= #[trigger] pawns[i] <= 0,
        forall|i: int| 0 <= i < 14 ==> -50 <= #[trigger] mob[i] <= 90,
    ensures
        res == bishops_sum(*e, pawns, mob),
        -9600 <= res <= 5760,
{
    let diagonals = bitboards::init_diagonally_adjacent();
    let center = bitboards::initialize_center();
    let ghost v = |t: int| bishop_value(*e, t, pawns, mob);
    proof {
        assert forall|t: int| 0 <= t < 64 implies -150 <= #[trigger] v(t) <= 90 by {
            lemma_bishop_mobility_bound(*e, t);
            lemma_pawn_neighbours_bound(*e, t);
        }
    }
    let mut res: i16 = 0;
    let mut rest = e.my_bishops;
    let ghost mut done: u64 = 0u64;
    proof {
        lemma_value_sum_zero(done, v, 64);
    }
    while rest != 0u64
        invariant
            forall|i: int| 0 <= i < 5 ==> -100 <= #[trigger] pawns[i] <= 0,
            forall|i: int| 0 <= i < 14 ==> -50 <= #[trigger] mob[i] <= 90,
            forall|sq: int, t: int|
                0 <= sq < 64 && 0 <= t < 64 ==> #[trigger] bit(diagonals[sq], t)
                    == diagonally_adjacent(sq, t),
            forall|t: int|
                0 <= t < 64 ==> #[trigger] bit(center, t) == (1 <= file_of(t) <= 6 && 1 <= rank_of(
                    t,
                ) <= 6),
            v == (|t: int| bishop_value(*e, t, pawns, mob)),
            forall|t: int| 0 <= t < 64 ==> -150 <= #[trigger] v(t) <= 90,
            forall|t: int| #[trigger] bit(done, t) == (bit(e.my_bishops, t) && !bit(rest, t)),
            forall|t: int| #[trigger] bit(rest, t) ==> bit(e.my_bishops, t),
            res == value_sum(done, v, 64),
        decreases rest,
    {
        proof {
            lemma_clear_lowest(rest);
        }
        let idx = rest.trailing_zeros() as usize;
        let ghost sq = idx as int;
        let pos = 1u64 << idx as u64;
        let neighbours = diagonals[idx] & e.my_pawns;
        let k = neighbours.count_ones() as usize;
        proof {
            let q = |u: int| diagonally_adjacent(sq, u) && bit(e.my_pawns, u);
            lemma_count_bits_squares(neighbours, q, 64);
            lemma_pawn_neighbours_bound(*e, sq);
        }
        let bonus = pawns[k];
        let mut val: i16 = 0;
        let centered = pos & center;
        proof {
            lemma_and_zero(pos, center);
            assert(centered != 0u64 <==> in_center(sq)) by {
                if in_center(sq) {
                    assert(bit(pos, sq) && bit(center, sq));
                }
            }
        }
        if bonus <= 0 || centered != 0u64 {
            val += bonus;
        }
        let targets = bishop_attack(idx, e.all_pieces_without_enemy_king) & !e.my_pieces;
        let n = targets.count_ones() as usize;
        proof {
            let q = |u: int|
                bishop_reaches(sq, e.all_pieces_without_enemy_king, u) && !bit(e.my_pieces, u);
            lemma_count_bits_squares(targets, q, 64);
            lemma_bishop_mobility_bound(*e, sq);
        }
        val += mob[n];
        assert(val == v(sq));
        rest = rest ^ pos;
        let ghost old_done = done;
        proof {
            done = done | (1u64 << sq as u64);
            lemma_value_sum_add(old_done, done, sq, v, 64);
            lemma_value_sum_bound(done, v, 64, -150, 90);
        }
        res = res + val;
    }
    proof {
        assert forall|t: int| #[trigger] bit(done, t) == bit(e.my_bishops, t) by {}
        lemma_value_sum_same(done, e.my_bishops, v, 64);
        lemma_value_sum_bound(e.my_bishops, v, 64, -150, 90);
    }
    res
}

/// The knights' part of the evaluation, with the given mobility table.
fn knights_worth(e: &PiecewiseEvaluation, mob: [i16; 9]) -> (res: i16)
    requires
        forall|i: int| 0 <= i < 9 ==> -75 <= #[trigger] mob[i] <= 45,
    ensures
        res == knights_sum(*e, mob),
        -4800 <= res <= 2880,
{
    let ghost v = |t: int| knight_value(*e, t, mob);
    proof {
        assert forall|t: int| 0 <= t < 64 implies -75 <= #[trigger] v(t) <= 45 by {
            lemma_knight_mobility_bound(*e, t);
        }
    }
    let mut res: i16 = 0;
    let mut rest = e.my_knights;
    let ghost mut done: u64 = 0u64;
    proof {
        lemma_value_sum_zero(done, v, 64);
    }
    while rest != 0u64
        invariant
            forall|i: int| 0 <= i < 9 ==> -75 <= #[trigger] mob[i] <= 45,
            v == (|t: int| knight_value(*e, t, mob)),
            forall|t: int| 0 <= t < 64 ==> -75 <= #[trigger] v(t) <= 45,
            forall|t: int| #[trigger] bit(done, t) == (bit(e.my_knights, t) && !bit(rest, t)),
            forall|t: int| #[trigger] bit(rest, t) ==> bit(e.my_knights, t),
            res == value_sum(done, v, 64),
        decreases rest,
    {
        proof {
            lemma_clear_lowest(rest);
        }
        let idx = rest.trailing_zeros() as usize;
        let ghost sq = idx as int;
        let pos = 1u64 << idx as u64;
        let targets = knight_attack(idx) & !e.my_pieces;
        let n = targets.count_ones() as usize;
        proof {
            let q = |u: int| knight_adjacent(sq, u) && !bit(e.my_pieces, u);
            lemma_count_bits_squares(targets, q, 64);
            lemma_knight_mobility_bound(*e, sq);
        }
        let val = mob[n];
        assert(val == v(sq));
        rest = rest ^ pos;
        let ghost old_done = done;
        proof {
            done = done | (1u64 << sq as u64);
            lemma_value_sum_add(old_done, done, sq, v, 64);
            lemma_value_sum_bound(done, v, 64, -75, 45);
        }
        res = res + val;
    }
    proof {
        assert forall|t: int| #[trigger] bit(done, t) == bit(e.my_knights, t) by {}
        lemma_value_sum_same(done, e.my_knights, v, 64);
        lemma_value_sum_bound(e.my_knights, v, 64, -75, 45);
    }
    res
}

/// The queens' part of the evaluation, with the given mobility table.
fn queens_worth(e: &PiecewiseEvaluation, mob: [i16; 28]) -> (res: i16)
    requires
        forall|i: int| 0 <= i < 28 ==> -40 <= #[trigger] mob[i] <= 85,
    ensures
        res == queens_sum(*e, mob),
        -2560 <= res <= 5440,
{
    let ghost v = |t: int| queen_value(*e, t, mob);
    proof {
        assert forall|t: int| 0 <= t < 64 implies -40 <= #[trigger] v(t) <= 85 by {
            lemma_queen_mobility_bound(*e, t);
        }
    }
    let mut res: i16 = 0;
    let mut rest = e.my_queens;
    let ghost mut done: u64 = 0u64;
    proof {
        lemma_value_sum_zero(done, v, 64);
    }
    while rest != 0u64
        invariant
            forall|i: int| 0 <= i < 28 ==> -40 <= #[trigger] mob[i] <= 85,
            v == (|t: int| queen_value(*e, t, mob)),
            forall|t: int| 0 <= t < 64 ==> -40 <= #[trigger] v(t) <= 85,
            forall|t: int| #[trigger] bit(done, t) == (bit(e.my_queens, t) && !bit(rest, t)),
            forall|t: int| #[trigger] bit(rest, t) ==> bit(e.my_queens, t),
            res == value_sum(done, v, 64),
        decreases rest,
    {
        proof {
            lemma_clear_lowest(rest);
        }
        let idx = rest.trailing_zeros() as usize;
        let ghost sq = idx as int;
        let targets = (bishop_attack(idx, e.all_pieces_without_enemy_king) | rook_attack(
            idx,
            e.all_pieces_without_enemy_king,
        )) & !e.my_pieces;
        let n = targets.count_ones() as usize;
        proof {
            let occ = e.all_pieces_without_enemy_king;
            let q = |u: int|
                (rook_reaches(sq, occ, u) || bishop_reaches(sq, occ, u)) && !bit(e.my_pieces, u);
            lemma_count_bits_squares(targets, q, 64);
            lemma_queen_mobility_bound(*e, sq);
        }
        let val = mob[n];
        assert(val == v(sq));
        rest = rest ^ (1u64 << idx as u64);
        let ghost old_done = done;
        proof {
            done = done | (1u64 << sq as u64);
            lemma_value_sum_add(old_done, done, sq, v, 64);
            lemma_value_sum_bound(done, v, 64, -40, 85);
        }
        res = res + val;
    }
    proof {
        assert forall|t: int| #[trigger] bit(done, t) == bit(e.my_queens, t) by {}
        lemma_value_sum_same(done, e.my_queens, v, 64);
        lemma_value_sum_bound(e.my_queens, v, 64, -40, 85);
    }
    res
}

/// The bonus tables lie within the bounds the evaluation's sums are sized by.
proof fn lemma_bonus_tables_bounded()
    ensures
        forall|i: int| 0 <= i < 5 ==> -100 <= #[trigger] DIAGONALLY_ADJACENT_SQUARES_WITH_OWN_PAWNS_MG[i] <= 0,
        forall|i: int| 0 <= i < 5 ==> -100 <= #[trigger] DIAGONALLY_ADJACENT_SQUARES_WITH_OWN_PAWNS_EG[i] <= 0,
        forall|i: int| 0 <= i < 9 ==> -75 <= #[trigger] KNIGHT_MOBILITY_BONUS_MG[i] <= 45,
        forall|i: int| 0 <= i < 9 ==> -75 <= #[trigger] KNIGHT_MOBILITY_BONUS_EG[i] <= 45,
        forall|i: int| 0 <= i < 14 ==> -50 <= #[trigger] BISHOP_MOBILITY_BONUS_MG[i] <= 90,
        forall|i: int| 0 <= i < 14 ==> -50 <= #[trigger] BISHOP_MOBILITY_BONUS_EG[i] <= 90,
        forall|i: int| 0 <= i < 15 ==> -80 <= #[trigger] ROOK_MOBILITY_BONUS_MG[i] <= 75,
        forall|i: int| 0 <= i < 15 ==> -80 <= #[trigger] ROOK_MOBILITY_BONUS_EG[i] <= 75,
        forall|i: int| 0 <= i < 28 ==> -40 <= #[trigger] QUEEN_MOBILITY_BONUS_MG[i] <= 85,
        forall|i: int| 0 <= i < 28 ==> -40 <= #[trigger] QUEEN_MOBILITY_BONUS_EG[i] <= 85,
{
    assert forall|i: int| 0 <= i < 5 implies -100 <= #[trigger] DIAGONALLY_ADJACENT_SQUARES_WITH_OWN_PAWNS_MG[i] <= 0
        && -100 <= DIAGONALLY_ADJACENT_SQUARES_WITH_OWN_PAWNS_EG[i] <= 0 by {
        assert(i == 0 || i == 1 || i == 2 || i == 3 || i == 4);
    }
    assert forall|i: int| 0 <= i < 9 implies -75 <= #[trigger] KNIGHT_MOBILITY_BONUS_MG[i] <= 45
        && -75 <= KNIGHT_MOBILITY_BONUS_EG[i] <= 45 by {
        assert(i == 0 || i == 1 || i == 2 || i == 3 || i == 4 || i == 5 || i == 6 || i == 7 || i == 8);
    }
    assert forall|i: int| 0 <= i < 14 implies -50 <= #[trigger] BISHOP_MOBILITY_BONUS_MG[i] <= 90
        && -50 <= BISHOP_MOBILITY_BONUS_EG[i] <= 90 by {
        assert(i == 0 || i == 1 || i == 2 || i == 3 || i == 4 || i == 5 || i == 6 || i == 7 || i == 8 || i == 9 || i == 10 || i == 11 || i == 12 || i == 13);
    }
    assert forall|i: int| 0 <= i < 15 implies -80 <= #[trigger] ROOK_MOBILITY_BONUS_MG[i] <= 75
        && -80 <= ROOK_MOBILITY_BONUS_EG[i] <= 75 by {
        assert(i == 0 || i == 1 || i == 2 || i == 3 || i == 4 || i == 5 || i == 6 || i == 7 || i == 8 || i == 9 || i == 10 || i == 11 || i == 12 || i == 13 || i == 14);
    }
    assert forall|i: int| 0 <= i < 28 implies -40 <= #[trigger] QUEEN_MOBILITY_BONUS_MG[i] <= 85
        && -40 <= QUEEN_MOBILITY_BONUS_EG[i] <= 85 by {
        assert(i == 0 || i == 1 || i == 2 || i == 3 || i == 4 || i == 5 || i == 6 || i == 7 || i == 8 || i == 9 || i == 10 || i == 11 || i == 12 || i == 13 || i == 14 || i == 15 || i == 16 || i == 17 || i == 18 || i == 19 || i == 20 || i == 21 || i == 22 || i == 23 || i == 24 || i == 25 || i == 26 || i == 27);
    }
}

impl PiecewiseEvaluation {
    /// The evaluation with the given bonuses and tables: the rooks' (seventh rank, open
    /// file, mobility), the bishops' (own pawns diagonally next to them, mobility), the
    /// knights' and the queens' (mobility), summed.
    pub open spec fn worth(
        self,
        seventh: int,
        open: int,
        pawns: [i16; 5],
        knight_mob: [i16; 9],
        bishop_mob: [i16; 14],
        rook_mob: [i16; 15],
        queen_mob: [i16; 28],
    ) -> int {
        rooks_sum(self, seventh, open, rook_mob) + bishops_sum(self, pawns, bishop_mob)
            + knights_sum(self, knight_mob) + queens_sum(self, queen_mob)
    }

    /// The piece-by-piece evaluation in the middle game.
    pub fn eval_mg(&self) -> (res: i16)
        ensures
            res == self.worth(
                ROOK_ON_SEVENTH_MG as int,
                ROOK_ON_OPEN_FILE_BONUS_MG as int,
                DIAGONALLY_ADJACENT_SQUARES_WITH_OWN_PAWNS_MG,
                KNIGHT_MOBILITY_BONUS_MG,
                BISHOP_MOBILITY_BONUS_MG,
                ROOK_MOBILITY_BONUS_MG,
                QUEEN_MOBILITY_BONUS_MG,
            ),
    {
        proof {
            lemma_bonus_tables_bounded();
        }
        let rooks = rooks_worth(self, ROOK_ON_SEVENTH_MG, ROOK_ON_OPEN_FILE_BONUS_MG, ROOK_MOBILITY_BONUS_MG);
        let bishops = bishops_worth(
            self,
            DIAGONALLY_ADJACENT_SQUARES_WITH_OWN_PAWNS_MG,
            BISHOP_MOBILITY_BONUS_MG,
        );
        let knights = knights_worth(self, KNIGHT_MOBILITY_BONUS_MG);
        let queens = queens_worth(self, QUEEN_MOBILITY_BONUS_MG);
        rooks + bishops + knights + queens
    }

    /// The piece-by-piece evaluation in the end game.
    pub fn eval_eg(&self) -> (res: i16)
        ensures
            res == self.worth(
                ROOK_ON_SEVENTH_EG as int,
                ROOK_ON_OPEN_FILE_BONUS_EG as int,
                DIAGONALLY_ADJACENT_SQUARES_WITH_OWN_PAWNS_EG,
                KNIGHT_MOBILITY_BONUS_EG,
                BISHOP_MOBILITY_BONUS_EG,
                ROOK_MOBILITY_BONUS_EG,
                QUEEN_MOBILITY_BONUS_EG,
            ),
    {
        proof {
            lemma_bonus_tables_bounded();
        }
        let rooks = rooks_worth(self, ROOK_ON_SEVENTH_EG, ROOK_ON_OPEN_FILE_BONUS_EG, ROOK_MOBILITY_BONUS_EG);
        let bishops = bishops_worth(
            self,
            DIAGONALLY_ADJACENT_SQUARES_WITH_OWN_PAWNS_EG,
            BISHOP_MOBILITY_BONUS_EG,
        );
        let knights = knights_worth(self, KNIGHT_MOBILITY_BONUS_EG);
        let queens = queens_worth(self, QUEEN_MOBILITY_BONUS_EG);
        rooks + bishops + knights + queens
    }
}

} // verus!
