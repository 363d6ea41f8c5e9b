use crate::bitboards::{bit, count_bits, diagonally_adjacent, file_of, knight_adjacent, rank_of};
use crate::move_generation::attacks::{lemma_ray_coords, lemma_square_coords};
use crate::move_generation::magic::{
    bishop_reaches, offset, ray_ok, ray_reaches, ray_sq, rook_reaches,
};
use vstd::prelude::*;

verus! {

// ---------------------------------------------------------------------------
// Counting the squares a piece can reach, and the bounds on those counts that the
// mobility tables are sized by.
// ---------------------------------------------------------------------------

/// How many of the squares below `n` satisfy `q`.
pub open spec fn count_squares(q: spec_fn(int) -> bool, n: nat) -> nat
    decreases n,
{
    if n == 0 {
        0
    } else {
        count_squares(q, (n - 1) as nat) + if q(n - 1) {
            1nat
        } else {
            0nat
        }
    }
}

/// A bitboard counts as many squares as the property it holds exactly on.
pub proof fn lemma_count_bits_squares(x: u64, q: spec_fn(int) -> bool, n: nat)
    requires
        n <= 64,
        forall|u: int| 0 <= u < 64 ==> #[trigger] bit(x, u) == q(u),
    ensures
        count_bits(x, n) == count_squares(q, n),
    decreases n,
{
    if n > 0 {
        lemma_count_bits_squares(x, q, (n - 1) as nat);
        assert(bit(x, n - 1) == q(n - 1));
    }
}

/// Counting a weaker property gives no fewer squares.
pub proof fn lemma_count_squares_mono(p: spec_fn(int) -> bool, q: spec_fn(int) -> bool, n: nat)
    requires
        forall|u: int| 0 <= u < n && #[trigger] p(u) ==> q(u),
    ensures
        count_squares(p, n) <= count_squares(q, n),
    decreases n,
{
    if n > 0 {
        lemma_count_squares_mono(p, q, (n - 1) as nat);
        assert(p(n - 1) ==> q(n - 1));
    }
}

/// A property that implies one of two others counts no more than both together.
pub proof fn lemma_count_squares_union(
    r: spec_fn(int) -> bool,
    p: spec_fn(int) -> bool,
    q: spec_fn(int) -> bool,
    n: nat,
)
    requires
        forall|u: int| 0 <= u < n && #[trigger] r(u) ==> p(u) || q(u),
    ensures
        count_squares(r, n) <= count_squares(p, n) + count_squares(q, n),
    decreases n,
{
    if n > 0 {
        lemma_count_squares_union(r, p, q, (n - 1) as nat);
        assert(r(n - 1) ==> p(n - 1) || q(n - 1));
    }
}

/// The squares of rank `r` that satisfy `q`, counted.
pub open spec fn row_count(q: spec_fn(int) -> bool, r: int) -> nat {
    (if q(8 * r) { 1nat } else { 0nat }) + (if q(8 * r + 1) { 1nat } else { 0nat }) + (if q(8 * r
        + 2) { 1nat } else { 0nat }) + (if q(8 * r + 3) { 1nat } else { 0nat }) + (if q(8 * r + 4) {
        1nat
    } else {
        0nat
    }) + (if q(8 * r + 5) { 1nat } else { 0nat }) + (if q(8 * r + 6) { 1nat } else { 0nat }) + (if q(
        8 * r + 7,
    ) {
        1nat
    } else {
        0nat
    })
}

/// The squares of the first `k` ranks that satisfy `q`, counted rank by rank.
pub open spec fn rows_total(q: spec_fn(int) -> bool, k: nat) -> nat
    decreases k,
{
    if k == 0 {
        0
    } else {
        rows_total(q, (k - 1) as nat) + row_count(q, k - 1)
    }
}

/// Counting the squares below rank `k` rank by rank gives the same count.
pub proof fn lemma_count_rows(q: spec_fn(int) -> bool, k: nat)
    ensures
        count_squares(q, 8 * k) == rows_total(q, k),
    decreases k,
{
    if k > 0 {
        lemma_count_rows(q, (k - 1) as nat);
        let m = 8 * (k - 1);
        assert(count_squares(q, (m + 1) as nat) == count_squares(q, m as nat) + if q(m) { 1nat } else { 0nat });
        assert(count_squares(q, (m + 2) as nat) == count_squares(q, (m + 1) as nat) + if q(m + 1) { 1nat } else { 0nat });
        assert(count_squares(q, (m + 3) as nat) == count_squares(q, (m + 2) as nat) + if q(m + 2) { 1nat } else { 0nat });
        assert(count_squares(q, (m + 4) as nat) == count_squares(q, (m + 3) as nat) + if q(m + 3) { 1nat } else { 0nat });
        assert(count_squares(q, (m + 5) as nat) == count_squares(q, (m + 4) as nat) + if q(m + 4) { 1nat } else { 0nat });
        assert(count_squares(q, (m + 6) as nat) == count_squares(q, (m + 5) as nat) + if q(m + 5) { 1nat } else { 0nat });
        assert(count_squares(q, (m + 7) as nat) == count_squares(q, (m + 6) as nat) + if q(m + 6) { 1nat } else { 0nat });
        assert(count_squares(q, (m + 8) as nat) == count_squares(q, (m + 7) as nat) + if q(m + 7) { 1nat } else { 0nat });
        assert(8 * k == m + 8);
    }
}

/// The coordinates of the eight squares of rank `r`.
proof fn lemma_row_coords(r: int)
    requires
        0 <= r < 8,
    ensures
        forall|f: int| 0 <= f < 8 ==> #[trigger] rank_of(8 * r + f) == r && file_of(8 * r + f) == f,
{
    assert forall|f: int| 0 <= f < 8 implies #[trigger] rank_of(8 * r + f) == r && file_of(8 * r + f)
        == f by {
        lemma_square_coords(r, f);
    }
}

/// `u` shares a rank or a file with `t`, and is another square.
pub open spec fn on_rook_line(t: int, u: int) -> bool {
    &&& 0 <= u < 64
    &&& u != t
    &&& (rank_of(u) == rank_of(t) || file_of(u) == file_of(t))
}

/// `u` shares a diagonal with `t`, and is another square.
pub open spec fn on_diagonal(t: int, u: int) -> bool {
    &&& 0 <= u < 64
    &&& u != t
    &&& (rank_of(u) - rank_of(t) == file_of(u) - file_of(t) || rank_of(u) - rank_of(t) == file_of(t)
        - file_of(u))
}

/// Fourteen squares share a rank or a file with any square.
pub proof fn lemma_rook_line_count(t: int)
    requires
        0 <= t < 64,
    ensures
        count_squares(|u: int| on_rook_line(t, u), 64) == 14,
{
    let q = |u: int| on_rook_line(t, u);
    lemma_count_rows(q, 8);
    lemma_square_coords(rank_of(t), file_of(t));
    assert forall|r: int| 0 <= r < 8 implies #[trigger] row_count(q, r) == if r == rank_of(t) {
        7nat
    } else {
        1nat
    } by {
        lemma_row_coords(r);
        assert(rank_of(8 * r + 0) == r && file_of(8 * r + 0) == 0);
        assert(rank_of(8 * r + 1) == r && file_of(8 * r + 1) == 1);
        assert(rank_of(8 * r + 2) == r && file_of(8 * r + 2) == 2);
        assert(rank_of(8 * r + 3) == r && file_of(8 * r + 3) == 3);
        assert(rank_of(8 * r + 4) == r && file_of(8 * r + 4) == 4);
        assert(rank_of(8 * r + 5) == r && file_of(8 * r + 5) == 5);
        assert(rank_of(8 * r + 6) == r && file_of(8 * r + 6) == 6);
        assert(rank_of(8 * r + 7) == r && file_of(8 * r + 7) == 7);
    }
    reveal_with_fuel(rows_total, 9);
    assert(row_count(q, 0) + row_count(q, 1) + row_count(q, 2) + row_count(q, 3) + row_count(q, 4)
        + row_count(q, 5) + row_count(q, 6) + row_count(q, 7) == 14);
}

/// The squares of rank `r` on a diagonal through the square on file `f`, rank `k`.
pub open spec fn diagonal_row(f: int, k: int, r: int) -> nat {
    if r == k {
        0
    } else {
        (if 0 <= f + (r - k) < 8 {
            1nat
        } else {
            0nat
        }) + (if 0 <= f - (r - k) < 8 {
            1nat
        } else {
            0nat
        })
    }
}

/// At most thirteen squares share a diagonal with any square.
#[verifier::spinoff_prover]
#[verifier::rlimit(80)]
pub proof fn lemma_diagonal_count(t: int)
    requires
        0 <= t < 64,
    ensures
        count_squares(|u: int| on_diagonal(t, u), 64) <= 13,
{
    let q = |u: int| on_diagonal(t, u);
    let f = file_of(t);
    let k = rank_of(t);
    lemma_count_rows(q, 8);
    lemma_square_coords(k, f);
    assert forall|r: int| 0 <= r < 8 implies #[trigger] row_count(q, r) == diagonal_row(f, k, r) by {
        lemma_diagonal_row(q, t, r);
    }
    reveal_with_fuel(rows_total, 9);
    assert(row_count(q, 0) + row_count(q, 1) + row_count(q, 2) + row_count(q, 3) + row_count(q, 4)
        + row_count(q, 5) + row_count(q, 6) + row_count(q, 7) <= 13) by {
        lemma_diagonal_rows_bound(f, k);
    }
}

/// The squares of rank `r` on a diagonal through `t`, counted.
#[verifier::spinoff_prover]
#[verifier::rlimit(40)]
proof fn lemma_diagonal_row(q: spec_fn(int) -> bool, t: int, r: int)
    requires
        0 <= t < 64,
        0 <= r < 8,
        forall|u: int| #[trigger] q(u) == on_diagonal(t, u),
    ensures
        row_count(q, r) == diagonal_row(file_of(t), rank_of(t), r),
{
    lemma_square_coords(rank_of(t), file_of(t));
    lemma_row_coords(r);
    assert(rank_of(8 * r + 0) == r && file_of(8 * r + 0) == 0);
    assert(rank_of(8 * r + 1) == r && file_of(8 * r + 1) == 1);
    assert(rank_of(8 * r + 2) == r && file_of(8 * r + 2) == 2);
    assert(rank_of(8 * r + 3) == r && file_of(8 * r + 3) == 3);
    assert(rank_of(8 * r + 4) == r && file_of(8 * r + 4) == 4);
    assert(rank_of(8 * r + 5) == r && file_of(8 * r + 5) == 5);
    assert(rank_of(8 * r + 6) == r && file_of(8 * r + 6) == 6);
    assert(rank_of(8 * r + 7) == r && file_of(8 * r + 7) == 7);
}

/// The diagonal rows of a square add up to at most thirteen squares.
proof fn lemma_diagonal_rows_bound(f: int, k: int)
    requires
        0 <= f < 8,
        0 <= k < 8,
    ensures
        diagonal_row(f, k, 0) + diagonal_row(f, k, 1) + diagonal_row(f, k, 2) + diagonal_row(f, k, 3)
            + diagonal_row(f, k, 4) + diagonal_row(f, k, 5) + diagonal_row(f, k, 6) + diagonal_row(
            f,
            k,
            7,
        ) <= 13,
{
    assert(k == 0 || k == 1 || k == 2 || k == 3 || k == 4 || k == 5 || k == 6 || k == 7);
    assert(f == 0 || f == 1 || f == 2 || f == 3 || f == 4 || f == 5 || f == 6 || f == 7);
}

/// A knight reaches at most eight squares.
#[verifier::spinoff_prover]
#[verifier::rlimit(80)]
pub proof fn lemma_knight_count(t: int)
    requires
        0 <= t < 64,
    ensures
        count_squares(|u: int| knight_adjacent(t, u), 64) <= 8,
{
    let q = |u: int| knight_adjacent(t, u);
    let k = rank_of(t);
    lemma_count_rows(q, 8);
    lemma_square_coords(k, file_of(t));
    assert forall|r: int| 0 <= r < 8 implies #[trigger] row_count(q, r) <= if r - k == 1 || r - k
        == -1 || r - k == 2 || r - k == -2 {
        2nat
    } else {
        0nat
    } by {
        lemma_row_coords(r);
        assert(rank_of(8 * r + 0) == r && file_of(8 * r + 0) == 0);
        assert(rank_of(8 * r + 1) == r && file_of(8 * r + 1) == 1);
        assert(rank_of(8 * r + 2) == r && file_of(8 * r + 2) == 2);
        assert(rank_of(8 * r + 3) == r && file_of(8 * r + 3) == 3);
        assert(rank_of(8 * r + 4) == r && file_of(8 * r + 4) == 4);
        assert(rank_of(8 * r + 5) == r && file_of(8 * r + 5) == 5);
        assert(rank_of(8 * r + 6) == r && file_of(8 * r + 6) == 6);
        assert(rank_of(8 * r + 7) == r && file_of(8 * r + 7) == 7);
    }
    reveal_with_fuel(rows_total, 9);
    assert(row_count(q, 0) + row_count(q, 1) + row_count(q, 2) + row_count(q, 3) + row_count(q, 4)
        + row_count(q, 5) + row_count(q, 6) + row_count(q, 7) <= 8);
}

/// At most four squares lie diagonally next to a square.
#[verifier::spinoff_prover]
#[verifier::rlimit(80)]
pub proof fn lemma_diagonally_adjacent_count(t: int)
    requires
        0 <= t < 64,
    ensures
        count_squares(|u: int| diagonally_adjacent(t, u), 64) <= 4,
{
    let q = |u: int| diagonally_adjacent(t, u);
    let k = rank_of(t);
    lemma_count_rows(q, 8);
    lemma_square_coords(k, file_of(t));
    assert forall|r: int| 0 <= r < 8 implies #[trigger] row_count(q, r) <= if r - k == 1 || r - k
        == -1 {
        2nat
    } else {
        0nat
    } by {
        lemma_row_coords(r);
        assert(rank_of(8 * r + 0) == r && file_of(8 * r + 0) == 0);
        assert(rank_of(8 * r + 1) == r && file_of(8 * r + 1) == 1);
        assert(rank_of(8 * r + 2) == r && file_of(8 * r + 2) == 2);
        assert(rank_of(8 * r + 3) == r && file_of(8 * r + 3) == 3);
        assert(rank_of(8 * r + 4) == r && file_of(8 * r + 4) == 4);
        assert(rank_of(8 * r + 5) == r && file_of(8 * r + 5) == 5);
        assert(rank_of(8 * r + 6) == r && file_of(8 * r + 6) == 6);
        assert(rank_of(8 * r + 7) == r && file_of(8 * r + 7) == 7);
    }
    reveal_with_fuel(rows_total, 9);
    assert(row_count(q, 0) + row_count(q, 1) + row_count(q, 2) + row_count(q, 3) + row_count(q, 4)
        + row_count(q, 5) + row_count(q, 6) + row_count(q, 7) <= 4);
}

/// A square a slider reaches along one direction lies on that line from `t`: its file
/// and rank move by the direction's steps, `d` times for some `d` of at least one.
proof fn lemma_ray_target(t: int, occ: u64, df: int, dr: int, u: int)
    requires
        0 <= t < 64,
        -1 <= df <= 1,
        -1 <= dr <= 1,
        ray_reaches(t, occ, df, dr, u),
    ensures
        0 <= u < 64,
        exists|d: int|
            d >= 1 && file_of(u) == file_of(t) + offset(df, d) && rank_of(u) == rank_of(t) + offset(
                dr,
                d,
            ),
{
    let d = choose|d: int|
        #![trigger ray_sq(t, df, dr, d)]
        d >= 1 && ray_ok(t, df, dr, d) && u == ray_sq(t, df, dr, d) && forall|e: int|
            1 <= e < d ==> !#[trigger] bit(occ, ray_sq(t, df, dr, e));
    lemma_ray_coords(t, df, dr, d);
}

/// A rook reaches only squares on its rank or file.
pub proof fn lemma_rook_reach_line(t: int, occ: u64, u: int)
    requires
        0 <= t < 64,
        rook_reaches(t, occ, u),
    ensures
        on_rook_line(t, u),
{
    lemma_square_coords(rank_of(t), file_of(t));
    if ray_reaches(t, occ, 0, 1, u) {
        lemma_ray_target(t, occ, 0, 1, u);
    } else if ray_reaches(t, occ, 0, -1, u) {
        lemma_ray_target(t, occ, 0, -1, u);
    } else if ray_reaches(t, occ, 1, 0, u) {
        lemma_ray_target(t, occ, 1, 0, u);
    } else {
        lemma_ray_target(t, occ, -1, 0, u);
    }
}

/// A bishop reaches only squares on its diagonals.
pub proof fn lemma_bishop_reach_diagonal(t: int, occ: u64, u: int)
    requires
        0 <= t < 64,
        bishop_reaches(t, occ, u),
    ensures
        on_diagonal(t, u),
{
    lemma_square_coords(rank_of(t), file_of(t));
    if ray_reaches(t, occ, 1, 1, u) {
        lemma_ray_target(t, occ, 1, 1, u);
    } else if ray_reaches(t, occ, -1, -1, u) {
        lemma_ray_target(t, occ, -1, -1, u);
    } else if ray_reaches(t, occ, 1, -1, u) {
        lemma_ray_target(t, occ, 1, -1, u);
    } else {
        lemma_ray_target(t, occ, -1, 1, u);
    }
}

} // verus!
