use crate::bitboards::{
    bishop_ray_box, bit, file_of, king_adjacent, knight_adjacent, rank_of, rook_ray_box,
};
use crate::move_generation::magic::{
    bishop_reaches, offset, ray_ok, ray_reaches, ray_sq, rook_reaches,
};
use vstd::prelude::*;

verus! {

// ---------------------------------------------------------------------------
// Which squares the pieces of a side attack. Piece kinds are numbered as the rows of
// `GameState::pieces`: pawn, knight, bishop, rook, queen, king.
// ---------------------------------------------------------------------------

/// A pawn of colour `c` (0 white, 1 black) on `s` attacks `t`: the two squares
/// diagonally in front of it.
pub open spec fn pawn_attacks(c: int, s: int, t: int) -> bool {
    &&& 0 <= s < 64
    &&& 0 <= t < 64
    &&& if c == 0 {
        (t == s + 7 && file_of(t) <= 6) || (t == s + 9 && file_of(t) >= 1)
    } else {
        (t == s - 7 && file_of(t) >= 1) || (t == s - 9 && file_of(t) <= 6)
    }
}

/// A piece of kind `p` and colour `c` on `s` attacks `t` when the board holds `occ`.
pub open spec fn piece_attacks(p: int, c: int, s: int, occ: u64, t: int) -> bool {
    if p == 0 {
        pawn_attacks(c, s, t)
    } else if p == 1 {
        knight_adjacent(s, t)
    } else if p == 2 {
        bishop_reaches(s, occ, t)
    } else if p == 3 {
        rook_reaches(s, occ, t)
    } else if p == 4 {
        bishop_reaches(s, occ, t) || rook_reaches(s, occ, t)
    } else {
        king_adjacent(s, t)
    }
}

/// Some piece of kind `p` and colour `c` standing on `board` attacks `t`.
pub open spec fn covers(p: int, c: int, board: u64, occ: u64, t: int) -> bool {
    exists|s: int| 0 <= s < 64 && bit(board, s) && #[trigger] piece_attacks(p, c, s, occ, t)
}

/// All pieces of a side, as one board.
pub open spec fn side_board(pieces: [[u64; 2]; 6], c: int) -> u64 {
    pieces[0][c] | pieces[1][c] | pieces[2][c] | pieces[3][c] | pieces[4][c] | pieces[5][c]
}

/// All pieces on the board.
pub open spec fn occupancy(pieces: [[u64; 2]; 6]) -> u64 {
    side_board(pieces, 0) | side_board(pieces, 1)
}

/// Some piece of colour `c` attacks `t` when the board holds `occ`.
pub open spec fn attacked_by(pieces: [[u64; 2]; 6], c: int, occ: u64, t: int) -> bool {
    exists|p: int| 0 <= p < 6 && #[trigger] covers(p, c, pieces[p][c], occ, t)
}

/// The square of the lowest piece on a board (64 for an empty board).
pub open spec fn lowest_square(b: u64) -> int {
    vstd::std_specs::bits::u64_trailing_zeros(b) as int
}

/// The board holds exactly one square.
pub open spec fn single_square(b: u64) -> bool {
    &&& b != 0u64
    &&& forall|t: int| #[trigger] bit(b, t) ==> t == lowest_square(b)
}

/// Adding the square `i` to a board adds the attacks of a piece on `i` to what the board
/// covers.
pub proof fn lemma_covers_add(p: int, c: int, b: u64, b2: u64, i: int, occ: u64, t: int)
    requires
        0 <= i < 64,
        forall|s: int| #[trigger] bit(b2, s) == (bit(b, s) || s == i),
    ensures
        covers(p, c, b2, occ, t) == (covers(p, c, b, occ, t) || piece_attacks(p, c, i, occ, t)),
{
    if covers(p, c, b2, occ, t) {
        let s = choose|s: int| 0 <= s < 64 && bit(b2, s) && #[trigger] piece_attacks(p, c, s, occ, t);
        if s != i {
            assert(0 <= s < 64 && bit(b, s) && piece_attacks(p, c, s, occ, t));
        }
    }
    if covers(p, c, b, occ, t) {
        let s = choose|s: int| 0 <= s < 64 && bit(b, s) && #[trigger] piece_attacks(p, c, s, occ, t);
        assert(bit(b2, s));
    }
    if piece_attacks(p, c, i, occ, t) {
        assert(bit(b2, i));
    }
}

/// An empty board covers nothing.
pub proof fn lemma_covers_empty(p: int, c: int, b: u64, occ: u64, t: int)
    requires
        forall|s: int| !#[trigger] bit(b, s),
    ensures
        !covers(p, c, b, occ, t),
{
}

/// Boards with the same squares cover the same squares.
pub proof fn lemma_covers_same(p: int, c: int, b: u64, b2: u64, occ: u64, t: int)
    requires
        forall|s: int| #[trigger] bit(b2, s) == bit(b, s),
    ensures
        covers(p, c, b2, occ, t) == covers(p, c, b, occ, t),
{
    if covers(p, c, b2, occ, t) {
        let s = choose|s: int| 0 <= s < 64 && bit(b2, s) && #[trigger] piece_attacks(p, c, s, occ, t);
        assert(bit(b, s));
    }
    if covers(p, c, b, occ, t) {
        let s = choose|s: int| 0 <= s < 64 && bit(b, s) && #[trigger] piece_attacks(p, c, s, occ, t);
        assert(bit(b2, s));
    }
}


// ---------------------------------------------------------------------------
// The geometry of rays.
// ---------------------------------------------------------------------------

/// The square on rank `r` and file `f`.
pub proof fn lemma_square_coords(r: int, f: int)
    requires
        0 <= r < 8,
        0 <= f < 8,
    ensures
        rank_of(8 * r + f) == r,
        file_of(8 * r + f) == f,
{
    assert((8 * r + f) / 8 == r) by (nonlinear_arith)
        requires
            0 <= f < 8,
    ;
    assert((8 * r + f) % 8 == f) by (nonlinear_arith)
        requires
            0 <= f < 8,
    ;
}

/// A direction a rook moves in.
pub open spec fn rook_dir(df: int, dr: int) -> bool {
    (df == 0 && (dr == 1 || dr == -1)) || (dr == 0 && (df == 1 || df == -1))
}

/// A direction a bishop moves in.
pub open spec fn bishop_dir(df: int, dr: int) -> bool {
    (df == 1 || df == -1) && (dr == 1 || dr == -1)
}

/// The file and rank of a square on a ray.
pub proof fn lemma_ray_coords(sq: int, df: int, dr: int, d: int)
    requires
        0 <= sq < 64,
        ray_ok(sq, df, dr, d),
    ensures
        file_of(ray_sq(sq, df, dr, d)) == file_of(sq) + offset(df, d),
        rank_of(ray_sq(sq, df, dr, d)) == rank_of(sq) + offset(dr, d),
        0 <= ray_sq(sq, df, dr, d) < 64,
{
    lemma_square_coords(rank_of(sq) + offset(dr, d), file_of(sq) + offset(df, d));
}

/// A witness for a ray reaching `t`: the direction and the distance.
pub open spec fn ray_witness(sq: int, blocks: u64, df: int, dr: int, t: int, d: int) -> bool {
    &&& d >= 1
    &&& ray_ok(sq, df, dr, d)
    &&& t == ray_sq(sq, df, dr, d)
    &&& forall|e: int| 1 <= e < d ==> !#[trigger] bit(blocks, ray_sq(sq, df, dr, e))
}

/// Two squares on rays of one kind of slider from `sq` are the same only on the same
/// ray at the same distance.
pub proof fn lemma_ray_injective(sq: int, df1: int, dr1: int, d1: int, df2: int, dr2: int, d2: int)
    requires
        0 <= sq < 64,
        rook_dir(df1, dr1) && rook_dir(df2, dr2) || bishop_dir(df1, dr1) && bishop_dir(df2, dr2),
        d1 >= 1,
        d2 >= 1,
        ray_ok(sq, df1, dr1, d1),
        ray_ok(sq, df2, dr2, d2),
        ray_sq(sq, df1, dr1, d1) == ray_sq(sq, df2, dr2, d2),
    ensures
        df1 == df2,
        dr1 == dr2,
        d1 == d2,
{
    lemma_ray_coords(sq, df1, dr1, d1);
    lemma_ray_coords(sq, df2, dr2, d2);
}

/// Fewer blockers let a slider reach at least as far.
pub proof fn lemma_ray_reaches_fewer(sq: int, blocks: u64, fewer: u64, df: int, dr: int, t: int)
    requires
        ray_reaches(sq, blocks, df, dr, t),
        forall|u: int| #[trigger] bit(fewer, u) ==> bit(blocks, u),
    ensures
        ray_reaches(sq, fewer, df, dr, t),
{
    let d = choose|d: int|
        #![trigger ray_sq(sq, df, dr, d)]
        d >= 1 && ray_ok(sq, df, dr, d) && t == ray_sq(sq, df, dr, d) && forall|e: int|
            1 <= e < d ==> !#[trigger] bit(blocks, ray_sq(sq, df, dr, e));
    assert forall|e: int| 1 <= e < d implies !#[trigger] bit(fewer, ray_sq(sq, df, dr, e)) by {
        assert(!bit(blocks, ray_sq(sq, df, dr, e)));
    }
    assert(ray_witness(sq, fewer, df, dr, t, d));
}


/// A square's place: eight times its rank plus its file.
pub proof fn lemma_square_split(sq: int)
    requires
        0 <= sq < 64,
    ensures
        sq == 8 * rank_of(sq) + file_of(sq),
        0 <= rank_of(sq) < 8,
        0 <= file_of(sq) < 8,
{
}

/// The direction and distance by which a rook on `k` reaches `u` on an empty board.
pub proof fn lemma_rook_reach_witness(k: int, u: int) -> (w: (int, int, int))
    requires
        0 <= k < 64,
        rook_reaches(k, 0u64, u),
    ensures
        rook_dir(w.0, w.1),
        w.2 >= 1,
        ray_ok(k, w.0, w.1, w.2),
        u == ray_sq(k, w.0, w.1, w.2),
{
    let (df, dr): (int, int) = if ray_reaches(k, 0u64, 0, 1, u) {
        (0, 1)
    } else if ray_reaches(k, 0u64, 0, -1, u) {
        (0, -1)
    } else if ray_reaches(k, 0u64, 1, 0, u) {
        (1, 0)
    } else {
        (-1, 0)
    };
    let e = choose|e: int|
        #![trigger ray_sq(k, df, dr, e)]
        e >= 1 && ray_ok(k, df, dr, e) && u == ray_sq(k, df, dr, e) && forall|j: int|
            1 <= j < e ==> !#[trigger] bit(0u64, ray_sq(k, df, dr, j));
    (df, dr, e)
}

/// The direction and distance by which a bishop on `k` reaches `u` on an empty board.
pub proof fn lemma_bishop_reach_witness(k: int, u: int) -> (w: (int, int, int))
    requires
        0 <= k < 64,
        bishop_reaches(k, 0u64, u),
    ensures
        bishop_dir(w.0, w.1),
        w.2 >= 1,
        ray_ok(k, w.0, w.1, w.2),
        u == ray_sq(k, w.0, w.1, w.2),
{
    let (df, dr): (int, int) = if ray_reaches(k, 0u64, 1, 1, u) {
        (1, 1)
    } else if ray_reaches(k, 0u64, -1, -1, u) {
        (-1, -1)
    } else if ray_reaches(k, 0u64, 1, -1, u) {
        (1, -1)
    } else {
        (-1, 1)
    };
    let e = choose|e: int|
        #![trigger ray_sq(k, df, dr, e)]
        e >= 1 && ray_ok(k, df, dr, e) && u == ray_sq(k, df, dr, e) && forall|j: int|
            1 <= j < e ==> !#[trigger] bit(0u64, ray_sq(k, df, dr, j));
    (df, dr, e)
}

/// A square of a king's empty-board rook attacks in the strip towards a square that the
/// king's rook ray in direction (df, dr) reaches at distance `dist` lies on that ray,
/// nearer to the king.
pub proof fn lemma_rook_ray_box(k: int, df: int, dr: int, dist: int, u: int) -> (e: int)
    requires
        0 <= k < 64,
        rook_dir(df, dr),
        dist >= 1,
        ray_ok(k, df, dr, dist),
        rook_reaches(k, 0u64, u),
        rook_ray_box(k, ray_sq(k, df, dr, dist), u),
    ensures
        1 <= e < dist,
        ray_ok(k, df, dr, e),
        u == ray_sq(k, df, dr, e),
{
    let p = ray_sq(k, df, dr, dist);
    lemma_ray_coords(k, df, dr, dist);
    lemma_square_split(k);
    lemma_square_split(p);
    let w = lemma_rook_reach_witness(k, u);
    lemma_ray_coords(k, w.0, w.1, w.2);
    lemma_square_split(u);
    w.2
}

/// Seven steps along a diagonal are never a multiple of nine squares.
proof fn lemma_seven_steps(d: int)
    requires
        1 <= d <= 7,
    ensures
        (7 * d) % 9 != 0,
        (9 * d) % 9 == 0,
{
    assert((9 * d) % 9 == 0) by (nonlinear_arith);
    if d == 1 {
    } else if d == 2 {
    } else if d == 3 {
    } else if d == 4 {
    } else if d == 5 {
    } else if d == 6 {
    } else {
    }
}

/// The bishop counterpart of `lemma_rook_ray_box`.
pub proof fn lemma_bishop_ray_box(k: int, df: int, dr: int, dist: int, u: int) -> (e: int)
    requires
        0 <= k < 64,
        bishop_dir(df, dr),
        dist >= 1,
        ray_ok(k, df, dr, dist),
        bishop_reaches(k, 0u64, u),
        bishop_ray_box(k, ray_sq(k, df, dr, dist), u),
    ensures
        1 <= e < dist,
        ray_ok(k, df, dr, e),
        u == ray_sq(k, df, dr, e),
{
    let p = ray_sq(k, df, dr, dist);
    lemma_ray_coords(k, df, dr, dist);
    lemma_square_split(k);
    lemma_square_split(p);
    lemma_seven_steps(dist);
    let w = lemma_bishop_reach_witness(k, u);
    lemma_ray_coords(k, w.0, w.1, w.2);
    lemma_square_split(u);
    if df == 1 && dr == 1 {
        assert(p - k == 9 * dist);
    } else if df == -1 && dr == -1 {
        assert(k - p == 9 * dist);
    } else if df == 1 && dr == -1 {
        assert(k - p == 7 * dist);
    } else {
        assert(p - k == 7 * dist);
    }
    w.2
}


/// The squares a rook (`rook`) or a bishop on `k` reaches when the board holds `blocks`.
pub open spec fn slider_reaches(rook: bool, k: int, blocks: u64, t: int) -> bool {
    if rook {
        rook_reaches(k, blocks, t)
    } else {
        bishop_reaches(k, blocks, t)
    }
}

/// A direction a rook (`rook`) or a bishop moves in.
pub open spec fn slider_dir(rook: bool, df: int, dr: int) -> bool {
    if rook {
        rook_dir(df, dr)
    } else {
        bishop_dir(df, dr)
    }
}

/// The strip (`rook`) or box strictly between `k` and `p` towards which a slider's ray
/// runs.
pub open spec fn slider_ray_box(rook: bool, k: int, p: int, u: int) -> bool {
    if rook {
        rook_ray_box(k, p, u)
    } else {
        bishop_ray_box(k, p, u)
    }
}

/// The direction and distance by which a slider on `k` reaches `u`.
pub proof fn lemma_slider_witness(rook: bool, k: int, blocks: u64, u: int) -> (w: (int, int, int))
    requires
        0 <= k < 64,
        slider_reaches(rook, k, blocks, u),
    ensures
        slider_dir(rook, w.0, w.1),
        ray_witness(k, blocks, w.0, w.1, u, w.2),
{
    let (df, dr): (int, int) = if rook {
        if ray_reaches(k, blocks, 0, 1, u) {
            (0, 1)
        } else if ray_reaches(k, blocks, 0, -1, u) {
            (0, -1)
        } else if ray_reaches(k, blocks, 1, 0, u) {
            (1, 0)
        } else {
            (-1, 0)
        }
    } else {
        if ray_reaches(k, blocks, 1, 1, u) {
            (1, 1)
        } else if ray_reaches(k, blocks, -1, -1, u) {
            (-1, -1)
        } else if ray_reaches(k, blocks, 1, -1, u) {
            (1, -1)
        } else {
            (-1, 1)
        }
    };
    let e = choose|e: int|
        #![trigger ray_sq(k, df, dr, e)]
        e >= 1 && ray_ok(k, df, dr, e) && u == ray_sq(k, df, dr, e) && forall|j: int|
            1 <= j < e ==> !#[trigger] bit(blocks, ray_sq(k, df, dr, j));
    (df, dr, e)
}

/// The square `t` on a slider's ray is reached when nothing blocks before it.
pub proof fn lemma_slider_reaches_from(
    rook: bool,
    k: int,
    blocks: u64,
    df: int,
    dr: int,
    t: int,
    d: int,
)
    requires
        0 <= k < 64,
        slider_dir(rook, df, dr),
        ray_witness(k, blocks, df, dr, t, d),
    ensures
        slider_reaches(rook, k, blocks, t),
{
    assert(d >= 1 && ray_ok(k, df, dr, d) && t == ray_sq(k, df, dr, d) && forall|e: int|
        1 <= e < d ==> !#[trigger] bit(blocks, ray_sq(k, df, dr, e)));
    assert(ray_reaches(k, blocks, df, dr, t));
}

/// A slider's ray from the king `k` towards an enemy piece `p` that the slider's x-ray
/// from `k` reaches (its attacks through the own pieces it first meets) holds at most one
/// own piece, and not `p`.
pub proof fn lemma_pin_ray(
    rook: bool,
    k: int,
    occ: u64,
    my: u64,
    attacks: u64,
    xray: u64,
    p: int,
    ray: u64,
)
    requires
        0 <= k < 64,
        0 <= p < 64,
        forall|t: int| 0 <= t < 64 ==> #[trigger] bit(attacks, t) == slider_reaches(rook, k, occ, t),
        forall|t: int|
            0 <= t < 64 ==> #[trigger] bit(xray, t) == (bit(attacks, t) != slider_reaches(
                rook,
                k,
                occ ^ (my & attacks),
                t,
            )),
        forall|t: int| #[trigger] bit(my, t) ==> bit(occ, t),
        bit(xray, p),
        !bit(my, p),
        forall|u: int|
            0 <= u < 64 ==> #[trigger] bit(ray, u) == (slider_reaches(rook, k, 0u64, u)
                && slider_ray_box(rook, k, p, u)),
    ensures
        forall|u1: int, u2: int|
            #[trigger] bit(ray, u1) && bit(my, u1) && #[trigger] bit(ray, u2) && bit(my, u2) ==> u1
                == u2,
        !bit(ray, p),
{
    broadcast use crate::bitboards::group_bit_ops;

    let lifted = occ ^ (my & attacks);
    assert forall|u: int| #[trigger] bit(lifted, u) implies bit(occ, u) by {}
    assert(!bit(attacks, p)) by {
        if bit(attacks, p) {
            let w = lemma_slider_witness(rook, k, occ, p);
            assert(ray_reaches(k, occ, w.0, w.1, p));
            lemma_ray_reaches_fewer(k, occ, lifted, w.0, w.1, p);
            let w2 = lemma_slider_witness(rook, k, lifted, p);
            assert(slider_reaches(rook, k, lifted, p)) by {
                if rook {
                    assert(rook_reaches(k, lifted, p));
                } else {
                    assert(bishop_reaches(k, lifted, p));
                }
            }
        }
    }
    assert(slider_reaches(rook, k, lifted, p));
    let w = lemma_slider_witness(rook, k, lifted, p);
    let (df, dr, dist) = w;
    lemma_ray_coords(k, df, dr, dist);
    assert forall|u1: int, u2: int|
        #[trigger] bit(ray, u1) && bit(my, u1) && #[trigger] bit(ray, u2) && bit(my, u2) implies u1
        == u2 by {
        let e1 = if rook {
            lemma_rook_ray_box(k, df, dr, dist, u1)
        } else {
            lemma_bishop_ray_box(k, df, dr, dist, u1)
        };
        let e2 = if rook {
            lemma_rook_ray_box(k, df, dr, dist, u2)
        } else {
            lemma_bishop_ray_box(k, df, dr, dist, u2)
        };
        if e1 != e2 {
            let (lo, hi, far) = if e1 < e2 {
                (e1, e2, u2)
            } else {
                (e2, e1, u1)
            };
            crate::move_generation::magic::lemma_ray_ok_shrinks(k, df, dr, dist, lo);
            assert(!bit(lifted, ray_sq(k, df, dr, hi)));
            assert(bit(attacks, far));
            let w2 = lemma_slider_witness(rook, k, occ, far);
            lemma_ray_injective(k, w2.0, w2.1, w2.2, df, dr, hi);
            assert(!bit(occ, ray_sq(k, df, dr, lo)));
        }
    }
    if bit(ray, p) {
        let e = if rook {
            lemma_rook_ray_box(k, df, dr, dist, p)
        } else {
            lemma_bishop_ray_box(k, df, dr, dist, p)
        };
        lemma_ray_injective(k, df, dr, e, df, dr, dist);
    }
}


/// Two pieces that a slider on `k` reaches only once its own pieces `my` in its way are
/// lifted off the board cannot pin the same square: the nearer one would stand in the
/// way of the farther.
pub proof fn lemma_pinner_unique(
    rook: bool,
    k: int,
    occ: u64,
    my: u64,
    attacks: u64,
    xray: u64,
    p1: int,
    p2: int,
    u: int,
)
    requires
        0 <= k < 64,
        0 <= p1 < 64,
        0 <= p2 < 64,
        forall|t: int| 0 <= t < 64 ==> #[trigger] bit(attacks, t) == slider_reaches(rook, k, occ, t),
        forall|t: int|
            0 <= t < 64 ==> #[trigger] bit(xray, t) == (bit(attacks, t) != slider_reaches(
                rook,
                k,
                occ ^ (my & attacks),
                t,
            )),
        forall|t: int| #[trigger] bit(my, t) ==> bit(occ, t),
        bit(xray, p1),
        bit(xray, p2),
        bit(occ, p1) && !bit(my, p1),
        bit(occ, p2) && !bit(my, p2),
        slider_reaches(rook, k, 0u64, u),
        slider_ray_box(rook, k, p1, u),
        slider_ray_box(rook, k, p2, u),
    ensures
        p1 == p2,
{
    broadcast use crate::bitboards::group_bit_ops;

    let lifted = occ ^ (my & attacks);
    assert forall|v: int| #[trigger] bit(lifted, v) implies bit(occ, v) by {}
    assert forall|p: int| 0 <= p < 64 && bit(xray, p) && !bit(my, p) implies slider_reaches(
        rook,
        k,
        lifted,
        p,
    ) by {
        if bit(attacks, p) {
            let w = lemma_slider_witness(rook, k, occ, p);
            lemma_ray_reaches_fewer(k, occ, lifted, w.0, w.1, p);
            lemma_slider_reaches_from(rook, k, lifted, w.0, w.1, p, w.2);
        }
    }
    assert(bit(lifted, p1));
    assert(bit(lifted, p2));
    let w1 = lemma_slider_witness(rook, k, lifted, p1);
    let w2 = lemma_slider_witness(rook, k, lifted, p2);
    let e1 = if rook {
        lemma_rook_ray_box(k, w1.0, w1.1, w1.2, u)
    } else {
        lemma_bishop_ray_box(k, w1.0, w1.1, w1.2, u)
    };
    let e2 = if rook {
        lemma_rook_ray_box(k, w2.0, w2.1, w2.2, u)
    } else {
        lemma_bishop_ray_box(k, w2.0, w2.1, w2.2, u)
    };
    lemma_ray_injective(k, w1.0, w1.1, e1, w2.0, w2.1, e2);
    if w1.2 < w2.2 {
        crate::move_generation::magic::lemma_ray_ok_shrinks(k, w1.0, w1.1, w2.2, w1.2);
        assert(!bit(lifted, ray_sq(k, w1.0, w1.1, w1.2)));
    } else if w2.2 < w1.2 {
        crate::move_generation::magic::lemma_ray_ok_shrinks(k, w1.0, w1.1, w1.2, w2.2);
        assert(!bit(lifted, ray_sq(k, w1.0, w1.1, w2.2)));
    }
}

/// Whether a slider on `s` reaches `k` does not depend on what stands on `k` itself.
pub proof fn lemma_slider_reach_ignores_target(
    rook: bool,
    s: int,
    occ1: u64,
    occ2: u64,
    k: int,
)
    requires
        0 <= s < 64,
        forall|u: int| u != k ==> #[trigger] bit(occ1, u) == bit(occ2, u),
    ensures
        slider_reaches(rook, s, occ1, k) == slider_reaches(rook, s, occ2, k),
{
    if slider_reaches(rook, s, occ1, k) {
        lemma_slider_same_target(rook, s, occ1, occ2, k);
    }
    if slider_reaches(rook, s, occ2, k) {
        lemma_slider_same_target(rook, s, occ2, occ1, k);
    }
}

proof fn lemma_slider_same_target(rook: bool, s: int, occ1: u64, occ2: u64, k: int)
    requires
        0 <= s < 64,
        forall|u: int| u != k ==> #[trigger] bit(occ1, u) == bit(occ2, u),
        slider_reaches(rook, s, occ1, k),
    ensures
        slider_reaches(rook, s, occ2, k),
{
    let w = lemma_slider_witness(rook, s, occ1, k);
    let (df, dr, d) = w;
    assert forall|e: int| 1 <= e < d implies !#[trigger] bit(occ2, ray_sq(s, df, dr, e)) by {
        crate::move_generation::magic::lemma_ray_ok_shrinks(s, df, dr, d, e);
        if ray_sq(s, df, dr, e) == k {
            lemma_ray_injective(s, df, dr, e, df, dr, d);
        }
        assert(!bit(occ1, ray_sq(s, df, dr, e)));
    }
    lemma_slider_reaches_from(rook, s, occ2, df, dr, k, d);
}

} // verus!
