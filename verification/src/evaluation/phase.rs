use crate::bitboards::{bit, count_bits, popcount};
use crate::board_representation::game_state::{BISHOP, BLACK, KNIGHT, QUEEN, ROOK, WHITE};
use vstd::prelude::*;

verus! {

broadcast use crate::bitboards::group_bit_ops;

// ---------------------------------------------------------------------------
// The game phase: how much material other than pawns is left, between the endgame
// limit and the middlegame limit.
// ---------------------------------------------------------------------------

/// The material at and above which the game counts as middlegame.
pub const MG_LIMIT: i16 = 9100;

/// The material at and below which the game counts as endgame.
pub const EG_LIMIT: i16 = 2350;

/// The knights, bishops, rooks and queens of both sides, each weighed by its phase
/// score: a queen 1500, a rook 650, a bishop 510, a knight 500.
pub open spec fn spec_phase_material(pieces: [[u64; 2]; 6]) -> int {
    (popcount(pieces[4][0] | pieces[4][1]) * 1500 + popcount(pieces[1][0] | pieces[1][1]) * 500
        + popcount(pieces[2][0] | pieces[2][1]) * 510 + popcount(pieces[3][0] | pieces[3][1])
        * 650) as int
}

/// The material of knights, bishops, rooks and queens, weighed by phase score.
pub fn phase_material(pieces: &[[u64; 2]; 6]) -> (res: i16)
    requires
        spec_phase_material(*pieces) <= i16::MAX,
    ensures
        res == spec_phase_material(*pieces),
{
    let q = (pieces[QUEEN][WHITE] | pieces[QUEEN][BLACK]).count_ones() as i16;
    let n = (pieces[KNIGHT][WHITE] | pieces[KNIGHT][BLACK]).count_ones() as i16;
    let b = (pieces[BISHOP][WHITE] | pieces[BISHOP][BLACK]).count_ones() as i16;
    let r = (pieces[ROOK][WHITE] | pieces[ROOK][BLACK]).count_ones() as i16;
    proof {
        crate::bitboards::lemma_count_bits_bound(pieces[4][0] | pieces[4][1], 64);
        crate::bitboards::lemma_count_bits_bound(pieces[1][0] | pieces[1][1], 64);
        crate::bitboards::lemma_count_bits_bound(pieces[2][0] | pieces[2][1], 64);
        crate::bitboards::lemma_count_bits_bound(pieces[3][0] | pieces[3][1], 64);
    }
    q * 1500 + n * 500 + b * 510 + r * 650
}

/// The material held between the two limits.
pub open spec fn spec_phase_clamp(material: int) -> int {
    if material > MG_LIMIT {
        MG_LIMIT as int
    } else if material < EG_LIMIT {
        EG_LIMIT as int
    } else {
        material
    }
}

/// The material held between the endgame and the middlegame limit; the game phase is
/// where it stands between them.
pub fn phase_clamp(material: i16) -> (res: i16)
    ensures
        res == spec_phase_clamp(material as int),
        EG_LIMIT <= res <= MG_LIMIT,
{
    let mut tmp = material;
    if tmp > MG_LIMIT {
        tmp = MG_LIMIT;
    }
    if tmp < EG_LIMIT {
        tmp = EG_LIMIT;
    }
    tmp
}

/// The squares of two boards with no square in common, counted together, are the squares
/// of each counted apart.
proof fn lemma_count_disjoint_union(a: u64, b: u64, n: nat)
    requires
        n <= 64,
        forall|t: int| 0 <= t < 64 ==> !(#[trigger] bit(a, t) && bit(b, t)),
    ensures
        count_bits(a | b, n) == count_bits(a, n) + count_bits(b, n),
    decreases n,
{
    if n > 0 {
        lemma_count_disjoint_union(a, b, (n - 1) as nat);
        assert(bit(a | b, n - 1) == (bit(a, n - 1) || bit(b, n - 1)));
    }
}

/// The colours of a position swapped: white's pieces become black's and black's white's.
pub open spec fn colours_swapped(pieces: [[u64; 2]; 6], swapped: [[u64; 2]; 6]) -> bool {
    forall|p: int, c: int| 0 <= p < 6 && 0 <= c < 2 ==> #[trigger] swapped[p][c] == pieces[p][1 - c]
}

/// The phase material does not depend on which side owns the pieces: swapping the colours
/// of every piece leaves it unchanged.
pub proof fn lemma_phase_material_colour_blind(pieces: [[u64; 2]; 6], swapped: [[u64; 2]; 6])
    requires
        colours_swapped(pieces, swapped),
    ensures
        spec_phase_material(swapped) == spec_phase_material(pieces),
{
    assert forall|p: int| 1 <= p < 5 implies #[trigger] popcount(swapped[p][0] | swapped[p][1])
        == popcount(pieces[p][0] | pieces[p][1]) by {
        let x = pieces[p][0];
        let y = pieces[p][1];
        assert(swapped[p][0] == y && swapped[p][1] == x);
        assert(y | x == x | y) by (bit_vector);
    }
}

/// Where no square holds a piece of a kind for both sides, the phase material is 1500 for
/// each queen, 650 for each rook, 510 for each bishop and 500 for each knight of either
/// side.
pub proof fn lemma_phase_material_piece_counts(pieces: [[u64; 2]; 6])
    requires
        forall|p: int, t: int| 1 <= p < 5 && 0 <= t < 64 ==> !(#[trigger] bit(pieces[p][0], t) && bit(
            pieces[p][1],
            t,
        )),
    ensures
        spec_phase_material(pieces) == 1500 * (popcount(pieces[4][0]) + popcount(pieces[4][1]))
            + 650 * (popcount(pieces[3][0]) + popcount(pieces[3][1])) + 510 * (popcount(
            pieces[2][0],
        ) + popcount(pieces[2][1])) + 500 * (popcount(pieces[1][0]) + popcount(pieces[1][1])),
{
    assert forall|p: int| 1 <= p < 5 implies #[trigger] popcount(pieces[p][0] | pieces[p][1])
        == popcount(pieces[p][0]) + popcount(pieces[p][1]) by {
        assert forall|t: int| 0 <= t < 64 implies !(#[trigger] bit(pieces[p][0], t) && bit(
            pieces[p][1],
            t,
        )) by {}
        lemma_count_disjoint_union(pieces[p][0], pieces[p][1], 64);
    }
    assert(popcount(pieces[4][0] | pieces[4][1]) == popcount(pieces[4][0]) + popcount(pieces[4][1]));
    assert(popcount(pieces[3][0] | pieces[3][1]) == popcount(pieces[3][0]) + popcount(pieces[3][1]));
    assert(popcount(pieces[2][0] | pieces[2][1]) == popcount(pieces[2][0]) + popcount(pieces[2][1]));
    assert(popcount(pieces[1][0] | pieces[1][1]) == popcount(pieces[1][0]) + popcount(pieces[1][1]));
}

} // verus!
