use crate::bitboards::{bit, king_adjacent};
use crate::board_representation::game_state::{GameState, KING, PAWN, WHITE};
use crate::move_generation::attacks::lowest_square;
use crate::move_generation::movegen::{
    b_pawn_east_targets, b_pawn_west_targets, king_attack, w_pawn_east_targets,
    w_pawn_west_targets,
};
use vstd::prelude::*;

verus! {

broadcast use crate::bitboards::group_bit_ops;

pub const MGSA_KNIGHT: usize = 0;

pub const MGSA_BISHOP: usize = 1;

pub const MGSA_ROOKS: usize = 2;

pub const MGSA_QUEEN: usize = 3;

/// The attacks of each side's pieces, kept for a position: per piece kind (knights,
/// bishops, rooks, queens) and side the attacks of each piece, the king's and the pawns'
/// attacks, sums of attacks, and the number of pieces of each kind.
pub struct MutableGameStateAttackContainer {
    pub attack: Vec<Vec<Vec<u64>>>,
    pub king_attacks: [u64; 2],
    pub pawn_attacks: [u64; 2],
    pub attacks_minor_sum: [u64; 2],
    pub attacks_sum: [u64; 2],
    pub knights: [usize; 2],
    pub bishops: [usize; 2],
    pub rooks: [usize; 2],
    pub queens: [usize; 2],
}

impl MutableGameStateAttackContainer {
    /// Writes the king attacks and the pawn attacks of both sides of `game_state`: for
    /// black the west targets of the pawns together with their east targets.
    pub fn write_state(&mut self, game_state: &GameState)
        requires
            game_state.pieces[5][0] != 0u64,
            game_state.pieces[5][1] != 0u64,
        ensures
            forall|side: int, t: int|
                0 <= side < 2 && 0 <= t < 64 ==> #[trigger] bit(final(self).king_attacks[side], t)
                    == king_adjacent(lowest_square(game_state.pieces[5][side]), t),
            forall|t: int|
                0 <= t < 64 ==> #[trigger] bit(final(self).pawn_attacks[0], t) == ((rank_of_ok(t)
                    && crate::bitboards::file_of(t) <= 6 && bit(game_state.pieces[0][0], t - 7)) || (
                rank_of_ok(t) && crate::bitboards::file_of(t) >= 1 && bit(
                    game_state.pieces[0][0],
                    t - 9,
                ))),
            final(self).pawn_attacks[1] == b_west(
                game_state.pieces[0][1] | b_east(game_state.pieces[0][1]),
            ),
            final(self).attack == old(self).attack,
            final(self).attacks_minor_sum == old(self).attacks_minor_sum,
            final(self).attacks_sum == old(self).attacks_sum,
            final(self).knights == old(self).knights,
            final(self).bishops == old(self).bishops,
            final(self).rooks == old(self).rooks,
            final(self).queens == old(self).queens,
    {
        let mut side: usize = 0;
        while side < 2
            invariant
                side <= 2,
                game_state.pieces[5][0] != 0u64,
                game_state.pieces[5][1] != 0u64,
                forall|s: int, t: int|
                    0 <= s < side && 0 <= t < 64 ==> #[trigger] bit(self.king_attacks[s], t)
                        == king_adjacent(lowest_square(game_state.pieces[5][s]), t),
                side > 0 ==> forall|t: int|
                    0 <= t < 64 ==> #[trigger] bit(self.pawn_attacks[0], t) == ((rank_of_ok(t)
                        && crate::bitboards::file_of(t) <= 6 && bit(game_state.pieces[0][0], t - 7))
                        || (rank_of_ok(t) && crate::bitboards::file_of(t) >= 1 && bit(
                        game_state.pieces[0][0],
                        t - 9,
                    ))),
                side > 1 ==> self.pawn_attacks[1] == b_west(
                    game_state.pieces[0][1] | b_east(game_state.pieces[0][1]),
                ),
                self.attack == old(self).attack,
                self.attacks_minor_sum == old(self).attacks_minor_sum,
                self.attacks_sum == old(self).attacks_sum,
                self.knights == old(self).knights,
                self.bishops == old(self).bishops,
                self.rooks == old(self).rooks,
                self.queens == old(self).queens,
            decreases 2 - side,
        {
            proof {
                vstd::std_specs::bits::axiom_u64_trailing_zeros(game_state.pieces[5][side as int]);
            }
            let king_square = game_state.pieces[KING][side].trailing_zeros() as usize;
            self.king_attacks[side] = king_attack(king_square);
            let pawns = game_state.pieces[PAWN][side];
            if side == WHITE {
                self.pawn_attacks[side] = w_pawn_west_targets(pawns) | w_pawn_east_targets(pawns);
            } else {
                let east = b_pawn_east_targets(pawns);
                self.pawn_attacks[side] = b_pawn_west_targets(pawns | east);
                proof {
                    lemma_b_targets(pawns, east, self.pawn_attacks[side as int]);
                }
            }
            side = side + 1;
        }
    }
}

/// A square beyond the first rank.
pub open spec fn rank_of_ok(t: int) -> bool {
    crate::bitboards::rank_of(t) >= 1
}

/// `b` holds the squares west-diagonally in front of the black pawns `pawns`.
pub open spec fn is_b_west(b: u64, pawns: u64) -> bool {
    forall|t: int|
        0 <= t < 64 ==> #[trigger] bit(b, t) == (crate::bitboards::rank_of(t) <= 6
            && crate::bitboards::file_of(t) >= 1 && bit(pawns, t + 7))
}

/// The squares west-diagonally in front of black pawns.
pub open spec fn b_west(pawns: u64) -> u64 {
    choose|b: u64| is_b_west(b, pawns)
}

/// `b` holds the squares east-diagonally in front of the black pawns `pawns`.
pub open spec fn is_b_east(b: u64, pawns: u64) -> bool {
    forall|t: int|
        0 <= t < 64 ==> #[trigger] bit(b, t) == (crate::bitboards::rank_of(t) <= 6
            && crate::bitboards::file_of(t) <= 6 && bit(pawns, t + 9))
}

/// The squares east-diagonally in front of black pawns.
pub open spec fn b_east(pawns: u64) -> u64 {
    choose|b: u64| is_b_east(b, pawns)
}

/// The boards computed for black are the boards named.
proof fn lemma_b_targets(pawns: u64, east: u64, res: u64)
    requires
        is_b_east(east, pawns),
        is_b_west(res, pawns | east),
    ensures
        res == b_west(pawns | b_east(pawns)),
{
    let e = b_east(pawns);
    assert(is_b_east(e, pawns));
    assert forall|t: int| 0 <= t < 64 implies #[trigger] bit(e, t) == bit(east, t) by {
        assert(bit(e, t) == (crate::bitboards::rank_of(t) <= 6 && crate::bitboards::file_of(t)
            <= 6 && bit(pawns, t + 9)));
        assert(bit(east, t) == (crate::bitboards::rank_of(t) <= 6 && crate::bitboards::file_of(t)
            <= 6 && bit(pawns, t + 9)));
    }
    crate::bitboards::lemma_bit_extensional(e, east);
    let w = b_west(pawns | east);
    assert(is_b_west(w, pawns | east));
    assert forall|t: int| 0 <= t < 64 implies #[trigger] bit(w, t) == bit(res, t) by {
        assert(bit(w, t) == (crate::bitboards::rank_of(t) <= 6 && crate::bitboards::file_of(t)
            >= 1 && bit(pawns | east, t + 7)));
        assert(bit(res, t) == (crate::bitboards::rank_of(t) <= 6 && crate::bitboards::file_of(t)
            >= 1 && bit(pawns | east, t + 7)));
    }
    crate::bitboards::lemma_bit_extensional(w, res);
}

impl Default for MutableGameStateAttackContainer {
    fn default() -> (res: Self)
        ensures
            res.attack@.len() == 4,
            forall|i: int|
                0 <= i < 4 ==> (#[trigger] res.attack@[i])@.len() == 2 && forall|j: int|
                    0 <= j < 2 ==> (#[trigger] res.attack@[i]@[j])@ == Seq::new(
                        if i <= 2 {
                            10nat
                        } else {
                            9nat
                        },
                        |k: int| 0u64,
                    ),
            forall|side: int|
                0 <= side < 2 ==> #[trigger] res.king_attacks[side] == 0u64 && res.pawn_attacks[side]
                    == 0u64 && res.attacks_minor_sum[side] == 0u64 && res.attacks_sum[side] == 0u64
                    && res.knights[side] == 0 && res.bishops[side] == 0 && res.rooks[side] == 0
                    && res.queens[side] == 0,
    {
        let mut attack: Vec<Vec<Vec<u64>>> = Vec::new();
        let mut i: usize = 0;
        while i < 4
            invariant
                i <= 4,
                attack@.len() == i,
                forall|i2: int|
                    0 <= i2 < i ==> (#[trigger] attack@[i2])@.len() == 2 && forall|j: int|
                        0 <= j < 2 ==> (#[trigger] attack@[i2]@[j])@ == Seq::new(
                            if i2 <= 2 {
                                10nat
                            } else {
                                9nat
                            },
                            |k: int| 0u64,
                        ),
            decreases 4 - i,
        {
            let n: usize = if i <= 2 {
                10
            } else {
                9
            };
            let mut per_side: Vec<Vec<u64>> = Vec::new();
            let mut j: usize = 0;
            while j < 2
                invariant
                    j <= 2,
                    per_side@.len() == j,
                    n == if i <= 2 {
                        10usize
                    } else {
                        9usize
                    },
                    forall|j2: int|
                        0 <= j2 < j ==> (#[trigger] per_side@[j2])@ == Seq::new(n as nat, |k: int| 0u64),
                decreases 2 - j,
            {
                let mut row: Vec<u64> = Vec::new();
                while row.len() < n
                    invariant
                        row.len() <= n,
                        forall|k: int| 0 <= k < row.len() ==> row@[k] == 0u64,
                    decreases n - row.len(),
                {
                    row.push(0u64);
                }
                proof {
                    assert(row@ =~= Seq::new(n as nat, |k: int| 0u64));
                }
                per_side.push(row);
                j = j + 1;
            }
            attack.push(per_side);
            i = i + 1;
        }
        MutableGameStateAttackContainer {
            attack,
            king_attacks: [0u64; 2],
            pawn_attacks: [0u64; 2],
            attacks_minor_sum: [0u64; 2],
            attacks_sum: [0u64; 2],
            knights: [0; 2],
            bishops: [0; 2],
            rooks: [0; 2],
            queens: [0; 2],
        }
    }
}

} // verus!
