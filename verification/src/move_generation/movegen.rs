use crate::bitboards::{popcount, 
    self, bit, file_of, king_adjacent, king_attacks_square, knight_adjacent,
    knight_attacks_square, lemma_bit_ops, lemma_bit_single, rank_of, rook_ray_box, bishop_ray_box,
};
use crate::board_representation::game_state::{
    piece_index, GameMove, GameMoveType, PieceType, BISHOP, BLACK, KING, KNIGHT, PAWN, QUEEN,
    ROOK, WHITE,
};
use crate::board_representation::game_state::GameState;
use crate::move_generation::attacks::{
    attacked_by, covers, lemma_covers_add, lemma_covers_empty, lowest_square, occupancy,
    pawn_attacks, piece_attacks, side_board, single_square,
};
use crate::move_generation::attacks::lemma_slider_reach_ignores_target;
use crate::move_generation::makemove::{kind_in_range, move_fits};
use crate::move_generation::magic::{
    bishop_attacks_slow, bishop_reaches, rook_attacks_slow, rook_reaches,
};
use vstd::prelude::*;

verus! {

broadcast use crate::bitboards::group_bit_ops;

/// The squares a king on `square` attacks.
pub fn king_attack(square: usize) -> (res: u64)
    requires
        square < 64,
    ensures
        forall|t: int| 0 <= t < 64 ==> #[trigger] bit(res, t) == king_adjacent(square as int, t),
{
    let b = 1u64 << square as u64;
    let res = bitboards::king_attack(b);
    assert forall|t: int| 0 <= t < 64 implies #[trigger] bit(res, t) == king_adjacent(
        square as int,
        t,
    ) by {
        lemma_bit_single(square as u64, square as int);
        if king_attacks_square(b, t) {
            let s = choose|s: int| #[trigger] bit(b, s) && king_adjacent(s, t);
            lemma_bit_single(square as u64, s);
        }
        if king_adjacent(square as int, t) {
            assert(bit(b, square as int) && king_adjacent(square as int, t));
        }
    }
    res
}

/// The squares a knight on `square` attacks.
pub fn knight_attack(square: usize) -> (res: u64)
    requires
        square < 64,
    ensures
        forall|t: int| 0 <= t < 64 ==> #[trigger] bit(res, t) == knight_adjacent(square as int, t),
{
    let b = 1u64 << square as u64;
    let res = bitboards::knight_attack(b);
    assert forall|t: int| 0 <= t < 64 implies #[trigger] bit(res, t) == knight_adjacent(
        square as int,
        t,
    ) by {
        lemma_bit_single(square as u64, square as int);
        if knight_attacks_square(b, t) {
            let s = choose|s: int| #[trigger] bit(b, s) && knight_adjacent(s, t);
            lemma_bit_single(square as u64, s);
        }
        if knight_adjacent(square as int, t) {
            assert(bit(b, square as int) && knight_adjacent(square as int, t));
        }
    }
    res
}

/// The squares a bishop on `square` attacks when the board holds `all_pieces`.
pub fn bishop_attack(square: usize, all_pieces: u64) -> (res: u64)
    requires
        square < 64,
    ensures
        forall|t: int|
            0 <= t < 64 ==> #[trigger] bit(res, t) == bishop_reaches(square as int, all_pieces, t),
{
    bishop_attacks_slow(square, all_pieces)
}

/// The squares a rook on `square` attacks when the board holds `all_pieces`.
pub fn rook_attack(square: usize, all_pieces: u64) -> (res: u64)
    requires
        square < 64,
    ensures
        forall|t: int|
            0 <= t < 64 ==> #[trigger] bit(res, t) == rook_reaches(square as int, all_pieces, t),
{
    rook_attacks_slow(square, all_pieces)
}

/// The empty squares white pawns can push to by one rank.
pub fn w_single_push_pawn_targets(pawns: u64, empty: u64) -> (res: u64)
    ensures
        forall|t: int|
            0 <= t < 64 ==> #[trigger] bit(res, t) == (rank_of(t) >= 1 && bit(pawns, t - 8) && bit(
                empty,
                t,
            )),
{
    let n = bitboards::north_one(pawns);
    let res = n & empty;
    assert forall|t: int| 0 <= t < 64 implies #[trigger] bit(res, t) == (rank_of(t) >= 1 && bit(
        pawns,
        t - 8,
    ) && bit(empty, t)) by {
        lemma_bit_ops(n, empty, t);
    }
    res
}

/// The empty squares black pawns can push to by one rank.
pub fn b_single_push_pawn_targets(pawns: u64, empty: u64) -> (res: u64)
    ensures
        forall|t: int|
            0 <= t < 64 ==> #[trigger] bit(res, t) == (rank_of(t) <= 6 && bit(pawns, t + 8) && bit(
                empty,
                t,
            )),
{
    let s = bitboards::south_one(pawns);
    let res = s & empty;
    assert forall|t: int| 0 <= t < 64 implies #[trigger] bit(res, t) == (rank_of(t) <= 6 && bit(
        pawns,
        t + 8,
    ) && bit(empty, t)) by {
        lemma_bit_ops(s, empty, t);
    }
    res
}

/// The single-push targets of the pawns of `side`.
pub fn single_push_pawn_targets(side: usize, pawns: u64, empty: u64) -> (res: u64)
    ensures
        side == WHITE ==> forall|t: int|
            0 <= t < 64 ==> #[trigger] bit(res, t) == (rank_of(t) >= 1 && bit(pawns, t - 8) && bit(
                empty,
                t,
            )),
        side != WHITE ==> forall|t: int|
            0 <= t < 64 ==> #[trigger] bit(res, t) == (rank_of(t) <= 6 && bit(pawns, t + 8) && bit(
                empty,
                t,
            )),
{
    if side == WHITE {
        w_single_push_pawn_targets(pawns, empty)
    } else {
        b_single_push_pawn_targets(pawns, empty)
    }
}

/// The squares white pawns on rank 2 can reach by a double push over an empty square.
pub fn w_double_push_pawn_targets(pawns: u64, empty: u64) -> (res: u64)
    ensures
        forall|t: int|
            0 <= t < 64 ==> #[trigger] bit(res, t) == (rank_of(t) == 3 && bit(pawns, t - 16) && bit(
                empty,
                t - 8,
            ) && bit(empty, t)),
{
    let ranks = bitboards::initialize_ranks();
    let on_second = pawns & ranks[1];
    let one = bitboards::north_one(on_second);
    let one_free = one & empty;
    let two = bitboards::north_one(one_free);
    let res = two & empty;
    assert forall|t: int| 0 <= t < 64 implies #[trigger] bit(res, t) == (rank_of(t) == 3 && bit(
        pawns,
        t - 16,
    ) && bit(empty, t - 8) && bit(empty, t)) by {
        lemma_bit_ops(two, empty, t);
        if t >= 8 {
            lemma_bit_ops(one, empty, t - 8);
            if t >= 16 {
                lemma_bit_ops(pawns, ranks[1], t - 16);
                assert(bit(ranks[1], t - 16) == (rank_of(t - 16) == 1));
            }
        }
    }
    res
}

/// The squares black pawns on rank 7 can reach by a double push over an empty square.
pub fn b_double_push_pawn_targets(pawns: u64, empty: u64) -> (res: u64)
    ensures
        forall|t: int|
            0 <= t < 64 ==> #[trigger] bit(res, t) == (rank_of(t) == 4 && bit(pawns, t + 16) && bit(
                empty,
                t + 8,
            ) && bit(empty, t)),
{
    let ranks = bitboards::initialize_ranks();
    let on_seventh = pawns & ranks[6];
    let one = bitboards::south_one(on_seventh);
    let one_free = one & empty;
    let two = bitboards::south_one(one_free);
    let res = two & empty;
    assert forall|t: int| 0 <= t < 64 implies #[trigger] bit(res, t) == (rank_of(t) == 4 && bit(
        pawns,
        t + 16,
    ) && bit(empty, t + 8) && bit(empty, t)) by {
        lemma_bit_ops(two, empty, t);
        if t + 8 < 64 {
            lemma_bit_ops(one, empty, t + 8);
            if t + 16 < 64 {
                lemma_bit_ops(pawns, ranks[6], t + 16);
                assert(bit(ranks[6], t + 16) == (rank_of(t + 16) == 6));
            }
        }
    }
    res
}

/// The double-push targets of the pawns of `side`.
pub fn double_push_pawn_targets(side: usize, pawns: u64, empty: u64) -> (res: u64)
    ensures
        side == WHITE ==> forall|t: int|
            0 <= t < 64 ==> #[trigger] bit(res, t) == (rank_of(t) == 3 && bit(pawns, t - 16) && bit(
                empty,
                t - 8,
            ) && bit(empty, t)),
        side != WHITE ==> forall|t: int|
            0 <= t < 64 ==> #[trigger] bit(res, t) == (rank_of(t) == 4 && bit(pawns, t + 16) && bit(
                empty,
                t + 8,
            ) && bit(empty, t)),
{
    if side == WHITE {
        w_double_push_pawn_targets(pawns, empty)
    } else {
        b_double_push_pawn_targets(pawns, empty)
    }
}

/// The squares white pawns attack towards the h-file (north-east).
pub fn w_pawn_east_targets(pawns: u64) -> (res: u64)
    ensures
        forall|t: int|
            0 <= t < 64 ==> #[trigger] bit(res, t) == (rank_of(t) >= 1 && file_of(t) >= 1 && bit(
                pawns,
                t - 9,
            )),
{
    bitboards::north_east_one(pawns)
}

/// The squares black pawns attack towards the a-file (south-west).
pub fn b_pawn_east_targets(pawns: u64) -> (res: u64)
    ensures
        forall|t: int|
            0 <= t < 64 ==> #[trigger] bit(res, t) == (rank_of(t) <= 6 && file_of(t) <= 6 && bit(
                pawns,
                t + 9,
            )),
{
    bitboards::south_west_one(pawns)
}

/// The squares white pawns attack towards the a-file (north-west).
pub fn w_pawn_west_targets(pawns: u64) -> (res: u64)
    ensures
        forall|t: int|
            0 <= t < 64 ==> #[trigger] bit(res, t) == (rank_of(t) >= 1 && file_of(t) <= 6 && bit(
                pawns,
                t - 7,
            )),
{
    bitboards::north_west_one(pawns)
}

/// The squares black pawns attack towards the h-file (south-east).
pub fn b_pawn_west_targets(pawns: u64) -> (res: u64)
    ensures
        forall|t: int|
            0 <= t < 64 ==> #[trigger] bit(res, t) == (rank_of(t) <= 6 && file_of(t) >= 1 && bit(
                pawns,
                t + 7,
            )),
{
    bitboards::south_east_one(pawns)
}

/// The squares the pawns of `side` attack on their east side.
pub fn pawn_east_targets(side: usize, pawns: u64) -> (res: u64)
    ensures
        side == WHITE ==> forall|t: int|
            0 <= t < 64 ==> #[trigger] bit(res, t) == (rank_of(t) >= 1 && file_of(t) >= 1 && bit(
                pawns,
                t - 9,
            )),
        side != WHITE ==> forall|t: int|
            0 <= t < 64 ==> #[trigger] bit(res, t) == (rank_of(t) <= 6 && file_of(t) <= 6 && bit(
                pawns,
                t + 9,
            )),
{
    if side == WHITE {
        w_pawn_east_targets(pawns)
    } else {
        b_pawn_east_targets(pawns)
    }
}

/// The squares the pawns of `side` attack on their west side.
pub fn pawn_west_targets(side: usize, pawns: u64) -> (res: u64)
    ensures
        side == WHITE ==> forall|t: int|
            0 <= t < 64 ==> #[trigger] bit(res, t) == (rank_of(t) >= 1 && file_of(t) <= 6 && bit(
                pawns,
                t - 7,
            )),
        side != WHITE ==> forall|t: int|
            0 <= t < 64 ==> #[trigger] bit(res, t) == (rank_of(t) <= 6 && file_of(t) >= 1 && bit(
                pawns,
                t + 7,
            )),
{
    if side == WHITE {
        w_pawn_west_targets(pawns)
    } else {
        b_pawn_west_targets(pawns)
    }
}

/// The kind of enemy piece on `to` that a capture there takes: pawn, knight, queen,
/// bishop or else rook, looked up in that order.
pub open spec fn captured_kind(
    to: int,
    e_pawns: u64,
    e_knights: u64,
    e_bishops: u64,
    e_rooks: u64,
    e_queens: u64,
) -> PieceType {
    if bit(e_pawns, to) {
        PieceType::Pawn
    } else if bit(e_knights, to) {
        PieceType::Knight
    } else if bit(e_queens, to) {
        PieceType::Queen
    } else if bit(e_bishops, to) {
        PieceType::Bishop
    } else {
        PieceType::Rook
    }
}

/// An enemy piece other than the king stands on `to`.
pub open spec fn capturable(
    to: int,
    e_pawns: u64,
    e_knights: u64,
    e_bishops: u64,
    e_rooks: u64,
    e_queens: u64,
) -> bool {
    bit(e_pawns, to) || bit(e_knights, to) || bit(e_bishops, to) || bit(e_rooks, to) || bit(
        e_queens,
        to,
    )
}

/// The kind of the enemy piece on `to`, looking at pawns, knights, queens, bishops and
/// rooks in that order (a queen may also be kept on the bishop and rook boards).
pub fn find_captured_piece_type(
    to: usize,
    e_pawns: u64,
    e_knights: u64,
    e_bishops: u64,
    e_rooks: u64,
    e_queens: u64,
) -> (res: PieceType)
    requires
        to < 64,
        capturable(to as int, e_pawns, e_knights, e_bishops, e_rooks, e_queens),
    ensures
        res == captured_kind(to as int, e_pawns, e_knights, e_bishops, e_rooks, e_queens),
{
    let to_board = 1u64 << to as u64;
    proof {
        lemma_and_single_bit(e_pawns, to as u64);
        lemma_and_single_bit(e_knights, to as u64);
        lemma_and_single_bit(e_bishops, to as u64);
        lemma_and_single_bit(e_rooks, to as u64);
        lemma_and_single_bit(e_queens, to as u64);
    }
    if e_pawns & to_board != 0u64 {
        PieceType::Pawn
    } else if e_knights & to_board != 0u64 {
        PieceType::Knight
    } else if e_queens & to_board != 0u64 {
        PieceType::Queen
    } else if e_bishops & to_board != 0u64 {
        PieceType::Bishop
    } else {
        PieceType::Rook
    }
}

/// A board and a single square meet exactly when the square is on the board.
pub proof fn lemma_and_single_bit(b: u64, s: u64)
    requires
        s < 64,
    ensures
        (b & (1u64 << s) != 0u64) == bit(b, s as int),
{
    if b & (1u64 << s) == 0u64 {
        lemma_bit_ops(b, 1u64 << s, s as int);
        lemma_bit_single(s, s as int);
        lemma_bit_single(0, s as int);
    } else {
        if !bit(b, s as int) {
            assert forall|t: int| 0 <= t < 64 implies #[trigger] bit(b & (1u64 << s), t) == bit(
                0u64,
                t,
            ) by {
                lemma_bit_ops(b, 1u64 << s, t);
                lemma_bit_single(s, t);
            }
            crate::bitboards::lemma_bit_extensional(b & (1u64 << s), 0u64);
        }
    }
}

/// The squares a rook on `rook_square` attacks only through one of `my_pieces`: its
/// attacks with its own first blockers lifted, minus (plus) its plain attacks.
pub fn xray_rook_attacks(
    rook_attacks: u64,
    occupied_squares: u64,
    my_pieces: u64,
    rook_square: usize,
) -> (res: u64)
    requires
        rook_square < 64,
    ensures
        forall|t: int|
            0 <= t < 64 ==> #[trigger] bit(res, t) == (bit(rook_attacks, t) != rook_reaches(
                rook_square as int,
                occupied_squares ^ (my_pieces & rook_attacks),
                t,
            )),
{
    let behind = rook_attack(rook_square, occupied_squares ^ (my_pieces & rook_attacks));
    let res = rook_attacks ^ behind;
    assert forall|t: int| 0 <= t < 64 implies #[trigger] bit(res, t) == (bit(rook_attacks, t)
        != rook_reaches(rook_square as int, occupied_squares ^ (my_pieces & rook_attacks), t)) by {
        lemma_bit_ops(rook_attacks, behind, t);
    }
    res
}

/// The bishop counterpart of `xray_rook_attacks`.
pub fn xray_bishop_attacks(
    bishop_attacks: u64,
    occupied_squares: u64,
    my_pieces: u64,
    bishop_square: usize,
) -> (res: u64)
    requires
        bishop_square < 64,
    ensures
        forall|t: int|
            0 <= t < 64 ==> #[trigger] bit(res, t) == (bit(bishop_attacks, t) != bishop_reaches(
                bishop_square as int,
                occupied_squares ^ (my_pieces & bishop_attacks),
                t,
            )),
{
    let behind = bishop_attack(bishop_square, occupied_squares ^ (my_pieces & bishop_attacks));
    let res = bishop_attacks ^ behind;
    assert forall|t: int| 0 <= t < 64 implies #[trigger] bit(res, t) == (bit(bishop_attacks, t)
        != bishop_reaches(bishop_square as int, occupied_squares ^ (my_pieces & bishop_attacks), t))
        by {
        lemma_bit_ops(bishop_attacks, behind, t);
    }
    res
}

/// The squares of a king's empty-board rook attacks that run towards `rook_square`.
pub fn get_rook_ray(king_square: usize, rook_square: usize) -> (res: u64)
    requires
        king_square < 64,
        rook_square < 64,
    ensures
        forall|u: int|
            0 <= u < 64 ==> #[trigger] bit(res, u) == (rook_reaches(king_square as int, 0, u)
                && rook_ray_box(king_square as int, rook_square as int, u)),
{
    let all_directions = rook_attacks_slow(king_square, 0u64);
    bitboards::get_rook_ray_slow(all_directions, king_square, rook_square)
}

/// The squares of a king's empty-board bishop attacks that run towards `bishop_square`.
pub fn get_bishop_ray(king_square: usize, bishop_square: usize) -> (res: u64)
    requires
        king_square < 64,
        bishop_square < 64,
    ensures
        forall|u: int|
            0 <= u < 64 ==> #[trigger] bit(res, u) == (bishop_reaches(king_square as int, 0, u)
                && bishop_ray_box(king_square as int, bishop_square as int, u)),
{
    let all_directions = bishop_attacks_slow(king_square, 0u64);
    bitboards::get_bishop_ray_slow(all_directions, king_square, bishop_square)
}


// ---------------------------------------------------------------------------
// The boards the move generator derives from a position.
// ---------------------------------------------------------------------------

/// A square a pawn of the given colour attacks on its west side, from the pawns `pawns`.
pub open spec fn pawn_west_square(white: bool, pawns: u64, t: int) -> bool {
    if white {
        rank_of(t) >= 1 && file_of(t) <= 6 && bit(pawns, t - 7)
    } else {
        rank_of(t) <= 6 && file_of(t) >= 1 && bit(pawns, t + 7)
    }
}

/// A square a pawn of the given colour attacks on its east side, from the pawns `pawns`.
pub open spec fn pawn_east_square(white: bool, pawns: u64, t: int) -> bool {
    if white {
        rank_of(t) >= 1 && file_of(t) >= 1 && bit(pawns, t - 9)
    } else {
        rank_of(t) <= 6 && file_of(t) <= 6 && bit(pawns, t + 9)
    }
}

/// The boards of the side to move (stm) and of its opponent that the move generator
/// works from.
#[derive(Clone, Copy)]
pub struct AdditionalBitBoards {
    pub stm_pieces_without_king: u64,
    pub stm_pieces: u64,
    pub enemy_pieces: u64,
    pub all_pieces_without_stmking: u64,
    pub all_pieces: u64,
    pub stm_pawns_westattack: u64,
    pub stm_pawns_eastattack: u64,
    pub enemy_pawns_westattack: u64,
    pub enemy_pawns_eastattack: u64,
    pub stm_king_attacks: u64,
    pub enemy_king_attacks: u64,
    pub stm_unsafe_squares: u64,
    pub all_checkers: u64,
}

/// The squares a piece of kind `kind` (knight, bishop, rook or queen) on `square`
/// attacks when the board holds `occ`.
fn attacks_of_kind(kind: usize, square: usize, occ: u64) -> (res: u64)
    requires
        1 <= kind <= 4,
        square < 64,
    ensures
        forall|t: int|
            0 <= t < 64 ==> #[trigger] bit(res, t) == piece_attacks(
                kind as int,
                0,
                square as int,
                occ,
                t,
            ),
{
    if kind == 1 {
        knight_attack(square)
    } else if kind == 2 {
        bishop_attack(square, occ)
    } else if kind == 3 {
        rook_attack(square, occ)
    } else {
        let b = bishop_attack(square, occ);
        let r = rook_attack(square, occ);
        proof {
        }
        b | r
    }
}

/// Adds to `unsafe_squares` the squares the enemy pieces of kind `kind` on `board`
/// attack, and to `checkers` those of them that attack the king on `king_square`.
pub(crate) fn add_enemy_attacks(
    kind: usize,
    board: u64,
    occ: u64,
    stm_king: u64,
    unsafe_squares: u64,
    checkers: u64,
) -> (res: (u64, u64))
    requires
        1 <= kind <= 4,
        single_square(stm_king),
    ensures
        forall|t: int|
            0 <= t < 64 ==> #[trigger] bit(res.0, t) == (bit(unsafe_squares, t) || covers(
                kind as int,
                0,
                board,
                occ,
                t,
            )),
        forall|t: int|
            0 <= t < 64 ==> #[trigger] bit(res.1, t) == (bit(checkers, t) || (bit(board, t)
                && piece_attacks(kind as int, 0, t, occ, lowest_square(stm_king)))),
{
    let ghost k = lowest_square(stm_king);
    let mut rest = board;
    let mut unsafe_acc = unsafe_squares;
    let mut checkers_acc = checkers;
    proof {
        vstd::std_specs::bits::axiom_u64_trailing_zeros(stm_king);
        assert forall|s: int| !#[trigger] bit(board ^ rest, s) by {}
        assert(bit(stm_king, k)) by {
            crate::bitboards::lemma_zero_board(stm_king);
        }
        assert forall|t: int| 0 <= t < 64 implies #[trigger] bit(unsafe_acc, t) == (bit(
            unsafe_squares,
            t,
        ) || covers(kind as int, 0, board ^ rest, occ, t)) by {
            lemma_covers_empty(kind as int, 0, board ^ rest, occ, t);
        }
    }
    while rest != 0u64
        invariant
            1 <= kind <= 4,
            single_square(stm_king),
            k == lowest_square(stm_king),
            0 <= k < 64,
            bit(stm_king, k),
            forall|t: int| #[trigger] bit(rest, t) ==> bit(board, t),
            forall|t: int|
                0 <= t < 64 ==> #[trigger] bit(unsafe_acc, t) == (bit(unsafe_squares, t) || covers(
                    kind as int,
                    0,
                    board ^ rest,
                    occ,
                    t,
                )),
            forall|t: int|
                0 <= t < 64 ==> #[trigger] bit(checkers_acc, t) == (bit(checkers, t) || (bit(
                    board ^ rest,
                    t,
                ) && piece_attacks(kind as int, 0, t, occ, k))),
        decreases rest,
    {
        proof {
            crate::bitboards::lemma_clear_lowest(rest);
        }
        let idx = rest.trailing_zeros() as usize;
        let piece = 1u64 << idx as u64;
        let attacks = attacks_of_kind(kind, idx, occ);
        let ghost old_rest = rest;
        let ghost old_unsafe = unsafe_acc;
        let ghost old_checkers = checkers_acc;
        unsafe_acc = unsafe_acc | attacks;
        proof {
            crate::bitboards::lemma_and_zero(stm_king, attacks);
        }
        if stm_king & attacks != 0u64 {
            checkers_acc = checkers_acc | piece;
        }
        rest = rest ^ piece;
        proof {
            assert(idx < 64);
            assert forall|s: int| #[trigger] bit(board ^ rest, s) == (bit(board ^ old_rest, s)
                || s == idx) by {
                if 0 <= s < 64 {
                    assert(bit(piece, s) == (s == idx));
                    assert(bit(rest, s) == (bit(old_rest, s) != bit(piece, s)));
                    assert(bit(board ^ rest, s) == (bit(board, s) != bit(rest, s)));
                    assert(bit(board ^ old_rest, s) == (bit(board, s) != bit(old_rest, s)));
                    if s == idx {
                        assert(bit(old_rest, s));
                        assert(bit(board, s));
                    }
                }
            }
            assert forall|t: int| 0 <= t < 64 implies #[trigger] bit(unsafe_acc, t) == (bit(
                unsafe_squares,
                t,
            ) || covers(kind as int, 0, board ^ rest, occ, t)) by {
                lemma_covers_add(kind as int, 0, board ^ old_rest, board ^ rest, idx as int, occ, t);
            }
            assert((stm_king & attacks != 0u64) == piece_attacks(kind as int, 0, idx as int, occ, k));
        }
    }
    proof {
        assert forall|t: int| 0 <= t < 64 implies #[trigger] bit(unsafe_acc, t) == (bit(
            unsafe_squares,
            t,
        ) || covers(kind as int, 0, board, occ, t)) by {
            crate::move_generation::attacks::lemma_covers_same(kind as int, 0, board, board ^ rest, occ, t);
        }
    }
    (unsafe_acc, checkers_acc)
}


/// The pawns of the given colour on `pawns` attack `t`: exactly their west and east
/// attack squares.
pub proof fn lemma_pawn_covers(white: bool, pawns: u64, occ: u64, t: int)
    requires
        0 <= t < 64,
    ensures
        (pawn_west_square(white, pawns, t) || pawn_east_square(white, pawns, t)) == covers(
            0,
            if white {
                0
            } else {
                1
            },
            pawns,
            occ,
            t,
        ),
{
    let c: int = if white {
        0
    } else {
        1
    };
    if white {
        if pawn_west_square(white, pawns, t) {
            assert(piece_attacks(0, c, t - 7, occ, t));
        }
        if pawn_east_square(white, pawns, t) {
            assert(piece_attacks(0, c, t - 9, occ, t));
        }
    } else {
        if pawn_west_square(white, pawns, t) {
            assert(piece_attacks(0, c, t + 7, occ, t));
        }
        if pawn_east_square(white, pawns, t) {
            assert(piece_attacks(0, c, t + 9, occ, t));
        }
    }
    if covers(0, c, pawns, occ, t) {
        let s = choose|s: int| 0 <= s < 64 && bit(pawns, s) && #[trigger] piece_attacks(0, c, s, occ, t);
        assert(pawn_attacks(c, s, t));
    }
}

/// The enemy attacks the square `t` (the enemy pawns being of the colour not to move).
pub open spec fn enemy_attacks(
    stm_white: bool,
    e_pawns: u64,
    e_knights: u64,
    e_bishops: u64,
    e_rooks: u64,
    e_queens: u64,
    e_king: u64,
    occ: u64,
    t: int,
) -> bool {
    ||| covers(
        0,
        if stm_white {
            1
        } else {
            0
        },
        e_pawns,
        occ,
        t,
    )
    ||| covers(1, 0, e_knights, occ, t)
    ||| covers(2, 0, e_bishops, occ, t)
    ||| covers(3, 0, e_rooks, occ, t)
    ||| covers(4, 0, e_queens, occ, t)
    ||| king_adjacent(lowest_square(e_king), t)
}

/// The enemy piece on `s` gives check to the king on `k`.
pub open spec fn checks_king(
    stm_white: bool,
    e_pawns: u64,
    e_knights: u64,
    e_bishops: u64,
    e_rooks: u64,
    e_queens: u64,
    occ: u64,
    k: int,
    s: int,
) -> bool {
    ||| bit(e_pawns, s) && pawn_attacks(
        if stm_white {
            1
        } else {
            0
        },
        s,
        k,
    )
    ||| bit(e_knights, s) && piece_attacks(1, 0, s, occ, k)
    ||| bit(e_bishops, s) && piece_attacks(2, 0, s, occ, k)
    ||| bit(e_rooks, s) && piece_attacks(3, 0, s, occ, k)
    ||| bit(e_queens, s) && piece_attacks(4, 0, s, occ, k)
}

/// The enemy pawns that give check to a lone king, found from the king and the enemy
/// pawn attacks: the pawns on the squares the king would attack as a pawn.
proof fn lemma_pawn_checkers(
    white: bool,
    stm_king: u64,
    e_pawns: u64,
    e_west: u64,
    e_east: u64,
    w: u64,
    e: u64,
    s: int,
)
    requires
        single_square(stm_king),
        0 <= s < 64,
        forall|t: int| 0 <= t < 64 ==> #[trigger] bit(e_west, t) == pawn_west_square(!white, e_pawns, t),
        forall|t: int| 0 <= t < 64 ==> #[trigger] bit(e_east, t) == pawn_east_square(!white, e_pawns, t),
        forall|t: int| 0 <= t < 64 ==> #[trigger] bit(w, t) == pawn_west_square(white, stm_king & e_west, t),
        forall|t: int| 0 <= t < 64 ==> #[trigger] bit(e, t) == pawn_east_square(white, stm_king & e_east, t),
    ensures
        (bit(w, s) || bit(e, s)) == (bit(e_pawns, s) && pawn_attacks(
            if white {
                1
            } else {
                0
            },
            s,
            lowest_square(stm_king),
        )),
{
    let k = lowest_square(stm_king);
    vstd::std_specs::bits::axiom_u64_trailing_zeros(stm_king);
    crate::bitboards::lemma_zero_board(stm_king);
    assert(bit(stm_king, k));
    if white {
        assert(bit(w, s) == (rank_of(s) >= 1 && file_of(s) <= 6 && bit(stm_king & e_west, s - 7)));
        assert(bit(e, s) == (rank_of(s) >= 1 && file_of(s) >= 1 && bit(stm_king & e_east, s - 9)));
        if s - 7 >= 0 {
            assert(bit(e_west, s - 7) == pawn_west_square(false, e_pawns, s - 7));
        }
        if s - 9 >= 0 {
            assert(bit(e_east, s - 9) == pawn_east_square(false, e_pawns, s - 9));
        }
    } else {
        assert(bit(w, s) == (rank_of(s) <= 6 && file_of(s) >= 1 && bit(stm_king & e_west, s + 7)));
        assert(bit(e, s) == (rank_of(s) <= 6 && file_of(s) <= 6 && bit(stm_king & e_east, s + 9)));
        if s + 7 < 64 {
            assert(bit(e_west, s + 7) == pawn_west_square(true, e_pawns, s + 7));
        }
        if s + 9 < 64 {
            assert(bit(e_east, s + 9) == pawn_east_square(true, e_pawns, s + 9));
        }
    }
}

/// The boards of both sides, the pawn and king attacks, the squares the enemy attacks
/// (seen through the king of the side to move) and the enemy pieces that give check.
pub fn calculate_additionalbitboards(
    stm_pawns: u64,
    enemy_pawns: u64,
    stm_knights: u64,
    enemy_knights: u64,
    stm_bishops: u64,
    enemy_bishops: u64,
    stm_rooks: u64,
    enemy_rooks: u64,
    stm_queens: u64,
    enemy_queens: u64,
    stm_king: u64,
    enemy_king: u64,
    stm_color_iswhite: bool,
) -> (res: AdditionalBitBoards)
    requires
        single_square(stm_king),
        enemy_king != 0u64,
    ensures
        forall|t: int|
            0 <= t < 64 ==> #[trigger] bit(res.stm_pieces_without_king, t) == (bit(stm_pawns, t)
                || bit(stm_knights, t) || bit(stm_bishops, t) || bit(stm_rooks, t) || bit(
                stm_queens,
                t,
            )),
        forall|t: int|
            0 <= t < 64 ==> #[trigger] bit(res.stm_pieces, t) == (bit(
                res.stm_pieces_without_king,
                t,
            ) || bit(stm_king, t)),
        forall|t: int|
            0 <= t < 64 ==> #[trigger] bit(res.enemy_pieces, t) == (bit(enemy_pawns, t) || bit(
                enemy_knights,
                t,
            ) || bit(enemy_bishops, t) || bit(enemy_rooks, t) || bit(enemy_queens, t) || bit(
                enemy_king,
                t,
            )),
        forall|t: int|
            0 <= t < 64 ==> #[trigger] bit(res.all_pieces_without_stmking, t) == (bit(
                res.enemy_pieces,
                t,
            ) || bit(res.stm_pieces_without_king, t)),
        forall|t: int|
            0 <= t < 64 ==> #[trigger] bit(res.all_pieces, t) == (bit(
                res.all_pieces_without_stmking,
                t,
            ) || bit(stm_king, t)),
        forall|t: int|
            0 <= t < 64 ==> #[trigger] bit(res.stm_pawns_westattack, t) == pawn_west_square(
                stm_color_iswhite,
                stm_pawns,
                t,
            ),
        forall|t: int|
            0 <= t < 64 ==> #[trigger] bit(res.stm_pawns_eastattack, t) == pawn_east_square(
                stm_color_iswhite,
                stm_pawns,
                t,
            ),
        forall|t: int|
            0 <= t < 64 ==> #[trigger] bit(res.enemy_pawns_westattack, t) == pawn_west_square(
                !stm_color_iswhite,
                enemy_pawns,
                t,
            ),
        forall|t: int|
            0 <= t < 64 ==> #[trigger] bit(res.enemy_pawns_eastattack, t) == pawn_east_square(
                !stm_color_iswhite,
                enemy_pawns,
                t,
            ),
        forall|t: int|
            0 <= t < 64 ==> #[trigger] bit(res.stm_king_attacks, t) == (king_adjacent(
                lowest_square(stm_king),
                t,
            ) && !bit(res.stm_pieces, t)),
        forall|t: int|
            0 <= t < 64 ==> #[trigger] bit(res.enemy_king_attacks, t) == king_adjacent(
                lowest_square(enemy_king),
                t,
            ),
        forall|t: int|
            0 <= t < 64 ==> #[trigger] bit(res.stm_unsafe_squares, t) == enemy_attacks(
                stm_color_iswhite,
                enemy_pawns,
                enemy_knights,
                enemy_bishops,
                enemy_rooks,
                enemy_queens,
                enemy_king,
                res.all_pieces_without_stmking,
                t,
            ),
        forall|s: int|
            0 <= s < 64 ==> #[trigger] bit(res.all_checkers, s) == checks_king(
                stm_color_iswhite,
                enemy_pawns,
                enemy_knights,
                enemy_bishops,
                enemy_rooks,
                enemy_queens,
                res.all_pieces_without_stmking,
                lowest_square(stm_king),
                s,
            ),
{
    let stm_pieces_without_king: u64 = stm_pawns | stm_knights | stm_bishops | stm_rooks
        | stm_queens;
    let stm_pieces: u64 = stm_pieces_without_king | stm_king;
    let enemy_pieces: u64 = enemy_pawns | enemy_knights | enemy_bishops | enemy_rooks
        | enemy_queens | enemy_king;
    let all_pieces_without_stmking: u64 = enemy_pieces | stm_pieces_without_king;
    let all_pieces: u64 = all_pieces_without_stmking | stm_king;

    //Pawns
    let side: usize = if stm_color_iswhite {
        WHITE
    } else {
        BLACK
    };
    let stm_pawns_westattack = pawn_west_targets(side, stm_pawns);
    let stm_pawns_eastattack = pawn_east_targets(side, stm_pawns);
    let enemy_pawns_westattack = pawn_west_targets(1 - side, enemy_pawns);
    let enemy_pawns_eastattack = pawn_east_targets(1 - side, enemy_pawns);

    let pawn_unsafe: u64 = enemy_pawns_westattack | enemy_pawns_eastattack;
    let west_checkers = pawn_west_targets(side, stm_king & enemy_pawns_westattack);
    let east_checkers = pawn_east_targets(side, stm_king & enemy_pawns_eastattack);
    let pawn_checkers: u64 = west_checkers | east_checkers;

    let (u1, c1) = add_enemy_attacks(
        1,
        enemy_knights,
        all_pieces_without_stmking,
        stm_king,
        pawn_unsafe,
        pawn_checkers,
    );
    let (u2, c2) = add_enemy_attacks(2, enemy_bishops, all_pieces_without_stmking, stm_king, u1, c1);
    let (u3, c3) = add_enemy_attacks(3, enemy_rooks, all_pieces_without_stmking, stm_king, u2, c2);
    let (u4, all_checkers) = add_enemy_attacks(
        4,
        enemy_queens,
        all_pieces_without_stmking,
        stm_king,
        u3,
        c3,
    );
    //Kings
    proof {
        vstd::std_specs::bits::axiom_u64_trailing_zeros(stm_king);
        vstd::std_specs::bits::axiom_u64_trailing_zeros(enemy_king);
    }
    let stm_king_attacks = king_attack(stm_king.trailing_zeros() as usize) & !stm_pieces;
    let enemy_king_attacks = king_attack(enemy_king.trailing_zeros() as usize);
    let stm_unsafe_squares = u4 | enemy_king_attacks;
    proof {
            assert forall|t: int| 0 <= t < 64 implies #[trigger] bit(stm_unsafe_squares, t)
            == enemy_attacks(
            stm_color_iswhite,
            enemy_pawns,
            enemy_knights,
            enemy_bishops,
            enemy_rooks,
            enemy_queens,
            enemy_king,
            all_pieces_without_stmking,
            t,
        ) by {
            lemma_pawn_covers(!stm_color_iswhite, enemy_pawns, all_pieces_without_stmking, t);
        }
        assert forall|s: int| 0 <= s < 64 implies #[trigger] bit(all_checkers, s) == checks_king(
            stm_color_iswhite,
            enemy_pawns,
            enemy_knights,
            enemy_bishops,
            enemy_rooks,
            enemy_queens,
            all_pieces_without_stmking,
            lowest_square(stm_king),
            s,
        ) by {
            lemma_pawn_checkers(
                stm_color_iswhite,
                stm_king,
                enemy_pawns,
                enemy_pawns_westattack,
                enemy_pawns_eastattack,
                west_checkers,
                east_checkers,
                s,
            );
        }
    }
    AdditionalBitBoards {
        stm_pieces_without_king,
        stm_pieces,
        enemy_pieces,
        all_pieces_without_stmking,
        all_pieces,
        stm_pawns_westattack,
        stm_pawns_eastattack,
        enemy_pawns_westattack,
        enemy_pawns_eastattack,
        stm_king_attacks,
        enemy_king_attacks,
        stm_unsafe_squares,
        all_checkers,
    }
}


// ---------------------------------------------------------------------------
// Move lists.
// ---------------------------------------------------------------------------

/// The moves found for a position.
pub struct MoveList {
    pub move_list: Vec<GameMove>,
}

impl Default for MoveList {
    fn default() -> (res: Self)
        ensures
            res.move_list@ == Seq::<GameMove>::empty(),
    {
        MoveList { move_list: Vec::new() }
    }
}

impl MoveList {
    /// Appends a move.
    pub fn add_move(&mut self, mv: GameMove)
        ensures
            final(self).move_list@ == old(self).move_list@.push(mv),
    {
        self.move_list.push(mv);
    }
}

/// `new` is `old` with moves appended.
pub open spec fn extends(old: Seq<GameMove>, new: Seq<GameMove>) -> bool {
    &&& new.len() >= old.len()
    &&& forall|i: int| 0 <= i < old.len() ==> #[trigger] new[i] == old[i]
}

/// Some move appended to `old` in `new` goes to `t`.
pub open spec fn has_target(old: Seq<GameMove>, new: Seq<GameMove>, t: int) -> bool {
    exists|i: int| old.len() <= i < new.len() && (#[trigger] new[i]).to == t
}

/// Appends the move of a `piece_type` from `from_square` to `to_square`.
pub fn add_move_to_movelist(
    legal_moves: &mut MoveList,
    from_square: usize,
    to_square: usize,
    piece_type: PieceType,
    move_type: GameMoveType,
)
    ensures
        final(legal_moves).move_list@ == old(legal_moves).move_list@.push(
            GameMove { from: from_square, to: to_square, move_type, piece_type },
        ),
{
    legal_moves.add_move(GameMove { from: from_square, to: to_square, move_type, piece_type });
}

/// Appends, for each square of `target_board` from the lowest up, the move of a
/// `piece_type` from `from_square` to it.
pub fn add_moves_to_movelist(
    legal_moves: &mut MoveList,
    from_square: usize,
    target_board: u64,
    piece_type: PieceType,
    move_type: GameMoveType,
)
    ensures
        extends(old(legal_moves).move_list@, final(legal_moves).move_list@),
        forall|i: int|
            old(legal_moves).move_list@.len() <= i < final(legal_moves).move_list@.len() ==> {
                let mv = #[trigger] final(legal_moves).move_list@[i];
                &&& mv.from == from_square
                &&& mv.piece_type == piece_type
                &&& mv.move_type == move_type
                &&& mv.to < 64
                &&& bit(target_board, mv.to as int)
            },
        forall|t: int|
            0 <= t < 64 && bit(target_board, t) ==> has_target(
                old(legal_moves).move_list@,
                final(legal_moves).move_list@,
                t,
            ),
{
    let ghost start = legal_moves.move_list@;
    let mut rest = target_board;
    while rest != 0u64
        invariant
            extends(start, legal_moves.move_list@),
            forall|t: int| #[trigger] bit(rest, t) ==> bit(target_board, t),
            forall|i: int|
                start.len() <= i < legal_moves.move_list@.len() ==> {
                    let mv = #[trigger] legal_moves.move_list@[i];
                    &&& mv.from == from_square
                    &&& mv.piece_type == piece_type
                    &&& mv.move_type == move_type
                    &&& mv.to < 64
                    &&& bit(target_board, mv.to as int)
                },
            forall|t: int|
                0 <= t < 64 && bit(target_board, t) && !bit(rest, t) ==> has_target(
                    start,
                    legal_moves.move_list@,
                    t,
                ),
        decreases rest,
    {
        proof {
            crate::bitboards::lemma_clear_lowest(rest);
        }
        let target_square = rest.trailing_zeros() as usize;
        let ghost before = legal_moves.move_list@;
        add_move_to_movelist(legal_moves, from_square, target_square, piece_type, move_type);
        let ghost old_rest = rest;
        rest = rest ^ (1u64 << target_square as u64);
        proof {
            let now = legal_moves.move_list@;
            assert forall|t: int|
                0 <= t < 64 && bit(target_board, t) && !bit(rest, t) implies has_target(
                start,
                now,
                t,
            ) by {
                if t == target_square {
                    let i = before.len() as int;
                    assert(now[i].to == t);
                } else {
                    assert(!bit(old_rest, t));
                    let i = choose|i: int| start.len() <= i < before.len() && (#[trigger] before[i]).to == t;
                    assert(now[i] == before[i]);
                }
            }
        }
    }
}

/// Appends the four promotions (queen, rook, bishop, knight, in that order) of a pawn
/// moving from `from_square` to `to_square`, capturing where `move_type` is a capture.
pub fn add_promotion_move_to_movelist(
    legal_moves: &mut MoveList,
    from_square: usize,
    to_square: usize,
    move_type: GameMoveType,
)
    ensures
        ({
            let captured = match move_type {
                GameMoveType::Capture(x) => Some(x),
                _ => None,
            };
            let mk = |p: PieceType|
                GameMove {
                    from: from_square,
                    to: to_square,
                    move_type: GameMoveType::Promotion(p, captured),
                    piece_type: PieceType::Pawn,
                };
            final(legal_moves).move_list@ == old(legal_moves).move_list@ + seq![
                mk(PieceType::Queen),
                mk(PieceType::Rook),
                mk(PieceType::Bishop),
                mk(PieceType::Knight),
            ]
        }),
{
    let captured = match move_type {
        GameMoveType::Capture(x) => Some(x),
        _ => None,
    };
    add_move_to_movelist(
        legal_moves,
        from_square,
        to_square,
        PieceType::Pawn,
        GameMoveType::Promotion(PieceType::Queen, captured),
    );
    add_move_to_movelist(
        legal_moves,
        from_square,
        to_square,
        PieceType::Pawn,
        GameMoveType::Promotion(PieceType::Rook, captured),
    );
    add_move_to_movelist(
        legal_moves,
        from_square,
        to_square,
        PieceType::Pawn,
        GameMoveType::Promotion(PieceType::Bishop, captured),
    );
    add_move_to_movelist(
        legal_moves,
        from_square,
        to_square,
        PieceType::Pawn,
        GameMoveType::Promotion(PieceType::Knight, captured),
    );
}


/// Some move appended to `old` in `new` goes from `f` to `t`.
pub open spec fn has_move(old: Seq<GameMove>, new: Seq<GameMove>, f: int, t: int) -> bool {
    exists|i: int|
        old.len() <= i < new.len() && (#[trigger] new[i]).from == f && new[i].to == t
}

/// Appends the king's moves to the squares of `stm_legal_kingmoves`: captures of the
/// enemy pieces there, then (unless `only_captures`) the quiet moves to the others.
pub fn add_king_moves_to_movelist(
    legal_moves: &mut MoveList,
    only_captures: bool,
    stm_legal_kingmoves: u64,
    stm_king_index: usize,
    enemy_pawns: u64,
    enemy_knights: u64,
    enemy_bishops: u64,
    enemy_rooks: u64,
    enemy_queens: u64,
    enemy_pieces: u64,
)
    requires
        stm_king_index < 64,
        forall|t: int|
            0 <= t < 64 && bit(stm_legal_kingmoves, t) && bit(enemy_pieces, t) ==> capturable(
                t,
                enemy_pawns,
                enemy_knights,
                enemy_bishops,
                enemy_rooks,
                enemy_queens,
            ),
    ensures
        extends(old(legal_moves).move_list@, final(legal_moves).move_list@),
        forall|i: int|
            old(legal_moves).move_list@.len() <= i < final(legal_moves).move_list@.len() ==> {
                let mv = #[trigger] final(legal_moves).move_list@[i];
                &&& mv.from == stm_king_index
                &&& mv.piece_type == PieceType::King
                &&& mv.to < 64
                &&& bit(stm_legal_kingmoves, mv.to as int)
                &&& if bit(enemy_pieces, mv.to as int) {
                    mv.move_type == GameMoveType::Capture(
                        captured_kind(
                            mv.to as int,
                            enemy_pawns,
                            enemy_knights,
                            enemy_bishops,
                            enemy_rooks,
                            enemy_queens,
                        ),
                    )
                } else {
                    mv.move_type == GameMoveType::Quiet && !only_captures
                }
            },
        forall|t: int|
            0 <= t < 64 && bit(stm_legal_kingmoves, t) && (bit(enemy_pieces, t) || !only_captures)
                ==> has_target(old(legal_moves).move_list@, final(legal_moves).move_list@, t),
{
    let ghost start = legal_moves.move_list@;
    let mut captures = stm_legal_kingmoves & enemy_pieces;
    let quiets = stm_legal_kingmoves & !captures;
    while captures != 0u64
        invariant
            stm_king_index < 64,
            extends(start, legal_moves.move_list@),
            forall|t: int| #[trigger] bit(captures, t) ==> bit(stm_legal_kingmoves & enemy_pieces, t),
            forall|t: int|
                0 <= t < 64 && bit(stm_legal_kingmoves, t) && bit(enemy_pieces, t) ==> capturable(
                    t,
                    enemy_pawns,
                    enemy_knights,
                    enemy_bishops,
                    enemy_rooks,
                    enemy_queens,
                ),
            forall|i: int|
                start.len() <= i < legal_moves.move_list@.len() ==> {
                    let mv = #[trigger] legal_moves.move_list@[i];
                    &&& mv.from == stm_king_index
                    &&& mv.piece_type == PieceType::King
                    &&& mv.to < 64
                    &&& bit(stm_legal_kingmoves, mv.to as int)
                    &&& bit(enemy_pieces, mv.to as int)
                    &&& mv.move_type == GameMoveType::Capture(
                        captured_kind(
                            mv.to as int,
                            enemy_pawns,
                            enemy_knights,
                            enemy_bishops,
                            enemy_rooks,
                            enemy_queens,
                        ),
                    )
                },
            forall|t: int|
                0 <= t < 64 && bit(stm_legal_kingmoves & enemy_pieces, t) && !bit(captures, t)
                    ==> has_target(start, legal_moves.move_list@, t),
        decreases captures,
    {
        proof {
            crate::bitboards::lemma_clear_lowest(captures);
        }
        let capture_index = captures.trailing_zeros() as usize;
        let ghost before = legal_moves.move_list@;
        let kind = find_captured_piece_type(
            capture_index,
            enemy_pawns,
            enemy_knights,
            enemy_bishops,
            enemy_rooks,
            enemy_queens,
        );
        add_move_to_movelist(
            legal_moves,
            stm_king_index,
            capture_index,
            PieceType::King,
            GameMoveType::Capture(kind),
        );
        let ghost old_captures = captures;
        captures = captures ^ (1u64 << capture_index as u64);
        proof {
            let now = legal_moves.move_list@;
            assert forall|t: int|
                0 <= t < 64 && bit(stm_legal_kingmoves & enemy_pieces, t) && !bit(captures, t)
                    implies has_target(start, now, t) by {
                if t == capture_index {
                    assert(now[before.len() as int].to == t);
                } else {
                    assert(!bit(old_captures, t));
                    let i = choose|i: int| start.len() <= i < before.len() && (#[trigger] before[i]).to == t;
                    assert(now[i] == before[i]);
                }
            }
        }
    }
    let ghost mid = legal_moves.move_list@;
    if !only_captures {
        add_moves_to_movelist(legal_moves, stm_king_index, quiets, PieceType::King, GameMoveType::Quiet);
    }
    proof {
        let now = legal_moves.move_list@;
        assert forall|t: int|
            0 <= t < 64 && bit(stm_legal_kingmoves, t) && (bit(enemy_pieces, t) || !only_captures)
                implies has_target(start, now, t) by {
            if bit(enemy_pieces, t) {
                assert(!bit(captures, t));
                assert(bit(stm_legal_kingmoves & enemy_pieces, t));
                assert(has_target(start, mid, t));
                let i = choose|i: int| start.len() <= i < mid.len() && (#[trigger] mid[i]).to == t;
                assert(now[i] == mid[i]);
            } else {
                assert(bit(quiets, t));
                assert(has_target(mid, now, t));
                let i = choose|i: int| mid.len() <= i < now.len() && (#[trigger] now[i]).to == t;
            }
        }
    }
}

/// The square a pawn moving by `shift` squares to `to` comes from.
pub open spec fn pawn_from(white: bool, shift: int, to: int) -> int {
    if white {
        to - shift
    } else {
        to + shift
    }
}

/// The move kind of a pawn move to `to`: a capture or a quiet move, or (for a promotion)
/// a promotion to a queen, rook, bishop or knight that captures or not.
pub open spec fn pawn_move_kind(
    mv: GameMoveType,
    is_capture: bool,
    is_promotion: bool,
    captured: PieceType,
) -> bool {
    if is_promotion {
        mv matches GameMoveType::Promotion(q, cap) && (q == PieceType::Queen || q == PieceType::Rook
            || q == PieceType::Bishop || q == PieceType::Knight) && cap == if is_capture {
            Some(captured)
        } else {
            None
        }
    } else {
        mv == if is_capture {
            GameMoveType::Capture(captured)
        } else {
            GameMoveType::Quiet
        }
    }
}

/// Appends the pawn moves to the squares of `target_board` (each reached by a move of
/// `shift` squares forward) of the pawns not on `pinned_pieces`; tells whether there was
/// one.
pub fn add_pawn_moves_to_movelist(
    legal_moves: &mut MoveList,
    target_board: u64,
    shift: usize,
    stm_color_iswhite: bool,
    enemy_pawns: u64,
    enemy_knights: u64,
    enemy_bishops: u64,
    enemy_rooks: u64,
    enemy_queens: u64,
    is_capture: bool,
    is_promotion: bool,
    pinned_pieces: u64,
) -> (stm_haslegalmove: bool)
    requires
        shift <= 16,
        forall|t: int|
            0 <= t < 64 && #[trigger] bit(target_board, t) ==> 0 <= pawn_from(
                stm_color_iswhite,
                shift as int,
                t,
            ) < 64,
        is_capture ==> forall|t: int|
            0 <= t < 64 && #[trigger] bit(target_board, t) ==> capturable(
                t,
                enemy_pawns,
                enemy_knights,
                enemy_bishops,
                enemy_rooks,
                enemy_queens,
            ),
    ensures
        extends(old(legal_moves).move_list@, final(legal_moves).move_list@),
        forall|i: int|
            old(legal_moves).move_list@.len() <= i < final(legal_moves).move_list@.len() ==> {
                let mv = #[trigger] final(legal_moves).move_list@[i];
                &&& mv.piece_type == PieceType::Pawn
                &&& mv.to < 64
                &&& bit(target_board, mv.to as int)
                &&& mv.from == pawn_from(stm_color_iswhite, shift as int, mv.to as int)
                &&& !bit(pinned_pieces, mv.from as int)
                &&& pawn_move_kind(
                    mv.move_type,
                    is_capture,
                    is_promotion,
                    captured_kind(
                        mv.to as int,
                        enemy_pawns,
                        enemy_knights,
                        enemy_bishops,
                        enemy_rooks,
                        enemy_queens,
                    ),
                )
            },
        forall|t: int|
            0 <= t < 64 && bit(target_board, t) && !bit(
                pinned_pieces,
                pawn_from(stm_color_iswhite, shift as int, t),
            ) ==> has_target(old(legal_moves).move_list@, final(legal_moves).move_list@, t),
        stm_haslegalmove == exists|t: int|
            0 <= t < 64 && #[trigger] bit(target_board, t) && !bit(
                pinned_pieces,
                pawn_from(stm_color_iswhite, shift as int, t),
            ),
{
    let ghost start = legal_moves.move_list@;
    let mut stm_haslegalmove = false;
    let mut rest = target_board;
    while rest != 0u64
        invariant
            shift <= 16,
            extends(start, legal_moves.move_list@),
            forall|t: int| #[trigger] bit(rest, t) ==> bit(target_board, t),
            forall|t: int|
                0 <= t < 64 && #[trigger] bit(target_board, t) ==> 0 <= pawn_from(
                    stm_color_iswhite,
                    shift as int,
                    t,
                ) < 64,
            is_capture ==> forall|t: int|
                0 <= t < 64 && #[trigger] bit(target_board, t) ==> capturable(
                    t,
                    enemy_pawns,
                    enemy_knights,
                    enemy_bishops,
                    enemy_rooks,
                    enemy_queens,
                ),
            forall|i: int|
                start.len() <= i < legal_moves.move_list@.len() ==> {
                    let mv = #[trigger] legal_moves.move_list@[i];
                    &&& mv.piece_type == PieceType::Pawn
                    &&& mv.to < 64
                    &&& bit(target_board, mv.to as int)
                    &&& mv.from == pawn_from(stm_color_iswhite, shift as int, mv.to as int)
                    &&& !bit(pinned_pieces, mv.from as int)
                    &&& pawn_move_kind(
                        mv.move_type,
                        is_capture,
                        is_promotion,
                        captured_kind(
                            mv.to as int,
                            enemy_pawns,
                            enemy_knights,
                            enemy_bishops,
                            enemy_rooks,
                            enemy_queens,
                        ),
                    )
                },
            forall|t: int|
                0 <= t < 64 && bit(target_board, t) && !bit(rest, t) && !bit(
                    pinned_pieces,
                    pawn_from(stm_color_iswhite, shift as int, t),
                ) ==> has_target(start, legal_moves.move_list@, t),
            stm_haslegalmove == exists|t: int|
                0 <= t < 64 && #[trigger] bit(target_board, t) && !bit(rest, t) && !bit(
                    pinned_pieces,
                    pawn_from(stm_color_iswhite, shift as int, t),
                ),
        decreases rest,
    {
        proof {
            crate::bitboards::lemma_clear_lowest(rest);
        }
        let pawn_index = rest.trailing_zeros() as usize;
        let pawn = 1u64 << pawn_index as u64;
        proof {
            assert(bit(target_board, pawn_index as int));
        }
        let from_index = if stm_color_iswhite {
            pawn_index - shift
        } else {
            pawn_index + shift
        };
        let from_board = 1u64 << from_index as u64;
        let ghost before = legal_moves.move_list@;
        let ghost had = stm_haslegalmove;
        proof {
            crate::bitboards::lemma_and_zero(from_board, pinned_pieces);
            assert(bit(from_board, from_index as int));
            assert((from_board & pinned_pieces == 0u64) == !bit(pinned_pieces, from_index as int));
        }
        if from_board & pinned_pieces == 0u64 {
            stm_haslegalmove = true;
            let mv_type = if is_capture {
                GameMoveType::Capture(
                    find_captured_piece_type(
                        pawn_index,
                        enemy_pawns,
                        enemy_knights,
                        enemy_bishops,
                        enemy_rooks,
                        enemy_queens,
                    ),
                )
            } else {
                GameMoveType::Quiet
            };
            if is_promotion {
                add_promotion_move_to_movelist(legal_moves, from_index, pawn_index, mv_type);
                proof {
                    let now = legal_moves.move_list@;
                    assert(now[before.len() as int].to == pawn_index);
                }
            } else {
                add_move_to_movelist(legal_moves, from_index, pawn_index, PieceType::Pawn, mv_type);
                proof {
                    let now = legal_moves.move_list@;
                    assert(now[before.len() as int].to == pawn_index);
                }
            }
        }
        let ghost old_rest = rest;
        rest = rest ^ pawn;
        proof {
            let now = legal_moves.move_list@;
            assert forall|t: int|
                0 <= t < 64 && bit(target_board, t) && !bit(rest, t) && !bit(
                    pinned_pieces,
                    pawn_from(stm_color_iswhite, shift as int, t),
                ) implies has_target(start, now, t) by {
                if t != pawn_index {
                    assert(!bit(old_rest, t));
                    let i = choose|i: int| start.len() <= i < before.len() && (#[trigger] before[i]).to == t;
                    assert(now[i] == before[i]);
                } else {
                    assert(now[before.len() as int].to == t);
                }
            }
            if stm_haslegalmove {
                if !had {
                    assert(bit(target_board, pawn_index as int) && !bit(rest, pawn_index as int)
                        && !bit(pinned_pieces, pawn_from(stm_color_iswhite, shift as int, pawn_index as int)));
                } else {
                    let t = choose|t: int|
                        0 <= t < 64 && #[trigger] bit(target_board, t) && !bit(old_rest, t) && !bit(
                            pinned_pieces,
                            pawn_from(stm_color_iswhite, shift as int, t),
                        );
                    assert(!bit(rest, t));
                }
            } else {
                assert forall|t: int|
                    0 <= t < 64 && #[trigger] bit(target_board, t) && !bit(rest, t) implies bit(
                    pinned_pieces,
                    pawn_from(stm_color_iswhite, shift as int, t),
                ) by {
                    if t != pawn_index {
                        assert(!bit(old_rest, t));
                    }
                }
            }
        }
    }
    stm_haslegalmove
}


/// Appends the captures by a `piece_type` on `from` of the enemy pieces on the squares
/// of `captures`, from the lowest square up.
fn add_captures_to_movelist(
    legal_moves: &mut MoveList,
    from: usize,
    piece_type: PieceType,
    captures: u64,
    enemy_pawns: u64,
    enemy_knights: u64,
    enemy_bishops: u64,
    enemy_rooks: u64,
    enemy_queens: u64,
)
    requires
        forall|t: int|
            0 <= t < 64 && #[trigger] bit(captures, t) ==> capturable(
                t,
                enemy_pawns,
                enemy_knights,
                enemy_bishops,
                enemy_rooks,
                enemy_queens,
            ),
    ensures
        extends(old(legal_moves).move_list@, final(legal_moves).move_list@),
        forall|i: int|
            old(legal_moves).move_list@.len() <= i < final(legal_moves).move_list@.len() ==> {
                let mv = #[trigger] final(legal_moves).move_list@[i];
                &&& mv.from == from
                &&& mv.piece_type == piece_type
                &&& mv.to < 64
                &&& bit(captures, mv.to as int)
                &&& mv.move_type == GameMoveType::Capture(
                    captured_kind(
                        mv.to as int,
                        enemy_pawns,
                        enemy_knights,
                        enemy_bishops,
                        enemy_rooks,
                        enemy_queens,
                    ),
                )
            },
        forall|t: int|
            0 <= t < 64 && bit(captures, t) ==> has_target(
                old(legal_moves).move_list@,
                final(legal_moves).move_list@,
                t,
            ),
{
    let ghost start = legal_moves.move_list@;
    let mut rest = captures;
    while rest != 0u64
        invariant
            extends(start, legal_moves.move_list@),
            forall|t: int| #[trigger] bit(rest, t) ==> bit(captures, t),
            forall|t: int|
                0 <= t < 64 && #[trigger] bit(captures, t) ==> capturable(
                    t,
                    enemy_pawns,
                    enemy_knights,
                    enemy_bishops,
                    enemy_rooks,
                    enemy_queens,
                ),
            forall|i: int|
                start.len() <= i < legal_moves.move_list@.len() ==> {
                    let mv = #[trigger] legal_moves.move_list@[i];
                    &&& mv.from == from
                    &&& mv.piece_type == piece_type
                    &&& mv.to < 64
                    &&& bit(captures, mv.to as int)
                    &&& mv.move_type == GameMoveType::Capture(
                        captured_kind(
                            mv.to as int,
                            enemy_pawns,
                            enemy_knights,
                            enemy_bishops,
                            enemy_rooks,
                            enemy_queens,
                        ),
                    )
                },
            forall|t: int|
                0 <= t < 64 && bit(captures, t) && !bit(rest, t) ==> has_target(
                    start,
                    legal_moves.move_list@,
                    t,
                ),
        decreases rest,
    {
        proof {
            crate::bitboards::lemma_clear_lowest(rest);
        }
        let capture_index = rest.trailing_zeros() as usize;
        let ghost before = legal_moves.move_list@;
        proof {
            assert(bit(captures, capture_index as int));
        }
        let kind = find_captured_piece_type(
            capture_index,
            enemy_pawns,
            enemy_knights,
            enemy_bishops,
            enemy_rooks,
            enemy_queens,
        );
        add_move_to_movelist(
            legal_moves,
            from,
            capture_index,
            piece_type,
            GameMoveType::Capture(kind),
        );
        let ghost old_rest = rest;
        rest = rest ^ (1u64 << capture_index as u64);
        proof {
            let now = legal_moves.move_list@;
            assert forall|t: int| 0 <= t < 64 && bit(captures, t) && !bit(rest, t) implies has_target(
                start,
                now,
                t,
            ) by {
                if t == capture_index {
                    assert(now[before.len() as int].to == t);
                } else {
                    assert(!bit(old_rest, t));
                    let i = choose|i: int| start.len() <= i < before.len() && (#[trigger] before[i]).to == t;
                    assert(now[i] == before[i]);
                }
            }
        }
    }
}

/// A move of a piece on `s` of the kind `kind` to `t`: a capture of an enemy piece on
/// the capture mask, or a move to an empty square on the push mask.
pub open spec fn normal_target(
    piece_board: u64,
    pinned_pieces: u64,
    kind: int,
    all_pieces: u64,
    capture_mask: u64,
    enemy_pieces: u64,
    push_mask: u64,
    empty_squares: u64,
    s: int,
    t: int,
) -> bool {
    &&& 0 <= s < 64
    &&& 0 <= t < 64
    &&& bit(piece_board, s)
    &&& !bit(pinned_pieces, s)
    &&& piece_attacks(kind, 0, s, all_pieces, t)
    &&& (bit(capture_mask, t) && bit(enemy_pieces, t) || bit(push_mask, t) && bit(empty_squares, t))
}

/// Appends the moves of the knights, bishops, rooks or queens on `piece_board` that are
/// not pinned: captures on the capture mask and (unless `only_captures`) moves to empty
/// squares on the push mask. Tells whether one of them has such a move.
pub fn add_normal_moves_to_movelist(
    legal_moves: &mut MoveList,
    piece_type: PieceType,
    piece_board: u64,
    pinned_pieces: u64,
    enemy_pawns: u64,
    enemy_knights: u64,
    enemy_bishops: u64,
    enemy_rooks: u64,
    enemy_queens: u64,
    enemy_pieces: u64,
    empty_squares: u64,
    all_pieces: u64,
    push_mask: u64,
    capture_mask: u64,
    only_captures: bool,
    stm_color_iswhite: bool,
) -> (stm_haslegalmove: bool)
    requires
        piece_type == PieceType::Knight || piece_type == PieceType::Bishop || piece_type
            == PieceType::Rook || piece_type == PieceType::Queen,
        forall|s: int, t: int|
            0 <= s < 64 && 0 <= t < 64 && bit(piece_board, s) && !bit(pinned_pieces, s)
                && #[trigger] piece_attacks(piece_index(piece_type), 0, s, all_pieces, t) && bit(
                capture_mask,
                t,
            ) && bit(enemy_pieces, t) ==> capturable(
                t,
                enemy_pawns,
                enemy_knights,
                enemy_bishops,
                enemy_rooks,
                enemy_queens,
            ),
    ensures
        extends(old(legal_moves).move_list@, final(legal_moves).move_list@),
        forall|i: int|
            old(legal_moves).move_list@.len() <= i < final(legal_moves).move_list@.len() ==> {
                let mv = #[trigger] final(legal_moves).move_list@[i];
                &&& mv.piece_type == piece_type
                &&& mv.from < 64
                &&& mv.to < 64
                &&& bit(piece_board, mv.from as int)
                &&& !bit(pinned_pieces, mv.from as int)
                &&& piece_attacks(piece_index(piece_type), 0, mv.from as int, all_pieces, mv.to as int)
                &&& (mv.move_type == GameMoveType::Capture(
                    captured_kind(
                        mv.to as int,
                        enemy_pawns,
                        enemy_knights,
                        enemy_bishops,
                        enemy_rooks,
                        enemy_queens,
                    ),
                ) && bit(capture_mask, mv.to as int) && bit(enemy_pieces, mv.to as int) || mv.move_type
                    == GameMoveType::Quiet && bit(push_mask, mv.to as int) && bit(
                    empty_squares,
                    mv.to as int,
                ) && !only_captures)
            },
        forall|s: int, t: int|
            #[trigger] normal_target(
                piece_board,
                pinned_pieces,
                piece_index(piece_type),
                all_pieces,
                capture_mask,
                enemy_pieces,
                push_mask,
                empty_squares,
                s,
                t,
            ) && (bit(capture_mask, t) && bit(enemy_pieces, t) || !only_captures) ==> has_move(
                old(legal_moves).move_list@,
                final(legal_moves).move_list@,
                s,
                t,
            ),
        stm_haslegalmove == exists|s: int, t: int|
            #[trigger] normal_target(
                piece_board,
                pinned_pieces,
                piece_index(piece_type),
                all_pieces,
                capture_mask,
                enemy_pieces,
                push_mask,
                empty_squares,
                s,
                t,
            ),
{
    let ghost kind = piece_index(piece_type);
    let ghost start = legal_moves.move_list@;
    let mut stm_haslegalmove = false;
    let mut rest = piece_board;
    while rest != 0u64
        invariant
            piece_type == PieceType::Knight || piece_type == PieceType::Bishop || piece_type
                == PieceType::Rook || piece_type == PieceType::Queen,
            kind == piece_index(piece_type),
            extends(start, legal_moves.move_list@),
            forall|t: int| #[trigger] bit(rest, t) ==> bit(piece_board, t),
            forall|s: int, t: int|
                0 <= s < 64 && 0 <= t < 64 && bit(piece_board, s) && !bit(pinned_pieces, s)
                    && #[trigger] piece_attacks(kind, 0, s, all_pieces, t) && bit(capture_mask, t)
                    && bit(enemy_pieces, t) ==> capturable(
                    t,
                    enemy_pawns,
                    enemy_knights,
                    enemy_bishops,
                    enemy_rooks,
                    enemy_queens,
                ),
            forall|i: int|
                start.len() <= i < legal_moves.move_list@.len() ==> {
                    let mv = #[trigger] legal_moves.move_list@[i];
                    &&& mv.piece_type == piece_type
                    &&& mv.from < 64
                    &&& mv.to < 64
                    &&& bit(piece_board, mv.from as int)
                    &&& !bit(pinned_pieces, mv.from as int)
                    &&& piece_attacks(kind, 0, mv.from as int, all_pieces, mv.to as int)
                    &&& (mv.move_type == GameMoveType::Capture(
                        captured_kind(
                            mv.to as int,
                            enemy_pawns,
                            enemy_knights,
                            enemy_bishops,
                            enemy_rooks,
                            enemy_queens,
                        ),
                    ) && bit(capture_mask, mv.to as int) && bit(enemy_pieces, mv.to as int)
                        || mv.move_type == GameMoveType::Quiet && bit(push_mask, mv.to as int)
                        && bit(empty_squares, mv.to as int) && !only_captures)
                },
            forall|s: int, t: int|
                #[trigger] normal_target(
                    piece_board,
                    pinned_pieces,
                    kind,
                    all_pieces,
                    capture_mask,
                    enemy_pieces,
                    push_mask,
                    empty_squares,
                    s,
                    t,
                ) && !bit(rest, s) && (bit(capture_mask, t) && bit(enemy_pieces, t) || !only_captures)
                    ==> has_move(start, legal_moves.move_list@, s, t),
            stm_haslegalmove == exists|s: int, t: int|
                #[trigger] normal_target(
                    piece_board,
                    pinned_pieces,
                    kind,
                    all_pieces,
                    capture_mask,
                    enemy_pieces,
                    push_mask,
                    empty_squares,
                    s,
                    t,
                ) && !bit(rest, s),
        decreases rest,
    {
        let piece_index = if stm_color_iswhite {
            proof {
                crate::bitboards::lemma_highest_square(rest);
                vstd::std_specs::bits::axiom_u64_leading_zeros(rest);
            }
            63 - rest.leading_zeros() as usize
        } else {
            proof {
                crate::bitboards::lemma_clear_lowest(rest);
            }
            rest.trailing_zeros() as usize
        };
        proof {
            crate::bitboards::lemma_clear_square(rest, piece_index as int);
            assert(bit(piece_board, piece_index as int));
        }
        let piece = 1u64 << piece_index as u64;
        let ghost before = legal_moves.move_list@;
        let ghost had = stm_haslegalmove;
        proof {
            crate::bitboards::lemma_and_zero(piece, pinned_pieces);
            assert(bit(piece, piece_index as int));
        }
        if piece & pinned_pieces == 0u64 {
            let piece_target = match piece_type {
                PieceType::Knight => knight_attack(piece_index),
                PieceType::Bishop => bishop_attack(piece_index, all_pieces),
                PieceType::Rook => rook_attack(piece_index, all_pieces),
                _ => bishop_attack(piece_index, all_pieces) | rook_attack(piece_index, all_pieces),
            };
            proof {
                assert forall|t: int| 0 <= t < 64 implies #[trigger] bit(piece_target, t)
                    == piece_attacks(kind, 0, piece_index as int, all_pieces, t) by {}
            }
            let captures = piece_target & capture_mask & enemy_pieces;
            stm_haslegalmove = stm_haslegalmove || captures != 0u64;
            proof {
                crate::bitboards::lemma_zero_board(captures);
            }
            add_captures_to_movelist(
                legal_moves,
                piece_index,
                piece_type,
                captures,
                enemy_pawns,
                enemy_knights,
                enemy_bishops,
                enemy_rooks,
                enemy_queens,
            );
            let ghost mid = legal_moves.move_list@;
            let ghost quiets_seen = !only_captures || !stm_haslegalmove;
            if !only_captures || !stm_haslegalmove {
                let quiets = piece_target & push_mask & empty_squares;
                proof {
                    crate::bitboards::lemma_zero_board(quiets);
                }
                stm_haslegalmove = stm_haslegalmove || quiets != 0u64;
                if !only_captures {
                    add_moves_to_movelist(
                        legal_moves,
                        piece_index,
                        quiets,
                        piece_type,
                        GameMoveType::Quiet,
                    );
                }
            }
            proof {
                let now = legal_moves.move_list@;
                assert forall|t: int|
                    0 <= t < 64 && (bit(capture_mask, t) && bit(enemy_pieces, t) || !only_captures)
                        && normal_target(
                        piece_board,
                        pinned_pieces,
                        kind,
                        all_pieces,
                        capture_mask,
                        enemy_pieces,
                        push_mask,
                        empty_squares,
                        piece_index as int,
                        t,
                    ) implies has_move(start, now, piece_index as int, t) by {
                    if bit(capture_mask, t) && bit(enemy_pieces, t) {
                        assert(bit(captures, t));
                        let i = choose|i: int| before.len() <= i < mid.len() && (#[trigger] mid[i]).to == t;
                        assert(now[i] == mid[i]);
                        assert(now[i].from == piece_index);
                    } else {
                        assert(bit(piece_target & push_mask & empty_squares, t));
                        let i = choose|i: int| mid.len() <= i < now.len() && (#[trigger] now[i]).to == t;
                        assert(now[i].from == piece_index);
                    }
                }
                if stm_haslegalmove && !had {
                    if captures != 0u64 {
                        let t = choose|t: int| 0 <= t < 64 && #[trigger] bit(captures, t);
                        assert(normal_target(
                        piece_board,
                        pinned_pieces,
                        kind,
                        all_pieces,
                        capture_mask,
                        enemy_pieces,
                        push_mask,
                        empty_squares,
                        piece_index as int,
                        t,
                    ));
                    } else {
                        let quiets = piece_target & push_mask & empty_squares;
                        assert(quiets != 0u64);
                        crate::bitboards::lemma_zero_board(quiets);
                        let t = choose|t: int| 0 <= t < 64 && #[trigger] bit(quiets, t);
                        assert(normal_target(
                        piece_board,
                        pinned_pieces,
                        kind,
                        all_pieces,
                        capture_mask,
                        enemy_pieces,
                        push_mask,
                        empty_squares,
                        piece_index as int,
                        t,
                    ));
                    }
                }
                if !stm_haslegalmove {
                    assert forall|t: int| !#[trigger] normal_target(
                        piece_board,
                        pinned_pieces,
                        kind,
                        all_pieces,
                        capture_mask,
                        enemy_pieces,
                        push_mask,
                        empty_squares,
                        piece_index as int,
                        t,
                    ) by {
                        if 0 <= t < 64 {
                            assert(!bit(captures, t));
                            assert(!bit(piece_target & push_mask & empty_squares, t));
                        }
                    }
                }
            }
        } else {
            proof {
                assert forall|t: int| !#[trigger] normal_target(
                        piece_board,
                        pinned_pieces,
                        kind,
                        all_pieces,
                        capture_mask,
                        enemy_pieces,
                        push_mask,
                        empty_squares,
                        piece_index as int,
                        t,
                    ) by {}
            }
        }
        proof {
            assert(stm_haslegalmove == (had || exists|t: int| #[trigger] normal_target(
                        piece_board,
                        pinned_pieces,
                        kind,
                        all_pieces,
                        capture_mask,
                        enemy_pieces,
                        push_mask,
                        empty_squares,
                        piece_index as int,
                        t,
                    )));
        }
        let ghost old_rest = rest;
        rest = rest ^ piece;
        proof {
            let now = legal_moves.move_list@;
            assert forall|s: int, t: int|
                #[trigger] normal_target(
                    piece_board,
                    pinned_pieces,
                    kind,
                    all_pieces,
                    capture_mask,
                    enemy_pieces,
                    push_mask,
                    empty_squares,
                    s,
                    t,
                ) && !bit(rest, s) && (bit(capture_mask, t) && bit(enemy_pieces, t) || !only_captures)
                    implies has_move(start, now, s, t) by {
                if s != piece_index {
                    assert(!bit(old_rest, s));
                    let i = choose|i: int|
                        start.len() <= i < before.len() && (#[trigger] before[i]).from == s
                            && before[i].to == t;
                    assert(now[i] == before[i]);
                }
            }
            if stm_haslegalmove {
                if !had {
                    let t = choose|t: int| #[trigger] normal_target(
                        piece_board,
                        pinned_pieces,
                        kind,
                        all_pieces,
                        capture_mask,
                        enemy_pieces,
                        push_mask,
                        empty_squares,
                        piece_index as int,
                        t,
                    );
                    assert(normal_target(
                        piece_board,
                        pinned_pieces,
                        kind,
                        all_pieces,
                        capture_mask,
                        enemy_pieces,
                        push_mask,
                        empty_squares,
                        piece_index as int,
                        t,
                    ) && !bit(rest, piece_index as int));
                } else {
                    let (s, t) = choose|s: int, t: int|
                        #[trigger] normal_target(
                            piece_board,
                            pinned_pieces,
                            kind,
                            all_pieces,
                            capture_mask,
                            enemy_pieces,
                            push_mask,
                            empty_squares,
                            s,
                            t,
                        ) && !bit(old_rest, s);
                    assert(!bit(rest, s));
                }
            } else {
                assert forall|s: int, t: int|
                    #[trigger] normal_target(
                        piece_board,
                        pinned_pieces,
                        kind,
                        all_pieces,
                        capture_mask,
                        enemy_pieces,
                        push_mask,
                        empty_squares,
                        s,
                        t,
                    ) implies bit(rest, s) by {
                    if s == piece_index {
                        assert(!normal_target(
                        piece_board,
                        pinned_pieces,
                        kind,
                        all_pieces,
                        capture_mask,
                        enemy_pieces,
                        push_mask,
                        empty_squares,
                        piece_index as int,
                        t,
                    ));
                    } else if !bit(old_rest, s) {
                        assert(had);
                    }
                }
            }
        }
    }
    stm_haslegalmove
}


/// Appends the moves of a piece pinned to its king: (unless `only_captures`) its moves
/// along the pin ray on the push mask, and its capture of the pinner on the capture mask.
/// Tells whether it has such a move.
pub fn add_pin_moves_to_movelist(
    legal_moves: &mut MoveList,
    only_captures: bool,
    ray_to_king: u64,
    push_mask: u64,
    capture_mask: u64,
    enemy_pinner: u64,
    pinned_piece_position: usize,
    moving_piece_type: PieceType,
    pinner_position: usize,
    enemy_queens: u64,
    other_pinner_piece_type: PieceType,
) -> (haslegalmove: bool)
    requires
        pinned_piece_position < 64,
    ensures
        extends(old(legal_moves).move_list@, final(legal_moves).move_list@),
        forall|i: int|
            old(legal_moves).move_list@.len() <= i < final(legal_moves).move_list@.len() ==> {
                let mv = #[trigger] final(legal_moves).move_list@[i];
                &&& mv.from == pinned_piece_position
                &&& mv.piece_type == moving_piece_type
                &&& (mv.move_type == GameMoveType::Quiet && !only_captures && mv.to < 64 && bit(
                    ray_to_king,
                    mv.to as int,
                ) && bit(push_mask, mv.to as int) && mv.to != pinned_piece_position
                    || mv.move_type == GameMoveType::Capture(
                    if enemy_pinner & enemy_queens != 0u64 {
                        PieceType::Queen
                    } else {
                        other_pinner_piece_type
                    },
                ) && mv.to == pinner_position && capture_mask & enemy_pinner != 0u64)
            },
        !only_captures ==> forall|t: int|
            0 <= t < 64 && bit(ray_to_king, t) && bit(push_mask, t) && t != pinned_piece_position
                ==> #[trigger] has_target(
                old(legal_moves).move_list@,
                final(legal_moves).move_list@,
                t,
            ),
        capture_mask & enemy_pinner != 0u64 ==> has_target(
            old(legal_moves).move_list@,
            final(legal_moves).move_list@,
            pinner_position as int,
        ),
        haslegalmove == (capture_mask & enemy_pinner != 0u64 || exists|t: int|
            0 <= t < 64 && #[trigger] bit(ray_to_king, t) && bit(push_mask, t) && t
                != pinned_piece_position),
{
    let ghost start = legal_moves.move_list@;
    let pin_quiet_targets = ray_to_king & push_mask & !(1u64 << pinned_piece_position as u64);
    let pin_capture_possible = (capture_mask & enemy_pinner) != 0u64;
    proof {
        crate::bitboards::lemma_zero_board(pin_quiet_targets);
        if pin_quiet_targets != 0u64 {
            let t = choose|t: int| 0 <= t < 64 && #[trigger] bit(pin_quiet_targets, t);
            assert(bit(ray_to_king, t) && bit(push_mask, t) && t != pinned_piece_position);
        } else {
            assert forall|t: int|
                0 <= t < 64 && #[trigger] bit(ray_to_king, t) && bit(push_mask, t) implies t
                == pinned_piece_position by {
                assert(!bit(pin_quiet_targets, t));
            }
        }
    }
    let haslegalmove = pin_capture_possible || pin_quiet_targets != 0u64;
    if !only_captures {
        add_moves_to_movelist(
            legal_moves,
            pinned_piece_position,
            pin_quiet_targets,
            moving_piece_type,
            GameMoveType::Quiet,
        );
    }
    let ghost mid = legal_moves.move_list@;
    if pin_capture_possible {
        add_move_to_movelist(
            legal_moves,
            pinned_piece_position,
            pinner_position,
            moving_piece_type,
            GameMoveType::Capture(
                if enemy_pinner & enemy_queens != 0u64 {
                    PieceType::Queen
                } else {
                    other_pinner_piece_type
                },
            ),
        );
        proof {
            assert(legal_moves.move_list@[mid.len() as int].to == pinner_position);
        }
    }
    proof {
        let now = legal_moves.move_list@;
        if !only_captures {
            assert forall|t: int|
                0 <= t < 64 && bit(ray_to_king, t) && bit(push_mask, t) && t != pinned_piece_position
                    implies #[trigger] has_target(start, now, t) by {
                assert(bit(pin_quiet_targets, t));
                let i = choose|i: int| start.len() <= i < mid.len() && (#[trigger] mid[i]).to == t;
                assert(now[i] == mid[i]);
            }
        }
    }
    haslegalmove
}


// ---------------------------------------------------------------------------
// The positions the move generator works on, and the moves it may give.
// ---------------------------------------------------------------------------

/// No square holds two pieces.
pub open spec fn boards_disjoint(pieces: [[u64; 2]; 6]) -> bool {
    forall|p: int, a: int, q: int, b: int, t: int|
        #![trigger bit(pieces[p][a], t), bit(pieces[q][b], t)]
        0 <= p < 6 && 0 <= q < 6 && 0 <= a < 2 && 0 <= b < 2 && bit(pieces[p][a], t) && bit(
            pieces[q][b],
            t,
        ) ==> p == q && a == b
}

/// The en-passant square `t` fits the position: it is empty, and the pawn that has just
/// skipped it stands beyond it, on the rank from which the side to move captures it.
pub open spec fn en_passant_square_ok(g: GameState, t: int) -> bool {
    &&& !bit(occupancy(g.pieces), t)
    &&& if g.color_to_move == 0 {
        rank_of(t) == 5 && bit(g.pieces[0][1], t - 8)
    } else {
        rank_of(t) == 2 && bit(g.pieces[0][0], t + 8)
    }
}

/// A position the move generator works on: a side to move, one piece at most per
/// square, one king per side, a rook on its corner for each castle right, an en-passant
/// square behind a pawn that has just moved two squares, and the king of the side that
/// has just moved not attacked.
pub open spec fn position_ok(g: GameState) -> bool {
    let c = g.color_to_move as int;
    &&& g.color_to_move < 2
    &&& boards_disjoint(g.pieces)
    &&& single_square(g.pieces[5][0])
    &&& single_square(g.pieces[5][1])
    &&& g.castle_white_kingside ==> bit(g.pieces[3][0], 7)
    &&& g.castle_white_queenside ==> bit(g.pieces[3][0], 0)
    &&& g.castle_black_kingside ==> bit(g.pieces[3][1], 63)
    &&& g.castle_black_queenside ==> bit(g.pieces[3][1], 56)
    &&& forall|t: int| #[trigger] bit(g.en_passant, t) ==> en_passant_square_ok(g, t)
    &&& forall|t: int|
        #[trigger] bit(g.pieces[5][1 - c], t) ==> !attacked_by(g.pieces, c, occupancy(g.pieces), t)
}

/// A move the move generator may give: its squares are on the board, and it fits the
/// position and stays in range when made.
pub open spec fn sound_move(g: GameState, mv: GameMove) -> bool {
    &&& mv.from < 64
    &&& mv.to < 64
    &&& kind_in_range(g, mv)
    &&& move_fits(g, mv)
}

/// Every move of the list is sound.
pub open spec fn all_sound(g: GameState, moves: Seq<GameMove>) -> bool {
    forall|i: int| 0 <= i < moves.len() ==> sound_move(g, #[trigger] moves[i])
}

/// A move that captures: a capture, a capture en passant or a capturing promotion.
pub open spec fn is_capture_move(mv: GameMove) -> bool {
    match mv.move_type {
        GameMoveType::Capture(_) => true,
        GameMoveType::EnPassant => true,
        GameMoveType::Promotion(_, captured) => captured is Some,
        _ => false,
    }
}

/// Every move of the list captures.
pub open spec fn all_captures(moves: Seq<GameMove>) -> bool {
    forall|i: int| 0 <= i < moves.len() ==> is_capture_move(#[trigger] moves[i])
}

/// A square holds a piece of the side `c`.
pub open spec fn side_at(pieces: [[u64; 2]; 6], c: int, t: int) -> bool {
    bit(pieces[0][c], t) || bit(pieces[1][c], t) || bit(pieces[2][c], t) || bit(pieces[3][c], t)
        || bit(pieces[4][c], t) || bit(pieces[5][c], t)
}

/// The boards the move generator derived for the side to move of `g`.
pub open spec fn abb_of(g: GameState, abb: AdditionalBitBoards) -> bool {
    let c = g.color_to_move as int;
    let p = g.pieces;
    &&& forall|t: int| 0 <= t < 64 ==> #[trigger] bit(abb.stm_pieces, t) == side_at(p, c, t)
    &&& forall|t: int| 0 <= t < 64 ==> #[trigger] bit(abb.enemy_pieces, t) == side_at(p, 1 - c, t)
    &&& abb.all_pieces == occupancy(p)
    &&& forall|t: int|
        0 <= t < 64 ==> #[trigger] bit(abb.stm_pawns_westattack, t) == pawn_west_square(
            c == 0,
            p[0][c],
            t,
        )
    &&& forall|t: int|
        0 <= t < 64 ==> #[trigger] bit(abb.stm_pawns_eastattack, t) == pawn_east_square(
            c == 0,
            p[0][c],
            t,
        )
    &&& forall|t: int|
        0 <= t < 64 ==> #[trigger] bit(abb.stm_king_attacks, t) == (king_adjacent(
            lowest_square(p[5][c]),
            t,
        ) && !bit(abb.stm_pieces, t))
}

/// The occupancy board holds the squares where some piece stands.
pub proof fn lemma_occupancy(pieces: [[u64; 2]; 6], t: int)
    ensures
        bit(occupancy(pieces), t) == (side_at(pieces, 0, t) || side_at(pieces, 1, t)),
        bit(side_board(pieces, 0), t) == side_at(pieces, 0, t),
        bit(side_board(pieces, 1), t) == side_at(pieces, 1, t),
{
}

/// A square that a piece of the side to move attacks holds no king of the other side.
pub proof fn lemma_attacked_not_king(g: GameState, k: int, s: int, t: int)
    requires
        position_ok(g),
        0 <= k < 6,
        0 <= s < 64,
        0 <= t < 64,
        bit(g.pieces[k][g.color_to_move as int], s),
        piece_attacks(k, g.color_to_move as int, s, occupancy(g.pieces), t),
    ensures
        !bit(g.pieces[5][1 - g.color_to_move as int], t),
{
    let c = g.color_to_move as int;
    assert(covers(k, c, g.pieces[k][c], occupancy(g.pieces), t));
}


/// `b` holds the squares a rook on `k` attacks when the board holds `occ`.
pub open spec fn is_rook_attack_board(b: u64, k: int, occ: u64) -> bool {
    forall|t: int| 0 <= t < 64 ==> #[trigger] bit(b, t) == rook_reaches(k, occ, t)
}

/// The board a rook on `k` attacks when the board holds `occ`.
pub open spec fn rook_attack_board(k: int, occ: u64) -> u64 {
    choose|b: u64| #[trigger] is_rook_attack_board(b, k, occ)
}

/// An enemy rook or queen on `p` lies on the rank or file of the side to move's king on
/// `k` behind exactly the side's own pieces: a rook on `k` reaches `p` once those of the
/// side's own pieces it reaches are lifted off the board, and not before.
pub open spec fn rook_pinner(g: GameState, abb: AdditionalBitBoards, k: int, p: int) -> bool {
    let e = 1 - g.color_to_move as int;
    let lifted = abb.all_pieces ^ (abb.stm_pieces & rook_attack_board(k, abb.all_pieces));
    &&& 0 <= p < 64
    &&& bit(g.pieces[3][e], p) || bit(g.pieces[4][e], p)
    &&& rook_reaches(k, abb.all_pieces, p) != rook_reaches(k, lifted, p)
}

/// The piece of the side to move on `u` stands on the rank or file between its king on
/// `k` and an enemy rook or queen pinning it.
pub open spec fn rook_pinned(g: GameState, abb: AdditionalBitBoards, k: int, u: int) -> bool {
    exists|p: int|
        #[trigger] rook_pinner(g, abb, k, p) && rook_reaches(k, 0u64, u) && rook_ray_box(k, p, u)
            && bit(abb.stm_pieces, u)
}

/// The square `u` lies on the rank or file between the king on `k` and a piece on `p`.
pub open spec fn rook_pin_ray(k: int, p: int, u: int) -> bool {
    rook_reaches(k, 0u64, u) && rook_ray_box(k, p, u)
}

/// A pawn of colour `c` on `u` pushes to `t`: one square forward, or two from its
/// starting rank over the empty square between.
pub open spec fn pawn_push_from(c: int, u: int, empty: u64, t: int) -> bool {
    if c == 0 {
        rank_of(t) >= 1 && t - 8 == u || rank_of(t) == 3 && t - 16 == u && bit(empty, t - 8)
    } else {
        rank_of(t) <= 6 && t + 8 == u || rank_of(t) == 4 && t + 16 == u && bit(empty, t + 8)
    }
}

/// The piece of the side to move on `u`, pinned to its king on `k` by an enemy rook or
/// queen on `p`, has a move: a queen or a rook moves along the pin onto the push mask or
/// takes the pinner on the capture mask; a pawn pushes along the pin onto an empty square
/// on the push mask.
pub open spec fn rook_pinned_piece_moves(
    g: GameState,
    k: int,
    p: int,
    u: int,
    push_mask: u64,
    capture_mask: u64,
    empty: u64,
) -> bool {
    let c = g.color_to_move as int;
    if bit(g.pieces[4][c], u) || bit(g.pieces[3][c], u) {
        bit(capture_mask, p) || exists|t: int|
            #[trigger] rook_pin_ray(k, p, t) && 0 <= t < 64 && bit(push_mask, t) && t != u
    } else {
        bit(g.pieces[0][c], u) && exists|t: int|
            #[trigger] rook_pin_ray(k, p, t) && 0 <= t < 64 && bit(push_mask, t) && bit(empty, t)
                && pawn_push_from(c, u, empty, t)
    }
}

/// Some move appended to `old` in `new` goes from `u` to `t`.
pub open spec fn moved_from_to(old: Seq<GameMove>, new: Seq<GameMove>, u: int, t: int) -> bool {
    exists|i: int| old.len() <= i < new.len() && (#[trigger] new[i]).from == u && new[i].to == t
}

/// The piece of the side to move on `u`, pinned to its king on `k` by an enemy rook or
/// queen on `p`, moves to `t`: a queen or rook along the pin onto the push mask (unless
/// only captures are asked for) or onto the pinner on the capture mask; a pawn (unless only
/// captures are asked for) pushing along the pin onto an empty square on the push mask.
pub open spec fn rook_pin_target(
    g: GameState,
    k: int,
    p: int,
    u: int,
    t: int,
    only_captures: bool,
    push_mask: u64,
    capture_mask: u64,
    empty: u64,
) -> bool {
    let c = g.color_to_move as int;
    if bit(g.pieces[4][c], u) || bit(g.pieces[3][c], u) {
        !only_captures && rook_pin_ray(k, p, t) && 0 <= t < 64 && bit(push_mask, t) && t != u || t == p
            && bit(capture_mask, p)
    } else {
        bit(g.pieces[0][c], u) && !only_captures && rook_pin_ray(k, p, t) && 0 <= t < 64 && bit(
            push_mask,
            t,
        ) && bit(empty, t) && pawn_push_from(c, u, empty, t)
    }
}

/// A piece of the side to move pinned to its king on `k` by the enemy rook or queen on `p`
/// has a move.
pub open spec fn rook_pin_has_move(
    g: GameState,
    abb: AdditionalBitBoards,
    k: int,
    p: int,
    push_mask: u64,
    capture_mask: u64,
    empty: u64,
) -> bool {
    exists|u: int|
        0 <= u < 64 && #[trigger] rook_pin_ray(k, p, u) && bit(abb.stm_pieces, u)
            && rook_pinned_piece_moves(g, k, p, u, push_mask, capture_mask, empty)
}

/// On a pin ray holding at most one own piece, some pinned piece has a move exactly when
/// the own piece on it, `u0`, has one.
proof fn lemma_rook_pin_step(
    g: GameState,
    abb: AdditionalBitBoards,
    k: int,
    pos: int,
    u0: int,
    ray: u64,
    pinned_piece: u64,
    push_mask: u64,
    capture_mask: u64,
    empty: u64,
)
    requires
        forall|t: int| 0 <= t < 64 ==> #[trigger] bit(ray, t) == rook_pin_ray(k, pos, t),
        forall|t: int| #[trigger] bit(pinned_piece, t) == (bit(ray, t) && bit(abb.stm_pieces, t)),
        forall|u1: int, u2: int|
            #[trigger] bit(ray, u1) && bit(abb.stm_pieces, u1) && #[trigger] bit(ray, u2) && bit(
                abb.stm_pieces,
                u2,
            ) ==> u1 == u2,
        pinned_piece != 0u64 ==> bit(pinned_piece, u0),
    ensures
        rook_pin_has_move(g, abb, k, pos, push_mask, capture_mask, empty) == (pinned_piece != 0u64
            && rook_pinned_piece_moves(g, k, pos, u0, push_mask, capture_mask, empty)),
{
    crate::bitboards::lemma_zero_board(pinned_piece);
    if rook_pin_has_move(g, abb, k, pos, push_mask, capture_mask, empty) {
        let u = choose|u: int|
            0 <= u < 64 && #[trigger] rook_pin_ray(k, pos, u) && bit(abb.stm_pieces, u)
                && rook_pinned_piece_moves(g, k, pos, u, push_mask, capture_mask, empty);
        assert(bit(pinned_piece, u));
        assert(bit(pinned_piece, u0));
        assert(bit(ray, u0) && bit(abb.stm_pieces, u0));
        assert(u == u0);
    }
    if pinned_piece != 0u64 && rook_pinned_piece_moves(g, k, pos, u0, push_mask, capture_mask, empty) {
        assert(bit(ray, u0) && bit(abb.stm_pieces, u0));
        assert(rook_pin_ray(k, pos, u0));
    }
}

/// The moves of the pieces of the side to move pinned to its king (on `stm_king_index`)
/// by enemy rooks and queens along ranks and files: queens and rooks move along the pin
/// or take the pinner, pawns push along it. Returns the pinned pieces, the pawns of the
/// side to move without the pinned ones, and whether a pinned piece has a move.
#[verifier::spinoff_prover]
#[verifier::rlimit(100)]
fn add_rook_pin_moves(
    g: &GameState,
    movelist: &mut MoveList,
    only_captures: bool,
    abb: &AdditionalBitBoards,
    push_mask: u64,
    capture_mask: u64,
    stm_king_index: usize,
    empty_squares: u64,
) -> (res: (u64, u64, bool))
    requires
        position_ok(*g),
        abb_of(*g, *abb),
        stm_king_index < 64,
        stm_king_index == lowest_square(g.pieces[5][g.color_to_move as int]),
        forall|t: int| 0 <= t < 64 ==> #[trigger] bit(empty_squares, t) == !bit(abb.all_pieces, t),
        all_sound(*g, old(movelist).move_list@),
    ensures
        all_sound(*g, final(movelist).move_list@),
        extends(old(movelist).move_list@, final(movelist).move_list@),
        forall|u: int| #[trigger] bit(res.1, u) ==> !bit(res.0, u),
        forall|i: int|
            old(movelist).move_list@.len() <= i < final(movelist).move_list@.len() ==> {
                let mv = #[trigger] final(movelist).move_list@[i];
                exists|p: int|
                    #[trigger] rook_pinner(*g, *abb, stm_king_index as int, p) && rook_pin_target(
                        *g,
                        stm_king_index as int,
                        p,
                        mv.from as int,
                        mv.to as int,
                        only_captures,
                        push_mask,
                        capture_mask,
                        empty_squares,
                    ) && rook_pin_ray(
                        stm_king_index as int,
                        p,
                        mv.from as int,
                    ) && bit(abb.stm_pieces, mv.from as int)
            },
        forall|p: int, u: int, t: int|
            #[trigger] rook_pin_target(*g, stm_king_index as int, p, u, t, only_captures, push_mask, capture_mask, empty_squares) && rook_pinner(*g, *abb, stm_king_index as int, p) && rook_pin_ray(
                stm_king_index as int,
                p,
                u,
            ) && bit(abb.stm_pieces, u) ==> moved_from_to(
                old(movelist).move_list@,
                final(movelist).move_list@,
                u,
                t,
            ),
        res.2 == exists|p: int|
            #[trigger] rook_pinner(*g, *abb, stm_king_index as int, p) && rook_pin_has_move(
                *g,
                *abb,
                stm_king_index as int,
                p,
                push_mask,
                capture_mask,
                empty_squares,
            ),
        only_captures && all_captures(old(movelist).move_list@) ==> all_captures(
            final(movelist).move_list@,
        ),
        forall|t: int| #[trigger] bit(res.1, t) ==> bit(g.pieces[0][g.color_to_move as int], t),
        forall|u: int|
            0 <= u < 64 ==> #[trigger] bit(res.0, u) == rook_pinned(*g, *abb, stm_king_index as int, u),
        forall|u: int|
            0 <= u < 64 && !bit(res.0, u) ==> #[trigger] bit(res.1, u) == bit(
                g.pieces[0][g.color_to_move as int],
                u,
            ),
{
    let ghost start_moves = movelist.move_list@;
    let c = g.color_to_move;
    let e = 1 - c;
    let ghost ci = c as int;
    let stm_color_iswhite = c == WHITE;
    let mut stm_pawns = g.pieces[PAWN][c];
    let stm_rooks = g.pieces[ROOK][c];
    let stm_queens = g.pieces[QUEEN][c];
    let enemy_rooks = g.pieces[ROOK][e];
    let enemy_queens = g.pieces[QUEEN][e];
    let mut pinned_pieces = 0u64;
    let mut found = false;
    let stm_rook_attacks_from_king = rook_attack(stm_king_index, abb.all_pieces);
    let stm_xray_rook_attacks_from_king = xray_rook_attacks(
        stm_rook_attacks_from_king,
        abb.all_pieces,
        abb.stm_pieces,
        stm_king_index,
    );
    let mut enemy_rooks_on_xray = stm_xray_rook_attacks_from_king & (enemy_rooks | enemy_queens);
    let ghost targets = enemy_rooks_on_xray;
    let ghost k = stm_king_index as int;
    proof {
        assert(is_rook_attack_board(stm_rook_attacks_from_king, k, abb.all_pieces));
        let b = rook_attack_board(k, abb.all_pieces);
        assert(is_rook_attack_board(b, k, abb.all_pieces));
        assert forall|t: int| 0 <= t < 64 implies #[trigger] bit(b, t) == bit(stm_rook_attacks_from_king, t) by {}
        crate::bitboards::lemma_bit_extensional(b, stm_rook_attacks_from_king);
        assert forall|p: int| 0 <= p < 64 implies #[trigger] bit(targets, p) == rook_pinner(*g, *abb, k, p) by {}
    }
    proof {
        assert forall|t: int| #[trigger] bit(abb.stm_pieces, t) implies bit(abb.all_pieces, t) by {
            crate::move_generation::movegen::lemma_occupancy(g.pieces, t);
        }
    }
    while enemy_rooks_on_xray != 0u64
        invariant
            k == stm_king_index,
            forall|p: int| 0 <= p < 64 ==> #[trigger] bit(targets, p) == rook_pinner(*g, *abb, k, p),
            forall|p: int| #[trigger] bit(enemy_rooks_on_xray, p) ==> bit(targets, p),
            forall|u: int|
                0 <= u < 64 ==> #[trigger] bit(pinned_pieces, u) == exists|p: int|
                    0 <= p < 64 && bit(targets, p) && !bit(enemy_rooks_on_xray, p) && #[trigger] rook_ray_box(
                        k,
                        p,
                        u,
                    ) && rook_reaches(k, 0u64, u) && bit(abb.stm_pieces, u),
            forall|u: int|
                0 <= u < 64 && !bit(pinned_pieces, u) ==> #[trigger] bit(stm_pawns, u) == bit(
                    g.pieces[0][ci],
                    u,
                ),
            position_ok(*g),
            abb_of(*g, *abb),
            c == g.color_to_move,
            ci == c,
            e == 1 - c,
            stm_king_index < 64,
            stm_color_iswhite == (c == 0),
            stm_rooks == g.pieces[3][ci],
            stm_queens == g.pieces[4][ci],
            enemy_rooks == g.pieces[3][1 - ci],
            enemy_queens == g.pieces[4][1 - ci],
            forall|t: int| 0 <= t < 64 ==> #[trigger] bit(empty_squares, t) == !bit(abb.all_pieces, t),
            forall|t: int| #[trigger] bit(abb.stm_pieces, t) ==> bit(abb.all_pieces, t),
            forall|t: int| 0 <= t < 64 ==> #[trigger] bit(stm_rook_attacks_from_king, t) == rook_reaches(
                stm_king_index as int,
                abb.all_pieces,
                t,
            ),
            forall|t: int|
                0 <= t < 64 ==> #[trigger] bit(stm_xray_rook_attacks_from_king, t) == (bit(
                    stm_rook_attacks_from_king,
                    t,
                ) != rook_reaches(
                    stm_king_index as int,
                    abb.all_pieces ^ (abb.stm_pieces & stm_rook_attacks_from_king),
                    t,
                )),
            forall|t: int| #[trigger] bit(enemy_rooks_on_xray, t) ==> bit(stm_xray_rook_attacks_from_king, t)
                && (bit(enemy_rooks, t) || bit(enemy_queens, t)),
            forall|t: int| #[trigger] bit(stm_pawns, t) ==> bit(g.pieces[0][ci], t),
            all_sound(*g, movelist.move_list@),
            only_captures && all_captures(start_moves) ==> all_captures(movelist.move_list@),
            extends(start_moves, movelist.move_list@),
            forall|u: int| #[trigger] bit(stm_pawns, u) ==> !bit(pinned_pieces, u),
            forall|i: int|
                start_moves.len() <= i < movelist.move_list@.len() ==> {
                    let mv = #[trigger] movelist.move_list@[i];
                    exists|p: int|
                        0 <= p < 64 && bit(targets, p) && !bit(enemy_rooks_on_xray, p) && #[trigger] rook_pin_target(
                            *g,
                            k,
                            p,
                            mv.from as int,
                            mv.to as int,
                            only_captures,
                            push_mask,
                            capture_mask,
                            empty_squares,
                        )
                            && rook_pin_ray(k, p, mv.from as int) && bit(abb.stm_pieces, mv.from as int)
                },
            forall|p: int, u: int, t: int|
                #[trigger] rook_pin_target(*g, k, p, u, t, only_captures, push_mask, capture_mask, empty_squares) && bit(targets, p) && !bit(enemy_rooks_on_xray, p) && rook_pin_ray(
                    k,
                    p,
                    u,
                ) && bit(abb.stm_pieces, u) ==> moved_from_to(start_moves, movelist.move_list@, u, t),
            forall|p: int| #[trigger] bit(targets, p) ==> bit(stm_xray_rook_attacks_from_king, p) && (bit(
                enemy_rooks,
                p,
            ) || bit(enemy_queens, p)),
            found == exists|p: int|
                0 <= p < 64 && bit(targets, p) && !bit(enemy_rooks_on_xray, p) && #[trigger] rook_pin_has_move(
                    *g,
                    *abb,
                    k,
                    p,
                    push_mask,
                    capture_mask,
                    empty_squares,
                ),
        decreases enemy_rooks_on_xray,
    {
        proof {
            crate::bitboards::lemma_clear_lowest(enemy_rooks_on_xray);
        }
        let ghost pinned_before = pinned_pieces;
        let ghost pawns_before = stm_pawns;
        let ghost rest_before = enemy_rooks_on_xray;
        let ghost found_before = found;
        let enemy_rook_position = enemy_rooks_on_xray.trailing_zeros() as usize;
        let enemy_rook = 1u64 << enemy_rook_position as u64;
        let ray_to_king = get_rook_ray(stm_king_index, enemy_rook_position);
        let pinned_piece = ray_to_king & abb.stm_pieces;
        proof {
            let pos = enemy_rook_position as int;
            assert(bit(enemy_rooks, pos) || bit(enemy_queens, pos));
            assert(!bit(abb.stm_pieces, pos)) by {
                if bit(abb.stm_pieces, pos) {
                    assert(side_at(g.pieces, ci, pos));
                }
            }
            crate::move_generation::attacks::lemma_pin_ray(
                true,
                stm_king_index as int,
                abb.all_pieces,
                abb.stm_pieces,
                stm_rook_attacks_from_king,
                stm_xray_rook_attacks_from_king,
                pos,
                ray_to_king,
            );
            vstd::std_specs::bits::axiom_u64_trailing_zeros(pinned_piece);
            crate::bitboards::lemma_zero_board(pinned_piece);
            if pinned_piece != 0u64 {
                assert(bit(pinned_piece, lowest_square(pinned_piece)));
            }
        }
        let pinned_piece_position = pinned_piece.trailing_zeros() as usize;
        pinned_pieces = pinned_pieces | pinned_piece;
        let ghost before = movelist.move_list@;
        proof {
            crate::bitboards::lemma_and_zero(pinned_piece, stm_queens);
            crate::bitboards::lemma_and_zero(pinned_piece, stm_rooks);
            crate::bitboards::lemma_and_zero(pinned_piece, stm_pawns);
            crate::bitboards::lemma_and_zero(capture_mask, enemy_rook);
            lemma_rook_pin_step(
                *g,
                *abb,
                k,
                enemy_rook_position as int,
                pinned_piece_position as int,
                ray_to_king,
                pinned_piece,
                push_mask,
                capture_mask,
                empty_squares,
            );
            assert(bit(capture_mask, enemy_rook_position as int) == (capture_mask & enemy_rook != 0u64));
            if pinned_piece != 0u64 {
                assert(bit(ray_to_king, pinned_piece_position as int));
                assert(bit(abb.stm_pieces, pinned_piece_position as int));
            }
        }
        if pinned_piece & stm_queens != 0u64 {
            let has = add_pin_moves_to_movelist(
                movelist,
                only_captures,
                ray_to_king,
                push_mask,
                capture_mask,
                enemy_rook,
                pinned_piece_position,
                PieceType::Queen,
                enemy_rook_position,
                enemy_queens,
                PieceType::Rook,
            );
            found = found || has;
            proof {
                let u0 = pinned_piece_position as int;
                let pos = enemy_rook_position as int;
                assert(bit(pinned_piece, u0));
                assert(has == rook_pinned_piece_moves(
                    *g,
                    k,
                    pos,
                    u0,
                    push_mask,
                    capture_mask,
                    empty_squares,
                )) by {
                    assert(bit(stm_queens, u0) || bit(stm_rooks, u0)) by {
                        if pinned_piece & stm_queens != 0u64 {
                            let t = choose|t: int| 0 <= t < 64 && !!(#[trigger] bit(pinned_piece, t) && bit(stm_queens, t));
                            assert(bit(pinned_piece, t) && bit(stm_queens, t));
                        } else {
                            let t = choose|t: int| 0 <= t < 64 && !!(#[trigger] bit(pinned_piece, t) && bit(stm_rooks, t));
                            assert(bit(pinned_piece, t) && bit(stm_rooks, t));
                        }
                    }
                    if exists|t: int|
                        0 <= t < 64 && #[trigger] bit(ray_to_king, t) && bit(push_mask, t) && t != u0 {
                        let t = choose|t: int|
                            0 <= t < 64 && #[trigger] bit(ray_to_king, t) && bit(push_mask, t) && t != u0;
                        assert(rook_pin_ray(k, pos, t));
                    }
                    if exists|t: int|
                        #[trigger] rook_pin_ray(k, pos, t) && 0 <= t < 64 && bit(push_mask, t) && t != u0 {
                        let t = choose|t: int|
                            #[trigger] rook_pin_ray(k, pos, t) && 0 <= t < 64 && bit(push_mask, t) && t != u0;
                        assert(bit(ray_to_king, t));
                    }
                }
                assert(found == (found_before || rook_pin_has_move(
                    *g,
                    *abb,
                    k,
                    pos,
                    push_mask,
                    capture_mask,
                    empty_squares,
                )));
            }
            proof {
                lemma_pin_moves_sound(
                    *g,
                    before,
                    movelist.move_list@,
                    ray_to_king,
                    abb.stm_pieces,
                    pinned_piece,
                    enemy_rook,
                    enemy_queens,
                    PieceType::Queen,
                    PieceType::Rook,
                    enemy_rook_position,
                );
            }
        } else if pinned_piece & stm_rooks != 0u64 {
            let has = add_pin_moves_to_movelist(
                movelist,
                only_captures,
                ray_to_king,
                push_mask,
                capture_mask,
                enemy_rook,
                pinned_piece_position,
                PieceType::Rook,
                enemy_rook_position,
                enemy_queens,
                PieceType::Rook,
            );
            found = found || has;
            proof {
                let u0 = pinned_piece_position as int;
                let pos = enemy_rook_position as int;
                assert(bit(pinned_piece, u0));
                assert(has == rook_pinned_piece_moves(
                    *g,
                    k,
                    pos,
                    u0,
                    push_mask,
                    capture_mask,
                    empty_squares,
                )) by {
                    assert(bit(stm_queens, u0) || bit(stm_rooks, u0)) by {
                        if pinned_piece & stm_queens != 0u64 {
                            let t = choose|t: int| 0 <= t < 64 && !!(#[trigger] bit(pinned_piece, t) && bit(stm_queens, t));
                            assert(bit(pinned_piece, t) && bit(stm_queens, t));
                        } else {
                            let t = choose|t: int| 0 <= t < 64 && !!(#[trigger] bit(pinned_piece, t) && bit(stm_rooks, t));
                            assert(bit(pinned_piece, t) && bit(stm_rooks, t));
                        }
                    }
                    if exists|t: int|
                        0 <= t < 64 && #[trigger] bit(ray_to_king, t) && bit(push_mask, t) && t != u0 {
                        let t = choose|t: int|
                            0 <= t < 64 && #[trigger] bit(ray_to_king, t) && bit(push_mask, t) && t != u0;
                        assert(rook_pin_ray(k, pos, t));
                    }
                    if exists|t: int|
                        #[trigger] rook_pin_ray(k, pos, t) && 0 <= t < 64 && bit(push_mask, t) && t != u0 {
                        let t = choose|t: int|
                            #[trigger] rook_pin_ray(k, pos, t) && 0 <= t < 64 && bit(push_mask, t) && t != u0;
                        assert(bit(ray_to_king, t));
                    }
                }
                assert(found == (found_before || rook_pin_has_move(
                    *g,
                    *abb,
                    k,
                    pos,
                    push_mask,
                    capture_mask,
                    empty_squares,
                )));
            }
            proof {
                lemma_pin_moves_sound(
                    *g,
                    before,
                    movelist.move_list@,
                    ray_to_king,
                    abb.stm_pieces,
                    pinned_piece,
                    enemy_rook,
                    enemy_queens,
                    PieceType::Rook,
                    PieceType::Rook,
                    enemy_rook_position,
                );
            }
        } else if pinned_piece & stm_pawns != 0u64 {
            stm_pawns = stm_pawns ^ pinned_piece;
            let single = if stm_color_iswhite {
                w_single_push_pawn_targets(pinned_piece, empty_squares)
            } else {
                b_single_push_pawn_targets(pinned_piece, empty_squares)
            };
            let double = if stm_color_iswhite {
                w_double_push_pawn_targets(pinned_piece, empty_squares)
            } else {
                b_double_push_pawn_targets(pinned_piece, empty_squares)
            };
            let stm_pawn_pin_single_push = single & ray_to_king & push_mask;
            let stm_pawn_pin_double_push = double & ray_to_king & push_mask;
            found = found || (stm_pawn_pin_single_push | stm_pawn_pin_double_push) != 0u64;
            proof {
                let u0 = pinned_piece_position as int;
                let pos = enemy_rook_position as int;
                let both = stm_pawn_pin_single_push | stm_pawn_pin_double_push;
                assert(bit(pinned_piece, u0));
                assert(bit(pawns_before, u0)) by {
                    let t = choose|t: int| 0 <= t < 64 && !!(#[trigger] bit(pinned_piece, t) && bit(pawns_before, t));
                    assert(bit(pinned_piece, t) && bit(pawns_before, t));
                }
                assert(!bit(stm_queens, u0) && !bit(stm_rooks, u0));
                assert(bit(g.pieces[0][ci], u0));
                crate::bitboards::lemma_zero_board(both);
                assert(forall|t: int| 0 <= t < 64 ==> #[trigger] bit(pinned_piece, t) == (t == u0));
                if both != 0u64 {
                    let t = choose|t: int| 0 <= t < 64 && #[trigger] bit(both, t);
                    assert(rook_pin_ray(k, pos, t) && 0 <= t < 64 && bit(push_mask, t) && bit(empty_squares, t)
                        && pawn_push_from(ci, u0, empty_squares, t));
                }
                if exists|t: int|
                    #[trigger] rook_pin_ray(k, pos, t) && 0 <= t < 64 && bit(push_mask, t) && bit(empty_squares, t)
                        && pawn_push_from(ci, u0, empty_squares, t) {
                    let t = choose|t: int|
                        #[trigger] rook_pin_ray(k, pos, t) && 0 <= t < 64 && bit(push_mask, t) && bit(empty_squares, t)
                            && pawn_push_from(ci, u0, empty_squares, t);
                    assert(bit(ray_to_king, t));
                    assert(bit(both, t));
                }
                assert(found == (found_before || rook_pin_has_move(
                    *g,
                    *abb,
                    k,
                    pos,
                    push_mask,
                    capture_mask,
                    empty_squares,
                )));
            }
            if !only_captures {
                add_moves_to_movelist(
                    movelist,
                    pinned_piece_position,
                    stm_pawn_pin_single_push | stm_pawn_pin_double_push,
                    PieceType::Pawn,
                    GameMoveType::Quiet,
                );
                proof {
                    let u0 = pinned_piece_position as int;
                    assert(bit(pinned_piece, u0));
                    assert(forall|v: int| #[trigger] bit(pinned_piece, v) == (0 <= v < 64 && v == u0));
                    assert forall|t: int|
                        0 <= t < 64 && bit(ray_to_king, t) && bit(push_mask, t) && bit(empty_squares, t)
                            && #[trigger] pawn_push_from(ci, u0, empty_squares, t) implies has_target(
                        before,
                        movelist.move_list@,
                        t,
                    ) by {
                        assert(bit(stm_pawn_pin_single_push | stm_pawn_pin_double_push, t));
                    }
                }
                proof {
                    let now = movelist.move_list@;
                    assert forall|i: int| 0 <= i < now.len() implies sound_move(*g, #[trigger] now[i]) by {
                        if i >= before.len() {
                            let mv = now[i];
                            let t = mv.to as int;
                            assert(bit(pinned_piece, pinned_piece_position as int));
                            if stm_color_iswhite {
                                assert(bit(pinned_piece, t - 8) || bit(pinned_piece, t - 16));
                            } else {
                                assert(bit(pinned_piece, t + 8) || bit(pinned_piece, t + 16));
                            }
                            assert(!bit(abb.all_pieces, t));
                            crate::move_generation::movegen::lemma_occupancy(g.pieces, t);
                        } else {
                            assert(now[i] == before[i]);
                        }
                    }
                }
            }
        }
        proof {
            let u0 = pinned_piece_position as int;
            let pos = enemy_rook_position as int;
            if pinned_piece & stm_queens == 0u64 && pinned_piece & stm_rooks == 0u64 && pinned_piece
                & pawns_before == 0u64 && pinned_piece != 0u64 {
                assert(bit(pinned_piece, u0));
                assert(!bit(stm_queens, u0) && !bit(stm_rooks, u0) && !bit(pawns_before, u0));
                assert(!bit(pinned_before, u0)) by {
                    if bit(pinned_before, u0) {
                        let q = choose|q: int|
                            0 <= q < 64 && bit(targets, q) && !bit(rest_before, q) && #[trigger] rook_ray_box(
                                k,
                                q,
                                u0,
                            ) && rook_reaches(k, 0u64, u0) && bit(abb.stm_pieces, u0);
                        crate::move_generation::movegen::lemma_occupancy(g.pieces, q);
                        crate::move_generation::movegen::lemma_occupancy(g.pieces, pos);
                        assert(!bit(abb.stm_pieces, q)) by {
                            if bit(abb.stm_pieces, q) {
                                assert(side_at(g.pieces, ci, q));
                            }
                        }
                        assert(side_at(g.pieces, 1 - ci, q));
                        assert(side_at(g.pieces, 1 - ci, pos));
                        crate::move_generation::attacks::lemma_pinner_unique(
                            true,
                            k,
                            abb.all_pieces,
                            abb.stm_pieces,
                            stm_rook_attacks_from_king,
                            stm_xray_rook_attacks_from_king,
                            q,
                            pos,
                            u0,
                        );
                    }
                }
                assert(!bit(g.pieces[0][ci], u0));
            }
            assert(found == (found_before || rook_pin_has_move(
                *g,
                *abb,
                k,
                pos,
                push_mask,
                capture_mask,
                empty_squares,
            )));
        }
        proof {
            let u0 = pinned_piece_position as int;
            let pos = enemy_rook_position as int;
            let now = movelist.move_list@;
            assert(extends(before, now));
            assert forall|u: int, t: int|
                #[trigger] rook_pin_target(*g, k, pos, u, t, only_captures, push_mask, capture_mask, empty_squares) && rook_pin_ray(k, pos, u) && bit(abb.stm_pieces, u) implies moved_from_to(
                before,
                now,
                u,
                t,
            ) by {
                assert(bit(ray_to_king, u));
                assert(bit(pinned_piece, u));
                assert(u == u0);
                if pinned_piece & stm_queens != 0u64 || pinned_piece & stm_rooks != 0u64 {
                    if t == pos && bit(capture_mask, pos) {
                        assert(has_target(before, now, pos));
                    } else {
                        assert(bit(ray_to_king, t));
                        assert(has_target(before, now, t));
                    }
                } else if pinned_piece & pawns_before != 0u64 {
                    assert(bit(ray_to_king, t));
                    assert(pawn_push_from(ci, u0, empty_squares, t));
                    assert(has_target(before, now, t));
                } else {
                    assert(false);
                }
                let i = choose|i: int| before.len() <= i < now.len() && (#[trigger] now[i]).to == t;
                assert(now[i].from == u0 && now[i].to == t);
            }
        }
        proof {
            let u0 = pinned_piece_position as int;
            let pos = enemy_rook_position as int;
            let now = movelist.move_list@;
            assert forall|i: int| before.len() <= i < now.len() implies {
                let mv = #[trigger] now[i];
                rook_pin_target(
                    *g,
                    k,
                    pos,
                    mv.from as int,
                    mv.to as int,
                    only_captures,
                    push_mask,
                    capture_mask,
                    empty_squares,
                ) && rook_pin_ray(k, pos, mv.from as int) && bit(abb.stm_pieces, mv.from as int)
            } by {
                let mv = now[i];
                assert(mv.from == u0);
                assert(bit(pinned_piece, u0));
                assert(bit(ray_to_king, u0));
                if pinned_piece & stm_queens != 0u64 || pinned_piece & stm_rooks != 0u64 {
                    if mv.to as int != pos {
                        assert(bit(ray_to_king, mv.to as int));
                    }
                } else {
                    assert(bit(ray_to_king, mv.to as int));
                }
            }
        }
        proof {
            let u0 = pinned_piece_position as int;
            assert forall|u: int| #[trigger] bit(stm_pawns, u) implies !bit(pinned_pieces, u) by {
                if bit(pinned_piece, u) {
                    assert(bit(pinned_piece, u0));
                    assert(u == u0);
                    assert(bit(pawns_before, u) ==> bit(g.pieces[0][ci], u));
                    if bit(stm_queens, u) {
                        assert(!bit(g.pieces[0][ci], u));
                    }
                    if bit(stm_rooks, u) {
                        assert(!bit(g.pieces[0][ci], u));
                    }
                }
            }
        }
        enemy_rooks_on_xray = enemy_rooks_on_xray ^ enemy_rook;
        proof {
            let pos = enemy_rook_position as int;
            assert forall|t: int| 0 <= t < 64 implies #[trigger] bit(enemy_rooks_on_xray, t) == (bit(
                rest_before,
                t,
            ) && t != pos) by {}
            assert forall|u: int| 0 <= u < 64 implies #[trigger] bit(pinned_pieces, u) == exists|p: int|
                0 <= p < 64 && bit(targets, p) && !bit(enemy_rooks_on_xray, p) && #[trigger] rook_ray_box(
                    k,
                    p,
                    u,
                ) && rook_reaches(k, 0u64, u) && bit(abb.stm_pieces, u) by {
                assert(bit(pinned_pieces, u) == (bit(pinned_before, u) || bit(pinned_piece, u)));
                assert(bit(pinned_piece, u) == (rook_reaches(k, 0u64, u) && rook_ray_box(k, pos, u) && bit(
                    abb.stm_pieces,
                    u,
                )));
                if bit(pinned_piece, u) {
                    assert(0 <= pos < 64 && bit(targets, pos) && !bit(enemy_rooks_on_xray, pos) && rook_ray_box(
                        k,
                        pos,
                        u,
                    ));
                }
                if bit(pinned_before, u) {
                    let p = choose|p: int|
                        0 <= p < 64 && bit(targets, p) && !bit(rest_before, p) && #[trigger] rook_ray_box(
                            k,
                            p,
                            u,
                        ) && rook_reaches(k, 0u64, u) && bit(abb.stm_pieces, u);
                    assert(!bit(enemy_rooks_on_xray, p));
                }
                if exists|p: int|
                    0 <= p < 64 && bit(targets, p) && !bit(enemy_rooks_on_xray, p) && #[trigger] rook_ray_box(
                        k,
                        p,
                        u,
                    ) && rook_reaches(k, 0u64, u) && bit(abb.stm_pieces, u) {
                    let p = choose|p: int|
                        0 <= p < 64 && bit(targets, p) && !bit(enemy_rooks_on_xray, p) && #[trigger] rook_ray_box(
                            k,
                            p,
                            u,
                        ) && rook_reaches(k, 0u64, u) && bit(abb.stm_pieces, u);
                    if p != pos {
                        assert(!bit(rest_before, p));
                    }
                }
            }
            assert forall|u: int| 0 <= u < 64 && !bit(pinned_pieces, u) implies #[trigger] bit(
                stm_pawns,
                u,
            ) == bit(g.pieces[0][ci], u) by {
                assert(!bit(pinned_piece, u));
                assert(!bit(pinned_before, u));
                assert(bit(stm_pawns, u) == bit(pawns_before, u));
            }
        }
        proof {
            let pos = enemy_rook_position as int;
            let now = movelist.move_list@;
            assert forall|i: int| start_moves.len() <= i < now.len() implies {
                let mv = #[trigger] now[i];
                exists|p: int|
                    0 <= p < 64 && bit(targets, p) && !bit(enemy_rooks_on_xray, p) && #[trigger] rook_pin_target(
                            *g,
                            k,
                            p,
                            mv.from as int,
                            mv.to as int,
                            only_captures,
                            push_mask,
                            capture_mask,
                            empty_squares,
                        )
                        && rook_pin_ray(k, p, mv.from as int) && bit(abb.stm_pieces, mv.from as int)
            } by {
                let mv = now[i];
                if i < before.len() {
                    assert(mv == before[i]);
                    let p = choose|p: int|
                        0 <= p < 64 && bit(targets, p) && !bit(rest_before, p) && #[trigger] rook_pin_target(
                            *g,
                            k,
                            p,
                            mv.from as int,
                            mv.to as int,
                            only_captures,
                            push_mask,
                            capture_mask,
                            empty_squares,
                        )
                            && rook_pin_ray(k, p, mv.from as int) && bit(abb.stm_pieces, mv.from as int);
                    assert(!bit(enemy_rooks_on_xray, p));
                } else {
                    assert(!bit(enemy_rooks_on_xray, pos));
                    assert(bit(targets, pos));
                }
            }
        }
        proof {
            let pos = enemy_rook_position as int;
            let now = movelist.move_list@;
            assert forall|p: int, u: int, t: int|
                #[trigger] rook_pin_target(*g, k, p, u, t, only_captures, push_mask, capture_mask, empty_squares) && bit(targets, p) && !bit(enemy_rooks_on_xray, p) && rook_pin_ray(
                    k,
                    p,
                    u,
                ) && bit(abb.stm_pieces, u) implies moved_from_to(start_moves, now, u, t) by {
                if p == pos {
                    let i = choose|i: int| before.len() <= i < now.len() && (#[trigger] now[i]).from == u && now[i].to == t;
                    assert(now[i].from == u && now[i].to == t);
                } else {
                    assert(!bit(rest_before, p));
                    let i = choose|i: int|
                        start_moves.len() <= i < before.len() && (#[trigger] before[i]).from == u && before[i].to == t;
                    assert(now[i] == before[i]);
                    assert(now[i].from == u && now[i].to == t);
                }
            }
        }
        proof {
            let pos = enemy_rook_position as int;
            assert(bit(targets, pos));
            if found {
                if found_before {
                    let p = choose|p: int|
                        0 <= p < 64 && bit(targets, p) && !bit(rest_before, p) && #[trigger] rook_pin_has_move(
                        *g,
                        *abb,
                        k,
                        p,
                        push_mask,
                        capture_mask,
                        empty_squares,
                    );
                    assert(!bit(enemy_rooks_on_xray, p));
                } else {
                    assert(!bit(enemy_rooks_on_xray, pos));
                }
            }
            if exists|p: int|
                0 <= p < 64 && bit(targets, p) && !bit(enemy_rooks_on_xray, p) && #[trigger] rook_pin_has_move(
                        *g,
                        *abb,
                        k,
                        p,
                        push_mask,
                        capture_mask,
                        empty_squares,
                    ) {
                let p = choose|p: int|
                    0 <= p < 64 && bit(targets, p) && !bit(enemy_rooks_on_xray, p) && #[trigger] rook_pin_has_move(
                        *g,
                        *abb,
                        k,
                        p,
                        push_mask,
                        capture_mask,
                        empty_squares,
                    );
                if p != pos {
                    assert(!bit(rest_before, p));
                }
            }
        }
    }
    proof {
        assert forall|i: int| start_moves.len() <= i < movelist.move_list@.len() implies {
            let mv = #[trigger] movelist.move_list@[i];
            exists|p: int|
                #[trigger] rook_pinner(*g, *abb, stm_king_index as int, p) && rook_pin_target(
                    *g,
                    stm_king_index as int,
                    p,
                    mv.from as int,
                    mv.to as int,
                    only_captures,
                    push_mask,
                    capture_mask,
                    empty_squares,
                ) && rook_pin_ray(
                    stm_king_index as int,
                    p,
                    mv.from as int,
                ) && bit(abb.stm_pieces, mv.from as int)
        } by {
            let mv = movelist.move_list@[i];
            let p = choose|p: int|
                0 <= p < 64 && bit(targets, p) && !bit(enemy_rooks_on_xray, p) && #[trigger] rook_pin_target(
                        *g,
                        k,
                        p,
                        mv.from as int,
                        mv.to as int,
                        only_captures,
                        push_mask,
                        capture_mask,
                        empty_squares,
                    )
                    && rook_pin_ray(k, p, mv.from as int) && bit(abb.stm_pieces, mv.from as int);
            assert(rook_pinner(*g, *abb, k, p));
        }
    }
    proof {
        if found {
            let p = choose|p: int|
                0 <= p < 64 && bit(targets, p) && !bit(enemy_rooks_on_xray, p) && #[trigger] rook_pin_has_move(
                        *g,
                        *abb,
                        k,
                        p,
                        push_mask,
                        capture_mask,
                        empty_squares,
                    );
            assert(rook_pinner(*g, *abb, k, p));
        }
        if exists|p: int| #[trigger] rook_pinner(*g, *abb, k, p) && rook_pin_has_move(
                        *g,
                        *abb,
                        k,
                        p,
                        push_mask,
                        capture_mask,
                        empty_squares,
                    ) {
            let p = choose|p: int| #[trigger] rook_pinner(*g, *abb, k, p) && rook_pin_has_move(
                        *g,
                        *abb,
                        k,
                        p,
                        push_mask,
                        capture_mask,
                        empty_squares,
                    );
            assert(bit(targets, p));
            assert(!bit(enemy_rooks_on_xray, p));
        }
    }
    proof {
        assert forall|u: int| 0 <= u < 64 implies #[trigger] bit(pinned_pieces, u) == rook_pinned(
            *g,
            *abb,
            k,
            u,
        ) by {
            if bit(pinned_pieces, u) {
                let p = choose|p: int|
                    0 <= p < 64 && bit(targets, p) && !bit(enemy_rooks_on_xray, p) && #[trigger] rook_ray_box(
                        k,
                        p,
                        u,
                    ) && rook_reaches(k, 0u64, u) && bit(abb.stm_pieces, u);
                assert(rook_pinner(*g, *abb, k, p));
            }
            if rook_pinned(*g, *abb, k, u) {
                let p = choose|p: int|
                    #[trigger] rook_pinner(*g, *abb, k, p) && rook_reaches(k, 0u64, u) && rook_ray_box(k, p, u)
                        && bit(abb.stm_pieces, u);
                assert(bit(targets, p));
                assert(!bit(enemy_rooks_on_xray, p));
            }
        }
    }
    (pinned_pieces, stm_pawns, found)
}

/// The moves a pinned queen, rook or bishop on the single own square of `pinned_piece`
/// was given, along a pin ray holding no other own piece, are sound.
proof fn lemma_pin_moves_sound(
    g: GameState,
    before: Seq<GameMove>,
    now: Seq<GameMove>,
    ray_to_king: u64,
    stm_pieces: u64,
    pinned_piece: u64,
    enemy_pinner: u64,
    enemy_queens: u64,
    moving: PieceType,
    other: PieceType,
    pinner_position: usize,
)
    requires
        position_ok(g),
        all_sound(g, before),
        extends(before, now),
        moving == PieceType::Queen || moving == PieceType::Rook || moving == PieceType::Bishop,
        other == PieceType::Rook || other == PieceType::Bishop,
        pinner_position < 64,
        forall|t: int| 0 <= t < 64 ==> #[trigger] bit(stm_pieces, t) == side_at(g.pieces, g.color_to_move as int, t),
        forall|t: int| #[trigger] bit(pinned_piece, t) == (bit(ray_to_king, t) && bit(stm_pieces, t)),
        forall|u1: int, u2: int|
            #[trigger] bit(ray_to_king, u1) && bit(stm_pieces, u1) && #[trigger] bit(ray_to_king, u2)
                && bit(stm_pieces, u2) ==> u1 == u2,
        enemy_pinner == 1u64 << pinner_position as u64,
        enemy_queens == g.pieces[4][1 - g.color_to_move as int],
        bit(g.pieces[piece_index(other)][1 - g.color_to_move as int], pinner_position as int) || bit(
            enemy_queens,
            pinner_position as int,
        ),
        bit(g.pieces[piece_index(moving)][g.color_to_move as int], lowest_square(pinned_piece)),
        forall|i: int|
            before.len() <= i < now.len() ==> {
                let mv = #[trigger] now[i];
                &&& mv.from == lowest_square(pinned_piece)
                &&& mv.piece_type == moving
                &&& (mv.move_type == GameMoveType::Quiet && mv.to < 64 && bit(
                    ray_to_king,
                    mv.to as int,
                ) && mv.to != lowest_square(pinned_piece) || mv.move_type == GameMoveType::Capture(
                    if enemy_pinner & enemy_queens != 0u64 {
                        PieceType::Queen
                    } else {
                        other
                    },
                ) && mv.to == pinner_position)
            },
    ensures
        all_sound(g, now),
{
    let c = g.color_to_move as int;
    let from = lowest_square(pinned_piece);
    assert(0 <= from < 64);
    assert(bit(pinned_piece, from)) by {
        lemma_occupancy(g.pieces, from);
    }
    crate::bitboards::lemma_and_zero(enemy_pinner, enemy_queens);
    assert(bit(enemy_pinner, pinner_position as int));
    assert(!side_at(g.pieces, c, pinner_position as int));
    assert forall|i: int| 0 <= i < now.len() implies sound_move(g, #[trigger] now[i]) by {
        if i >= before.len() {
            let mv = now[i];
            if mv.move_type == GameMoveType::Quiet {
                if bit(g.pieces[piece_index(moving)][c], mv.to as int) {
                    assert(side_at(g.pieces, c, mv.to as int));
                    assert(bit(stm_pieces, mv.to as int));
                }
            }
        } else {
            assert(now[i] == before[i]);
        }
    }
}


/// `b` holds the squares a bishop on `k` attacks when the board holds `occ`.
pub open spec fn is_bishop_attack_board(b: u64, k: int, occ: u64) -> bool {
    forall|t: int| 0 <= t < 64 ==> #[trigger] bit(b, t) == bishop_reaches(k, occ, t)
}

/// The board a bishop on `k` attacks when the board holds `occ`.
pub open spec fn bishop_attack_board(k: int, occ: u64) -> u64 {
    choose|b: u64| #[trigger] is_bishop_attack_board(b, k, occ)
}

/// An enemy bishop or queen on `p` lies on a diagonal of the side to move's king on `k`
/// behind exactly the side's own pieces: a bishop on `k` reaches `p` once those of the
/// side's own pieces it reaches are lifted off the board, and not before.
pub open spec fn bishop_pinner(g: GameState, abb: AdditionalBitBoards, k: int, p: int) -> bool {
    let e = 1 - g.color_to_move as int;
    let lifted = abb.all_pieces ^ (abb.stm_pieces & bishop_attack_board(k, abb.all_pieces));
    &&& 0 <= p < 64
    &&& bit(g.pieces[2][e], p) || bit(g.pieces[4][e], p)
    &&& bishop_reaches(k, abb.all_pieces, p) != bishop_reaches(k, lifted, p)
}

/// The piece of the side to move on `u` stands on the diagonal between its king on `k`
/// and an enemy bishop or queen pinning it.
pub open spec fn bishop_pinned(g: GameState, abb: AdditionalBitBoards, k: int, u: int) -> bool {
    exists|p: int|
        #[trigger] bishop_pinner(g, abb, k, p) && bishop_reaches(k, 0u64, u) && bishop_ray_box(k, p, u)
            && bit(abb.stm_pieces, u)
}

/// The square `u` lies on the diagonal between the king on `k` and a piece on `p`.
pub open spec fn bishop_pin_ray(k: int, p: int, u: int) -> bool {
    bishop_reaches(k, 0u64, u) && bishop_ray_box(k, p, u)
}

/// A pawn of colour `c` on `u` attacks `t`.
pub open spec fn pawn_covers_from(c: int, u: int, t: int) -> bool {
    if c == 0 {
        (rank_of(t) >= 1 && file_of(t) >= 1 && t - 9 == u) || (rank_of(t) >= 1 && file_of(t) <= 6
            && t - 7 == u)
    } else {
        (rank_of(t) <= 6 && file_of(t) <= 6 && t + 9 == u) || (rank_of(t) <= 6 && file_of(t) >= 1
            && t + 7 == u)
    }
}

/// The piece of the side to move on `u`, pinned to its king on `k` by an enemy bishop or
/// queen on `p`, has a move: a queen or a bishop moves along the pin onto the push mask
/// or takes the pinner on the capture mask; a pawn of `stm_pawns` takes the pinner on the
/// capture mask, or captures en passant onto a square of the pin on the capture mask.
pub open spec fn bishop_pinned_piece_moves(
    g: GameState,
    stm_pawns: u64,
    k: int,
    p: int,
    u: int,
    push_mask: u64,
    capture_mask: u64,
) -> bool {
    let c = g.color_to_move as int;
    if bit(g.pieces[4][c], u) || bit(g.pieces[2][c], u) {
        bit(capture_mask, p) || exists|t: int|
            #[trigger] bishop_pin_ray(k, p, t) && 0 <= t < 64 && bit(push_mask, t) && t != u
    } else {
        bit(stm_pawns, u) && (pawn_covers_from(c, u, p) && bit(capture_mask, p) || exists|t: int|
            #[trigger] bishop_pin_ray(k, p, t) && 0 <= t < 64 && pawn_covers_from(c, u, t) && bit(
                g.en_passant,
                t,
            ) && bit(capture_mask, t))
    }
}

/// The piece of the side to move on `u`, pinned to its king on `k` by an enemy bishop or
/// queen on `p`, moves to `t`: a queen or bishop along the pin onto the push mask (unless
/// only captures are asked for) or onto the pinner on the capture mask; a pawn of
/// `stm_pawns` onto the pinner on the capture mask, or en passant onto the lowest square
/// of the pin where it can.
pub open spec fn bishop_pin_target(
    g: GameState,
    stm_pawns: u64,
    k: int,
    p: int,
    u: int,
    t: int,
    only_captures: bool,
    push_mask: u64,
    capture_mask: u64,
) -> bool {
    let c = g.color_to_move as int;
    if bit(g.pieces[4][c], u) || bit(g.pieces[2][c], u) {
        !only_captures && bishop_pin_ray(k, p, t) && 0 <= t < 64 && bit(push_mask, t) && t != u || t
            == p && bit(capture_mask, p)
    } else {
        bit(stm_pawns, u) && (t == p && pawn_covers_from(c, u, p) && bit(capture_mask, p)
            || pinned_pawn_en_passant(g, k, p, u, t, capture_mask) && forall|t2: int|
            0 <= t2 < t ==> !#[trigger] pinned_pawn_en_passant(g, k, p, u, t2, capture_mask))
    }
}

/// The pawn of the side to move on `u`, pinned to its king on `k` by an enemy bishop or
/// queen on `p`, captures en passant onto `t`, a square of the pin on the capture mask.
pub open spec fn pinned_pawn_en_passant(g: GameState, k: int, p: int, u: int, t: int, capture_mask: u64) -> bool {
    &&& 0 <= t < 64
    &&& bishop_pin_ray(k, p, t)
    &&& pawn_covers_from(g.color_to_move as int, u, t)
    &&& bit(g.en_passant, t)
    &&& bit(capture_mask, t)
}

/// A piece of the side to move pinned to its king on `k` by the enemy bishop or queen on
/// `p` has a move.
pub open spec fn bishop_pin_has_move(
    g: GameState,
    abb: AdditionalBitBoards,
    stm_pawns: u64,
    k: int,
    p: int,
    push_mask: u64,
    capture_mask: u64,
) -> bool {
    exists|u: int|
        0 <= u < 64 && #[trigger] bishop_pin_ray(k, p, u) && bit(abb.stm_pieces, u)
            && bishop_pinned_piece_moves(g, stm_pawns, k, p, u, push_mask, capture_mask)
}

/// The bishop counterpart of `lemma_rook_pin_step`.
proof fn lemma_bishop_pin_step(
    g: GameState,
    abb: AdditionalBitBoards,
    stm_pawns: u64,
    k: int,
    pos: int,
    u0: int,
    ray: u64,
    pinned_piece: u64,
    push_mask: u64,
    capture_mask: u64,
)
    requires
        forall|t: int| 0 <= t < 64 ==> #[trigger] bit(ray, t) == bishop_pin_ray(k, pos, t),
        forall|t: int| #[trigger] bit(pinned_piece, t) == (bit(ray, t) && bit(abb.stm_pieces, t)),
        forall|u1: int, u2: int|
            #[trigger] bit(ray, u1) && bit(abb.stm_pieces, u1) && #[trigger] bit(ray, u2) && bit(
                abb.stm_pieces,
                u2,
            ) ==> u1 == u2,
        pinned_piece != 0u64 ==> bit(pinned_piece, u0),
    ensures
        bishop_pin_has_move(g, abb, stm_pawns, k, pos, push_mask, capture_mask) == (pinned_piece
            != 0u64 && bishop_pinned_piece_moves(g, stm_pawns, k, pos, u0, push_mask, capture_mask)),
{
    crate::bitboards::lemma_zero_board(pinned_piece);
    if bishop_pin_has_move(g, abb, stm_pawns, k, pos, push_mask, capture_mask) {
        let u = choose|u: int|
            0 <= u < 64 && #[trigger] bishop_pin_ray(k, pos, u) && bit(abb.stm_pieces, u)
                && bishop_pinned_piece_moves(g, stm_pawns, k, pos, u, push_mask, capture_mask);
        assert(bit(pinned_piece, u));
        assert(bit(pinned_piece, u0));
        assert(bit(ray, u0) && bit(abb.stm_pieces, u0));
        assert(u == u0);
    }
    if pinned_piece != 0u64 && bishop_pinned_piece_moves(g, stm_pawns, k, pos, u0, push_mask, capture_mask) {
        assert(bit(ray, u0) && bit(abb.stm_pieces, u0));
        assert(bishop_pin_ray(k, pos, u0));
    }
}

/// The moves of the pieces of the side to move pinned to its king by enemy bishops and
/// queens along diagonals: queens and bishops move along the pin or take the pinner,
/// pawns take the pinner (promoting on the last rank) or capture en passant along the
/// pin. Adds the pinned pieces to `pinned_pieces`, takes the pinned pawns off
/// `stm_pawns`, and tells whether a pinned piece has a move.
#[verifier::spinoff_prover]
#[verifier::rlimit(100)]
fn add_bishop_pin_moves(
    g: &GameState,
    movelist: &mut MoveList,
    only_captures: bool,
    abb: &AdditionalBitBoards,
    push_mask: u64,
    capture_mask: u64,
    stm_king_index: usize,
    stm_pawns: u64,
    pinned_pieces: u64,
    ranks: &[u64; 8],
) -> (res: (u64, u64, bool))
    requires
        position_ok(*g),
        abb_of(*g, *abb),
        stm_king_index < 64,
        stm_king_index == lowest_square(g.pieces[5][g.color_to_move as int]),
        forall|t: int| #[trigger] bit(stm_pawns, t) ==> bit(g.pieces[0][g.color_to_move as int], t),
        forall|r: int, t: int|
            0 <= r < 8 && 0 <= t < 64 ==> #[trigger] bit(ranks[r], t) == (rank_of(t) == r),
        all_sound(*g, old(movelist).move_list@),
        forall|u: int| #[trigger] bit(stm_pawns, u) ==> !bit(pinned_pieces, u),
    ensures
        all_sound(*g, final(movelist).move_list@),
        extends(old(movelist).move_list@, final(movelist).move_list@),
        forall|u: int| #[trigger] bit(res.1, u) ==> !bit(res.0, u),
        forall|i: int|
            old(movelist).move_list@.len() <= i < final(movelist).move_list@.len() ==> {
                let mv = #[trigger] final(movelist).move_list@[i];
                exists|p: int|
                    #[trigger] bishop_pinner(*g, *abb, stm_king_index as int, p) && bishop_pin_target(
                        *g,
                        stm_pawns,
                        stm_king_index as int,
                        p,
                        mv.from as int,
                        mv.to as int,
                        only_captures,
                        push_mask,
                        capture_mask,
                    ) && bishop_pin_ray(
                        stm_king_index as int,
                        p,
                        mv.from as int,
                    ) && bit(abb.stm_pieces, mv.from as int)
            },
        forall|p: int, u: int, t: int|
            #[trigger] bishop_pin_target(*g, stm_pawns, stm_king_index as int, p, u, t, only_captures, push_mask, capture_mask) && bishop_pinner(*g, *abb, stm_king_index as int, p) && bishop_pin_ray(
                stm_king_index as int,
                p,
                u,
            ) && bit(abb.stm_pieces, u) ==> moved_from_to(
                old(movelist).move_list@,
                final(movelist).move_list@,
                u,
                t,
            ),
        res.2 == exists|p: int| #[trigger] bishop_pinner(*g, *abb, stm_king_index as int, p) && bishop_pin_has_move(
                *g,
                *abb,
                stm_pawns,
                stm_king_index as int,
                p,
                push_mask,
                capture_mask,
            ),
        only_captures && all_captures(old(movelist).move_list@) ==> all_captures(
            final(movelist).move_list@,
        ),
        forall|t: int| #[trigger] bit(res.1, t) ==> bit(g.pieces[0][g.color_to_move as int], t),
        forall|u: int|
            0 <= u < 64 ==> #[trigger] bit(res.0, u) == (bit(pinned_pieces, u) || bishop_pinned(
                *g,
                *abb,
                stm_king_index as int,
                u,
            )),
        forall|u: int|
            0 <= u < 64 && !bit(res.0, u) ==> #[trigger] bit(res.1, u) == bit(stm_pawns, u),
{
    let ghost pinned_in = pinned_pieces;
    let ghost pawns_in = stm_pawns;
    let ghost start_moves = movelist.move_list@;
    let c = g.color_to_move;
    let e = 1 - c;
    let ghost ci = c as int;
    let stm_color_iswhite = c == WHITE;
    let mut stm_pawns = stm_pawns;
    let mut pinned_pieces = pinned_pieces;
    let stm_bishops = g.pieces[BISHOP][c];
    let stm_queens = g.pieces[QUEEN][c];
    let enemy_bishops = g.pieces[BISHOP][e];
    let enemy_queens = g.pieces[QUEEN][e];
    let mut found = false;
    let stm_bishop_attacks_from_king = bishop_attack(stm_king_index, abb.all_pieces);
    let stm_xray_bishop_attacks_from_king = xray_bishop_attacks(
        stm_bishop_attacks_from_king,
        abb.all_pieces,
        abb.stm_pieces,
        stm_king_index,
    );
    let mut enemy_bishop_on_xray = stm_xray_bishop_attacks_from_king & (enemy_bishops
        | enemy_queens);
    let ghost targets = enemy_bishop_on_xray;
    let ghost k = stm_king_index as int;
    proof {
        assert(is_bishop_attack_board(stm_bishop_attacks_from_king, k, abb.all_pieces));
        let b = bishop_attack_board(k, abb.all_pieces);
        assert(is_bishop_attack_board(b, k, abb.all_pieces));
        assert forall|t: int| 0 <= t < 64 implies #[trigger] bit(b, t) == bit(stm_bishop_attacks_from_king, t) by {}
        crate::bitboards::lemma_bit_extensional(b, stm_bishop_attacks_from_king);
        assert forall|p: int| 0 <= p < 64 implies #[trigger] bit(targets, p) == bishop_pinner(*g, *abb, k, p) by {}
    }
    proof {
        assert forall|t: int| #[trigger] bit(abb.stm_pieces, t) implies bit(abb.all_pieces, t) by {
            crate::move_generation::movegen::lemma_occupancy(g.pieces, t);
        }
    }
    while enemy_bishop_on_xray != 0u64
        invariant
            k == stm_king_index,
            forall|p: int| 0 <= p < 64 ==> #[trigger] bit(targets, p) == bishop_pinner(*g, *abb, k, p),
            forall|p: int| #[trigger] bit(enemy_bishop_on_xray, p) ==> bit(targets, p),
            forall|u: int|
                0 <= u < 64 ==> #[trigger] bit(pinned_pieces, u) == (bit(pinned_in, u) || exists|p: int|
                    0 <= p < 64 && bit(targets, p) && !bit(enemy_bishop_on_xray, p) && #[trigger] bishop_ray_box(
                        k,
                        p,
                        u,
                    ) && bishop_reaches(k, 0u64, u) && bit(abb.stm_pieces, u)),
            forall|u: int|
                0 <= u < 64 && !bit(pinned_pieces, u) ==> #[trigger] bit(stm_pawns, u) == bit(pawns_in, u),
            forall|r: int, t: int|
                0 <= r < 8 && 0 <= t < 64 ==> #[trigger] bit(ranks[r], t) == (rank_of(t) == r),
            position_ok(*g),
            abb_of(*g, *abb),
            c == g.color_to_move,
            ci == c,
            e == 1 - c,
            stm_king_index < 64,
            stm_color_iswhite == (c == 0),
            stm_bishops == g.pieces[2][ci],
            stm_queens == g.pieces[4][ci],
            enemy_bishops == g.pieces[2][1 - ci],
            enemy_queens == g.pieces[4][1 - ci],
            forall|t: int| #[trigger] bit(abb.stm_pieces, t) ==> bit(abb.all_pieces, t),
            forall|t: int|
                0 <= t < 64 ==> #[trigger] bit(stm_bishop_attacks_from_king, t) == bishop_reaches(
                    stm_king_index as int,
                    abb.all_pieces,
                    t,
                ),
            forall|t: int|
                0 <= t < 64 ==> #[trigger] bit(stm_xray_bishop_attacks_from_king, t) == (bit(
                    stm_bishop_attacks_from_king,
                    t,
                ) != bishop_reaches(
                    stm_king_index as int,
                    abb.all_pieces ^ (abb.stm_pieces & stm_bishop_attacks_from_king),
                    t,
                )),
            forall|t: int| #[trigger] bit(enemy_bishop_on_xray, t) ==> bit(
                stm_xray_bishop_attacks_from_king,
                t,
            ) && (bit(enemy_bishops, t) || bit(enemy_queens, t)),
            forall|t: int| #[trigger] bit(stm_pawns, t) ==> bit(g.pieces[0][ci], t),
            all_sound(*g, movelist.move_list@),
            only_captures && all_captures(start_moves) ==> all_captures(movelist.move_list@),
            extends(start_moves, movelist.move_list@),
            forall|u: int| #[trigger] bit(stm_pawns, u) ==> !bit(pinned_pieces, u),
            forall|i: int|
                start_moves.len() <= i < movelist.move_list@.len() ==> {
                    let mv = #[trigger] movelist.move_list@[i];
                    exists|p: int|
                        0 <= p < 64 && bit(targets, p) && !bit(enemy_bishop_on_xray, p) && #[trigger] bishop_pin_target(
                            *g,
                            pawns_in,
                            k,
                            p,
                            mv.from as int,
                            mv.to as int,
                            only_captures,
                            push_mask,
                            capture_mask,
                        )
                            && bishop_pin_ray(k, p, mv.from as int) && bit(abb.stm_pieces, mv.from as int)
                },
            forall|p: int, u: int, t: int|
                #[trigger] bishop_pin_target(*g, pawns_in, k, p, u, t, only_captures, push_mask, capture_mask) && bit(targets, p) && !bit(enemy_bishop_on_xray, p) && bishop_pin_ray(
                    k,
                    p,
                    u,
                ) && bit(abb.stm_pieces, u) ==> moved_from_to(start_moves, movelist.move_list@, u, t),
            forall|p: int| #[trigger] bit(targets, p) ==> bit(stm_xray_bishop_attacks_from_king, p) && (bit(
                enemy_bishops,
                p,
            ) || bit(enemy_queens, p)),
            forall|u: int| #[trigger] bit(stm_pawns, u) ==> bit(pawns_in, u),
            forall|u: int|
                0 <= u < 64 && #[trigger] bit(stm_pawns, u) != bit(pawns_in, u) ==> exists|p: int|
                    0 <= p < 64 && bit(targets, p) && !bit(enemy_bishop_on_xray, p) && #[trigger] bishop_ray_box(
                        k,
                        p,
                        u,
                    ) && bishop_reaches(k, 0u64, u) && bit(abb.stm_pieces, u),
            found == exists|p: int|
                0 <= p < 64 && bit(targets, p) && !bit(enemy_bishop_on_xray, p) && #[trigger] bishop_pin_has_move(
                    *g,
                    *abb,
                    pawns_in,
                    k,
                    p,
                    push_mask,
                    capture_mask,
                ),
        decreases enemy_bishop_on_xray,
    {
        proof {
            crate::bitboards::lemma_clear_lowest(enemy_bishop_on_xray);
        }
        let ghost pinned_before = pinned_pieces;
        let ghost pawns_before = stm_pawns;
        let ghost rest_before = enemy_bishop_on_xray;
        let ghost found_before = found;
        let enemy_bishop_position = enemy_bishop_on_xray.trailing_zeros() as usize;
        let enemy_bishop = 1u64 << enemy_bishop_position as u64;
        let ray_to_king = get_bishop_ray(stm_king_index, enemy_bishop_position);
        let pinned_piece = ray_to_king & abb.stm_pieces;
        proof {
            let pos = enemy_bishop_position as int;
            assert(bit(enemy_bishops, pos) || bit(enemy_queens, pos));
            assert(!bit(abb.stm_pieces, pos)) by {
                if bit(abb.stm_pieces, pos) {
                    assert(side_at(g.pieces, ci, pos));
                }
            }
            crate::move_generation::attacks::lemma_pin_ray(
                false,
                stm_king_index as int,
                abb.all_pieces,
                abb.stm_pieces,
                stm_bishop_attacks_from_king,
                stm_xray_bishop_attacks_from_king,
                pos,
                ray_to_king,
            );
            vstd::std_specs::bits::axiom_u64_trailing_zeros(pinned_piece);
            crate::bitboards::lemma_zero_board(pinned_piece);
            if pinned_piece != 0u64 {
                assert(bit(pinned_piece, lowest_square(pinned_piece)));
            }
        }
        let pinned_piece_position = pinned_piece.trailing_zeros() as usize;
        pinned_pieces = pinned_pieces | pinned_piece;
        let ghost before = movelist.move_list@;
        proof {
            crate::bitboards::lemma_and_zero(pinned_piece, stm_queens);
            crate::bitboards::lemma_and_zero(pinned_piece, stm_bishops);
            crate::bitboards::lemma_and_zero(pinned_piece, stm_pawns);
            crate::bitboards::lemma_and_zero(enemy_bishop, enemy_queens);
            crate::bitboards::lemma_and_zero(capture_mask, enemy_bishop);
            lemma_bishop_pin_step(
                *g,
                *abb,
                pawns_in,
                k,
                enemy_bishop_position as int,
                pinned_piece_position as int,
                ray_to_king,
                pinned_piece,
                push_mask,
                capture_mask,
            );
            assert(bit(capture_mask, enemy_bishop_position as int) == (capture_mask & enemy_bishop
                != 0u64));
            if pinned_piece != 0u64 {
                assert(bit(ray_to_king, pinned_piece_position as int));
                assert(bit(abb.stm_pieces, pinned_piece_position as int));
            }
        }
        if pinned_piece & stm_queens != 0u64 {
            let has = add_pin_moves_to_movelist(
                movelist,
                only_captures,
                ray_to_king,
                push_mask,
                capture_mask,
                enemy_bishop,
                pinned_piece_position,
                PieceType::Queen,
                enemy_bishop_position,
                enemy_queens,
                PieceType::Bishop,
            );
            found = found || has;
            proof {
                let u0 = pinned_piece_position as int;
                let pos = enemy_bishop_position as int;
                assert(bit(pinned_piece, u0));
                assert(has == bishop_pinned_piece_moves(
                    *g,
                    pawns_in,
                    k,
                    pos,
                    u0,
                    push_mask,
                    capture_mask,
                )) by {
                    assert(bit(stm_queens, u0) || bit(stm_bishops, u0)) by {
                        if pinned_piece & stm_queens != 0u64 {
                            let t = choose|t: int| 0 <= t < 64 && !!(#[trigger] bit(pinned_piece, t) && bit(stm_queens, t));
                            assert(bit(pinned_piece, t) && bit(stm_queens, t));
                        } else {
                            let t = choose|t: int| 0 <= t < 64 && !!(#[trigger] bit(pinned_piece, t) && bit(stm_bishops, t));
                            assert(bit(pinned_piece, t) && bit(stm_bishops, t));
                        }
                    }
                    if exists|t: int|
                        0 <= t < 64 && #[trigger] bit(ray_to_king, t) && bit(push_mask, t) && t != u0 {
                        let t = choose|t: int|
                            0 <= t < 64 && #[trigger] bit(ray_to_king, t) && bit(push_mask, t) && t != u0;
                        assert(bishop_pin_ray(k, pos, t));
                    }
                    if exists|t: int|
                        #[trigger] bishop_pin_ray(k, pos, t) && 0 <= t < 64 && bit(push_mask, t) && t != u0 {
                        let t = choose|t: int|
                            #[trigger] bishop_pin_ray(k, pos, t) && 0 <= t < 64 && bit(push_mask, t) && t != u0;
                        assert(bit(ray_to_king, t));
                    }
                }
                assert(found == (found_before || bishop_pin_has_move(
                    *g,
                    *abb,
                    pawns_in,
                    k,
                    pos,
                    push_mask,
                    capture_mask,
                )));
            }
            proof {
                lemma_pin_moves_sound(
                    *g,
                    before,
                    movelist.move_list@,
                    ray_to_king,
                    abb.stm_pieces,
                    pinned_piece,
                    enemy_bishop,
                    enemy_queens,
                    PieceType::Queen,
                    PieceType::Bishop,
                    enemy_bishop_position,
                );
            }
        } else if pinned_piece & stm_bishops != 0u64 {
            let has = add_pin_moves_to_movelist(
                movelist,
                only_captures,
                ray_to_king,
                push_mask,
                capture_mask,
                enemy_bishop,
                pinned_piece_position,
                PieceType::Bishop,
                enemy_bishop_position,
                enemy_queens,
                PieceType::Bishop,
            );
            found = found || has;
            proof {
                let u0 = pinned_piece_position as int;
                let pos = enemy_bishop_position as int;
                assert(bit(pinned_piece, u0));
                assert(has == bishop_pinned_piece_moves(
                    *g,
                    pawns_in,
                    k,
                    pos,
                    u0,
                    push_mask,
                    capture_mask,
                )) by {
                    assert(bit(stm_queens, u0) || bit(stm_bishops, u0)) by {
                        if pinned_piece & stm_queens != 0u64 {
                            let t = choose|t: int| 0 <= t < 64 && !!(#[trigger] bit(pinned_piece, t) && bit(stm_queens, t));
                            assert(bit(pinned_piece, t) && bit(stm_queens, t));
                        } else {
                            let t = choose|t: int| 0 <= t < 64 && !!(#[trigger] bit(pinned_piece, t) && bit(stm_bishops, t));
                            assert(bit(pinned_piece, t) && bit(stm_bishops, t));
                        }
                    }
                    if exists|t: int|
                        0 <= t < 64 && #[trigger] bit(ray_to_king, t) && bit(push_mask, t) && t != u0 {
                        let t = choose|t: int|
                            0 <= t < 64 && #[trigger] bit(ray_to_king, t) && bit(push_mask, t) && t != u0;
                        assert(bishop_pin_ray(k, pos, t));
                    }
                    if exists|t: int|
                        #[trigger] bishop_pin_ray(k, pos, t) && 0 <= t < 64 && bit(push_mask, t) && t != u0 {
                        let t = choose|t: int|
                            #[trigger] bishop_pin_ray(k, pos, t) && 0 <= t < 64 && bit(push_mask, t) && t != u0;
                        assert(bit(ray_to_king, t));
                    }
                }
                assert(found == (found_before || bishop_pin_has_move(
                    *g,
                    *abb,
                    pawns_in,
                    k,
                    pos,
                    push_mask,
                    capture_mask,
                )));
            }
            proof {
                lemma_pin_moves_sound(
                    *g,
                    before,
                    movelist.move_list@,
                    ray_to_king,
                    abb.stm_pieces,
                    pinned_piece,
                    enemy_bishop,
                    enemy_queens,
                    PieceType::Bishop,
                    PieceType::Bishop,
                    enemy_bishop_position,
                );
            }
        } else if pinned_piece & stm_pawns != 0u64 {
            stm_pawns = stm_pawns ^ pinned_piece;
            proof {
                assert(bit(g.pieces[0][ci], pinned_piece_position as int));
                assert(!side_at(g.pieces, ci, enemy_bishop_position as int));
                assert(bit(enemy_bishops, enemy_bishop_position as int) || bit(
                    enemy_queens,
                    enemy_bishop_position as int,
                ));
            }
            let has = add_pinned_pawn_captures(
                g,
                movelist,
                pinned_piece,
                pinned_piece_position,
                enemy_bishop,
                enemy_bishop_position,
                enemy_queens,
                capture_mask,
                ray_to_king,
                ranks,
            );
            found = found || has;
            proof {
                let u0 = pinned_piece_position as int;
                let pos = enemy_bishop_position as int;
                let c0 = g.color_to_move as int;
                assert(found == (found_before || bishop_pin_has_move(
                    *g,
                    *abb,
                    pawns_in,
                    k,
                    pos,
                    push_mask,
                    capture_mask,
                ))) by {
                    assert(bit(pinned_piece, u0));
                    assert(bit(pawns_before, u0)) by {
                        let t = choose|t: int| 0 <= t < 64 && !!(#[trigger] bit(pinned_piece, t) && bit(pawns_before, t));
                        assert(bit(pinned_piece, t) && bit(pawns_before, t));
                    }
                    assert(!bit(stm_queens, u0) && !bit(stm_bishops, u0));
                    assert(bit(pawns_in, u0));
                    assert(forall|t: int| #[trigger] bit(pinned_piece, t) == (0 <= t < 64 && t == u0));
                    assert(pawn_covers(c0, pinned_piece, pos) == pawn_covers_from(c0, u0, pos));
                    if exists|t: int| 0 <= t < 64 && #[trigger] pinned_en_passant(*g, pinned_piece, capture_mask, ray_to_king, t) {
                        let t = choose|t: int| 0 <= t < 64 && #[trigger] pinned_en_passant(*g, pinned_piece, capture_mask, ray_to_king, t);
                        assert(pawn_covers(c0, pinned_piece, t) == pawn_covers_from(c0, u0, t));
                        assert(bishop_pin_ray(k, pos, t));
                    }
                    if exists|t: int|
                        #[trigger] bishop_pin_ray(k, pos, t) && 0 <= t < 64 && pawn_covers_from(c0, u0, t) && bit(
                            g.en_passant,
                            t,
                        ) && bit(capture_mask, t) {
                        let t = choose|t: int|
                            #[trigger] bishop_pin_ray(k, pos, t) && 0 <= t < 64 && pawn_covers_from(c0, u0, t) && bit(
                                g.en_passant,
                                t,
                            ) && bit(capture_mask, t);
                        assert(pawn_covers(c0, pinned_piece, t) == pawn_covers_from(c0, u0, t));
                        assert(pinned_en_passant(*g, pinned_piece, capture_mask, ray_to_king, t));
                    }
                }
            }
        }
        proof {
            let u0 = pinned_piece_position as int;
            let pos = enemy_bishop_position as int;
            if pinned_piece & stm_queens == 0u64 && pinned_piece & stm_bishops == 0u64 && pinned_piece
                & pawns_before == 0u64 && pinned_piece != 0u64 {
                assert(bit(pinned_piece, u0));
                assert(!bit(stm_queens, u0) && !bit(stm_bishops, u0) && !bit(pawns_before, u0));
                assert(bit(pawns_before, u0) == bit(pawns_in, u0)) by {
                    if bit(pawns_before, u0) != bit(pawns_in, u0) {
                        let q = choose|q: int|
                            0 <= q < 64 && bit(targets, q) && !bit(rest_before, q) && #[trigger] bishop_ray_box(
                                k,
                                q,
                                u0,
                            ) && bishop_reaches(k, 0u64, u0) && bit(abb.stm_pieces, u0);
                        crate::move_generation::movegen::lemma_occupancy(g.pieces, q);
                        crate::move_generation::movegen::lemma_occupancy(g.pieces, pos);
                        assert(!bit(abb.stm_pieces, q)) by {
                            if bit(abb.stm_pieces, q) {
                                assert(side_at(g.pieces, ci, q));
                            }
                        }
                        assert(side_at(g.pieces, 1 - ci, q));
                        assert(side_at(g.pieces, 1 - ci, pos));
                        crate::move_generation::attacks::lemma_pinner_unique(
                            false,
                            k,
                            abb.all_pieces,
                            abb.stm_pieces,
                            stm_bishop_attacks_from_king,
                            stm_xray_bishop_attacks_from_king,
                            q,
                            pos,
                            u0,
                        );
                    }
                }
            }
            assert(found == (found_before || bishop_pin_has_move(
                *g,
                *abb,
                pawns_in,
                k,
                pos,
                push_mask,
                capture_mask,
            )));
            assert forall|t: int| #[trigger] bit(stm_pawns, t) != bit(pawns_before, t) implies bit(
                pinned_piece,
                t,
            ) by {}
        }
        proof {
            let u0 = pinned_piece_position as int;
            let pos = enemy_bishop_position as int;
            let now = movelist.move_list@;
            assert(extends(before, now));
            assert forall|u: int, t: int|
                #[trigger] bishop_pin_target(*g, pawns_in, k, pos, u, t, only_captures, push_mask, capture_mask) && bishop_pin_ray(k, pos, u) && bit(abb.stm_pieces, u) implies moved_from_to(
                before,
                now,
                u,
                t,
            ) by {
                assert(bit(ray_to_king, u));
                assert(bit(pinned_piece, u));
                assert(u == u0);
                if pinned_piece & stm_queens != 0u64 || pinned_piece & stm_bishops != 0u64 {
                    if t == pos && bit(capture_mask, pos) {
                        assert(has_target(before, now, pos));
                    } else {
                        assert(bit(ray_to_king, t));
                        assert(has_target(before, now, t));
                    }
                    let i = choose|i: int| before.len() <= i < now.len() && (#[trigger] now[i]).to == t;
                    assert(now[i].from == u0 && now[i].to == t);
                } else if pinned_piece & pawns_before != 0u64 {
                    let c0 = g.color_to_move as int;
                    assert(forall|v: int| #[trigger] bit(pinned_piece, v) == (0 <= v < 64 && v == u0));
                    assert(pawn_covers(c0, pinned_piece, pos) == pawn_covers_from(c0, u0, pos));
                    if t == pos && pawn_covers_from(c0, u0, pos) && bit(capture_mask, pos) {
                        let i = before.len() as int;
                        assert(now[i].from == u0 && now[i].to == t);
                    } else {
                        assert(pinned_pawn_en_passant(*g, k, pos, u0, t, capture_mask));
                        assert(pinned_en_passant(*g, pinned_piece, capture_mask, ray_to_king, t));
                        let f = first_pinned_en_passant(*g, pinned_piece, capture_mask, ray_to_king);
                        assert(0 <= f < 64 && pinned_en_passant(*g, pinned_piece, capture_mask, ray_to_king, f));
                        assert(pawn_covers(c0, pinned_piece, f) == pawn_covers_from(c0, u0, f));
                        assert(bit(ray_to_king, f));
                        assert(pinned_pawn_en_passant(*g, k, pos, u0, f, capture_mask));
                        if f < t {
                            assert(!pinned_pawn_en_passant(*g, k, pos, u0, f, capture_mask));
                        }
                        if t < f {
                            assert(!pinned_en_passant(*g, pinned_piece, capture_mask, ray_to_king, t));
                        }
                        assert(f == t);
                        let i = now.len() - 1;
                        assert(now[i].from == u0 && now[i].to == t);
                    }
                } else {
                    assert(false);
                }
            }
        }
        proof {
            let u0 = pinned_piece_position as int;
            let pos = enemy_bishop_position as int;
            let now = movelist.move_list@;
            assert forall|i: int| before.len() <= i < now.len() implies {
                let mv = #[trigger] now[i];
                bishop_pin_target(
                    *g,
                    pawns_in,
                    k,
                    pos,
                    mv.from as int,
                    mv.to as int,
                    only_captures,
                    push_mask,
                    capture_mask,
                ) && bishop_pin_ray(k, pos, mv.from as int) && bit(abb.stm_pieces, mv.from as int)
            } by {
                let mv = now[i];
                assert(bit(pinned_piece, u0));
                assert(bit(ray_to_king, u0));
                if pinned_piece & stm_queens != 0u64 || pinned_piece & stm_bishops != 0u64 {
                    assert(mv.from == u0);
                    if mv.to as int != pos {
                        assert(bit(ray_to_king, mv.to as int));
                    }
                } else {
                    let c0 = g.color_to_move as int;
                    if pinned_piece & stm_queens == 0u64 && pinned_piece & stm_bishops == 0u64 && pinned_piece
                        & pawns_before != 0u64 {
                        assert(bit(pinned_piece, u0));
                        assert(forall|v: int| #[trigger] bit(pinned_piece, v) == (0 <= v < 64 && v == u0));
                        assert forall|t2: int| 0 <= t2 < 64 implies #[trigger] pinned_pawn_en_passant(
                            *g,
                            k,
                            pos,
                            u0,
                            t2,
                            capture_mask,
                        ) == pinned_en_passant(*g, pinned_piece, capture_mask, ray_to_king, t2) by {
                            assert(pawn_covers(c0, pinned_piece, t2) == pawn_covers_from(c0, u0, t2));
                        }
                        assert(pawn_covers(c0, pinned_piece, pos) == pawn_covers_from(c0, u0, pos));
                        if exists|t: int| 0 <= t < 64 && #[trigger] pinned_en_passant(*g, pinned_piece, capture_mask, ray_to_king, t) {
                            let f = first_pinned_en_passant(*g, pinned_piece, capture_mask, ray_to_king);
                            assert(0 <= f < 64 && pinned_en_passant(*g, pinned_piece, capture_mask, ray_to_king, f));
                            assert(pinned_pawn_en_passant(*g, k, pos, u0, f, capture_mask));
                            assert forall|t2: int| 0 <= t2 < f implies !#[trigger] pinned_pawn_en_passant(
                                *g,
                                k,
                                pos,
                                u0,
                                t2,
                                capture_mask,
                            ) by {
                                assert(!pinned_en_passant(*g, pinned_piece, capture_mask, ray_to_king, t2));
                            }
                        }
                    }
                    assert(mv.from == u0);
                }
            }
        }
        proof {
            let u0 = pinned_piece_position as int;
            assert forall|u: int| #[trigger] bit(stm_pawns, u) implies !bit(pinned_pieces, u) by {
                if bit(pinned_piece, u) {
                    assert(bit(pinned_piece, u0));
                    assert(u == u0);
                    assert(bit(pawns_before, u) ==> bit(g.pieces[0][ci], u));
                    if bit(stm_queens, u) {
                        assert(!bit(g.pieces[0][ci], u));
                    }
                    if bit(stm_bishops, u) {
                        assert(!bit(g.pieces[0][ci], u));
                    }
                }
            }
        }
        enemy_bishop_on_xray = enemy_bishop_on_xray ^ enemy_bishop;
        proof {
            let pos = enemy_bishop_position as int;
            let now = movelist.move_list@;
            assert forall|i: int| start_moves.len() <= i < now.len() implies {
                let mv = #[trigger] now[i];
                exists|p: int|
                    0 <= p < 64 && bit(targets, p) && !bit(enemy_bishop_on_xray, p) && #[trigger] bishop_pin_target(
                            *g,
                            pawns_in,
                            k,
                            p,
                            mv.from as int,
                            mv.to as int,
                            only_captures,
                            push_mask,
                            capture_mask,
                        )
                        && bishop_pin_ray(k, p, mv.from as int) && bit(abb.stm_pieces, mv.from as int)
            } by {
                let mv = now[i];
                if i < before.len() {
                    assert(mv == before[i]);
                    let p = choose|p: int|
                        0 <= p < 64 && bit(targets, p) && !bit(rest_before, p) && #[trigger] bishop_pin_target(
                            *g,
                            pawns_in,
                            k,
                            p,
                            mv.from as int,
                            mv.to as int,
                            only_captures,
                            push_mask,
                            capture_mask,
                        )
                            && bishop_pin_ray(k, p, mv.from as int) && bit(abb.stm_pieces, mv.from as int);
                    assert(!bit(enemy_bishop_on_xray, p));
                } else {
                    assert(!bit(enemy_bishop_on_xray, pos));
                    assert(bit(targets, pos));
                }
            }
        }
        proof {
            let pos = enemy_bishop_position as int;
            let now = movelist.move_list@;
            assert forall|p: int, u: int, t: int|
                #[trigger] bishop_pin_target(*g, pawns_in, k, p, u, t, only_captures, push_mask, capture_mask) && bit(targets, p) && !bit(enemy_bishop_on_xray, p) && bishop_pin_ray(
                    k,
                    p,
                    u,
                ) && bit(abb.stm_pieces, u) implies moved_from_to(start_moves, now, u, t) by {
                if p == pos {
                    let i = choose|i: int| before.len() <= i < now.len() && (#[trigger] now[i]).from == u && now[i].to == t;
                    assert(now[i].from == u && now[i].to == t);
                } else {
                    assert(!bit(rest_before, p));
                    let i = choose|i: int|
                        start_moves.len() <= i < before.len() && (#[trigger] before[i]).from == u && before[i].to == t;
                    assert(now[i] == before[i]);
                    assert(now[i].from == u && now[i].to == t);
                }
            }
        }
        proof {
            let pos = enemy_bishop_position as int;
            assert forall|t: int| 0 <= t < 64 implies #[trigger] bit(enemy_bishop_on_xray, t) == (bit(
                rest_before,
                t,
            ) && t != pos) by {}
            assert forall|u: int| 0 <= u < 64 implies #[trigger] bit(pinned_pieces, u) == (bit(pinned_in, u)
                || exists|p: int|
                0 <= p < 64 && bit(targets, p) && !bit(enemy_bishop_on_xray, p) && #[trigger] bishop_ray_box(
                    k,
                    p,
                    u,
                ) && bishop_reaches(k, 0u64, u) && bit(abb.stm_pieces, u)) by {
                assert(bit(pinned_pieces, u) == (bit(pinned_before, u) || bit(pinned_piece, u)));
                assert(bit(pinned_piece, u) == (bishop_reaches(k, 0u64, u) && bishop_ray_box(k, pos, u) && bit(
                    abb.stm_pieces,
                    u,
                )));
                if bit(pinned_piece, u) {
                    assert(0 <= pos < 64 && bit(targets, pos) && !bit(enemy_bishop_on_xray, pos) && bishop_ray_box(
                        k,
                        pos,
                        u,
                    ));
                }
                if bit(pinned_before, u) && !bit(pinned_in, u) {
                    let p = choose|p: int|
                        0 <= p < 64 && bit(targets, p) && !bit(rest_before, p) && #[trigger] bishop_ray_box(
                            k,
                            p,
                            u,
                        ) && bishop_reaches(k, 0u64, u) && bit(abb.stm_pieces, u);
                    assert(!bit(enemy_bishop_on_xray, p));
                }
                if exists|p: int|
                    0 <= p < 64 && bit(targets, p) && !bit(enemy_bishop_on_xray, p) && #[trigger] bishop_ray_box(
                        k,
                        p,
                        u,
                    ) && bishop_reaches(k, 0u64, u) && bit(abb.stm_pieces, u) {
                    let p = choose|p: int|
                        0 <= p < 64 && bit(targets, p) && !bit(enemy_bishop_on_xray, p) && #[trigger] bishop_ray_box(
                            k,
                            p,
                            u,
                        ) && bishop_reaches(k, 0u64, u) && bit(abb.stm_pieces, u);
                    if p != pos {
                        assert(!bit(rest_before, p));
                    }
                }
            }
            assert forall|u: int| 0 <= u < 64 && !bit(pinned_pieces, u) implies #[trigger] bit(
                stm_pawns,
                u,
            ) == bit(pawns_in, u) by {
                assert(!bit(pinned_piece, u));
                assert(!bit(pinned_before, u));
                assert(bit(stm_pawns, u) == bit(pawns_before, u));
            }
            assert forall|u: int| #[trigger] bit(stm_pawns, u) implies bit(pawns_in, u) by {
                if !bit(pawns_before, u) {
                    assert(bit(pinned_piece, u));
                }
            }
            assert forall|u: int|
                0 <= u < 64 && #[trigger] bit(stm_pawns, u) != bit(pawns_in, u) implies exists|p: int|
                    0 <= p < 64 && bit(targets, p) && !bit(enemy_bishop_on_xray, p) && #[trigger] bishop_ray_box(
                        k,
                        p,
                        u,
                    ) && bishop_reaches(k, 0u64, u) && bit(abb.stm_pieces, u) by {
                if bit(pawns_before, u) != bit(pawns_in, u) {
                    let p = choose|p: int|
                        0 <= p < 64 && bit(targets, p) && !bit(rest_before, p) && #[trigger] bishop_ray_box(
                            k,
                            p,
                            u,
                        ) && bishop_reaches(k, 0u64, u) && bit(abb.stm_pieces, u);
                    assert(!bit(enemy_bishop_on_xray, p));
                } else {
                    assert(bit(pinned_piece, u));
                    assert(bishop_ray_box(k, pos, u) && bishop_reaches(k, 0u64, u) && bit(abb.stm_pieces, u));
                    assert(!bit(enemy_bishop_on_xray, pos));
                }
            }
            assert(bit(targets, pos));
            if found {
                if found_before {
                    let p = choose|p: int|
                        0 <= p < 64 && bit(targets, p) && !bit(rest_before, p) && #[trigger] bishop_pin_has_move(
                        *g,
                        *abb,
                        pawns_in,
                        k,
                        p,
                        push_mask,
                        capture_mask,
                    );
                    assert(!bit(enemy_bishop_on_xray, p));
                } else {
                    assert(!bit(enemy_bishop_on_xray, pos));
                }
            }
            if exists|p: int|
                0 <= p < 64 && bit(targets, p) && !bit(enemy_bishop_on_xray, p) && #[trigger] bishop_pin_has_move(
                        *g,
                        *abb,
                        pawns_in,
                        k,
                        p,
                        push_mask,
                        capture_mask,
                    ) {
                let p = choose|p: int|
                    0 <= p < 64 && bit(targets, p) && !bit(enemy_bishop_on_xray, p) && #[trigger] bishop_pin_has_move(
                        *g,
                        *abb,
                        pawns_in,
                        k,
                        p,
                        push_mask,
                        capture_mask,
                    );
                if p != pos {
                    assert(!bit(rest_before, p));
                }
            }
        }
    }
    proof {
        assert forall|i: int| start_moves.len() <= i < movelist.move_list@.len() implies {
            let mv = #[trigger] movelist.move_list@[i];
            exists|p: int|
                #[trigger] bishop_pinner(*g, *abb, stm_king_index as int, p) && bishop_pin_target(
                    *g,
                    pawns_in,
                    stm_king_index as int,
                    p,
                    mv.from as int,
                    mv.to as int,
                    only_captures,
                    push_mask,
                    capture_mask,
                ) && bishop_pin_ray(
                    stm_king_index as int,
                    p,
                    mv.from as int,
                ) && bit(abb.stm_pieces, mv.from as int)
        } by {
            let mv = movelist.move_list@[i];
            let p = choose|p: int|
                0 <= p < 64 && bit(targets, p) && !bit(enemy_bishop_on_xray, p) && #[trigger] bishop_pin_target(
                        *g,
                        pawns_in,
                        k,
                        p,
                        mv.from as int,
                        mv.to as int,
                        only_captures,
                        push_mask,
                        capture_mask,
                    )
                    && bishop_pin_ray(k, p, mv.from as int) && bit(abb.stm_pieces, mv.from as int);
            assert(bishop_pinner(*g, *abb, k, p));
        }
    }
    proof {
        if found {
            let p = choose|p: int|
                0 <= p < 64 && bit(targets, p) && !bit(enemy_bishop_on_xray, p) && #[trigger] bishop_pin_has_move(
                        *g,
                        *abb,
                        pawns_in,
                        k,
                        p,
                        push_mask,
                        capture_mask,
                    );
            assert(bishop_pinner(*g, *abb, k, p));
        }
        if exists|p: int| #[trigger] bishop_pinner(*g, *abb, k, p) && bishop_pin_has_move(
                        *g,
                        *abb,
                        pawns_in,
                        k,
                        p,
                        push_mask,
                        capture_mask,
                    ) {
            let p = choose|p: int| #[trigger] bishop_pinner(*g, *abb, k, p) && bishop_pin_has_move(
                        *g,
                        *abb,
                        pawns_in,
                        k,
                        p,
                        push_mask,
                        capture_mask,
                    );
            assert(bit(targets, p));
            assert(!bit(enemy_bishop_on_xray, p));
        }
    }
    proof {
        assert forall|u: int| 0 <= u < 64 implies #[trigger] bit(pinned_pieces, u) == (bit(pinned_in, u)
            || bishop_pinned(*g, *abb, k, u)) by {
            if bit(pinned_pieces, u) && !bit(pinned_in, u) {
                let p = choose|p: int|
                    0 <= p < 64 && bit(targets, p) && !bit(enemy_bishop_on_xray, p) && #[trigger] bishop_ray_box(
                        k,
                        p,
                        u,
                    ) && bishop_reaches(k, 0u64, u) && bit(abb.stm_pieces, u);
                assert(bishop_pinner(*g, *abb, k, p));
            }
            if bishop_pinned(*g, *abb, k, u) {
                let p = choose|p: int|
                    #[trigger] bishop_pinner(*g, *abb, k, p) && bishop_reaches(k, 0u64, u) && bishop_ray_box(k, p, u)
                        && bit(abb.stm_pieces, u);
                assert(bit(targets, p));
                assert(!bit(enemy_bishop_on_xray, p));
            }
        }
    }
    (pinned_pieces, stm_pawns, found)
}


/// A pawn of colour `c` on `pawns` attacks `t`.
pub open spec fn pawn_covers(c: int, pawns: u64, t: int) -> bool {
    if c == 0 {
        (rank_of(t) >= 1 && file_of(t) >= 1 && bit(pawns, t - 9)) || (rank_of(t) >= 1 && file_of(t)
            <= 6 && bit(pawns, t - 7))
    } else {
        (rank_of(t) <= 6 && file_of(t) <= 6 && bit(pawns, t + 9)) || (rank_of(t) <= 6 && file_of(t)
            >= 1 && bit(pawns, t + 7))
    }
}

/// The four promotions (queen, rook, bishop, knight) of a pawn moving from `from` to `to`,
/// capturing `captured` if any.
pub open spec fn promotion_moves(from: int, to: int, captured: Option<PieceType>) -> Seq<GameMove> {
    let mk = |p: PieceType|
        GameMove {
            from: from as usize,
            to: to as usize,
            move_type: GameMoveType::Promotion(p, captured),
            piece_type: PieceType::Pawn,
        };
    seq![mk(PieceType::Queen), mk(PieceType::Rook), mk(PieceType::Bishop), mk(PieceType::Knight)]
}

/// A capture en passant onto `t` by the pinned pawn `pinned_piece` that stays on the pin.
pub open spec fn pinned_en_passant(
    g: GameState,
    pinned_piece: u64,
    capture_mask: u64,
    ray_to_king: u64,
    t: int,
) -> bool {
    &&& pawn_covers(g.color_to_move as int, pinned_piece, t)
    &&& bit(g.en_passant, t)
    &&& bit(capture_mask, t)
    &&& bit(ray_to_king, t)
}

/// The lowest square of a capture en passant along the pin.
pub open spec fn first_pinned_en_passant(
    g: GameState,
    pinned_piece: u64,
    capture_mask: u64,
    ray_to_king: u64,
) -> int {
    choose|t: int|
        0 <= t < 64 && pinned_en_passant(g, pinned_piece, capture_mask, ray_to_king, t) && forall|u: int|
            0 <= u < t ==> !#[trigger] pinned_en_passant(g, pinned_piece, capture_mask, ray_to_king, u)
}

/// The moves of the pawn on `from`, pinned by the enemy bishop or queen on `pos`, that
/// `add_pinned_pawn_captures` adds: the capture of the pinner (as four promotions on the
/// last rank), then its capture en passant along the pin.
pub open spec fn pinned_pawn_moves(
    g: GameState,
    pinned_piece: u64,
    from: int,
    pos: int,
    enemy_queens: u64,
    capture_mask: u64,
    ray_to_king: u64,
) -> Seq<GameMove> {
    let c = g.color_to_move as int;
    let captured = if bit(enemy_queens, pos) {
        PieceType::Queen
    } else {
        PieceType::Bishop
    };
    let last = if c == 0 {
        7int
    } else {
        0int
    };
    (if pawn_covers(c, pinned_piece, pos) && bit(capture_mask, pos) {
        if rank_of(pos) == last {
            promotion_moves(from, pos, Some(captured))
        } else {
            seq![
                GameMove {
                    from: from as usize,
                    to: pos as usize,
                    move_type: GameMoveType::Capture(captured),
                    piece_type: PieceType::Pawn,
                },
            ]
        }
    } else {
        Seq::empty()
    }) + (if exists|t: int| 0 <= t < 64 && #[trigger] pinned_en_passant(g, pinned_piece, capture_mask, ray_to_king, t) {
        seq![
            GameMove {
                from: from as usize,
                to: first_pinned_en_passant(g, pinned_piece, capture_mask, ray_to_king) as usize,
                move_type: GameMoveType::EnPassant,
                piece_type: PieceType::Pawn,
            },
        ]
    } else {
        Seq::empty()
    })
}

/// The moves of a pawn of the side to move on `pinned_piece_position` pinned along a
/// diagonal by the enemy bishop or queen on `enemy_bishop_position`: its capture of the
/// pinner (as promotions on the last rank) and its capture en passant along the pin.
/// Tells whether it has one.
#[verifier::rlimit(30)]
fn add_pinned_pawn_captures(
    g: &GameState,
    movelist: &mut MoveList,
    pinned_piece: u64,
    pinned_piece_position: usize,
    enemy_bishop: u64,
    enemy_bishop_position: usize,
    enemy_queens: u64,
    capture_mask: u64,
    ray_to_king: u64,
    ranks: &[u64; 8],
) -> (found: bool)
    requires
        position_ok(*g),
        pinned_piece_position < 64,
        enemy_bishop_position < 64,
        enemy_bishop == 1u64 << enemy_bishop_position as u64,
        enemy_queens == g.pieces[4][1 - g.color_to_move as int],
        bit(g.pieces[0][g.color_to_move as int], pinned_piece_position as int),
        !side_at(g.pieces, g.color_to_move as int, enemy_bishop_position as int),
        bit(g.pieces[2][1 - g.color_to_move as int], enemy_bishop_position as int) || bit(
            enemy_queens,
            enemy_bishop_position as int,
        ),
        forall|r: int, t: int|
            0 <= r < 8 && 0 <= t < 64 ==> #[trigger] bit(ranks[r], t) == (rank_of(t) == r),
        all_sound(*g, old(movelist).move_list@),
    ensures
        all_sound(*g, final(movelist).move_list@),
        all_captures(old(movelist).move_list@) ==> all_captures(final(movelist).move_list@),
        found == ((pawn_covers(g.color_to_move as int, pinned_piece, enemy_bishop_position as int) && bit(
            capture_mask,
            enemy_bishop_position as int,
        )) || exists|t: int|
            0 <= t < 64 && #[trigger] pinned_en_passant(*g, pinned_piece, capture_mask, ray_to_king, t)),
        final(movelist).move_list@ == old(movelist).move_list@ + pinned_pawn_moves(
            *g,
            pinned_piece,
            pinned_piece_position as int,
            enemy_bishop_position as int,
            enemy_queens,
            capture_mask,
            ray_to_king,
        ),
{
    let c = g.color_to_move;
    let ghost ci = c as int;
    let stm_color_iswhite = c == WHITE;
    let mut found = false;
    let ghost before = movelist.move_list@;
    proof {
        crate::bitboards::lemma_and_zero(enemy_bishop, enemy_queens);
    }
    let stm_pawn_pin_target = if stm_color_iswhite {
        w_pawn_east_targets(pinned_piece) | w_pawn_west_targets(pinned_piece)
    } else {
        b_pawn_east_targets(pinned_piece) | b_pawn_west_targets(pinned_piece)
    };
    let captured = if enemy_bishop & enemy_queens != 0u64 {
        PieceType::Queen
    } else {
        PieceType::Bishop
    };
    let ghost from = pinned_piece_position as int;
    let ghost pos = enemy_bishop_position as int;
    proof {
        assert(bit(g.pieces[0][ci], from));
        assert(!side_at(g.pieces, ci, pos));
        assert(bit(enemy_bishop, pos));
        assert((enemy_bishop & enemy_queens != 0u64) == bit(enemy_queens, pos));
        assert(bit(g.pieces[piece_index(captured)][1 - ci], pos));
    }
    //Normal captures
    let stm_pawn_pin_captures = stm_pawn_pin_target & capture_mask & enemy_bishop;
    let stm_pawn_pin_promotion_capture = stm_pawn_pin_captures & ranks[if stm_color_iswhite {
        7
    } else {
        0
    }];
    let ghost last: int = if stm_color_iswhite {
        7
    } else {
        0
    };
    let ghost hits = pawn_covers(ci, pinned_piece, pos) && bit(capture_mask, pos);
    proof {
        assert forall|t: int| 0 <= t < 64 implies #[trigger] bit(stm_pawn_pin_target, t) == pawn_covers(
            ci,
            pinned_piece,
            t,
        ) by {}
        crate::bitboards::lemma_bit_single(enemy_bishop_position as u64, pos);
        assert forall|t: int| 0 <= t < 64 implies #[trigger] bit(stm_pawn_pin_captures, t) == (t == pos
            && hits) by {
            crate::bitboards::lemma_bit_single(enemy_bishop_position as u64, t);
        }
        assert forall|t: int| 0 <= t < 64 implies #[trigger] bit(stm_pawn_pin_promotion_capture, t) == (t
            == pos && hits && rank_of(pos) == last) by {}
        crate::bitboards::lemma_zero_board(stm_pawn_pin_captures);
        crate::bitboards::lemma_zero_board(stm_pawn_pin_promotion_capture);
        assert((stm_pawn_pin_promotion_capture != 0u64) == (hits && rank_of(pos) == last)) by {
            if hits && rank_of(pos) == last {
                assert(bit(stm_pawn_pin_promotion_capture, pos));
            }
        }
    }
    if stm_pawn_pin_promotion_capture != 0u64 {
        found = true;
        add_promotion_move_to_movelist(
            movelist,
            pinned_piece_position,
            enemy_bishop_position,
            GameMoveType::Capture(captured),
        );
    }
    let stm_pawn_pin_nonpromotion_capture = stm_pawn_pin_captures
        & !stm_pawn_pin_promotion_capture;
    proof {
        crate::bitboards::lemma_zero_board(stm_pawn_pin_nonpromotion_capture);
        assert forall|t: int| 0 <= t < 64 implies #[trigger] bit(stm_pawn_pin_nonpromotion_capture, t) == (t
            == pos && hits && rank_of(pos) != last) by {}
        assert((stm_pawn_pin_nonpromotion_capture != 0u64) == (hits && rank_of(pos) != last)) by {
            if hits && rank_of(pos) != last {
                assert(bit(stm_pawn_pin_nonpromotion_capture, pos));
            }
        }
    }
    if stm_pawn_pin_nonpromotion_capture != 0u64 {
        found = true;
        add_move_to_movelist(
            movelist,
            pinned_piece_position,
            enemy_bishop_position,
            PieceType::Pawn,
            GameMoveType::Capture(captured),
        );
    }
    let ghost mid = movelist.move_list@;
    proof {
        assert forall|i: int| 0 <= i < mid.len() implies sound_move(*g, #[trigger] mid[i]) by {
            if i < before.len() {
                assert(mid[i] == before[i]);
            }
        }
    }
    //En passants
    let stm_pawn_pin_enpassant = stm_pawn_pin_target & g.en_passant & capture_mask
        & ray_to_king;
    let ghost ep_exists = exists|t: int|
        0 <= t < 64 && #[trigger] pinned_en_passant(*g, pinned_piece, capture_mask, ray_to_king, t);
    proof {
        assert forall|t: int| 0 <= t < 64 implies #[trigger] bit(stm_pawn_pin_enpassant, t)
            == pinned_en_passant(*g, pinned_piece, capture_mask, ray_to_king, t) by {}
        crate::bitboards::lemma_zero_board(stm_pawn_pin_enpassant);
        if ep_exists {
            let t = choose|t: int|
                0 <= t < 64 && #[trigger] pinned_en_passant(*g, pinned_piece, capture_mask, ray_to_king, t);
            assert(bit(stm_pawn_pin_enpassant, t));
        }
        if stm_pawn_pin_enpassant != 0u64 {
            let t = choose|t: int| 0 <= t < 64 && #[trigger] bit(stm_pawn_pin_enpassant, t);
            assert(pinned_en_passant(*g, pinned_piece, capture_mask, ray_to_king, t));
            vstd::std_specs::bits::axiom_u64_trailing_zeros(stm_pawn_pin_enpassant);
            let l = lowest_square(stm_pawn_pin_enpassant);
            assert(0 <= l < 64 && bit(stm_pawn_pin_enpassant, l));
            assert forall|u: int| 0 <= u < l implies !#[trigger] pinned_en_passant(
                *g,
                pinned_piece,
                capture_mask,
                ray_to_king,
                u,
            ) by {
                assert(!bit(stm_pawn_pin_enpassant, u));
            }
            let f = first_pinned_en_passant(*g, pinned_piece, capture_mask, ray_to_king);
            assert(0 <= f < 64 && pinned_en_passant(*g, pinned_piece, capture_mask, ray_to_king, f));
            assert(f == l) by {
                if f < l {
                    assert(!pinned_en_passant(*g, pinned_piece, capture_mask, ray_to_king, f));
                }
                if l < f {
                    assert(!pinned_en_passant(*g, pinned_piece, capture_mask, ray_to_king, l));
                }
            }
        }
        assert((stm_pawn_pin_enpassant != 0u64) == ep_exists);
    }
    if stm_pawn_pin_enpassant != 0u64 {
        found = true;
        proof {
            vstd::std_specs::bits::axiom_u64_trailing_zeros(stm_pawn_pin_enpassant);
            crate::bitboards::lemma_zero_board(stm_pawn_pin_enpassant);
            let t = lowest_square(stm_pawn_pin_enpassant);
            assert(bit(stm_pawn_pin_enpassant, t));
            assert(bit(g.en_passant, t));
            assert(en_passant_square_ok(*g, t));
            lemma_occupancy(g.pieces, t);
            lemma_occupancy(g.pieces, from);
        }
        add_move_to_movelist(
            movelist,
            pinned_piece_position,
            stm_pawn_pin_enpassant.trailing_zeros() as usize,
            PieceType::Pawn,
            GameMoveType::EnPassant,
        );
        proof {
            let now = movelist.move_list@;
            assert forall|i: int| 0 <= i < now.len() implies sound_move(*g, #[trigger] now[i]) by {
                if i < mid.len() {
                    assert(now[i] == mid[i]);
                }
            }
        }
    }
    found
}



/// A pawn of `pawns` pushes one square onto the empty square `t` on the push mask.
pub open spec fn single_push(c: int, pawns: u64, empty: u64, push_mask: u64, t: int) -> bool {
    &&& bit(push_mask, t)
    &&& bit(empty, t)
    &&& if c == 0 {
        rank_of(t) >= 1 && bit(pawns, t - 8)
    } else {
        rank_of(t) <= 6 && bit(pawns, t + 8)
    }
}

/// A pawn of `pawns` on its starting rank pushes two squares, over an empty square, onto
/// the empty square `t` on the push mask.
pub open spec fn double_push(c: int, pawns: u64, empty: u64, push_mask: u64, t: int) -> bool {
    &&& bit(push_mask, t)
    &&& bit(empty, t)
    &&& if c == 0 {
        rank_of(t) == 3 && bit(pawns, t - 16) && bit(empty, t - 8)
    } else {
        rank_of(t) == 4 && bit(pawns, t + 16) && bit(empty, t + 8)
    }
}

/// The pawn pushes of the pawns `stm_pawns` of the side to move that are not pinned:
/// single pushes to empty squares on the push mask (promoting on the last rank) and,
/// unless only captures are asked for and a legal move is known, double pushes. Nothing
/// is appended when only captures are asked for. Tells whether a legal move is known.
fn add_pawn_pushes(
    g: &GameState,
    movelist: &mut MoveList,
    only_captures: bool,
    stm_pawns: u64,
    empty_squares: u64,
    push_mask: u64,
    pinned_pieces: u64,
    stm_haslegalmove: bool,
    ranks: &[u64; 8],
) -> (res: bool)
    requires
        position_ok(*g),
        forall|t: int| #[trigger] bit(stm_pawns, t) ==> bit(g.pieces[0][g.color_to_move as int], t),
        forall|t: int| 0 <= t < 64 ==> #[trigger] bit(empty_squares, t) == !bit(occupancy(g.pieces), t),
        all_sound(*g, old(movelist).move_list@),
    ensures
        all_sound(*g, final(movelist).move_list@),
        only_captures ==> final(movelist).move_list@ == old(movelist).move_list@,
        extends(old(movelist).move_list@, final(movelist).move_list@),
        res == (stm_haslegalmove || (exists|t: int|
            0 <= t < 64 && #[trigger] single_push(
                g.color_to_move as int,
                stm_pawns,
                empty_squares,
                push_mask,
                t,
            )) || (exists|t: int|
            0 <= t < 64 && #[trigger] double_push(
                g.color_to_move as int,
                stm_pawns,
                empty_squares,
                push_mask,
                t,
            ))),
        !only_captures ==> forall|t: int|
            0 <= t < 64 && #[trigger] single_push(
                g.color_to_move as int,
                stm_pawns,
                empty_squares,
                push_mask,
                t,
            ) && !bit(pinned_pieces, pawn_from(g.color_to_move == 0, 8, t)) ==> has_move(
                old(movelist).move_list@,
                final(movelist).move_list@,
                pawn_from(g.color_to_move == 0, 8, t),
                t,
            ),
        !only_captures ==> forall|t: int|
            0 <= t < 64 && #[trigger] double_push(
                g.color_to_move as int,
                stm_pawns,
                empty_squares,
                push_mask,
                t,
            ) && !bit(pinned_pieces, pawn_from(g.color_to_move == 0, 16, t)) ==> has_move(
                old(movelist).move_list@,
                final(movelist).move_list@,
                pawn_from(g.color_to_move == 0, 16, t),
                t,
            ),
        forall|i: int|
            old(movelist).move_list@.len() <= i < final(movelist).move_list@.len() ==> {
                let mv = #[trigger] final(movelist).move_list@[i];
                &&& mv.piece_type == PieceType::Pawn
                &&& !bit(pinned_pieces, mv.from as int)
                &&& (single_push(
                    g.color_to_move as int,
                    stm_pawns,
                    empty_squares,
                    push_mask,
                    mv.to as int,
                ) && mv.from == pawn_from(g.color_to_move == 0, 8, mv.to as int)) || (double_push(
                    g.color_to_move as int,
                    stm_pawns,
                    empty_squares,
                    push_mask,
                    mv.to as int,
                ) && mv.from == pawn_from(g.color_to_move == 0, 16, mv.to as int))
            },
{
    let stm_color_iswhite = g.color_to_move == WHITE;
    let ghost white = g.color_to_move == 0;
    let ghost hlm_in = stm_haslegalmove;
    let ghost ci = g.color_to_move as int;
    let mut stm_haslegalmove = stm_haslegalmove;
    let ghost before = movelist.move_list@;
    //Single push (promotions and pushes)
    let single = if stm_color_iswhite {
        w_single_push_pawn_targets(stm_pawns, empty_squares)
    } else {
        b_single_push_pawn_targets(stm_pawns, empty_squares)
    };
    let stm_pawns_single_push = single & push_mask;
    proof {
        assert forall|t: int| 0 <= t < 64 implies #[trigger] bit(stm_pawns_single_push, t)
            == single_push(ci, stm_pawns, empty_squares, push_mask, t) by {}
        crate::bitboards::lemma_zero_board(stm_pawns_single_push);
        if stm_pawns_single_push != 0u64 {
            let t = choose|t: int| 0 <= t < 64 && #[trigger] bit(stm_pawns_single_push, t);
            assert(single_push(ci, stm_pawns, empty_squares, push_mask, t));
        }
    }
    stm_haslegalmove = stm_haslegalmove || stm_pawns_single_push != 0u64;
    let stm_pawn_promotions = stm_pawns_single_push & ranks[if stm_color_iswhite {
        7
    } else {
        0
    }];
    proof {
        assert forall|t: int| 0 <= t < 64 && #[trigger] bit(stm_pawns_single_push, t) implies 0
            <= pawn_from(stm_color_iswhite, 8, t) < 64 && bit(
            g.pieces[0][ci],
            pawn_from(stm_color_iswhite, 8, t),
        ) && !bit(occupancy(g.pieces), t) by {}
    }
    if !only_captures {
        add_pawn_moves_to_movelist(
            movelist,
            stm_pawn_promotions,
            8,
            stm_color_iswhite,
            0,
            0,
            0,
            0,
            0,
            false,
            true,
            pinned_pieces,
        );
    }
    let ghost mid = movelist.move_list@;
    proof {
        assert forall|i: int| 0 <= i < mid.len() implies sound_move(*g, #[trigger] mid[i]) by {
            if i < before.len() {
                assert(mid[i] == before[i]);
            } else {
                let t = mid[i].to as int;
                assert(bit(stm_pawns_single_push, t));
                lemma_occupancy(g.pieces, t);
            }
        }
    }
    let stm_pawns_quiet_single_push = stm_pawns_single_push & !stm_pawn_promotions;
    if !only_captures {
        add_pawn_moves_to_movelist(
            movelist,
            stm_pawns_quiet_single_push,
            8,
            stm_color_iswhite,
            0,
            0,
            0,
            0,
            0,
            false,
            false,
            pinned_pieces,
        );
    }
    let ghost mid2 = movelist.move_list@;
    proof {
        assert forall|i: int| 0 <= i < mid2.len() implies sound_move(*g, #[trigger] mid2[i]) by {
            if i < mid.len() {
                assert(mid2[i] == mid[i]);
            } else {
                let t = mid2[i].to as int;
                assert(bit(stm_pawns_single_push, t));
                lemma_occupancy(g.pieces, t);
            }
        }
        if !only_captures {
            assert forall|t: int|
                0 <= t < 64 && #[trigger] single_push(ci, stm_pawns, empty_squares, push_mask, t)
                    && !bit(pinned_pieces, pawn_from(white, 8, t)) implies has_move(
                before,
                mid2,
                pawn_from(white, 8, t),
                t,
            ) by {
                assert(bit(stm_pawns_single_push, t));
                if bit(stm_pawn_promotions, t) {
                    assert(has_target(before, mid, t));
                    let i = choose|i: int| before.len() <= i < mid.len() && (#[trigger] mid[i]).to == t;
                    assert(mid2[i] == mid[i]);
                    assert(mid2[i].from == pawn_from(white, 8, t));
                } else {
                    assert(bit(stm_pawns_quiet_single_push, t));
                    assert(has_target(mid, mid2, t));
                    let i = choose|i: int| mid.len() <= i < mid2.len() && (#[trigger] mid2[i]).to == t;
                    assert(mid2[i].from == pawn_from(white, 8, t));
                }
            }
        }
    }
    let ghost single_exists = exists|t: int|
        0 <= t < 64 && #[trigger] single_push(ci, stm_pawns, empty_squares, push_mask, t);
    proof {
        crate::bitboards::lemma_zero_board(stm_pawns_single_push);
        if !single_exists {
            assert forall|t: int| 0 <= t < 64 implies !#[trigger] bit(stm_pawns_single_push, t) by {
                assert(bit(stm_pawns_single_push, t) == single_push(ci, stm_pawns, empty_squares, push_mask, t));
            }
        } else {
            let t = choose|t: int|
                0 <= t < 64 && #[trigger] single_push(ci, stm_pawns, empty_squares, push_mask, t);
            assert(bit(stm_pawns_single_push, t) == single_push(ci, stm_pawns, empty_squares, push_mask, t));
        }
        assert((stm_pawns_single_push != 0u64) == single_exists);
    }
    //Double push
    if !only_captures || !stm_haslegalmove {
        let double = if stm_color_iswhite {
            w_double_push_pawn_targets(stm_pawns, empty_squares)
        } else {
            b_double_push_pawn_targets(stm_pawns, empty_squares)
        };
        let stm_pawns_double_push = double & push_mask;
        proof {
            assert forall|t: int| 0 <= t < 64 implies #[trigger] bit(stm_pawns_double_push, t)
                == double_push(ci, stm_pawns, empty_squares, push_mask, t) by {}
            crate::bitboards::lemma_zero_board(stm_pawns_double_push);
            if stm_pawns_double_push != 0u64 {
                let t = choose|t: int| 0 <= t < 64 && #[trigger] bit(stm_pawns_double_push, t);
                assert(double_push(ci, stm_pawns, empty_squares, push_mask, t));
            } else {
                assert forall|t: int| 0 <= t < 64 implies !#[trigger] double_push(ci, stm_pawns, empty_squares, push_mask, t) by {
                    assert(!bit(stm_pawns_double_push, t));
                }
            }
        }
        stm_haslegalmove = stm_haslegalmove || stm_pawns_double_push != 0u64;
        if !only_captures {
            add_pawn_moves_to_movelist(
                movelist,
                stm_pawns_double_push,
                16,
                stm_color_iswhite,
                0,
                0,
                0,
                0,
                0,
                false,
                false,
                pinned_pieces,
            );
            proof {
                let now = movelist.move_list@;
                assert forall|i: int| 0 <= i < now.len() implies sound_move(*g, #[trigger] now[i]) by {
                    if i < mid2.len() {
                        assert(now[i] == mid2[i]);
                    } else {
                        let t = now[i].to as int;
                        assert(bit(stm_pawns_double_push, t));
                        lemma_occupancy(g.pieces, t);
                    }
                }
                assert forall|t: int|
                    0 <= t < 64 && #[trigger] single_push(ci, stm_pawns, empty_squares, push_mask, t)
                        && !bit(pinned_pieces, pawn_from(white, 8, t)) implies has_move(
                    before,
                    now,
                    pawn_from(white, 8, t),
                    t,
                ) by {
                    assert(has_move(before, mid2, pawn_from(white, 8, t), t));
                    let i = choose|i: int|
                        before.len() <= i < mid2.len() && (#[trigger] mid2[i]).from == pawn_from(white, 8, t)
                            && mid2[i].to == t;
                    assert(now[i] == mid2[i]);
                }
                assert forall|t: int|
                    0 <= t < 64 && #[trigger] double_push(ci, stm_pawns, empty_squares, push_mask, t)
                        && !bit(pinned_pieces, pawn_from(white, 16, t)) implies has_move(
                    before,
                    now,
                    pawn_from(white, 16, t),
                    t,
                ) by {
                    assert(bit(stm_pawns_double_push, t));
                    assert(has_target(mid2, now, t));
                    let i = choose|i: int| mid2.len() <= i < now.len() && (#[trigger] now[i]).to == t;
                    assert(now[i].from == pawn_from(white, 16, t));
                }
            }
        }
    }
    stm_haslegalmove
}


/// A pawn capture on `attack_board` reaches `t`, an enemy piece on the capture mask.
pub open spec fn pawn_capture_target(abb: AdditionalBitBoards, attack_board: u64, capture_mask: u64, t: int) -> bool {
    bit(attack_board, t) && bit(capture_mask, t) && bit(abb.enemy_pieces, t)
}

/// The pawn captures on one side (`shift` 7 for west, 9 for east) of the pawns of the
/// side to move that are not pinned: captures of the enemy pieces on the capture mask
/// among the squares of `attack_board`, promoting on the last rank. Tells whether there
/// is one.
#[verifier::spinoff_prover]
#[verifier::rlimit(80)]
fn add_pawn_captures(
    g: &GameState,
    movelist: &mut MoveList,
    abb: &AdditionalBitBoards,
    attack_board: u64,
    shift: usize,
    capture_mask: u64,
    pinned_pieces: u64,
    ranks: &[u64; 8],
) -> (res: bool)
    requires
        position_ok(*g),
        abb_of(*g, *abb),
        shift == 7 || shift == 9,
        forall|t: int|
            0 <= t < 64 && #[trigger] bit(attack_board, t) ==> 0 <= pawn_from(
                g.color_to_move == 0,
                shift as int,
                t,
            ) < 64 && bit(g.pieces[0][g.color_to_move as int], pawn_from(g.color_to_move == 0, shift as int, t))
                && pawn_attacks(
                g.color_to_move as int,
                pawn_from(g.color_to_move == 0, shift as int, t),
                t,
            ),
        all_sound(*g, old(movelist).move_list@),
    ensures
        all_sound(*g, final(movelist).move_list@),
        all_captures(old(movelist).move_list@) ==> all_captures(final(movelist).move_list@),
        extends(old(movelist).move_list@, final(movelist).move_list@),
        res == exists|t: int|
            0 <= t < 64 && #[trigger] pawn_capture_target(*abb, attack_board, capture_mask, t) && !bit(
                pinned_pieces,
                pawn_from(g.color_to_move == 0, shift as int, t),
            ),
        forall|t: int|
            0 <= t < 64 && #[trigger] pawn_capture_target(*abb, attack_board, capture_mask, t) && !bit(
                pinned_pieces,
                pawn_from(g.color_to_move == 0, shift as int, t),
            ) ==> has_move(
                old(movelist).move_list@,
                final(movelist).move_list@,
                pawn_from(g.color_to_move == 0, shift as int, t),
                t,
            ),
        forall|i: int|
            old(movelist).move_list@.len() <= i < final(movelist).move_list@.len() ==> {
                let mv = #[trigger] final(movelist).move_list@[i];
                &&& mv.piece_type == PieceType::Pawn
                &&& !bit(pinned_pieces, mv.from as int)
                &&& pawn_capture_target(*abb, attack_board, capture_mask, mv.to as int)
                &&& mv.from == pawn_from(g.color_to_move == 0, shift as int, mv.to as int)
            },
{
    let c = g.color_to_move;
    let e = 1 - c;
    let ghost ci = c as int;
    let stm_color_iswhite = c == WHITE;
    let ghost white = g.color_to_move == 0;
    let enemy_pawns = g.pieces[PAWN][e];
    let enemy_knights = g.pieces[KNIGHT][e];
    let enemy_bishops = g.pieces[BISHOP][e];
    let enemy_rooks = g.pieces[ROOK][e];
    let enemy_queens = g.pieces[QUEEN][e];
    let ghost before = movelist.move_list@;
    let captures = attack_board & capture_mask & abb.enemy_pieces;
    proof {
        assert forall|t: int| 0 <= t < 64 && #[trigger] bit(captures, t) implies capturable(
            t,
            enemy_pawns,
            enemy_knights,
            enemy_bishops,
            enemy_rooks,
            enemy_queens,
        ) by {
            let f = pawn_from(stm_color_iswhite, shift as int, t);
            assert(piece_attacks(0, ci, f, occupancy(g.pieces), t));
            lemma_attacked_not_king(*g, 0, f, t);
        }
    }
    //Split up in promotion and non-promotion captures
    let promotion_captures = captures & ranks[if stm_color_iswhite {
        7
    } else {
        0
    }];
    let found1 = add_pawn_moves_to_movelist(
        movelist,
        promotion_captures,
        shift,
        stm_color_iswhite,
        enemy_pawns,
        enemy_knights,
        enemy_bishops,
        enemy_rooks,
        enemy_queens,
        true,
        true,
        pinned_pieces,
    );
    let ghost mid = movelist.move_list@;
    proof {
        assert forall|i: int| 0 <= i < mid.len() implies sound_move(*g, #[trigger] mid[i]) by {
            if i < before.len() {
                assert(mid[i] == before[i]);
            } else {
                let t = mid[i].to as int;
                assert(bit(captures, t));
                assert(side_at(g.pieces, 1 - ci, t));
                assert(capturable(t, enemy_pawns, enemy_knights, enemy_bishops, enemy_rooks, enemy_queens));
            }
        }
    }
    let nonpromotion_captures = captures & !promotion_captures;
    let found2 = add_pawn_moves_to_movelist(
        movelist,
        nonpromotion_captures,
        shift,
        stm_color_iswhite,
        enemy_pawns,
        enemy_knights,
        enemy_bishops,
        enemy_rooks,
        enemy_queens,
        true,
        false,
        pinned_pieces,
    );
    proof {
        let now = movelist.move_list@;
        assert forall|i: int| 0 <= i < now.len() implies sound_move(*g, #[trigger] now[i]) by {
            if i < mid.len() {
                assert(now[i] == mid[i]);
            } else {
                let t = now[i].to as int;
                assert(bit(captures, t));
                assert(side_at(g.pieces, 1 - ci, t));
                assert(capturable(t, enemy_pawns, enemy_knights, enemy_bishops, enemy_rooks, enemy_queens));
            }
        }
        assert forall|t: int| 0 <= t < 64 implies #[trigger] bit(captures, t) == pawn_capture_target(
            *abb,
            attack_board,
            capture_mask,
            t,
        ) by {}
        assert forall|t: int|
            0 <= t < 64 && #[trigger] pawn_capture_target(*abb, attack_board, capture_mask, t) && !bit(
                pinned_pieces,
                pawn_from(white, shift as int, t),
            ) implies has_move(before, now, pawn_from(white, shift as int, t), t) by {
            assert(bit(captures, t));
            if bit(promotion_captures, t) {
                assert(has_target(before, mid, t));
                let i = choose|i: int| before.len() <= i < mid.len() && (#[trigger] mid[i]).to == t;
                assert(now[i] == mid[i]);
                assert(now[i].from == pawn_from(white, shift as int, t));
            } else {
                assert(bit(nonpromotion_captures, t));
                assert(has_target(mid, now, t));
                let i = choose|i: int| mid.len() <= i < now.len() && (#[trigger] now[i]).to == t;
                assert(now[i].from == pawn_from(white, shift as int, t));
            }
        }
        let ex = exists|t: int|
            0 <= t < 64 && #[trigger] pawn_capture_target(*abb, attack_board, capture_mask, t) && !bit(
                pinned_pieces,
                pawn_from(white, shift as int, t),
            );
        if found1 {
            let t = choose|t: int|
                0 <= t < 64 && #[trigger] bit(promotion_captures, t) && !bit(
                    pinned_pieces,
                    pawn_from(stm_color_iswhite, shift as int, t),
                );
            assert(pawn_capture_target(*abb, attack_board, capture_mask, t));
        }
        if found2 {
            let t = choose|t: int|
                0 <= t < 64 && #[trigger] bit(nonpromotion_captures, t) && !bit(
                    pinned_pieces,
                    pawn_from(stm_color_iswhite, shift as int, t),
                );
            assert(pawn_capture_target(*abb, attack_board, capture_mask, t));
        }
        if ex {
            let t = choose|t: int|
                0 <= t < 64 && #[trigger] pawn_capture_target(*abb, attack_board, capture_mask, t) && !bit(
                    pinned_pieces,
                    pawn_from(white, shift as int, t),
                );
            assert(bit(captures, t));
            if bit(promotion_captures, t) {
                assert(found1);
            } else {
                assert(bit(nonpromotion_captures, t));
                assert(found2);
            }
        }
    }
    found1 || found2
}

/// The en-passant squares a pawn capture of the side to move on `attack_board` reaches
/// where the pawn it takes stands on the capture mask.
pub open spec fn en_passant_targets(g: GameState, attack_board: u64, capture_mask: u64) -> u64 {
    attack_board & g.en_passant & if g.color_to_move == 0 {
        capture_mask << 8u64
    } else {
        capture_mask >> 8u64
    }
}

/// With the capturing pawn off `from` and the taken pawn off `victim`, an enemy rook or
/// queen on the rank of the king on `king` reaches the king.
pub open spec fn en_passant_exposes_king(
    g: GameState,
    abb: AdditionalBitBoards,
    king: int,
    from: int,
    victim: int,
) -> bool {
    let e = 1 - g.color_to_move as int;
    let occ = abb.all_pieces & !(1u64 << from as u64) & !(1u64 << victim as u64);
    exists|t: int|
        0 <= t < 64 && rank_of(t) == rank_of(king) && #[trigger] rook_reaches(king, occ, t) && (bit(
            g.pieces[3][e],
            t,
        ) || bit(g.pieces[4][e], t))
}

/// The capture en passant on one side that the move generator makes: onto the lowest of
/// the en-passant targets, by the pawn `shift` squares behind it, where no pawn of the
/// targets' is pinned and taking both pawns off the board does not expose the king.
pub open spec fn en_passant_capture(
    g: GameState,
    abb: AdditionalBitBoards,
    attack_board: u64,
    shift: int,
    capture_mask: u64,
    pinned_pieces: u64,
    king: int,
) -> Option<GameMove> {
    let white = g.color_to_move == 0;
    let targets = en_passant_targets(g, attack_board, capture_mask);
    let to = lowest_square(targets);
    let from = pawn_from(white, shift, to);
    let victim = if white {
        to - 8
    } else {
        to + 8
    };
    if targets != 0u64 && (if white {
        targets >> shift as u64
    } else {
        targets << shift as u64
    }) & pinned_pieces == 0u64 && !en_passant_exposes_king(g, abb, king, from, victim) {
        Some(
            GameMove {
                from: from as usize,
                to: to as usize,
                move_type: GameMoveType::EnPassant,
                piece_type: PieceType::Pawn,
            },
        )
    } else {
        None
    }
}

/// The capture en passant on one side (`shift` 7 for west, 9 for east) by a pawn of the
/// side to move that is not pinned, onto the en-passant square where the captured pawn
/// stands on the capture mask, unless taking both pawns off the king's rank would expose
/// the king to an enemy rook or queen. Tells whether there is one.
fn add_en_passant_move(
    g: &GameState,
    movelist: &mut MoveList,
    abb: &AdditionalBitBoards,
    attack_board: u64,
    shift: usize,
    capture_mask: u64,
    pinned_pieces: u64,
    stm_king_index: usize,
    ranks: &[u64; 8],
) -> (res: bool)
    requires
        position_ok(*g),
        abb_of(*g, *abb),
        shift == 7 || shift == 9,
        stm_king_index < 64,
        forall|t: int|
            0 <= t < 64 && #[trigger] bit(attack_board, t) ==> 0 <= pawn_from(
                g.color_to_move == 0,
                shift as int,
                t,
            ) < 64 && bit(g.pieces[0][g.color_to_move as int], pawn_from(g.color_to_move == 0, shift as int, t)),
        forall|r: int, t: int|
            0 <= r < 8 && 0 <= t < 64 ==> #[trigger] bit(ranks[r], t) == (rank_of(t) == r),
        all_sound(*g, old(movelist).move_list@),
    ensures
        all_sound(*g, final(movelist).move_list@),
        all_captures(old(movelist).move_list@) ==> all_captures(final(movelist).move_list@),
        res == en_passant_capture(
            *g,
            *abb,
            attack_board,
            shift as int,
            capture_mask,
            pinned_pieces,
            stm_king_index as int,
        ) is Some,
        final(movelist).move_list@ == match en_passant_capture(
            *g,
            *abb,
            attack_board,
            shift as int,
            capture_mask,
            pinned_pieces,
            stm_king_index as int,
        ) {
            Some(mv) => old(movelist).move_list@.push(mv),
            None => old(movelist).move_list@,
        },
{
    let c = g.color_to_move;
    let e = 1 - c;
    let stm_color_iswhite = c == WHITE;
    let enemy_rooks = g.pieces[ROOK][e];
    let enemy_queens = g.pieces[QUEEN][e];
    let ghost before = movelist.move_list@;
    let mut found = false;
    let enpassants = attack_board & g.en_passant & if stm_color_iswhite {
        capture_mask << 8u64
    } else {
        capture_mask >> 8u64
    };
    if enpassants != 0u64 && (if stm_color_iswhite {
        enpassants >> shift as u64
    } else {
        enpassants << shift as u64
    }) & pinned_pieces == 0u64 {
        proof {
            vstd::std_specs::bits::axiom_u64_trailing_zeros(enpassants);
            crate::bitboards::lemma_zero_board(enpassants);
            let t = lowest_square(enpassants);
            assert(bit(enpassants, t));
            assert(bit(g.en_passant, t));
            assert(en_passant_square_ok(*g, t));
            lemma_occupancy(g.pieces, t);
            lemma_occupancy(g.pieces, pawn_from(stm_color_iswhite, shift as int, t));
        }
        let pawn_index = enpassants.trailing_zeros() as usize;
        let (pawn_from, removed_piece_index) = if stm_color_iswhite {
            (pawn_index - shift, pawn_index - 8)
        } else {
            (pawn_index + shift, pawn_index + 8)
        };
        let all_pieces_without_en_passants = abb.all_pieces & !(1u64 << pawn_from as u64) & !(1u64
            << removed_piece_index as u64);
        let exposing = rook_attack(stm_king_index, all_pieces_without_en_passants)
            & ranks[stm_king_index / 8] & (enemy_rooks | enemy_queens);
        proof {
            crate::bitboards::lemma_zero_board(exposing);
            let k = stm_king_index as int;
            assert(rank_of(k) == k / 8);
            assert(exposing == 0u64 <==> !en_passant_exposes_king(
                *g,
                *abb,
                k,
                pawn_from as int,
                removed_piece_index as int,
            )) by {
                if exposing != 0u64 {
                    let t = choose|t: int| 0 <= t < 64 && #[trigger] bit(exposing, t);
                    assert(rank_of(t) == rank_of(k));
                }
                if en_passant_exposes_king(*g, *abb, k, pawn_from as int, removed_piece_index as int) {
                    let t = choose|t: int|
                        0 <= t < 64 && rank_of(t) == rank_of(k) && #[trigger] rook_reaches(
                            k,
                            all_pieces_without_en_passants,
                            t,
                        ) && (bit(g.pieces[3][1 - c as int], t) || bit(g.pieces[4][1 - c as int], t));
                    assert(bit(exposing, t));
                }
            }
        }
        if exposing == 0u64 {
            found = true;
            add_move_to_movelist(movelist, pawn_from, pawn_index, PieceType::Pawn, GameMoveType::EnPassant);
            proof {
                let now = movelist.move_list@;
                assert forall|i: int| 0 <= i < now.len() implies sound_move(*g, #[trigger] now[i]) by {
                    if i < before.len() {
                        assert(now[i] == before[i]);
                    }
                }
            }
        }
    }
    found
}

/// The side to move may castle towards the king's side (`king_side`) or the queen's
/// side: it keeps the right, the squares between king and rook are empty, and the squares
/// the king passes and lands on are not attacked.
pub open spec fn castle_open(g: GameState, abb: AdditionalBitBoards, king_side: bool) -> bool {
    let blocked = |t: int| bit(abb.all_pieces, t) || bit(abb.stm_unsafe_squares, t);
    if g.color_to_move == 0 {
        if king_side {
            g.castle_white_kingside && !blocked(5) && !blocked(6)
        } else {
            g.castle_white_queenside && !blocked(2) && !blocked(3) && !bit(abb.all_pieces, 1)
        }
    } else {
        if king_side {
            g.castle_black_kingside && !blocked(61) && !blocked(62)
        } else {
            g.castle_black_queenside && !blocked(58) && !blocked(59) && !bit(abb.all_pieces, 57)
        }
    }
}

/// The king's move of the castle towards the given side.
pub open spec fn castle_move(g: GameState, king: int, king_side: bool) -> GameMove {
    GameMove {
        from: king as usize,
        to: (if g.color_to_move == 0 {
            if king_side {
                6int
            } else {
                2int
            }
        } else {
            if king_side {
                62int
            } else {
                58int
            }
        }) as usize,
        move_type: GameMoveType::Castle,
        piece_type: PieceType::King,
    }
}

/// The castle moves open to the side to move: king's side first, then queen's side.
pub open spec fn castle_moves(g: GameState, abb: AdditionalBitBoards, king: int) -> Seq<GameMove> {
    (if castle_open(g, abb, true) {
        seq![castle_move(g, king, true)]
    } else {
        Seq::empty()
    }) + (if castle_open(g, abb, false) {
        seq![castle_move(g, king, false)]
    } else {
        Seq::empty()
    })
}

/// A board is empty on two squares exactly when it meets neither.
proof fn lemma_two_free(b: u64, x: u64, y: u64)
    requires
        x < 64,
        y < 64,
    ensures
        (b & ((1u64 << x) | (1u64 << y)) == 0u64) == (!bit(b, x as int) && !bit(b, y as int)),
{
    crate::bitboards::lemma_zero_board(b & ((1u64 << x) | (1u64 << y)));
    assert(bit(b & ((1u64 << x) | (1u64 << y)), x as int) == bit(b, x as int));
    assert(bit(b & ((1u64 << x) | (1u64 << y)), y as int) == bit(b, y as int));
}

/// A board is empty on two squares, and another on a third, exactly when they meet none.
proof fn lemma_three_free(b: u64, a: u64, x: u64, y: u64, z: u64)
    requires
        x < 64,
        y < 64,
        z < 64,
        x != z,
        y != z,
    ensures
        (((b & ((1u64 << x) | (1u64 << y))) | (a & (1u64 << z))) == 0u64) == (!bit(b, x as int)
            && !bit(b, y as int) && !bit(a, z as int)),
{
    let w = (b & ((1u64 << x) | (1u64 << y))) | (a & (1u64 << z));
    crate::bitboards::lemma_zero_board(w);
    assert(bit(w, x as int) ==> bit(b, x as int));
    assert(bit(w, y as int) ==> bit(b, y as int));
    assert(bit(w, z as int) ==> bit(b, z as int) || bit(a, z as int));
    assert(bit(b, x as int) ==> bit(w, x as int));
    assert(bit(b, y as int) ==> bit(w, y as int));
    assert(bit(a, z as int) ==> bit(w, z as int));
}

/// The castle moves of the side to move: for each castle right, when the squares between
/// king and rook are empty and those the king crosses are not attacked, the king's move
/// (appended unless only captures are asked for). Tells whether there is one.
fn add_castle_moves(
    g: &GameState,
    movelist: &mut MoveList,
    abb: &AdditionalBitBoards,
    only_captures: bool,
    stm_king_index: usize,
) -> (res: bool)
    requires
        position_ok(*g),
        abb_of(*g, *abb),
        stm_king_index == lowest_square(g.pieces[5][g.color_to_move as int]),
        all_sound(*g, old(movelist).move_list@),
    ensures
        all_sound(*g, final(movelist).move_list@),
        final(movelist).move_list@ == if only_captures {
            old(movelist).move_list@
        } else {
            old(movelist).move_list@ + castle_moves(*g, *abb, stm_king_index as int)
        },
        res == (castle_open(*g, *abb, true) || castle_open(*g, *abb, false)),
{
    let ghost ci = g.color_to_move as int;
    let ghost before = movelist.move_list@;
    let mut found = false;
    let blocked = abb.all_pieces | abb.stm_unsafe_squares;
    proof {
        lemma_two_free(blocked, 5, 6);
        lemma_two_free(blocked, 61, 62);
        lemma_three_free(blocked, abb.all_pieces, 2, 3, 1);
        lemma_three_free(blocked, abb.all_pieces, 58, 59, 57);
        assert forall|t: int| 0 <= t < 64 implies #[trigger] bit(blocked, t) == (bit(abb.all_pieces, t) || bit(abb.stm_unsafe_squares, t)) by {}
    }
    proof {
        vstd::std_specs::bits::axiom_u64_trailing_zeros(g.pieces[5][ci]);
        crate::bitboards::lemma_zero_board(g.pieces[5][ci]);
        assert(bit(g.pieces[5][ci], stm_king_index as int));
        lemma_occupancy(g.pieces, stm_king_index as int);
    }
    if g.color_to_move == WHITE {
        if g.castle_white_kingside && blocked & ((1u64 << 5u64) | (1u64 << 6u64)) == 0u64 {
            found = true;
            if !only_captures {
                proof {
                    crate::bitboards::lemma_and_zero(blocked, (1u64 << 5u64) | (1u64 << 6u64));
                    assert(bit((1u64 << 5u64) | (1u64 << 6u64), 5));
                    assert(bit((1u64 << 5u64) | (1u64 << 6u64), 6));
                    assert(!bit(blocked, 5));
                    assert(!bit(blocked, 6));
                    assert(!bit(abb.all_pieces, 5));
                    assert(!bit(abb.all_pieces, 6));
                    lemma_occupancy(g.pieces, 5);
                    lemma_occupancy(g.pieces, 6);
                }
                movelist.add_move(
                    GameMove {
                        from: stm_king_index,
                        to: 6usize,
                        move_type: GameMoveType::Castle,
                        piece_type: PieceType::King,
                    },
                );
            }
        }
        let ghost mid = movelist.move_list@;
        proof {
            assert forall|i: int| 0 <= i < mid.len() implies sound_move(*g, #[trigger] mid[i]) by {
                if i < before.len() {
                    assert(mid[i] == before[i]);
                }
            }
        }
        if g.castle_white_queenside && ((blocked & ((1u64 << 2u64) | (1u64 << 3u64))) | (abb.all_pieces
            & (1u64 << 1u64))) == 0u64 {
            found = true;
            if !only_captures {
                proof {
                    crate::bitboards::lemma_zero_board(
                        (blocked & ((1u64 << 2u64) | (1u64 << 3u64))) | (abb.all_pieces & (1u64
                            << 1u64)),
                    );
                    assert(!bit(
                        (blocked & ((1u64 << 2u64) | (1u64 << 3u64))) | (abb.all_pieces & (1u64
                            << 1u64)),
                        2,
                    ));
                    assert(!bit(
                        (blocked & ((1u64 << 2u64) | (1u64 << 3u64))) | (abb.all_pieces & (1u64
                            << 1u64)),
                        3,
                    ));
                    lemma_occupancy(g.pieces, 2);
                    lemma_occupancy(g.pieces, 3);
                }
                movelist.add_move(
                    GameMove {
                        from: stm_king_index,
                        to: 2usize,
                        move_type: GameMoveType::Castle,
                        piece_type: PieceType::King,
                    },
                );
                proof {
                    let now = movelist.move_list@;
                    assert forall|i: int| 0 <= i < now.len() implies sound_move(*g, #[trigger] now[i]) by {
                        if i < mid.len() {
                            assert(now[i] == mid[i]);
                        }
                    }
                }
            }
        }
    } else {
        if g.castle_black_kingside && blocked & ((1u64 << 61u64) | (1u64 << 62u64)) == 0u64 {
            found = true;
            if !only_captures {
                proof {
                    crate::bitboards::lemma_and_zero(blocked, (1u64 << 61u64) | (1u64 << 62u64));
                    assert(bit((1u64 << 61u64) | (1u64 << 62u64), 61));
                    assert(bit((1u64 << 61u64) | (1u64 << 62u64), 62));
                    assert(!bit(blocked, 61));
                    assert(!bit(blocked, 62));
                    assert(!bit(abb.all_pieces, 61));
                    assert(!bit(abb.all_pieces, 62));
                    lemma_occupancy(g.pieces, 61);
                    lemma_occupancy(g.pieces, 62);
                }
                movelist.add_move(
                    GameMove {
                        from: stm_king_index,
                        to: 62usize,
                        move_type: GameMoveType::Castle,
                        piece_type: PieceType::King,
                    },
                );
            }
        }
        let ghost mid = movelist.move_list@;
        proof {
            assert forall|i: int| 0 <= i < mid.len() implies sound_move(*g, #[trigger] mid[i]) by {
                if i < before.len() {
                    assert(mid[i] == before[i]);
                }
            }
        }
        if g.castle_black_queenside && ((blocked & ((1u64 << 58u64) | (1u64 << 59u64))) | (
        abb.all_pieces & (1u64 << 57u64))) == 0u64 {
            found = true;
            if !only_captures {
                proof {
                    crate::bitboards::lemma_zero_board(
                        (blocked & ((1u64 << 58u64) | (1u64 << 59u64))) | (abb.all_pieces & (1u64
                            << 57u64)),
                    );
                    assert(!bit(
                        (blocked & ((1u64 << 58u64) | (1u64 << 59u64))) | (abb.all_pieces & (1u64
                            << 57u64)),
                        58,
                    ));
                    assert(!bit(
                        (blocked & ((1u64 << 58u64) | (1u64 << 59u64))) | (abb.all_pieces & (1u64
                            << 57u64)),
                        59,
                    ));
                    lemma_occupancy(g.pieces, 58);
                    lemma_occupancy(g.pieces, 59);
                }
                movelist.add_move(
                    GameMove {
                        from: stm_king_index,
                        to: 58usize,
                        move_type: GameMoveType::Castle,
                        piece_type: PieceType::King,
                    },
                );
                proof {
                    let now = movelist.move_list@;
                    assert forall|i: int| 0 <= i < now.len() implies sound_move(*g, #[trigger] now[i]) by {
                        if i < mid.len() {
                            assert(now[i] == mid[i]);
                        }
                    }
                }
            }
        }
    }
    found
}


/// What the move generator learns of a position besides its moves.
#[derive(Clone, Copy)]
pub struct AdditionalGameStateInformation {
    pub stm_incheck: bool,
    pub stm_haslegalmove: bool,
    pub additional_bitboards: AdditionalBitBoards,
}

/// The boards of `calculate_additionalbitboards` for the side to move of `g` are those of
/// `abb_of`.
proof fn lemma_abb_of(g: GameState, abb: AdditionalBitBoards)
    requires
        g.color_to_move < 2,
        ({
            let c = g.color_to_move as int;
            let e = 1 - c;
            let p = g.pieces;
            &&& forall|t: int|
                0 <= t < 64 ==> #[trigger] bit(abb.stm_pieces_without_king, t) == (bit(p[0][c], t)
                    || bit(p[1][c], t) || bit(p[2][c], t) || bit(p[3][c], t) || bit(p[4][c], t))
            &&& forall|t: int|
                0 <= t < 64 ==> #[trigger] bit(abb.stm_pieces, t) == (bit(
                    abb.stm_pieces_without_king,
                    t,
                ) || bit(p[5][c], t))
            &&& forall|t: int|
                0 <= t < 64 ==> #[trigger] bit(abb.enemy_pieces, t) == (bit(p[0][e], t) || bit(
                    p[1][e],
                    t,
                ) || bit(p[2][e], t) || bit(p[3][e], t) || bit(p[4][e], t) || bit(p[5][e], t))
            &&& forall|t: int|
                0 <= t < 64 ==> #[trigger] bit(abb.all_pieces_without_stmking, t) == (bit(
                    abb.enemy_pieces,
                    t,
                ) || bit(abb.stm_pieces_without_king, t))
            &&& forall|t: int|
                0 <= t < 64 ==> #[trigger] bit(abb.all_pieces, t) == (bit(
                    abb.all_pieces_without_stmking,
                    t,
                ) || bit(p[5][c], t))
            &&& forall|t: int|
                0 <= t < 64 ==> #[trigger] bit(abb.stm_pawns_westattack, t) == pawn_west_square(
                    c == 0,
                    p[0][c],
                    t,
                )
            &&& forall|t: int|
                0 <= t < 64 ==> #[trigger] bit(abb.stm_pawns_eastattack, t) == pawn_east_square(
                    c == 0,
                    p[0][c],
                    t,
                )
            &&& forall|t: int|
                0 <= t < 64 ==> #[trigger] bit(abb.stm_king_attacks, t) == (king_adjacent(
                    lowest_square(p[5][c]),
                    t,
                ) && !bit(abb.stm_pieces, t))
        }),
    ensures
        abb_of(g, abb),
{
    assert forall|t: int| 0 <= t < 64 implies #[trigger] bit(abb.all_pieces, t) == bit(
        occupancy(g.pieces),
        t,
    ) by {
        lemma_occupancy(g.pieces, t);
    }
    crate::bitboards::lemma_bit_extensional(abb.all_pieces, occupancy(g.pieces));
}

/// Some entry of `list` moves from `f` to `t`.
pub open spec fn listed(list: Seq<GameMove>, f: int, t: int) -> bool {
    exists|i: int| 0 <= i < list.len() && (#[trigger] list[i]).from == f && list[i].to == t
}

/// A move appended from `old` to `mid` stays listed in any extension of `mid`.
proof fn lemma_listed_kept(old: Seq<GameMove>, mid: Seq<GameMove>, new: Seq<GameMove>)
    requires
        extends(mid, new),
    ensures
        forall|f: int, t: int| #[trigger] has_move(old, mid, f, t) ==> listed(new, f, t),
{
    assert forall|f: int, t: int| #[trigger] has_move(old, mid, f, t) implies listed(new, f, t) by {
        let i = choose|i: int| old.len() <= i < mid.len() && (#[trigger] mid[i]).from == f && mid[i].to == t;
        assert(new[i] == mid[i]);
    }
}

proof fn lemma_extends_trans(a: Seq<GameMove>, b: Seq<GameMove>, c: Seq<GameMove>)
    requires
        extends(a, b),
        extends(b, c),
    ensures
        extends(a, c),
{
    assert forall|i: int| 0 <= i < a.len() implies #[trigger] c[i] == a[i] by {
        assert(c[i] == b[i]);
    }
}

/// `b` holds the pieces on the board but the king of the side to move.
pub open spec fn is_without_king_board(g: GameState, b: u64) -> bool {
    let c = g.color_to_move as int;
    let p = g.pieces;
    forall|t: int|
        0 <= t < 64 ==> #[trigger] bit(b, t) == (side_at(p, 1 - c, t) || bit(p[0][c], t) || bit(
            p[1][c],
            t,
        ) || bit(p[2][c], t) || bit(p[3][c], t) || bit(p[4][c], t))
}

/// The board of the pieces but the king of the side to move.
pub open spec fn without_king_board(g: GameState) -> u64 {
    choose|b: u64| #[trigger] is_without_king_board(g, b)
}

/// The square of the king of the side to move.
pub open spec fn king_square(g: GameState) -> int {
    lowest_square(g.pieces[5][g.color_to_move as int])
}

/// The other side attacks `t` once the king of the side to move has left its square: the
/// king may not step there.
pub open spec fn king_unsafe(g: GameState, t: int) -> bool {
    let c = g.color_to_move as int;
    let e = 1 - c;
    let p = g.pieces;
    enemy_attacks(c == 0, p[0][e], p[1][e], p[2][e], p[3][e], p[4][e], p[5][e], without_king_board(g), t)
}

/// The king of the side to move steps to `t`: an adjacent square without a piece of its own
/// that the other side does not attack.
pub open spec fn king_step(g: GameState, t: int) -> bool {
    &&& 0 <= t < 64
    &&& king_adjacent(king_square(g), t)
    &&& !side_at(g.pieces, g.color_to_move as int, t)
    &&& !king_unsafe(g, t)
}

/// `b` holds the pieces of the side to move pinned to its king, along ranks and files or
/// along diagonals.
pub open spec fn is_pinned_board(g: GameState, abb: AdditionalBitBoards, b: u64) -> bool {
    forall|u: int|
        0 <= u < 64 ==> #[trigger] bit(b, u) == (rook_pinned(g, abb, king_square(g), u) || bishop_pinned(
            g,
            abb,
            king_square(g),
            u,
        ))
}

/// The board of the pinned pieces of the side to move.
pub open spec fn pinned_board(g: GameState, abb: AdditionalBitBoards) -> u64 {
    choose|b: u64| #[trigger] is_pinned_board(g, abb, b)
}

/// The pawn pushes appended between `pre` and `mid` stay listed in `fin`, on an open
/// push mask, for the pawns that are not pinned.
proof fn lemma_pushes_listed(
    g: GameState,
    stm_pawns: u64,
    empty: u64,
    push_mask: u64,
    pinned: u64,
    pre: Seq<GameMove>,
    mid: Seq<GameMove>,
    fin: Seq<GameMove>,
)
    requires
        forall|t: int|
            0 <= t < 64 && #[trigger] single_push(g.color_to_move as int, stm_pawns, empty, push_mask, t)
                && !bit(pinned, pawn_from(g.color_to_move == 0, 8, t)) ==> has_move(
                pre,
                mid,
                pawn_from(g.color_to_move == 0, 8, t),
                t,
            ),
        forall|t: int|
            0 <= t < 64 && #[trigger] double_push(g.color_to_move as int, stm_pawns, empty, push_mask, t)
                && !bit(pinned, pawn_from(g.color_to_move == 0, 16, t)) ==> has_move(
                pre,
                mid,
                pawn_from(g.color_to_move == 0, 16, t),
                t,
            ),
        extends(mid, fin),
        forall|u: int|
            0 <= u < 64 && !bit(pinned, u) ==> #[trigger] bit(stm_pawns, u) == bit(
                g.pieces[0][g.color_to_move as int],
                u,
            ),
    ensures
        forall|t: int|
            0 <= t < 64 && #[trigger] single_push(
                g.color_to_move as int,
                g.pieces[0][g.color_to_move as int],
                empty,
                push_mask,
                t,
            ) && !bit(pinned, pawn_from(g.color_to_move == 0, 8, t)) ==> listed(
                fin,
                pawn_from(g.color_to_move == 0, 8, t),
                t,
            ),
        forall|t: int|
            0 <= t < 64 && #[trigger] double_push(
                g.color_to_move as int,
                g.pieces[0][g.color_to_move as int],
                empty,
                push_mask,
                t,
            ) && !bit(pinned, pawn_from(g.color_to_move == 0, 16, t)) ==> listed(
                fin,
                pawn_from(g.color_to_move == 0, 16, t),
                t,
            ),
{
    lemma_listed_kept(pre, mid, fin);
    let c = g.color_to_move as int;
    assert forall|t: int|
        0 <= t < 64 && #[trigger] single_push(c, g.pieces[0][c], empty, push_mask, t) && !bit(
            pinned,
            pawn_from(c == 0, 8, t),
        ) implies listed(fin, pawn_from(c == 0, 8, t), t) by {
        let f = pawn_from(c == 0, 8, t);
        assert(bit(stm_pawns, f) == bit(g.pieces[0][c], f));
        assert(single_push(c, stm_pawns, empty, push_mask, t));
        assert(has_move(pre, mid, f, t));
    }
    assert forall|t: int|
        0 <= t < 64 && #[trigger] double_push(c, g.pieces[0][c], empty, push_mask, t) && !bit(
            pinned,
            pawn_from(c == 0, 16, t),
        ) implies listed(fin, pawn_from(c == 0, 16, t), t) by {
        let f = pawn_from(c == 0, 16, t);
        assert(bit(stm_pawns, f) == bit(g.pieces[0][c], f));
        assert(double_push(c, stm_pawns, empty, push_mask, t));
        assert(has_move(pre, mid, f, t));
    }
}

/// The pawn captures to one side appended between `pre` and `mid` stay listed in `fin`.
proof fn lemma_captures_listed(
    g: GameState,
    abb: AdditionalBitBoards,
    attack_board: u64,
    shift: int,
    capture_mask: u64,
    pinned: u64,
    pre: Seq<GameMove>,
    mid: Seq<GameMove>,
    fin: Seq<GameMove>,
)
    requires
        forall|t: int|
            0 <= t < 64 && #[trigger] pawn_capture_target(abb, attack_board, capture_mask, t) && !bit(
                pinned,
                pawn_from(g.color_to_move == 0, shift, t),
            ) ==> has_move(pre, mid, pawn_from(g.color_to_move == 0, shift, t), t),
        extends(mid, fin),
    ensures
        forall|t: int|
            0 <= t < 64 && #[trigger] pawn_capture_target(abb, attack_board, capture_mask, t) && !bit(
                pinned,
                pawn_from(g.color_to_move == 0, shift, t),
            ) ==> listed(fin, pawn_from(g.color_to_move == 0, shift, t), t),
{
    lemma_listed_kept(pre, mid, fin);
    assert forall|t: int|
        0 <= t < 64 && #[trigger] pawn_capture_target(abb, attack_board, capture_mask, t) && !bit(
            pinned,
            pawn_from(g.color_to_move == 0, shift, t),
        ) implies listed(fin, pawn_from(g.color_to_move == 0, shift, t), t) by {
        assert(has_move(pre, mid, pawn_from(g.color_to_move == 0, shift, t), t));
    }
}

/// The rook pin moves appended between `pre` and `mid` stay listed in `fin`.
proof fn lemma_rook_pins_listed(
    g: GameState,
    abb: AdditionalBitBoards,
    k: int,
    only_captures: bool,
    push_mask: u64,
    capture_mask: u64,
    empty: u64,
    pre: Seq<GameMove>,
    mid: Seq<GameMove>,
    fin: Seq<GameMove>,
)
    requires
        forall|p: int, u: int, t: int|
            #[trigger] rook_pin_target(g, k, p, u, t, only_captures, push_mask, capture_mask, empty)
                && rook_pinner(g, abb, k, p) && rook_pin_ray(k, p, u) && bit(abb.stm_pieces, u)
                ==> moved_from_to(pre, mid, u, t),
        extends(mid, fin),
    ensures
        forall|p: int, u: int, t: int|
            #[trigger] rook_pin_target(g, k, p, u, t, only_captures, push_mask, capture_mask, empty)
                && rook_pinner(g, abb, k, p) && rook_pin_ray(k, p, u) && bit(abb.stm_pieces, u)
                ==> listed(fin, u, t),
{
    lemma_listed_kept(pre, mid, fin);
    assert forall|p: int, u: int, t: int|
        #[trigger] rook_pin_target(g, k, p, u, t, only_captures, push_mask, capture_mask, empty)
            && rook_pinner(g, abb, k, p) && rook_pin_ray(k, p, u) && bit(abb.stm_pieces, u)
            implies listed(fin, u, t) by {
        assert(moved_from_to(pre, mid, u, t));
        assert(has_move(pre, mid, u, t));
    }
}

/// The bishop pin moves appended between `pre` and `mid` stay listed in `fin`; the pawns
/// `stm_pawns` the pins were looked for among are the pawns of the side to move off the
/// rank and file pins.
proof fn lemma_bishop_pins_listed(
    g: GameState,
    abb: AdditionalBitBoards,
    k: int,
    stm_pawns: u64,
    only_captures: bool,
    push_mask: u64,
    capture_mask: u64,
    pre: Seq<GameMove>,
    mid: Seq<GameMove>,
    fin: Seq<GameMove>,
)
    requires
        forall|p: int, u: int, t: int|
            #[trigger] bishop_pin_target(g, stm_pawns, k, p, u, t, only_captures, push_mask, capture_mask)
                && bishop_pinner(g, abb, k, p) && bishop_pin_ray(k, p, u) && bit(abb.stm_pieces, u)
                ==> moved_from_to(pre, mid, u, t),
        extends(mid, fin),
        forall|u: int|
            0 <= u < 64 && !rook_pinned(g, abb, k, u) ==> #[trigger] bit(stm_pawns, u) == bit(
                g.pieces[0][g.color_to_move as int],
                u,
            ),
    ensures
        forall|p: int, u: int, t: int|
            #[trigger] bishop_pin_target(
                g,
                g.pieces[0][g.color_to_move as int],
                k,
                p,
                u,
                t,
                only_captures,
                push_mask,
                capture_mask,
            ) && bishop_pinner(g, abb, k, p) && bishop_pin_ray(k, p, u) && bit(abb.stm_pieces, u)
                && !rook_pinned(g, abb, k, u) ==> listed(fin, u, t),
{
    lemma_listed_kept(pre, mid, fin);
    let c = g.color_to_move as int;
    assert forall|p: int, u: int, t: int|
        #[trigger] bishop_pin_target(g, g.pieces[0][c], k, p, u, t, only_captures, push_mask, capture_mask)
            && bishop_pinner(g, abb, k, p) && bishop_pin_ray(k, p, u) && bit(abb.stm_pieces, u)
            && !rook_pinned(g, abb, k, u) implies listed(fin, u, t) by {
        assert(0 <= u < 64);
        assert(bit(stm_pawns, u) == bit(g.pieces[0][c], u));
        assert(bishop_pin_target(g, stm_pawns, k, p, u, t, only_captures, push_mask, capture_mask));
        assert(moved_from_to(pre, mid, u, t));
        assert(has_move(pre, mid, u, t));
    }
}

/// The pawn pushes say whether a pawn of the side to move has a push exactly when they
/// append one, given that the pawns `stm_pawns` include no pinned one.
proof fn lemma_pushes_flag(
    g: GameState,
    stm_pawns: u64,
    empty: u64,
    push_mask: u64,
    pinned: u64,
    hlm: bool,
    res: bool,
    pre: Seq<GameMove>,
    mid: Seq<GameMove>,
)
    requires
        res == (hlm || (exists|t: int|
            0 <= t < 64 && #[trigger] single_push(g.color_to_move as int, stm_pawns, empty, push_mask, t))
            || (exists|t: int|
            0 <= t < 64 && #[trigger] double_push(g.color_to_move as int, stm_pawns, empty, push_mask, t))),
        forall|t: int|
            0 <= t < 64 && #[trigger] single_push(g.color_to_move as int, stm_pawns, empty, push_mask, t)
                && !bit(pinned, pawn_from(g.color_to_move == 0, 8, t)) ==> has_move(
                pre,
                mid,
                pawn_from(g.color_to_move == 0, 8, t),
                t,
            ),
        forall|t: int|
            0 <= t < 64 && #[trigger] double_push(g.color_to_move as int, stm_pawns, empty, push_mask, t)
                && !bit(pinned, pawn_from(g.color_to_move == 0, 16, t)) ==> has_move(
                pre,
                mid,
                pawn_from(g.color_to_move == 0, 16, t),
                t,
            ),
        forall|i: int|
            pre.len() <= i < mid.len() ==> {
                let mv = #[trigger] mid[i];
                &&& mv.piece_type == PieceType::Pawn
                &&& !bit(pinned, mv.from as int)
                &&& (single_push(g.color_to_move as int, stm_pawns, empty, push_mask, mv.to as int)
                    && mv.from == pawn_from(g.color_to_move == 0, 8, mv.to as int)) || (double_push(
                    g.color_to_move as int,
                    stm_pawns,
                    empty,
                    push_mask,
                    mv.to as int,
                ) && mv.from == pawn_from(g.color_to_move == 0, 16, mv.to as int))
            },
        forall|u: int| #[trigger] bit(stm_pawns, u) ==> !bit(pinned, u),
        pre.len() <= mid.len(),
    ensures
        res == (hlm || mid.len() > pre.len()),
{
    let c = g.color_to_move as int;
    if exists|t: int| 0 <= t < 64 && #[trigger] single_push(c, stm_pawns, empty, push_mask, t) {
        let t = choose|t: int| 0 <= t < 64 && #[trigger] single_push(c, stm_pawns, empty, push_mask, t);
        assert(bit(stm_pawns, pawn_from(c == 0, 8, t)));
        assert(has_move(pre, mid, pawn_from(c == 0, 8, t), t));
    }
    if exists|t: int| 0 <= t < 64 && #[trigger] double_push(c, stm_pawns, empty, push_mask, t) {
        let t = choose|t: int| 0 <= t < 64 && #[trigger] double_push(c, stm_pawns, empty, push_mask, t);
        assert(bit(stm_pawns, pawn_from(c == 0, 16, t)));
        assert(has_move(pre, mid, pawn_from(c == 0, 16, t), t));
    }
    if mid.len() > pre.len() {
        let mv = mid[pre.len() as int];
        let t = mv.to as int;
        if single_push(c, stm_pawns, empty, push_mask, t) {
            assert(0 <= t < 64);
        } else {
            assert(double_push(c, stm_pawns, empty, push_mask, t));
            assert(0 <= t < 64);
        }
    }
}

/// The pawn captures to one side say whether there is one exactly when they append one.
proof fn lemma_captures_flag(
    g: GameState,
    abb: AdditionalBitBoards,
    attack_board: u64,
    shift: int,
    capture_mask: u64,
    pinned: u64,
    res: bool,
    pre: Seq<GameMove>,
    mid: Seq<GameMove>,
)
    requires
        res == exists|t: int|
            0 <= t < 64 && #[trigger] pawn_capture_target(abb, attack_board, capture_mask, t) && !bit(
                pinned,
                pawn_from(g.color_to_move == 0, shift, t),
            ),
        forall|t: int|
            0 <= t < 64 && #[trigger] pawn_capture_target(abb, attack_board, capture_mask, t) && !bit(
                pinned,
                pawn_from(g.color_to_move == 0, shift, t),
            ) ==> has_move(pre, mid, pawn_from(g.color_to_move == 0, shift, t), t),
        forall|i: int|
            pre.len() <= i < mid.len() ==> {
                let mv = #[trigger] mid[i];
                &&& mv.piece_type == PieceType::Pawn
                &&& !bit(pinned, mv.from as int)
                &&& pawn_capture_target(abb, attack_board, capture_mask, mv.to as int)
                &&& mv.from == pawn_from(g.color_to_move == 0, shift, mv.to as int)
            },
        pre.len() <= mid.len(),
    ensures
        res == (mid.len() > pre.len()),
{
    if res {
        let t = choose|t: int|
            0 <= t < 64 && #[trigger] pawn_capture_target(abb, attack_board, capture_mask, t) && !bit(
                pinned,
                pawn_from(g.color_to_move == 0, shift, t),
            );
        assert(has_move(pre, mid, pawn_from(g.color_to_move == 0, shift, t), t));
    }
    if mid.len() > pre.len() {
        let mv = mid[pre.len() as int];
        assert(pawn_capture_target(abb, attack_board, capture_mask, mv.to as int));
    }
}

/// Every move appended from `old` to `new` is a move of an unpinned knight, bishop, rook
/// or queen of the side to move to one of its targets.
pub open spec fn only_piece_moves(
    g: GameState,
    abb: AdditionalBitBoards,
    pinned: u64,
    empty: u64,
    push_mask: u64,
    capture_mask: u64,
    old: Seq<GameMove>,
    new: Seq<GameMove>,
) -> bool {
    forall|i: int| old.len() <= i < new.len() ==> #[trigger] is_piece_move(g, abb, pinned, empty, push_mask, capture_mask, new[i])
}

/// `mv` moves an unpinned knight, bishop, rook or queen to one of its targets.
pub open spec fn is_piece_move(g: GameState, abb: AdditionalBitBoards, pinned: u64, empty: u64, push_mask: u64, capture_mask: u64, mv: GameMove) -> bool {
    exists|j: int|
        0 <= j < 4 && pieces_kind(j) == piece_index(mv.piece_type) && #[trigger] piece_target(
            g,
            abb,
            pinned,
            empty,
            push_mask,
            capture_mask,
            pieces_kind(j),
            mv.from as int,
            mv.to as int,
        )
}

/// The moves of the knights, bishops, rooks and queens say whether one has a move exactly
/// when they append one, where quiet moves are asked for too.
proof fn lemma_pieces_flag(
    g: GameState,
    abb: AdditionalBitBoards,
    pinned: u64,
    empty: u64,
    push_mask: u64,
    capture_mask: u64,
    only_captures: bool,
    hlm: bool,
    res: bool,
    pre: Seq<GameMove>,
    mid: Seq<GameMove>,
)
    requires
        !only_captures,
        res == (hlm || exists|j: int, s: int, t: int|
            0 <= j < 4 && #[trigger] piece_target(g, abb, pinned, empty, push_mask, capture_mask, pieces_kind(j), s, t)),
        forall|j: int, s: int, t: int|
            0 <= j < 4 && #[trigger] piece_target(g, abb, pinned, empty, push_mask, capture_mask, pieces_kind(j), s, t)
                && (bit(capture_mask, t) && bit(abb.enemy_pieces, t) || !only_captures) ==> has_move(
                pre,
                mid,
                s,
                t,
            ),
        only_piece_moves(g, abb, pinned, empty, push_mask, capture_mask, pre, mid),
        pre.len() <= mid.len(),
    ensures
        res == (hlm || mid.len() > pre.len()),
{
    if exists|j: int, s: int, t: int|
        0 <= j < 4 && #[trigger] piece_target(g, abb, pinned, empty, push_mask, capture_mask, pieces_kind(j), s, t) {
        let (j, s, t) = choose|j: int, s: int, t: int|
            0 <= j < 4 && #[trigger] piece_target(g, abb, pinned, empty, push_mask, capture_mask, pieces_kind(j), s, t);
        assert(has_move(pre, mid, s, t));
    }
    if mid.len() > pre.len() {
        let mv = mid[pre.len() as int];
        assert(is_piece_move(g, abb, pinned, empty, push_mask, capture_mask, mid[pre.len() as int]));
        let j = choose|j: int|
            0 <= j < 4 && pieces_kind(j) == piece_index(mv.piece_type) && piece_target(
                g,
                abb,
                pinned,
                empty,
                push_mask,
                capture_mask,
                pieces_kind(j),
                mv.from as int,
                mv.to as int,
            );
        assert(piece_target(g, abb, pinned, empty, push_mask, capture_mask, pieces_kind(j), mv.from as int, mv.to as int));
    }
}

/// Every move appended from `old` to `new` is a move of a piece pinned along a rank or file
/// by an enemy rook or queen, along its pin or onto its pinner.
pub open spec fn only_rook_pin_moves(
    g: GameState,
    abb: AdditionalBitBoards,
    k: int,
    only_captures: bool,
    push_mask: u64,
    capture_mask: u64,
    empty: u64,
    old: Seq<GameMove>,
    new: Seq<GameMove>,
) -> bool {
    forall|i: int| old.len() <= i < new.len() ==> #[trigger] is_rook_pin_move(g, abb, k, only_captures, push_mask, capture_mask, empty, new[i])
}

/// `mv` moves a piece pinned along a rank or file along its pin or onto its pinner.
pub open spec fn is_rook_pin_move(g: GameState, abb: AdditionalBitBoards, k: int, only_captures: bool, push_mask: u64, capture_mask: u64, empty: u64, mv: GameMove) -> bool {
    exists|p: int|
        #[trigger] rook_pinner(g, abb, k, p) && rook_pin_target(
            g,
            k,
            p,
            mv.from as int,
            mv.to as int,
            only_captures,
            push_mask,
            capture_mask,
            empty,
        ) && rook_pin_ray(k, p, mv.from as int) && bit(abb.stm_pieces, mv.from as int)
}

/// Every move appended from `old` to `new` is a move of a piece pinned along a diagonal by
/// an enemy bishop or queen, along its pin or onto its pinner, or a capture en passant.
pub open spec fn only_bishop_pin_moves(
    g: GameState,
    abb: AdditionalBitBoards,
    stm_pawns: u64,
    k: int,
    only_captures: bool,
    push_mask: u64,
    capture_mask: u64,
    old: Seq<GameMove>,
    new: Seq<GameMove>,
) -> bool {
    forall|i: int| old.len() <= i < new.len() ==> #[trigger] is_bishop_pin_move(g, abb, stm_pawns, k, only_captures, push_mask, capture_mask, new[i])
}

/// `mv` moves a piece pinned along a diagonal along its pin, onto its pinner or en passant.
pub open spec fn is_bishop_pin_move(g: GameState, abb: AdditionalBitBoards, stm_pawns: u64, k: int, only_captures: bool, push_mask: u64, capture_mask: u64, mv: GameMove) -> bool {
    exists|p: int|
        #[trigger] bishop_pinner(g, abb, k, p) && bishop_pin_target(
            g,
            stm_pawns,
            k,
            p,
            mv.from as int,
            mv.to as int,
            only_captures,
            push_mask,
            capture_mask,
        ) && bishop_pin_ray(k, p, mv.from as int) && bit(abb.stm_pieces, mv.from as int)
}

/// The rank and file pins say whether a pinned piece has a move exactly when they append
/// one, where quiet moves are asked for too.
proof fn lemma_rook_pins_flag(
    g: GameState,
    abb: AdditionalBitBoards,
    k: int,
    only_captures: bool,
    push_mask: u64,
    capture_mask: u64,
    empty: u64,
    res: bool,
    pre: Seq<GameMove>,
    mid: Seq<GameMove>,
)
    requires
        !only_captures,
        res == exists|p: int|
            #[trigger] rook_pinner(g, abb, k, p) && rook_pin_has_move(g, abb, k, p, push_mask, capture_mask, empty),
        forall|p: int, u: int, t: int|
            #[trigger] rook_pin_target(g, k, p, u, t, only_captures, push_mask, capture_mask, empty)
                && rook_pinner(g, abb, k, p) && rook_pin_ray(k, p, u) && bit(abb.stm_pieces, u)
                ==> moved_from_to(pre, mid, u, t),
        only_rook_pin_moves(g, abb, k, only_captures, push_mask, capture_mask, empty, pre, mid),
        pre.len() <= mid.len(),
    ensures
        res == (mid.len() > pre.len()),
{
    let c = g.color_to_move as int;
    if res {
        let p = choose|p: int|
            #[trigger] rook_pinner(g, abb, k, p) && rook_pin_has_move(g, abb, k, p, push_mask, capture_mask, empty);
        let u = choose|u: int|
            0 <= u < 64 && #[trigger] rook_pin_ray(k, p, u) && bit(abb.stm_pieces, u)
                && rook_pinned_piece_moves(g, k, p, u, push_mask, capture_mask, empty);
        if bit(g.pieces[4][c], u) || bit(g.pieces[3][c], u) {
            if bit(capture_mask, p) {
                assert(rook_pin_target(g, k, p, u, p, only_captures, push_mask, capture_mask, empty));
                assert(moved_from_to(pre, mid, u, p));
            } else {
                let t = choose|t: int| #[trigger] rook_pin_ray(k, p, t) && 0 <= t < 64 && bit(push_mask, t) && t != u;
                assert(rook_pin_target(g, k, p, u, t, only_captures, push_mask, capture_mask, empty));
                assert(moved_from_to(pre, mid, u, t));
            }
        } else {
            let t = choose|t: int|
                #[trigger] rook_pin_ray(k, p, t) && 0 <= t < 64 && bit(push_mask, t) && bit(empty, t)
                    && pawn_push_from(c, u, empty, t);
            assert(rook_pin_target(g, k, p, u, t, only_captures, push_mask, capture_mask, empty));
            assert(moved_from_to(pre, mid, u, t));
        }
    }
    if mid.len() > pre.len() {
        let mv = mid[pre.len() as int];
        assert(is_rook_pin_move(g, abb, k, only_captures, push_mask, capture_mask, empty, mid[pre.len() as int]));
        let u = mv.from as int;
        let t = mv.to as int;
        let p = choose|p: int|
            #[trigger] rook_pinner(g, abb, k, p) && rook_pin_target(g, k, p, u, t, only_captures, push_mask, capture_mask, empty)
                && rook_pin_ray(k, p, u) && bit(abb.stm_pieces, u);
        if bit(g.pieces[4][c], u) || bit(g.pieces[3][c], u) {
            if t != p || !bit(capture_mask, p) {
                assert(rook_pin_ray(k, p, t) && 0 <= t < 64 && bit(push_mask, t) && t != u);
            }
        } else {
            assert(rook_pin_ray(k, p, t) && 0 <= t < 64 && bit(push_mask, t) && bit(empty, t) && pawn_push_from(c, u, empty, t));
        }
        assert(rook_pinned_piece_moves(g, k, p, u, push_mask, capture_mask, empty));
        assert(rook_pin_has_move(g, abb, k, p, push_mask, capture_mask, empty));
    }
}

/// Where a pinned pawn can capture en passant along its pin, it can onto a lowest such square.
proof fn lemma_first_pinned_pawn_en_passant(g: GameState, k: int, p: int, u: int, capture_mask: u64, t: int)
    requires
        pinned_pawn_en_passant(g, k, p, u, t, capture_mask),
    ensures
        exists|m: int|
            pinned_pawn_en_passant(g, k, p, u, m, capture_mask) && forall|t2: int|
                0 <= t2 < m ==> !#[trigger] pinned_pawn_en_passant(g, k, p, u, t2, capture_mask),
    decreases t,
{
    if exists|t2: int| 0 <= t2 < t && #[trigger] pinned_pawn_en_passant(g, k, p, u, t2, capture_mask) {
        let t2 = choose|t2: int| 0 <= t2 < t && #[trigger] pinned_pawn_en_passant(g, k, p, u, t2, capture_mask);
        lemma_first_pinned_pawn_en_passant(g, k, p, u, capture_mask, t2);
    } else {
        assert(forall|t2: int|
            0 <= t2 < t ==> !#[trigger] pinned_pawn_en_passant(g, k, p, u, t2, capture_mask));
    }
}

/// The diagonal pins say whether a pinned piece has a move exactly when they append one,
/// where quiet moves are asked for too.
proof fn lemma_bishop_pins_flag(
    g: GameState,
    abb: AdditionalBitBoards,
    stm_pawns: u64,
    k: int,
    only_captures: bool,
    push_mask: u64,
    capture_mask: u64,
    res: bool,
    pre: Seq<GameMove>,
    mid: Seq<GameMove>,
)
    requires
        !only_captures,
        res == exists|p: int|
            #[trigger] bishop_pinner(g, abb, k, p) && bishop_pin_has_move(g, abb, stm_pawns, k, p, push_mask, capture_mask),
        forall|p: int, u: int, t: int|
            #[trigger] bishop_pin_target(g, stm_pawns, k, p, u, t, only_captures, push_mask, capture_mask)
                && bishop_pinner(g, abb, k, p) && bishop_pin_ray(k, p, u) && bit(abb.stm_pieces, u)
                ==> moved_from_to(pre, mid, u, t),
        only_bishop_pin_moves(g, abb, stm_pawns, k, only_captures, push_mask, capture_mask, pre, mid),
        pre.len() <= mid.len(),
    ensures
        res == (mid.len() > pre.len()),
{
    let c = g.color_to_move as int;
    if res {
        let p = choose|p: int|
            #[trigger] bishop_pinner(g, abb, k, p) && bishop_pin_has_move(g, abb, stm_pawns, k, p, push_mask, capture_mask);
        let u = choose|u: int|
            0 <= u < 64 && #[trigger] bishop_pin_ray(k, p, u) && bit(abb.stm_pieces, u)
                && bishop_pinned_piece_moves(g, stm_pawns, k, p, u, push_mask, capture_mask);
        if bit(g.pieces[4][c], u) || bit(g.pieces[2][c], u) {
            if bit(capture_mask, p) {
                assert(bishop_pin_target(g, stm_pawns, k, p, u, p, only_captures, push_mask, capture_mask));
                assert(moved_from_to(pre, mid, u, p));
            } else {
                let t = choose|t: int| #[trigger] bishop_pin_ray(k, p, t) && 0 <= t < 64 && bit(push_mask, t) && t != u;
                assert(bishop_pin_target(g, stm_pawns, k, p, u, t, only_captures, push_mask, capture_mask));
                assert(moved_from_to(pre, mid, u, t));
            }
        } else if pawn_covers_from(c, u, p) && bit(capture_mask, p) {
            assert(bishop_pin_target(g, stm_pawns, k, p, u, p, only_captures, push_mask, capture_mask));
            assert(moved_from_to(pre, mid, u, p));
        } else {
            let t = choose|t: int|
                #[trigger] bishop_pin_ray(k, p, t) && 0 <= t < 64 && pawn_covers_from(c, u, t) && bit(g.en_passant, t)
                    && bit(capture_mask, t);
            assert(pinned_pawn_en_passant(g, k, p, u, t, capture_mask));
            lemma_first_pinned_pawn_en_passant(g, k, p, u, capture_mask, t);
            let m = choose|m: int|
                pinned_pawn_en_passant(g, k, p, u, m, capture_mask) && forall|t2: int|
                    0 <= t2 < m ==> !#[trigger] pinned_pawn_en_passant(g, k, p, u, t2, capture_mask);
            assert(bishop_pin_target(g, stm_pawns, k, p, u, m, only_captures, push_mask, capture_mask));
            assert(moved_from_to(pre, mid, u, m));
        }
    }
    if mid.len() > pre.len() {
        let mv = mid[pre.len() as int];
        assert(is_bishop_pin_move(g, abb, stm_pawns, k, only_captures, push_mask, capture_mask, mid[pre.len() as int]));
        let u = mv.from as int;
        let t = mv.to as int;
        let p = choose|p: int|
            #[trigger] bishop_pinner(g, abb, k, p) && bishop_pin_target(g, stm_pawns, k, p, u, t, only_captures, push_mask, capture_mask)
                && bishop_pin_ray(k, p, u) && bit(abb.stm_pieces, u);
        if bit(g.pieces[4][c], u) || bit(g.pieces[2][c], u) {
            if t != p || !bit(capture_mask, p) {
                assert(bishop_pin_ray(k, p, t) && 0 <= t < 64 && bit(push_mask, t) && t != u);
            }
        } else if !(t == p && pawn_covers_from(c, u, p) && bit(capture_mask, p)) {
            assert(pinned_pawn_en_passant(g, k, p, u, t, capture_mask));
            assert(bishop_pin_ray(k, p, t) && 0 <= t < 64 && pawn_covers_from(c, u, t) && bit(g.en_passant, t)
                && bit(capture_mask, t));
        }
        assert(bishop_pinned_piece_moves(g, stm_pawns, k, p, u, push_mask, capture_mask));
        assert(bishop_pin_has_move(g, abb, stm_pawns, k, p, push_mask, capture_mask));
    }
}

/// A move the generator gives other than a king step: a move of a piece pinned along a
/// rank, file or diagonal along its pin or onto its pinner, a pawn push (unless only
/// captures are asked for), capture or capture en passant, a move of an unpinned knight,
/// bishop, rook or queen, or (where `castling`) a castle open to the side; pushes go onto
/// `push_mask` and captures onto `capture_mask`.
pub open spec fn below_king_move(
    g: GameState,
    abb: AdditionalBitBoards,
    only_captures: bool,
    castling: bool,
    push_mask: u64,
    capture_mask: u64,
    mv: GameMove,
) -> bool {
    let c = g.color_to_move as int;
    let white = c == 0;
    let k = king_square(g);
    let pinned = pinned_board(g, abb);
    let empty = !abb.all_pieces;
    let from = mv.from as int;
    let to = mv.to as int;
    ||| is_rook_pin_move(g, abb, k, only_captures, push_mask, capture_mask, empty, mv)
    ||| is_bishop_pin_move(g, abb, g.pieces[0][c], k, only_captures, push_mask, capture_mask, mv)
    ||| !only_captures && !bit(pinned, from) && (single_push(c, g.pieces[0][c], empty, push_mask, to)
        && from == pawn_from(white, 8, to) || double_push(c, g.pieces[0][c], empty, push_mask, to)
        && from == pawn_from(white, 16, to))
    ||| !bit(pinned, from) && pawn_capture_target(abb, abb.stm_pawns_westattack, capture_mask, to)
        && from == pawn_from(white, 7, to)
    ||| !bit(pinned, from) && pawn_capture_target(abb, abb.stm_pawns_eastattack, capture_mask, to)
        && from == pawn_from(white, 9, to)
    ||| en_passant_capture(g, abb, abb.stm_pawns_westattack, 7, capture_mask, pinned, k) == Some(mv)
    ||| en_passant_capture(g, abb, abb.stm_pawns_eastattack, 9, capture_mask, pinned, k) == Some(mv)
    ||| is_piece_move(g, abb, pinned, empty, push_mask, capture_mask, mv)
    ||| castling && !only_captures && (castle_open(g, abb, true) && mv == castle_move(g, k, true)
        || castle_open(g, abb, false) && mv == castle_move(g, k, false))
}

/// Every move of `cur` past `start` is one the generator gives other than a king step.
#[verifier::opaque]
pub open spec fn all_below_king(
    g: GameState,
    abb: AdditionalBitBoards,
    only_captures: bool,
    castling: bool,
    push_mask: u64,
    capture_mask: u64,
    start: Seq<GameMove>,
    cur: Seq<GameMove>,
) -> bool {
    forall|i: int|
        start.len() <= i < cur.len() ==> #[trigger] below_king_move(
            g,
            abb,
            only_captures,
            castling,
            push_mask,
            capture_mask,
            cur[i],
        )
}

proof fn lemma_bk_start(
    g: GameState,
    abb: AdditionalBitBoards,
    oc: bool,
    nic: bool,
    push: u64,
    cap: u64,
    start: Seq<GameMove>,
)
    ensures
        all_below_king(g, abb, oc, nic, push, cap, start, start),
{
    reveal(all_below_king);
}

/// Appending moves the generator gives keeps a list of them.
proof fn lemma_bk_extend(
    g: GameState,
    abb: AdditionalBitBoards,
    oc: bool,
    nic: bool,
    push: u64,
    cap: u64,
    start: Seq<GameMove>,
    prev: Seq<GameMove>,
    cur: Seq<GameMove>,
)
    requires
        all_below_king(g, abb, oc, nic, push, cap, start, prev),
        extends(prev, cur),
        start.len() <= prev.len(),
        forall|i: int| prev.len() <= i < cur.len() ==> #[trigger] below_king_move(g, abb, oc, nic, push, cap, cur[i]),
    ensures
        all_below_king(g, abb, oc, nic, push, cap, start, cur),
{
    reveal(all_below_king);
    assert forall|i: int| start.len() <= i < cur.len() implies #[trigger] below_king_move(
        g,
        abb,
        oc,
        nic,
        push,
        cap,
        cur[i],
    ) by {
        if i < prev.len() {
            assert(cur[i] == prev[i]);
        }
    }
}

/// The rank and file pin moves are moves the generator gives.
proof fn lemma_bk_rook(
    g: GameState,
    abb: AdditionalBitBoards,
    oc: bool,
    nic: bool,
    push: u64,
    cap: u64,
    empty: u64,
    k: int,
    start: Seq<GameMove>,
    prev: Seq<GameMove>,
    cur: Seq<GameMove>,
)
    requires
        all_below_king(g, abb, oc, nic, push, cap, start, prev),
        extends(prev, cur),
        start.len() <= prev.len(),
        k == king_square(g),
        empty == !abb.all_pieces,
        only_rook_pin_moves(g, abb, k, oc, push, cap, empty, prev, cur),
    ensures
        all_below_king(g, abb, oc, nic, push, cap, start, cur),
{
    assert forall|i: int| prev.len() <= i < cur.len() implies #[trigger] below_king_move(g, abb, oc, nic, push, cap, cur[i]) by {
        assert(is_rook_pin_move(g, abb, k, oc, push, cap, empty, cur[i]));
    }
    lemma_bk_extend(g, abb, oc, nic, push, cap, start, prev, cur);
}

/// The diagonal pin moves are moves the generator gives.
proof fn lemma_bk_bishop(
    g: GameState,
    abb: AdditionalBitBoards,
    oc: bool,
    nic: bool,
    push: u64,
    cap: u64,
    stm_pawns: u64,
    k: int,
    start: Seq<GameMove>,
    prev: Seq<GameMove>,
    cur: Seq<GameMove>,
)
    requires
        all_below_king(g, abb, oc, nic, push, cap, start, prev),
        extends(prev, cur),
        start.len() <= prev.len(),
        k == king_square(g),
        only_bishop_pin_moves(g, abb, stm_pawns, k, oc, push, cap, prev, cur),
        forall|u: int| #[trigger] bit(stm_pawns, u) ==> bit(g.pieces[0][g.color_to_move as int], u),
    ensures
        all_below_king(g, abb, oc, nic, push, cap, start, cur),
{
    let c = g.color_to_move as int;
    assert forall|i: int| prev.len() <= i < cur.len() implies #[trigger] below_king_move(g, abb, oc, nic, push, cap, cur[i]) by {
        let mv = cur[i];
        assert(is_bishop_pin_move(g, abb, stm_pawns, k, oc, push, cap, mv));
        let p = choose|p: int|
            #[trigger] bishop_pinner(g, abb, k, p) && bishop_pin_target(g, stm_pawns, k, p, mv.from as int, mv.to as int, oc, push, cap)
                && bishop_pin_ray(k, p, mv.from as int) && bit(abb.stm_pieces, mv.from as int);
        assert(bit(stm_pawns, mv.from as int) ==> bit(g.pieces[0][c], mv.from as int));
        assert(bishop_pin_target(g, g.pieces[0][c], k, p, mv.from as int, mv.to as int, oc, push, cap));
        assert(is_bishop_pin_move(g, abb, g.pieces[0][c], k, oc, push, cap, mv));
    }
    lemma_bk_extend(g, abb, oc, nic, push, cap, start, prev, cur);
}

/// The pawn pushes are moves the generator gives.
proof fn lemma_bk_pushes(
    g: GameState,
    abb: AdditionalBitBoards,
    oc: bool,
    nic: bool,
    push: u64,
    cap: u64,
    stm_pawns: u64,
    empty: u64,
    pinned: u64,
    start: Seq<GameMove>,
    prev: Seq<GameMove>,
    cur: Seq<GameMove>,
)
    requires
        all_below_king(g, abb, oc, nic, push, cap, start, prev),
        extends(prev, cur),
        start.len() <= prev.len(),
        empty == !abb.all_pieces,
        pinned == pinned_board(g, abb),
        forall|u: int| #[trigger] bit(stm_pawns, u) ==> bit(g.pieces[0][g.color_to_move as int], u),
        oc ==> cur == prev,
        forall|i: int|
            prev.len() <= i < cur.len() ==> {
                let mv = #[trigger] cur[i];
                &&& mv.piece_type == PieceType::Pawn
                &&& !bit(pinned, mv.from as int)
                &&& (single_push(g.color_to_move as int, stm_pawns, empty, push, mv.to as int)
                    && mv.from == pawn_from(g.color_to_move == 0, 8, mv.to as int)) || (double_push(
                    g.color_to_move as int,
                    stm_pawns,
                    empty,
                    push,
                    mv.to as int,
                ) && mv.from == pawn_from(g.color_to_move == 0, 16, mv.to as int))
            },
    ensures
        all_below_king(g, abb, oc, nic, push, cap, start, cur),
{
    let c = g.color_to_move as int;
    assert forall|i: int| prev.len() <= i < cur.len() implies #[trigger] below_king_move(g, abb, oc, nic, push, cap, cur[i]) by {
        let mv = cur[i];
        let t = mv.to as int;
        if single_push(c, stm_pawns, empty, push, t) && mv.from == pawn_from(c == 0, 8, t) {
            assert(single_push(c, g.pieces[0][c], empty, push, t));
        } else {
            assert(double_push(c, g.pieces[0][c], empty, push, t));
        }
    }
    lemma_bk_extend(g, abb, oc, nic, push, cap, start, prev, cur);
}

/// The pawn captures to the west (`west`) or east are moves the generator gives.
proof fn lemma_bk_captures(
    g: GameState,
    abb: AdditionalBitBoards,
    oc: bool,
    nic: bool,
    push: u64,
    cap: u64,
    west: bool,
    pinned: u64,
    start: Seq<GameMove>,
    prev: Seq<GameMove>,
    cur: Seq<GameMove>,
)
    requires
        all_below_king(g, abb, oc, nic, push, cap, start, prev),
        extends(prev, cur),
        start.len() <= prev.len(),
        pinned == pinned_board(g, abb),
        forall|i: int|
            prev.len() <= i < cur.len() ==> {
                let mv = #[trigger] cur[i];
                &&& mv.piece_type == PieceType::Pawn
                &&& !bit(pinned, mv.from as int)
                &&& pawn_capture_target(
                    abb,
                    if west {
                        abb.stm_pawns_westattack
                    } else {
                        abb.stm_pawns_eastattack
                    },
                    cap,
                    mv.to as int,
                )
                &&& mv.from == pawn_from(
                    g.color_to_move == 0,
                    if west {
                        7
                    } else {
                        9
                    },
                    mv.to as int,
                )
            },
    ensures
        all_below_king(g, abb, oc, nic, push, cap, start, cur),
{
    assert forall|i: int| prev.len() <= i < cur.len() implies #[trigger] below_king_move(g, abb, oc, nic, push, cap, cur[i]) by {
        let mv = cur[i];
    }
    lemma_bk_extend(g, abb, oc, nic, push, cap, start, prev, cur);
}

/// The capture en passant to the west (`west`) or east is a move the generator gives.
proof fn lemma_bk_en_passant(
    g: GameState,
    abb: AdditionalBitBoards,
    oc: bool,
    nic: bool,
    push: u64,
    cap: u64,
    west: bool,
    pinned: u64,
    k: int,
    start: Seq<GameMove>,
    prev: Seq<GameMove>,
    cur: Seq<GameMove>,
)
    requires
        all_below_king(g, abb, oc, nic, push, cap, start, prev),
        start.len() <= prev.len(),
        pinned == pinned_board(g, abb),
        k == king_square(g),
        cur == match en_passant_capture(
            g,
            abb,
            if west {
                abb.stm_pawns_westattack
            } else {
                abb.stm_pawns_eastattack
            },
            if west {
                7
            } else {
                9
            },
            cap,
            pinned,
            k,
        ) {
            Some(mv) => prev.push(mv),
            None => prev,
        },
    ensures
        all_below_king(g, abb, oc, nic, push, cap, start, cur),
        extends(prev, cur),
{
    assert forall|i: int| prev.len() <= i < cur.len() implies #[trigger] below_king_move(g, abb, oc, nic, push, cap, cur[i]) by {
        assert(i == prev.len());
    }
    lemma_bk_extend(g, abb, oc, nic, push, cap, start, prev, cur);
}

/// The moves of the unpinned knights, bishops, rooks and queens are moves the generator
/// gives.
proof fn lemma_bk_pieces(
    g: GameState,
    abb: AdditionalBitBoards,
    oc: bool,
    nic: bool,
    push: u64,
    cap: u64,
    pinned: u64,
    empty: u64,
    start: Seq<GameMove>,
    prev: Seq<GameMove>,
    cur: Seq<GameMove>,
)
    requires
        all_below_king(g, abb, oc, nic, push, cap, start, prev),
        extends(prev, cur),
        start.len() <= prev.len(),
        pinned == pinned_board(g, abb),
        empty == !abb.all_pieces,
        only_piece_moves(g, abb, pinned, empty, push, cap, prev, cur),
    ensures
        all_below_king(g, abb, oc, nic, push, cap, start, cur),
{
    assert forall|i: int| prev.len() <= i < cur.len() implies #[trigger] below_king_move(g, abb, oc, nic, push, cap, cur[i]) by {
        assert(is_piece_move(g, abb, pinned, empty, push, cap, cur[i]));
    }
    lemma_bk_extend(g, abb, oc, nic, push, cap, start, prev, cur);
}

/// The castles are moves the generator gives.
proof fn lemma_bk_castles(
    g: GameState,
    abb: AdditionalBitBoards,
    oc: bool,
    nic: bool,
    push: u64,
    cap: u64,
    k: int,
    start: Seq<GameMove>,
    prev: Seq<GameMove>,
    cur: Seq<GameMove>,
)
    requires
        all_below_king(g, abb, oc, nic, push, cap, start, prev),
        start.len() <= prev.len(),
        k == king_square(g),
        cur == prev || (nic && !oc && cur == prev + castle_moves(g, abb, k)),
    ensures
        all_below_king(g, abb, oc, nic, push, cap, start, cur),
        extends(prev, cur),
{
    assert forall|i: int| prev.len() <= i < cur.len() implies #[trigger] below_king_move(g, abb, oc, nic, push, cap, cur[i]) by {
        if castle_open(g, abb, true) && i == prev.len() {
            assert(cur[i] == castle_move(g, k, true));
        } else {
            assert(cur[i] == castle_move(g, k, false));
        }
    }
    lemma_bk_extend(g, abb, oc, nic, push, cap, start, prev, cur);
}

/// `b` holds the pawns of the side to move that are not pinned.
pub open spec fn is_free_pawns(g: GameState, abb: AdditionalBitBoards, b: u64) -> bool {
    forall|u: int|
        0 <= u < 64 ==> #[trigger] bit(b, u) == (bit(g.pieces[0][g.color_to_move as int], u) && !bit(
            pinned_board(g, abb),
            u,
        ))
}

/// The pawns of the side to move that are not pinned.
pub open spec fn free_pawns(g: GameState, abb: AdditionalBitBoards) -> u64 {
    choose|b: u64| #[trigger] is_free_pawns(g, abb, b)
}

/// `b` holds the pawns of the side to move that are not pinned along a rank or file.
pub open spec fn is_rank_file_free_pawns(g: GameState, abb: AdditionalBitBoards, b: u64) -> bool {
    forall|u: int|
        0 <= u < 64 ==> #[trigger] bit(b, u) == (bit(g.pieces[0][g.color_to_move as int], u) && !rook_pinned(
            g,
            abb,
            king_square(g),
            u,
        ))
}

/// The pawns of the side to move that are not pinned along a rank or file.
pub open spec fn rank_file_free_pawns(g: GameState, abb: AdditionalBitBoards) -> u64 {
    choose|b: u64| #[trigger] is_rank_file_free_pawns(g, abb, b)
}

/// The side to move has a move below the king's: a pinned piece has a move along its pin
/// or onto its pinner, a pawn that is not pinned pushes or captures, a pawn captures en
/// passant, an unpinned knight, bishop, rook or queen has a target, or (where `castling`)
/// a castle is open; pushes go onto `push_mask` and captures onto `capture_mask`.
pub open spec fn below_king_has_move(
    g: GameState,
    abb: AdditionalBitBoards,
    push_mask: u64,
    capture_mask: u64,
    castling: bool,
) -> bool {
    let c = g.color_to_move as int;
    let white = c == 0;
    let k = king_square(g);
    let pinned = pinned_board(g, abb);
    let empty = !abb.all_pieces;
    ||| exists|p: int|
        #[trigger] rook_pinner(g, abb, k, p) && rook_pin_has_move(g, abb, k, p, push_mask, capture_mask, empty)
    ||| exists|p: int|
        #[trigger] bishop_pinner(g, abb, k, p) && bishop_pin_has_move(
            g,
            abb,
            rank_file_free_pawns(g, abb),
            k,
            p,
            push_mask,
            capture_mask,
        )
    ||| exists|t: int| 0 <= t < 64 && #[trigger] single_push(c, free_pawns(g, abb), empty, push_mask, t)
    ||| exists|t: int| 0 <= t < 64 && #[trigger] double_push(c, free_pawns(g, abb), empty, push_mask, t)
    ||| exists|t: int|
        0 <= t < 64 && #[trigger] pawn_capture_target(abb, abb.stm_pawns_westattack, capture_mask, t) && !bit(
            pinned,
            pawn_from(white, 7, t),
        )
    ||| exists|t: int|
        0 <= t < 64 && #[trigger] pawn_capture_target(abb, abb.stm_pawns_eastattack, capture_mask, t) && !bit(
            pinned,
            pawn_from(white, 9, t),
        )
    ||| en_passant_capture(g, abb, abb.stm_pawns_westattack, 7, capture_mask, pinned, k) is Some
    ||| en_passant_capture(g, abb, abb.stm_pawns_eastattack, 9, capture_mask, pinned, k) is Some
    ||| exists|j: int, s: int, t: int|
        0 <= j < 4 && #[trigger] piece_target(g, abb, pinned, empty, push_mask, capture_mask, pieces_kind(j), s, t)
    ||| castling && (castle_open(g, abb, true) || castle_open(g, abb, false))
}

/// Appends the moves of the side to move but those of its king outside castling: the
/// moves of pinned pieces along their pins, pawn pushes, captures and captures en passant,
/// the moves of the other pieces, and (where `not_in_check`) the castles; pushes go onto
/// `push_mask`, captures onto `capture_mask`. Tells whether a legal move is known, given
/// `stm_haslegalmove`.
#[verifier::spinoff_prover]
#[verifier::rlimit(100)]
fn add_moves_below_king(
    g: &GameState,
    movelist: &mut MoveList,
    only_captures: bool,
    abb: &AdditionalBitBoards,
    push_mask: u64,
    capture_mask: u64,
    stm_king_index: usize,
    ranks: &[u64; 8],
    stm_haslegalmove: bool,
    not_in_check: bool,
) -> (res: bool)
    requires
        position_ok(*g),
        abb_of(*g, *abb),
        stm_king_index < 64,
        stm_king_index == lowest_square(g.pieces[5][g.color_to_move as int]),
        forall|r: int, t: int|
            0 <= r < 8 && 0 <= t < 64 ==> #[trigger] bit(ranks[r], t) == (rank_of(t) == r),
        all_sound(*g, old(movelist).move_list@),
        only_captures ==> all_captures(old(movelist).move_list@),
    ensures
        all_sound(*g, final(movelist).move_list@),
        only_captures ==> all_captures(final(movelist).move_list@),
        extends(old(movelist).move_list@, final(movelist).move_list@),
        res == (stm_haslegalmove || below_king_has_move(*g, *abb, push_mask, capture_mask, not_in_check)),
        all_below_king(*g, *abb, only_captures, not_in_check, push_mask, capture_mask, old(movelist).move_list@, final(movelist).move_list@),
        forall|j: int, s: int, t: int|
            0 <= j < 4 && #[trigger] piece_target(
                *g,
                *abb,
                pinned_board(*g, *abb),
                !abb.all_pieces,
                push_mask,
                capture_mask,
                pieces_kind(j),
                s,
                t,
            ) && (bit(capture_mask, t) && bit(abb.enemy_pieces, t) || !only_captures) ==> listed(
                final(movelist).move_list@,
                s,
                t,
            ),
        !only_captures ==> forall|t: int|
            0 <= t < 64 && #[trigger] single_push(
                g.color_to_move as int,
                g.pieces[0][g.color_to_move as int],
                !abb.all_pieces,
                push_mask,
                t,
            ) && !bit(pinned_board(*g, *abb), pawn_from(g.color_to_move == 0, 8, t)) ==> listed(
                final(movelist).move_list@,
                pawn_from(g.color_to_move == 0, 8, t),
                t,
            ),
        !only_captures ==> forall|t: int|
            0 <= t < 64 && #[trigger] double_push(
                g.color_to_move as int,
                g.pieces[0][g.color_to_move as int],
                !abb.all_pieces,
                push_mask,
                t,
            ) && !bit(pinned_board(*g, *abb), pawn_from(g.color_to_move == 0, 16, t)) ==> listed(
                final(movelist).move_list@,
                pawn_from(g.color_to_move == 0, 16, t),
                t,
            ),
        forall|t: int|
            0 <= t < 64 && #[trigger] pawn_capture_target(*abb, abb.stm_pawns_westattack, capture_mask, t)
                && !bit(pinned_board(*g, *abb), pawn_from(g.color_to_move == 0, 7, t)) ==> listed(
                final(movelist).move_list@,
                pawn_from(g.color_to_move == 0, 7, t),
                t,
            ),
        forall|t: int|
            0 <= t < 64 && #[trigger] pawn_capture_target(*abb, abb.stm_pawns_eastattack, capture_mask, t)
                && !bit(pinned_board(*g, *abb), pawn_from(g.color_to_move == 0, 9, t)) ==> listed(
                final(movelist).move_list@,
                pawn_from(g.color_to_move == 0, 9, t),
                t,
            ),
        en_passant_capture(*g, *abb, abb.stm_pawns_westattack, 7, capture_mask, pinned_board(*g, *abb), stm_king_index as int) matches Some(
            mv,
        ) ==> final(movelist).move_list@.contains(mv),
        en_passant_capture(*g, *abb, abb.stm_pawns_eastattack, 9, capture_mask, pinned_board(*g, *abb), stm_king_index as int) matches Some(
            mv,
        ) ==> final(movelist).move_list@.contains(mv),
        forall|p: int, u: int, t: int|
            #[trigger] rook_pin_target(*g, stm_king_index as int, p, u, t, only_captures, push_mask, capture_mask, !abb.all_pieces)
                && rook_pinner(*g, *abb, stm_king_index as int, p) && rook_pin_ray(stm_king_index as int, p, u) && bit(abb.stm_pieces, u)
                ==> listed(final(movelist).move_list@, u, t),
        forall|p: int, u: int, t: int|
            #[trigger] bishop_pin_target(
                *g,
                g.pieces[0][g.color_to_move as int],
                stm_king_index as int,
                p,
                u,
                t,
                only_captures,
                push_mask,
                capture_mask,
            ) && bishop_pinner(*g, *abb, stm_king_index as int, p) && bishop_pin_ray(stm_king_index as int, p, u) && bit(abb.stm_pieces, u)
                && !rook_pinned(*g, *abb, stm_king_index as int, u) ==> listed(final(movelist).move_list@, u, t),
        !only_captures ==> (res == (stm_haslegalmove || final(movelist).move_list@.len() > old(
            movelist,
        ).move_list@.len())),
        !only_captures && not_in_check ==> forall|king_side: bool|
            #[trigger] castle_open(*g, *abb, king_side) ==> final(movelist).move_list@.contains(
                castle_move(*g, stm_king_index as int, king_side),
            ),
{
    let ghost start = movelist.move_list@;
    let ghost c = g.color_to_move as int;
    let stm_color_iswhite = g.color_to_move == WHITE;
    let mut stm_haslegalmove = stm_haslegalmove;
    let ghost h0 = stm_haslegalmove;
    proof {
        lemma_bk_start(*g, *abb, only_captures, not_in_check, push_mask, capture_mask, start);
    }
    let empty_squares = !abb.all_pieces;
    //4. Pins and pinned pieces
    let ghost pre0 = movelist.move_list@;
    let (pinned_rooklike, stm_pawns_rooklike, found_rooklike) = add_rook_pin_moves(
        g,
        movelist,
        only_captures,
        abb,
        push_mask,
        capture_mask,
        stm_king_index,
        empty_squares,
    );
    stm_haslegalmove = stm_haslegalmove || found_rooklike;
    proof {
        if !only_captures {
            assert(only_rook_pin_moves(*g, *abb, stm_king_index as int, only_captures, push_mask, capture_mask, empty_squares, pre0, movelist.move_list@)) by {
                assert forall|i: int| pre0.len() <= i < movelist.move_list@.len() implies #[trigger] is_rook_pin_move(*g, *abb, stm_king_index as int, only_captures, push_mask, capture_mask, empty_squares, movelist.move_list@[i])  by {
                    let mv = movelist.move_list@[i];
                    let p = choose|p: int| #[trigger] rook_pinner(*g, *abb, stm_king_index as int, p) && rook_pin_target(*g, stm_king_index as int, p, mv.from as int, mv.to as int, only_captures, push_mask, capture_mask, empty_squares) && rook_pin_ray(stm_king_index as int, p, mv.from as int) && bit(abb.stm_pieces, mv.from as int);
                }
            }
            lemma_rook_pins_flag(*g, *abb, stm_king_index as int, only_captures, push_mask, capture_mask, empty_squares, found_rooklike, pre0, movelist.move_list@);
            assert(!only_captures ==> stm_haslegalmove == (h0 || movelist.move_list@.len() > start.len()));
        }
        assert(extends(pre0, movelist.move_list@));
        lemma_extends_trans(start, pre0, movelist.move_list@);
    }
    proof {
        assert(only_rook_pin_moves(*g, *abb, stm_king_index as int, only_captures, push_mask, capture_mask, empty_squares, pre0, movelist.move_list@)) by {
            assert forall|i: int| pre0.len() <= i < movelist.move_list@.len() implies #[trigger] is_rook_pin_move(*g, *abb, stm_king_index as int, only_captures, push_mask, capture_mask, empty_squares, movelist.move_list@[i])  by {
                let mv = movelist.move_list@[i];
                let p = choose|p: int| #[trigger] rook_pinner(*g, *abb, stm_king_index as int, p) && rook_pin_target(*g, stm_king_index as int, p, mv.from as int, mv.to as int, only_captures, push_mask, capture_mask, empty_squares) && rook_pin_ray(stm_king_index as int, p, mv.from as int) && bit(abb.stm_pieces, mv.from as int);
            }
        }
        lemma_bk_rook(*g, *abb, only_captures, not_in_check, push_mask, capture_mask, empty_squares, stm_king_index as int, start, pre0, movelist.move_list@);
    }
    let ghost pre1 = movelist.move_list@;
    let ghost hb = stm_haslegalmove;
    let (pinned_pieces, stm_pawns, found_bishoplike) = add_bishop_pin_moves(
        g,
        movelist,
        only_captures,
        abb,
        push_mask,
        capture_mask,
        stm_king_index,
        stm_pawns_rooklike,
        pinned_rooklike,
        ranks,
    );
    stm_haslegalmove = stm_haslegalmove || found_bishoplike;
    proof {
        if !only_captures {
            assert(only_bishop_pin_moves(*g, *abb, stm_pawns_rooklike, stm_king_index as int, only_captures, push_mask, capture_mask, pre1, movelist.move_list@)) by {
                assert forall|i: int| pre1.len() <= i < movelist.move_list@.len() implies #[trigger] is_bishop_pin_move(*g, *abb, stm_pawns_rooklike, stm_king_index as int, only_captures, push_mask, capture_mask, movelist.move_list@[i])  by {
                    let mv = movelist.move_list@[i];
                    let p = choose|p: int| #[trigger] bishop_pinner(*g, *abb, stm_king_index as int, p) && bishop_pin_target(*g, stm_pawns_rooklike, stm_king_index as int, p, mv.from as int, mv.to as int, only_captures, push_mask, capture_mask) && bishop_pin_ray(stm_king_index as int, p, mv.from as int) && bit(abb.stm_pieces, mv.from as int);
                }
            }
            lemma_bishop_pins_flag(*g, *abb, stm_pawns_rooklike, stm_king_index as int, only_captures, push_mask, capture_mask, found_bishoplike, pre1, movelist.move_list@);
            assert(!only_captures ==> stm_haslegalmove == (h0 || movelist.move_list@.len() > start.len()));
        }
        assert(extends(pre1, movelist.move_list@));
        lemma_extends_trans(start, pre1, movelist.move_list@);
    }
    proof {
        assert(pinned_board(*g, *abb) == pinned_pieces) by {
            assert(is_pinned_board(*g, *abb, pinned_pieces));
            let pb = pinned_board(*g, *abb);
            assert(is_pinned_board(*g, *abb, pb));
            assert forall|u: int| 0 <= u < 64 implies #[trigger] bit(pb, u) == bit(pinned_pieces, u) by {}
            crate::bitboards::lemma_bit_extensional(pb, pinned_pieces);
        }
        assert(only_bishop_pin_moves(*g, *abb, stm_pawns_rooklike, stm_king_index as int, only_captures, push_mask, capture_mask, pre1, movelist.move_list@)) by {
            assert forall|i: int| pre1.len() <= i < movelist.move_list@.len() implies #[trigger] is_bishop_pin_move(*g, *abb, stm_pawns_rooklike, stm_king_index as int, only_captures, push_mask, capture_mask, movelist.move_list@[i])  by {
                let mv = movelist.move_list@[i];
                let p = choose|p: int| #[trigger] bishop_pinner(*g, *abb, stm_king_index as int, p) && bishop_pin_target(*g, stm_pawns_rooklike, stm_king_index as int, p, mv.from as int, mv.to as int, only_captures, push_mask, capture_mask) && bishop_pin_ray(stm_king_index as int, p, mv.from as int) && bit(abb.stm_pieces, mv.from as int);
            }
        }
        lemma_bk_bishop(*g, *abb, only_captures, not_in_check, push_mask, capture_mask, stm_pawns_rooklike, stm_king_index as int, start, pre1, movelist.move_list@);
    }
    //5. Pawn pushes, captures, and promotions
    let ghost pre2 = movelist.move_list@;
    let ghost h2 = stm_haslegalmove;
    stm_haslegalmove = add_pawn_pushes(
        g,
        movelist,
        only_captures,
        stm_pawns,
        empty_squares,
        push_mask,
        pinned_pieces,
        stm_haslegalmove,
        ranks,
    );
    proof {
        lemma_extends_trans(start, pre2, movelist.move_list@);
        if !only_captures {
            lemma_pushes_flag(*g, stm_pawns, empty_squares, push_mask, pinned_pieces, h2, stm_haslegalmove, pre2, movelist.move_list@);
            assert(!only_captures ==> stm_haslegalmove == (h0 || movelist.move_list@.len() > start.len()));
        }
    }
    proof {
        lemma_bk_pushes(*g, *abb, only_captures, not_in_check, push_mask, capture_mask, stm_pawns, empty_squares, pinned_pieces, start, pre2, movelist.move_list@);
    }
    proof {
        assert forall|t: int| 0 <= t < 64 && #[trigger] bit(abb.stm_pawns_westattack, t) implies 0
            <= pawn_from(stm_color_iswhite, 7, t) < 64 && bit(
            g.pieces[0][c],
            pawn_from(stm_color_iswhite, 7, t),
        ) && pawn_attacks(c, pawn_from(stm_color_iswhite, 7, t), t) by {}
        assert forall|t: int| 0 <= t < 64 && #[trigger] bit(abb.stm_pawns_eastattack, t) implies 0
            <= pawn_from(stm_color_iswhite, 9, t) < 64 && bit(
            g.pieces[0][c],
            pawn_from(stm_color_iswhite, 9, t),
        ) && pawn_attacks(c, pawn_from(stm_color_iswhite, 9, t), t) by {}
    }
    let ghost pre3 = movelist.move_list@;
    let ghost hc = stm_haslegalmove;
    let west_captures = add_pawn_captures(
        g,
        movelist,
        abb,
        abb.stm_pawns_westattack,
        7,
        capture_mask,
        pinned_pieces,
        ranks,
    );
    stm_haslegalmove = stm_haslegalmove || west_captures;
    proof {
        if !only_captures {
            lemma_captures_flag(*g, *abb, abb.stm_pawns_westattack, 7, capture_mask, pinned_pieces, west_captures, pre3, movelist.move_list@);
            assert(!only_captures ==> stm_haslegalmove == (h0 || movelist.move_list@.len() > start.len()));
        }
        assert(extends(pre3, movelist.move_list@));
        lemma_extends_trans(start, pre3, movelist.move_list@);
    }
    proof {
        lemma_bk_captures(*g, *abb, only_captures, not_in_check, push_mask, capture_mask, true, pinned_pieces, start, pre3, movelist.move_list@);
    }
    let ghost pre4 = movelist.move_list@;
    let west_en_passant = add_en_passant_move(
        g,
        movelist,
        abb,
        abb.stm_pawns_westattack,
        7,
        capture_mask,
        pinned_pieces,
        stm_king_index,
        ranks,
    );
    stm_haslegalmove = stm_haslegalmove || west_en_passant;
    proof {
        assert(west_en_passant == (movelist.move_list@.len() > pre4.len()));
        if !only_captures {
            assert(!only_captures ==> stm_haslegalmove == (h0 || movelist.move_list@.len() > start.len()));
        }
        assert(extends(pre4, movelist.move_list@));
        lemma_extends_trans(start, pre4, movelist.move_list@);
    }
    proof {
        lemma_bk_en_passant(*g, *abb, only_captures, not_in_check, push_mask, capture_mask, true, pinned_pieces, stm_king_index as int, start, pre4, movelist.move_list@);
    }
    let ghost pre5 = movelist.move_list@;
    let east_captures = add_pawn_captures(
        g,
        movelist,
        abb,
        abb.stm_pawns_eastattack,
        9,
        capture_mask,
        pinned_pieces,
        ranks,
    );
    stm_haslegalmove = stm_haslegalmove || east_captures;
    proof {
        if !only_captures {
            lemma_captures_flag(*g, *abb, abb.stm_pawns_eastattack, 9, capture_mask, pinned_pieces, east_captures, pre5, movelist.move_list@);
            assert(!only_captures ==> stm_haslegalmove == (h0 || movelist.move_list@.len() > start.len()));
        }
        assert(extends(pre5, movelist.move_list@));
        lemma_extends_trans(start, pre5, movelist.move_list@);
    }
    proof {
        lemma_bk_captures(*g, *abb, only_captures, not_in_check, push_mask, capture_mask, false, pinned_pieces, start, pre5, movelist.move_list@);
    }
    let ghost pre6 = movelist.move_list@;
    let east_en_passant = add_en_passant_move(
        g,
        movelist,
        abb,
        abb.stm_pawns_eastattack,
        9,
        capture_mask,
        pinned_pieces,
        stm_king_index,
        ranks,
    );
    stm_haslegalmove = stm_haslegalmove || east_en_passant;
    proof {
        assert(east_en_passant == (movelist.move_list@.len() > pre6.len()));
        if !only_captures {
            assert(!only_captures ==> stm_haslegalmove == (h0 || movelist.move_list@.len() > start.len()));
        }
        assert(extends(pre6, movelist.move_list@));
        lemma_extends_trans(start, pre6, movelist.move_list@);
    }
    proof {
        lemma_bk_en_passant(*g, *abb, only_captures, not_in_check, push_mask, capture_mask, false, pinned_pieces, stm_king_index as int, start, pre6, movelist.move_list@);
    }
    //6. All other legal moves (knights, bishops, rooks, queens)
    let ghost pre8 = movelist.move_list@;
    let ghost h8 = stm_haslegalmove;
    stm_haslegalmove = add_pieces_moves(
        g,
        movelist,
        abb,
        pinned_pieces,
        empty_squares,
        push_mask,
        capture_mask,
        only_captures,
        stm_haslegalmove,
    );
    //7. Castling
    let ghost s9 = movelist.move_list@;
    proof {
        lemma_extends_trans(start, pre8, s9);
        if !only_captures {
            assert(only_piece_moves(*g, *abb, pinned_pieces, empty_squares, push_mask, capture_mask, pre8, s9)) by {
                assert forall|i: int| pre8.len() <= i < s9.len() implies #[trigger] is_piece_move(*g, *abb, pinned_pieces, empty_squares, push_mask, capture_mask, s9[i])  by {
                    let mv = s9[i];
                    let j = choose|j: int| 0 <= j < 4 && pieces_kind(j) == piece_index(mv.piece_type) && piece_target(*g, *abb, pinned_pieces, empty_squares, push_mask, capture_mask, pieces_kind(j), mv.from as int, mv.to as int);
                    assert(piece_target(*g, *abb, pinned_pieces, empty_squares, push_mask, capture_mask, pieces_kind(j), mv.from as int, mv.to as int));
                }
            }
            lemma_pieces_flag(*g, *abb, pinned_pieces, empty_squares, push_mask, capture_mask, only_captures, h8, stm_haslegalmove, pre8, s9);
            assert(!only_captures ==> stm_haslegalmove == (h0 || movelist.move_list@.len() > start.len()));
        }
    }
    proof {
        assert(only_piece_moves(*g, *abb, pinned_pieces, empty_squares, push_mask, capture_mask, pre8, s9)) by {
            assert forall|i: int| pre8.len() <= i < s9.len() implies #[trigger] is_piece_move(*g, *abb, pinned_pieces, empty_squares, push_mask, capture_mask, s9[i])  by {
                let mv = s9[i];
                let j = choose|j: int| 0 <= j < 4 && pieces_kind(j) == piece_index(mv.piece_type) && piece_target(*g, *abb, pinned_pieces, empty_squares, push_mask, capture_mask, pieces_kind(j), mv.from as int, mv.to as int);
                assert(piece_target(*g, *abb, pinned_pieces, empty_squares, push_mask, capture_mask, pieces_kind(j), mv.from as int, mv.to as int));
            }
        }
        lemma_bk_pieces(*g, *abb, only_captures, not_in_check, push_mask, capture_mask, pinned_pieces, empty_squares, start, pre8, s9);
    }
    let ghost h9 = stm_haslegalmove;
    if (!only_captures || !stm_haslegalmove) && not_in_check {
        let castles = add_castle_moves(g, movelist, abb, only_captures, stm_king_index);
        stm_haslegalmove = stm_haslegalmove || castles;
    }
    let ghost fin = movelist.move_list@;
    proof {
        assert(fin == s9 || (not_in_check && !only_captures && fin == s9 + castle_moves(*g, *abb, stm_king_index as int)));
        lemma_bk_castles(*g, *abb, only_captures, not_in_check, push_mask, capture_mask, stm_king_index as int, start, s9, fin);
    }
    proof {
        if !only_captures && not_in_check {
            assert(castle_moves(*g, *abb, stm_king_index as int).len() > 0 <==> (castle_open(*g, *abb, true)
                || castle_open(*g, *abb, false)));
        }
        assert(!only_captures ==> stm_haslegalmove == (h0 || fin.len() > start.len()));
        assert(extends(s9, fin));
        lemma_extends_trans(pre8, s9, fin);
        lemma_extends_trans(pre6, pre8, fin);
        lemma_extends_trans(pre5, pre6, fin);
        lemma_extends_trans(pre4, pre5, fin);
        lemma_extends_trans(pre3, pre4, fin);
        lemma_extends_trans(pre2, pre3, fin);
        lemma_extends_trans(pre1, pre2, fin);
        lemma_extends_trans(pre0, pre1, fin);
        lemma_extends_trans(start, pre0, fin);
    }
    proof {
        if !only_captures && not_in_check {
            let k = king_square(*g);
            assert(fin == s9 + castle_moves(*g, *abb, k));
            assert forall|king_side: bool| #[trigger] castle_open(*g, *abb, king_side) implies fin.contains(
                castle_move(*g, k, king_side),
            ) by {
                if king_side {
                    assert(fin[s9.len() as int] == castle_move(*g, k, true));
                } else if castle_open(*g, *abb, true) {
                    assert(fin[s9.len() + 1int] == castle_move(*g, k, false));
                } else {
                    assert(fin[s9.len() as int] == castle_move(*g, k, false));
                }
            }
        }
    }
    proof {
        assert(pinned_board(*g, *abb) == pinned_pieces) by {
            assert(is_pinned_board(*g, *abb, pinned_pieces));
            let pb = pinned_board(*g, *abb);
            assert(is_pinned_board(*g, *abb, pb));
            assert forall|u: int| 0 <= u < 64 implies #[trigger] bit(pb, u) == bit(pinned_pieces, u) by {}
            crate::bitboards::lemma_bit_extensional(pb, pinned_pieces);
        }
        lemma_listed_kept(pre8, s9, fin);
        if !only_captures {
            assert forall|u: int| 0 <= u < 64 && !bit(pinned_pieces, u) implies #[trigger] bit(stm_pawns, u)
                == bit(g.pieces[0][c], u) by {}
            lemma_pushes_listed(*g, stm_pawns, empty_squares, push_mask, pinned_pieces, pre2, pre3, fin);
        }
        lemma_captures_listed(*g, *abb, abb.stm_pawns_westattack, 7, capture_mask, pinned_pieces, pre3, pre4, fin);
        lemma_captures_listed(*g, *abb, abb.stm_pawns_eastattack, 9, capture_mask, pinned_pieces, pre5, pre6, fin);
        lemma_rook_pins_listed(*g, *abb, stm_king_index as int, only_captures, push_mask, capture_mask, empty_squares, pre0, pre1, fin);
        lemma_bishop_pins_listed(*g, *abb, stm_king_index as int, stm_pawns_rooklike, only_captures, push_mask, capture_mask, pre1, pre2, fin);
        if let Some(mv) = en_passant_capture(*g, *abb, abb.stm_pawns_westattack, 7, capture_mask, pinned_pieces, stm_king_index as int) {
            assert(pre5[pre4.len() as int] == mv);
            assert(fin[pre4.len() as int] == mv);
        }
        if let Some(mv) = en_passant_capture(*g, *abb, abb.stm_pawns_eastattack, 9, capture_mask, pinned_pieces, stm_king_index as int) {
            assert(pre8[pre6.len() as int] == mv);
            assert(fin[pre6.len() as int] == mv);
        }
    }
    proof {
        assert(rank_file_free_pawns(*g, *abb) == stm_pawns_rooklike) by {
            assert(is_rank_file_free_pawns(*g, *abb, stm_pawns_rooklike));
            let rb = rank_file_free_pawns(*g, *abb);
            assert(is_rank_file_free_pawns(*g, *abb, rb));
            assert forall|u: int| 0 <= u < 64 implies #[trigger] bit(rb, u) == bit(stm_pawns_rooklike, u) by {}
            crate::bitboards::lemma_bit_extensional(rb, stm_pawns_rooklike);
        }
        assert(free_pawns(*g, *abb) == stm_pawns) by {
            assert forall|u: int| 0 <= u < 64 implies #[trigger] bit(stm_pawns, u) == (bit(g.pieces[0][c], u) && !bit(pinned_pieces, u)) by {
                if bit(pinned_rooklike, u) {
                    assert(bit(pinned_pieces, u));
                }
            }
            assert(is_free_pawns(*g, *abb, stm_pawns));
            let fb = free_pawns(*g, *abb);
            assert(is_free_pawns(*g, *abb, fb));
            assert forall|u: int| 0 <= u < 64 implies #[trigger] bit(fb, u) == bit(stm_pawns, u) by {}
            crate::bitboards::lemma_bit_extensional(fb, stm_pawns);
        }
        if (!only_captures || !h9) && not_in_check {
            assert(castle_open(*g, *abb, true) || castle_open(*g, *abb, false) ==> stm_haslegalmove);
        }
        assert(stm_haslegalmove == (h0 || below_king_has_move(*g, *abb, push_mask, capture_mask, not_in_check)));
    }
    stm_haslegalmove
}

/// A board with one square holds just its lowest square.
proof fn lemma_single_bit(b: u64)
    requires
        popcount(b) == 1,
    ensures
        0 <= vstd::std_specs::bits::u64_trailing_zeros(b) < 64,
        bit(b, vstd::std_specs::bits::u64_trailing_zeros(b) as int),
        forall|t: int| #[trigger] bit(b, t) ==> t == vstd::std_specs::bits::u64_trailing_zeros(b) as int,
{
    crate::bitboards::lemma_popcount_nonzero(b);
    crate::bitboards::lemma_clear_lowest(b);
    let s = vstd::std_specs::bits::u64_trailing_zeros(b) as int;
    let rest = b ^ (1u64 << (s as u64));
    assert forall|t: int| 0 <= t < 64 implies #[trigger] bit(rest, t) == (bit(b, t) && t != s) by {
        crate::bitboards::lemma_bit_ops(b, 1u64 << (s as u64), t);
        crate::bitboards::lemma_bit_single(s as u64, t);
    }
    crate::bitboards::lemma_popcount_remove(b, rest, s);
    crate::bitboards::lemma_popcount_nonzero(rest);
    crate::bitboards::lemma_zero_board(rest);
    assert forall|t: int| #[trigger] bit(b, t) implies t == s by {
        if t != s {
            assert(bit(rest, t));
        }
    }
}

/// The enemy piece on `s` gives check to the king of the side to move.
pub open spec fn gives_check(g: GameState, s: int) -> bool {
    let c = g.color_to_move as int;
    let e = 1 - c;
    let p = g.pieces;
    checks_king(c == 0, p[0][e], p[1][e], p[2][e], p[3][e], p[4][e], without_king_board(g), king_square(g), s)
}

/// `b` holds the enemy pieces that give check.
pub open spec fn is_checkers_board(g: GameState, b: u64) -> bool {
    forall|s: int| 0 <= s < 64 ==> #[trigger] bit(b, s) == gives_check(g, s)
}

/// The board of the enemy pieces that give check.
pub open spec fn checkers_board(g: GameState) -> u64 {
    choose|b: u64| #[trigger] is_checkers_board(g, b)
}

/// A square between the king of the side to move and an enemy bishop, rook or queen that
/// gives it check: a piece put there blocks the check.
pub open spec fn blocks_check(g: GameState, u: int) -> bool {
    let e = 1 - g.color_to_move as int;
    let k = king_square(g);
    exists|ch: int|
        #[trigger] gives_check(g, ch) && (bit(g.pieces[2][e], ch) || bit(g.pieces[3][e], ch) || bit(
            g.pieces[4][e],
            ch,
        )) && if rook_reaches(k, 0u64, ch) {
            rook_pin_ray(k, ch, u)
        } else {
            bishop_pin_ray(k, ch, u)
        }
}

/// `b` holds the squares that block the check.
pub open spec fn is_block_board(g: GameState, b: u64) -> bool {
    forall|u: int| 0 <= u < 64 ==> #[trigger] bit(b, u) == blocks_check(g, u)
}

/// The squares a move other than the king's may go to without a capture: any square out
/// of check, the squares that block a single check.
pub open spec fn push_mask_of(g: GameState) -> u64 {
    if popcount(checkers_board(g)) == 0 {
        0xFFFF_FFFF_FFFF_FFFFu64
    } else {
        choose|b: u64| #[trigger] is_block_board(g, b)
    }
}

/// The squares a move other than the king's may capture on: any square out of check, the
/// checking piece in a single check.
pub open spec fn capture_mask_of(g: GameState) -> u64 {
    if popcount(checkers_board(g)) == 0 {
        0xFFFF_FFFF_FFFF_FFFFu64
    } else {
        checkers_board(g)
    }
}

/// A move the generator gives: a king step onto a square the other side does not attack
/// (a capture, or a quiet step unless only captures are asked for) or, unless two pieces
/// give check, a move below the king's that takes the single checking piece or blocks its
/// check.
pub open spec fn generated_move(g: GameState, abb: AdditionalBitBoards, only_captures: bool, mv: GameMove) -> bool {
    ||| mv.from == king_square(g) && king_step(g, mv.to as int) && (side_at(
        g.pieces,
        1 - g.color_to_move as int,
        mv.to as int,
    ) || !only_captures) && mv.piece_type == PieceType::King && (mv.move_type is Quiet
        || mv.move_type is Capture)
    ||| popcount(checkers_board(g)) <= 1 && below_king_move(
        g,
        abb,
        only_captures,
        popcount(checkers_board(g)) == 0,
        push_mask_of(g),
        capture_mask_of(g),
        mv,
    )
}

/// The side to move has a move the generator gives: a king step onto a square the other
/// side does not attack or, unless two pieces give check, a move below the king's that
/// takes the single checking piece or blocks its check.
pub open spec fn side_has_generated_move(g: GameState, abb: AdditionalBitBoards) -> bool {
    ||| exists|t: int| #[trigger] king_step(g, t)
    ||| popcount(checkers_board(g)) <= 1 && below_king_has_move(
        g,
        abb,
        push_mask_of(g),
        capture_mask_of(g),
        popcount(checkers_board(g)) == 0,
    )
}

/// `list` holds the moves the generator gives and no others: every listed move is one
/// (`generated_move`), and every king step, castle open to the side out of check, and,
/// unless two pieces give check, every pinned piece's move, pawn push (unless only
/// captures are asked for), pawn capture, capture en passant and move of another piece
/// that takes the checking piece or blocks its check, is listed.
pub open spec fn generated_move_list(
    g: GameState,
    abb: AdditionalBitBoards,
    only_captures: bool,
    list: Seq<GameMove>,
) -> bool {
    &&& abb_of(g, abb)
    &&& forall|t: int| 0 <= t < 64 ==> #[trigger] bit(abb.stm_unsafe_squares, t) == king_unsafe(g, t)
    &&& !only_captures && popcount(checkers_board(g)) <= 1 ==> forall|t: int|
            0 <= t < 64 && #[trigger] single_push(
                g.color_to_move as int,
                g.pieces[0][g.color_to_move as int],
                !abb.all_pieces,
                push_mask_of(g),
                t,
            ) && !bit(pinned_board(g, abb), pawn_from(g.color_to_move == 0, 8, t)) ==> listed(
                list,
                pawn_from(g.color_to_move == 0, 8, t),
                t,
            )
    &&& !only_captures && popcount(checkers_board(g)) <= 1 ==> forall|t: int|
            0 <= t < 64 && #[trigger] double_push(
                g.color_to_move as int,
                g.pieces[0][g.color_to_move as int],
                !abb.all_pieces,
                push_mask_of(g),
                t,
            ) && !bit(pinned_board(g, abb), pawn_from(g.color_to_move == 0, 16, t)) ==> listed(
                list,
                pawn_from(g.color_to_move == 0, 16, t),
                t,
            )
    &&& popcount(checkers_board(g)) <= 1 ==> forall|t: int|
            0 <= t < 64 && #[trigger] pawn_capture_target(abb, abb.stm_pawns_westattack, capture_mask_of(g), t)
                && !bit(pinned_board(g, abb), pawn_from(g.color_to_move == 0, 7, t)) ==> listed(
                list,
                pawn_from(g.color_to_move == 0, 7, t),
                t,
            )
    &&& popcount(checkers_board(g)) <= 1 ==> forall|t: int|
            0 <= t < 64 && #[trigger] pawn_capture_target(abb, abb.stm_pawns_eastattack, capture_mask_of(g), t)
                && !bit(pinned_board(g, abb), pawn_from(g.color_to_move == 0, 9, t)) ==> listed(
                list,
                pawn_from(g.color_to_move == 0, 9, t),
                t,
            )
    &&& popcount(checkers_board(g)) <= 1 ==> (en_passant_capture(
            g,
            abb,
            abb.stm_pawns_westattack,
            7,
            capture_mask_of(g),
            pinned_board(g, abb),
            king_square(g),
        ) matches Some(mv) ==> list.contains(mv))
    &&& popcount(checkers_board(g)) <= 1 ==> (en_passant_capture(
            g,
            abb,
            abb.stm_pawns_eastattack,
            9,
            capture_mask_of(g),
            pinned_board(g, abb),
            king_square(g),
        ) matches Some(mv) ==> list.contains(mv))
    &&& popcount(checkers_board(g)) <= 1 ==> forall|p: int, u: int, t: int|
            #[trigger] rook_pin_target(
                g,
                king_square(g),
                p,
                u,
                t,
                only_captures,
                push_mask_of(g),
                capture_mask_of(g),
                !abb.all_pieces,
            ) && rook_pinner(g, abb, king_square(g), p) && rook_pin_ray(king_square(g), p, u) && bit(
                abb.stm_pieces,
                u,
            ) ==> listed(list, u, t)
    &&& popcount(checkers_board(g)) <= 1 ==> forall|p: int, u: int, t: int|
            #[trigger] bishop_pin_target(
                g,
                g.pieces[0][g.color_to_move as int],
                king_square(g),
                p,
                u,
                t,
                only_captures,
                push_mask_of(g),
                capture_mask_of(g),
            ) && bishop_pinner(g, abb, king_square(g), p) && bishop_pin_ray(king_square(g), p, u) && bit(
                abb.stm_pieces,
                u,
            ) && !rook_pinned(g, abb, king_square(g), u) ==> listed(list, u, t)
    &&& forall|i: int|
            0 <= i < list.len() ==> #[trigger] generated_move(
                g,
                abb,
                only_captures,
                list[i],
            )
    &&& forall|t: int|
            #[trigger] king_step(g, t) && (side_at(g.pieces, 1 - g.color_to_move as int, t) || !only_captures)
                ==> listed(list, king_square(g), t)
    &&& !only_captures && popcount(checkers_board(g)) == 0 ==> forall|king_side: bool|
            #[trigger] castle_open(g, abb, king_side) ==> list.contains(
                castle_move(g, king_square(g), king_side),
            )
    &&& popcount(checkers_board(g)) <= 1 ==> forall|j: int, s: int, t: int|
            0 <= j < 4 && #[trigger] piece_target(
                g,
                abb,
                pinned_board(g, abb),
                !abb.all_pieces,
                push_mask_of(g),
                capture_mask_of(g),
                pieces_kind(j),
                s,
                t,
            ) && (bit(capture_mask_of(g), t) && bit(abb.enemy_pieces, t) || !only_captures) ==> listed(
                list,
                s,
                t,
            )
}

/// Generates the moves of the side to move into `movelist` (only the captures, en-passant
/// captures and capturing promotions when `only_captures`), and tells whether the side to
/// move is in check and whether it has a legal move. Every king step onto a square the
/// other side does not attack is listed; out of check, so is every castle open to the side.
/// Unless two pieces give check, so is every move of a piece that is not pinned, every move
/// of a pinned piece along its pin or onto its pinner, every pawn push, capture and capture
/// en passant, where it takes the single checking piece or (for a move without a capture)
/// blocks its check. Where quiet moves are asked for too, the side has a legal move exactly
/// when the list is not empty.
#[verifier::spinoff_prover]
#[verifier::rlimit(100)]
pub fn generate_moves(g: &GameState, only_captures: bool, movelist: &mut MoveList) -> (res:
    AdditionalGameStateInformation)
    requires
        position_ok(*g),
    ensures
        all_sound(*g, final(movelist).move_list@),
        !only_captures && popcount(checkers_board(*g)) <= 1 ==> forall|t: int|
            0 <= t < 64 && #[trigger] single_push(
                g.color_to_move as int,
                g.pieces[0][g.color_to_move as int],
                !res.additional_bitboards.all_pieces,
                push_mask_of(*g),
                t,
            ) && !bit(pinned_board(*g, res.additional_bitboards), pawn_from(g.color_to_move == 0, 8, t)) ==> listed(
                final(movelist).move_list@,
                pawn_from(g.color_to_move == 0, 8, t),
                t,
            ),
        !only_captures && popcount(checkers_board(*g)) <= 1 ==> forall|t: int|
            0 <= t < 64 && #[trigger] double_push(
                g.color_to_move as int,
                g.pieces[0][g.color_to_move as int],
                !res.additional_bitboards.all_pieces,
                push_mask_of(*g),
                t,
            ) && !bit(pinned_board(*g, res.additional_bitboards), pawn_from(g.color_to_move == 0, 16, t)) ==> listed(
                final(movelist).move_list@,
                pawn_from(g.color_to_move == 0, 16, t),
                t,
            ),
        popcount(checkers_board(*g)) <= 1 ==> forall|t: int|
            0 <= t < 64 && #[trigger] pawn_capture_target(res.additional_bitboards, res.additional_bitboards.stm_pawns_westattack, capture_mask_of(*g), t)
                && !bit(pinned_board(*g, res.additional_bitboards), pawn_from(g.color_to_move == 0, 7, t)) ==> listed(
                final(movelist).move_list@,
                pawn_from(g.color_to_move == 0, 7, t),
                t,
            ),
        popcount(checkers_board(*g)) <= 1 ==> forall|t: int|
            0 <= t < 64 && #[trigger] pawn_capture_target(res.additional_bitboards, res.additional_bitboards.stm_pawns_eastattack, capture_mask_of(*g), t)
                && !bit(pinned_board(*g, res.additional_bitboards), pawn_from(g.color_to_move == 0, 9, t)) ==> listed(
                final(movelist).move_list@,
                pawn_from(g.color_to_move == 0, 9, t),
                t,
            ),
        popcount(checkers_board(*g)) <= 1 ==> (en_passant_capture(
            *g,
            res.additional_bitboards,
            res.additional_bitboards.stm_pawns_westattack,
            7,
            capture_mask_of(*g),
            pinned_board(*g, res.additional_bitboards),
            king_square(*g),
        ) matches Some(mv) ==> final(movelist).move_list@.contains(mv)),
        popcount(checkers_board(*g)) <= 1 ==> (en_passant_capture(
            *g,
            res.additional_bitboards,
            res.additional_bitboards.stm_pawns_eastattack,
            9,
            capture_mask_of(*g),
            pinned_board(*g, res.additional_bitboards),
            king_square(*g),
        ) matches Some(mv) ==> final(movelist).move_list@.contains(mv)),
        popcount(checkers_board(*g)) <= 1 ==> forall|p: int, u: int, t: int|
            #[trigger] rook_pin_target(
                *g,
                king_square(*g),
                p,
                u,
                t,
                only_captures,
                push_mask_of(*g),
                capture_mask_of(*g),
                !res.additional_bitboards.all_pieces,
            ) && rook_pinner(*g, res.additional_bitboards, king_square(*g), p) && rook_pin_ray(king_square(*g), p, u) && bit(
                res.additional_bitboards.stm_pieces,
                u,
            ) ==> listed(final(movelist).move_list@, u, t),
        popcount(checkers_board(*g)) <= 1 ==> forall|p: int, u: int, t: int|
            #[trigger] bishop_pin_target(
                *g,
                g.pieces[0][g.color_to_move as int],
                king_square(*g),
                p,
                u,
                t,
                only_captures,
                push_mask_of(*g),
                capture_mask_of(*g),
            ) && bishop_pinner(*g, res.additional_bitboards, king_square(*g), p) && bishop_pin_ray(king_square(*g), p, u) && bit(
                res.additional_bitboards.stm_pieces,
                u,
            ) && !rook_pinned(*g, res.additional_bitboards, king_square(*g), u) ==> listed(final(movelist).move_list@, u, t),
        only_captures ==> all_captures(final(movelist).move_list@),
        res.stm_incheck == attacked_by(
            g.pieces,
            1 - g.color_to_move as int,
            occupancy(g.pieces),
            lowest_square(g.pieces[5][g.color_to_move as int]),
        ),
        !only_captures ==> (res.stm_haslegalmove <==> final(movelist).move_list@.len() > 0),
        res.stm_incheck == (popcount(checkers_board(*g)) > 0),
        abb_of(*g, res.additional_bitboards),
        generated_move_list(*g, res.additional_bitboards, only_captures, final(movelist).move_list@),
        res.stm_haslegalmove == side_has_generated_move(*g, res.additional_bitboards),
        forall|i: int|
            0 <= i < final(movelist).move_list@.len() ==> #[trigger] generated_move(
                *g,
                res.additional_bitboards,
                only_captures,
                final(movelist).move_list@[i],
            ),
        forall|t: int|
            0 <= t < 64 ==> #[trigger] bit(res.additional_bitboards.stm_unsafe_squares, t) == king_unsafe(
                *g,
                t,
            ),
        forall|t: int|
            #[trigger] king_step(*g, t) && (side_at(g.pieces, 1 - g.color_to_move as int, t) || !only_captures)
                ==> listed(final(movelist).move_list@, king_square(*g), t),
        !only_captures && !res.stm_incheck ==> forall|king_side: bool|
            #[trigger] castle_open(*g, res.additional_bitboards, king_side) ==> final(movelist).move_list@.contains(
                castle_move(*g, king_square(*g), king_side),
            ),
        popcount(checkers_board(*g)) <= 1 ==> forall|j: int, s: int, t: int|
            0 <= j < 4 && #[trigger] piece_target(
                *g,
                res.additional_bitboards,
                pinned_board(*g, res.additional_bitboards),
                !res.additional_bitboards.all_pieces,
                push_mask_of(*g),
                capture_mask_of(*g),
                pieces_kind(j),
                s,
                t,
            ) && (bit(capture_mask_of(*g), t) && bit(res.additional_bitboards.enemy_pieces, t) || !only_captures) ==> listed(
                final(movelist).move_list@,
                s,
                t,
            ),
{
    //0. General bitboards and variable initialization
    movelist.move_list = Vec::new();
    let ghost s0 = movelist.move_list@;
    let stm_color = g.color_to_move;
    let enemy_color = 1 - stm_color;
    let ghost c = stm_color as int;
    let ghost e = 1 - c;
    let stm_color_iswhite: bool = g.color_to_move == WHITE;
    let ranks = bitboards::initialize_ranks();

    let stm_pawns: u64 = g.pieces[PAWN][stm_color];
    let stm_knights: u64 = g.pieces[KNIGHT][stm_color];
    let stm_bishops: u64 = g.pieces[BISHOP][stm_color];
    let stm_rooks: u64 = g.pieces[ROOK][stm_color];
    let stm_queens: u64 = g.pieces[QUEEN][stm_color];
    let stm_king: u64 = g.pieces[KING][stm_color];
    proof {
        vstd::std_specs::bits::axiom_u64_trailing_zeros(stm_king);
    }
    let stm_king_index: usize = stm_king.trailing_zeros() as usize;

    let enemy_pawns: u64 = g.pieces[PAWN][enemy_color];
    let enemy_knights: u64 = g.pieces[KNIGHT][enemy_color];
    let enemy_bishops: u64 = g.pieces[BISHOP][enemy_color];
    let enemy_rooks: u64 = g.pieces[ROOK][enemy_color];
    let enemy_queens: u64 = g.pieces[QUEEN][enemy_color];
    let enemy_king: u64 = g.pieces[KING][enemy_color];

    let mut stm_haslegalmove = false;
    //1. Calculate additional needed bitboards
    let abb = calculate_additionalbitboards(
        stm_pawns,
        enemy_pawns,
        stm_knights,
        enemy_knights,
        stm_bishops,
        enemy_bishops,
        stm_rooks,
        enemy_rooks,
        stm_queens,
        enemy_queens,
        stm_king,
        enemy_king,
        stm_color_iswhite,
    );
    proof {
        lemma_abb_of(*g, abb);
        crate::bitboards::lemma_zero_board(stm_king);
        assert(bit(stm_king, stm_king_index as int));
        assert(is_without_king_board(*g, abb.all_pieces_without_stmking));
        let wk = without_king_board(*g);
        assert(is_without_king_board(*g, wk));
        assert forall|t: int| 0 <= t < 64 implies #[trigger] bit(wk, t) == bit(abb.all_pieces_without_stmking, t) by {}
        crate::bitboards::lemma_bit_extensional(wk, abb.all_pieces_without_stmking);
        assert forall|t: int| 0 <= t < 64 implies #[trigger] bit(abb.stm_unsafe_squares, t) == king_unsafe(*g, t) by {}
        assert(checkers_board(*g) == abb.all_checkers) by {
            assert(is_checkers_board(*g, abb.all_checkers));
            let cb = checkers_board(*g);
            assert(is_checkers_board(*g, cb));
            assert forall|t: int| 0 <= t < 64 implies #[trigger] bit(cb, t) == bit(abb.all_checkers, t) by {}
            crate::bitboards::lemma_bit_extensional(cb, abb.all_checkers);
        }
    }
    //2. Safe King moves
    let stm_legal_kingmoves = abb.stm_king_attacks & !abb.stm_unsafe_squares;
    stm_haslegalmove = stm_haslegalmove || stm_legal_kingmoves != 0u64;
    proof {
        assert forall|t: int|
            0 <= t < 64 && bit(stm_legal_kingmoves, t) && bit(abb.enemy_pieces, t) implies capturable(
            t,
            enemy_pawns,
            enemy_knights,
            enemy_bishops,
            enemy_rooks,
            enemy_queens,
        ) by {
            assert(piece_attacks(5, c, stm_king_index as int, occupancy(g.pieces), t));
            lemma_attacked_not_king(*g, 5, stm_king_index as int, t);
            assert(side_at(g.pieces, e, t));
        }
    }
    add_king_moves_to_movelist(
        movelist,
        only_captures,
        stm_legal_kingmoves,
        stm_king_index,
        enemy_pawns,
        enemy_knights,
        enemy_bishops,
        enemy_rooks,
        enemy_queens,
        abb.enemy_pieces,
    );
    let ghost s1 = movelist.move_list@;
    proof {
        crate::bitboards::lemma_zero_board(stm_legal_kingmoves);
        assert(stm_haslegalmove == exists|t: int| #[trigger] king_step(*g, t)) by {
            if stm_legal_kingmoves != 0u64 {
                let t = choose|t: int| 0 <= t < 64 && #[trigger] bit(stm_legal_kingmoves, t);
                assert(king_step(*g, t));
            }
            if exists|t: int| #[trigger] king_step(*g, t) {
                let t = choose|t: int| #[trigger] king_step(*g, t);
                assert(bit(stm_legal_kingmoves, t));
            }
        }
        assert forall|i: int| 0 <= i < s1.len() implies #[trigger] generated_move(*g, abb, only_captures, s1[i]) by {
            let t = s1[i].to as int;
            assert(bit(stm_legal_kingmoves, t));
            assert(bit(abb.stm_king_attacks, t) && !bit(abb.stm_unsafe_squares, t));
            assert(king_step(*g, t));
        }
        if !only_captures {
            crate::bitboards::lemma_zero_board(stm_legal_kingmoves);
            if stm_legal_kingmoves != 0u64 {
                let t = choose|t: int| 0 <= t < 64 && #[trigger] bit(stm_legal_kingmoves, t);
                assert(has_target(s0, s1, t));
            }
            if s1.len() > 0 {
                assert(bit(stm_legal_kingmoves, s1[0].to as int));
            }
            assert(stm_haslegalmove == (s1.len() > 0));
        }
        assert forall|t: int|
            #[trigger] king_step(*g, t) && (side_at(g.pieces, 1 - c, t) || !only_captures) implies has_move(
            s0,
            s1,
            stm_king_index as int,
            t,
        ) by {
            assert(bit(stm_legal_kingmoves, t));
            let i = choose|i: int| s0.len() <= i < s1.len() && (#[trigger] s1[i]).to == t;
            assert(s1[i].from == stm_king_index);
        }
    }
    proof {
        let now = movelist.move_list@;
        assert forall|i: int| 0 <= i < now.len() implies sound_move(*g, #[trigger] now[i]) by {
            let t = now[i].to as int;
            assert(bit(stm_legal_kingmoves, t));
            assert(!bit(abb.stm_pieces, t));
            assert(!side_at(g.pieces, c, t));
            if bit(abb.enemy_pieces, t) {
                assert(capturable(t, enemy_pawns, enemy_knights, enemy_bishops, enemy_rooks, enemy_queens));
            }
        }
    }
    //3. Check & Check Evasions
    let checkers = abb.all_checkers.count_ones() as usize;
    let stm_incheck = checkers > 0;
    proof {
        crate::bitboards::lemma_popcount_nonzero(abb.all_checkers);
        lemma_incheck(*g, abb.all_pieces_without_stmking, abb.all_checkers, stm_king_index as int);
    }

    let mut capture_mask = 0xFFFF_FFFF_FFFF_FFFFu64;
    let mut push_mask = 0xFFFF_FFFF_FFFF_FFFFu64;
    if checkers > 1 {
        //Double check, only safe king moves are legal
        proof {
            lemma_listed_kept(s0, s1, movelist.move_list@);
            assert(movelist.move_list@ == s1);
        }
        return AdditionalGameStateInformation {
            stm_incheck,
            stm_haslegalmove,
            additional_bitboards: abb,
        };
    } else if checkers == 1 {
        //Only a single checker
        capture_mask = abb.all_checkers;
        //If it's a slider, we can also push in its way
        if abb.all_checkers & (enemy_bishops | enemy_rooks | enemy_queens) != 0u64 {
            proof {
                crate::bitboards::lemma_zero_board(abb.all_checkers);
                crate::bitboards::lemma_zero_board(abb.all_checkers & (enemy_bishops | enemy_rooks | enemy_queens));
                vstd::std_specs::bits::axiom_u64_trailing_zeros(abb.all_checkers);
            }
            let checker_square = abb.all_checkers.trailing_zeros() as usize;
            let rook_lines = rook_attack(stm_king_index, 0u64);
            if abb.all_checkers & rook_lines != 0u64 {
                //Checker is rook-like
                push_mask = get_rook_ray(stm_king_index, checker_square);
                proof {
                lemma_single_bit(abb.all_checkers);
                let ch = checker_square as int;
                assert(bit(abb.all_checkers, ch));
                assert(gives_check(*g, ch));
                crate::bitboards::lemma_zero_board(abb.all_checkers & (enemy_bishops | enemy_rooks | enemy_queens));
                assert(bit(enemy_bishops, ch) || bit(enemy_rooks, ch) || bit(enemy_queens, ch)) by {
                    let t = choose|t: int| 0 <= t < 64 && #[trigger] bit(abb.all_checkers & (enemy_bishops | enemy_rooks | enemy_queens), t);
                    assert(bit(abb.all_checkers, t));
                }
                crate::bitboards::lemma_zero_board(abb.all_checkers & rook_lines);
                    assert(rook_reaches(stm_king_index as int, 0u64, ch)) by {
                    let t = choose|t: int| 0 <= t < 64 && #[trigger] bit(abb.all_checkers & rook_lines, t);
                    assert(bit(abb.all_checkers, t));
                }
                assert forall|u: int| 0 <= u < 64 implies #[trigger] bit(push_mask, u) == blocks_check(*g, u) by {
                    if blocks_check(*g, u) {
                        let ch2 = choose|ch2: int| #[trigger] gives_check(*g, ch2) && (bit(enemy_bishops, ch2) || bit(enemy_rooks, ch2) || bit(enemy_queens, ch2)) && if rook_reaches(stm_king_index as int, 0u64, ch2) {
                            rook_pin_ray(stm_king_index as int, ch2, u)
                        } else {
                            bishop_pin_ray(stm_king_index as int, ch2, u)
                        };
                        assert(0 <= ch2 < 64);
                        assert(bit(abb.all_checkers, ch2));
                    }
                }
                }
            } else {
                //Checker is bishop-like
                push_mask = get_bishop_ray(stm_king_index, checker_square);
                proof {
                lemma_single_bit(abb.all_checkers);
                let ch = checker_square as int;
                assert(bit(abb.all_checkers, ch));
                assert(gives_check(*g, ch));
                crate::bitboards::lemma_zero_board(abb.all_checkers & (enemy_bishops | enemy_rooks | enemy_queens));
                assert(bit(enemy_bishops, ch) || bit(enemy_rooks, ch) || bit(enemy_queens, ch)) by {
                    let t = choose|t: int| 0 <= t < 64 && #[trigger] bit(abb.all_checkers & (enemy_bishops | enemy_rooks | enemy_queens), t);
                    assert(bit(abb.all_checkers, t));
                }
                crate::bitboards::lemma_zero_board(abb.all_checkers & rook_lines);
                    assert(!rook_reaches(stm_king_index as int, 0u64, ch)) by {
                    assert(!bit(abb.all_checkers & rook_lines, ch));
                }
                assert forall|u: int| 0 <= u < 64 implies #[trigger] bit(push_mask, u) == blocks_check(*g, u) by {
                    if blocks_check(*g, u) {
                        let ch2 = choose|ch2: int| #[trigger] gives_check(*g, ch2) && (bit(enemy_bishops, ch2) || bit(enemy_rooks, ch2) || bit(enemy_queens, ch2)) && if rook_reaches(stm_king_index as int, 0u64, ch2) {
                            rook_pin_ray(stm_king_index as int, ch2, u)
                        } else {
                            bishop_pin_ray(stm_king_index as int, ch2, u)
                        };
                        assert(0 <= ch2 < 64);
                        assert(bit(abb.all_checkers, ch2));
                    }
                }
                }
            }
        } else {
            //else, we can't do push (quiet) moves
            push_mask = 0u64;
            proof {
                lemma_single_bit(abb.all_checkers);
                crate::bitboards::lemma_zero_board(abb.all_checkers & (enemy_bishops | enemy_rooks | enemy_queens));
                assert forall|u: int| 0 <= u < 64 implies #[trigger] bit(push_mask, u) == blocks_check(*g, u) by {
                    if blocks_check(*g, u) {
                        let ch2 = choose|ch2: int| #[trigger] gives_check(*g, ch2) && (bit(enemy_bishops, ch2) || bit(enemy_rooks, ch2) || bit(enemy_queens, ch2)) && if rook_reaches(stm_king_index as int, 0u64, ch2) {
                            rook_pin_ray(stm_king_index as int, ch2, u)
                        } else {
                            bishop_pin_ray(stm_king_index as int, ch2, u)
                        };
                        assert(0 <= ch2 < 64);
                        assert(bit(abb.all_checkers, ch2));
                        assert(bit(abb.all_checkers & (enemy_bishops | enemy_rooks | enemy_queens), ch2));
                    }
                }
            }
        }
    }
    let ghost pre_rest = movelist.move_list@;
    stm_haslegalmove = add_moves_below_king(
        g,
        movelist,
        only_captures,
        &abb,
        push_mask,
        capture_mask,
        stm_king_index,
        &ranks,
        stm_haslegalmove,
        checkers == 0,
    );
    proof {
        let fin = movelist.move_list@;
        lemma_extends_trans(s1, pre_rest, fin);
        assert(forall|t: int|
            #[trigger] king_step(*g, t) && (side_at(g.pieces, 1 - c, t) || !only_captures) ==> listed(
                fin,
                stm_king_index as int,
                t,
            )) by {
            lemma_listed_kept(s0, s1, fin);
        }
        assert(popcount(checkers_board(*g)) == checkers);
        if checkers == 1 {
            assert(is_block_board(*g, push_mask));
            let bb = choose|b: u64| #[trigger] is_block_board(*g, b);
            assert(is_block_board(*g, bb));
            assert forall|u: int| 0 <= u < 64 implies #[trigger] bit(bb, u) == bit(push_mask, u) by {}
            crate::bitboards::lemma_bit_extensional(bb, push_mask);
        }
        assert(push_mask == push_mask_of(*g) && capture_mask == capture_mask_of(*g));
    }
    proof {
        let fin = movelist.move_list@;
        assert(pre_rest == s1);
        reveal(all_below_king);
        assert(popcount(checkers_board(*g)) == checkers);
        assert(checkers <= 1 ==> push_mask == push_mask_of(*g) && capture_mask == capture_mask_of(*g));
        assert forall|i: int| 0 <= i < fin.len() implies #[trigger] generated_move(*g, abb, only_captures, fin[i]) by {
            if i < s1.len() {
                assert(fin[i] == s1[i]);
                assert(generated_move(*g, abb, only_captures, s1[i]));
            } else {
                assert(below_king_move(*g, abb, only_captures, checkers == 0, push_mask, capture_mask, fin[i]));
            }
        }
    }
    AdditionalGameStateInformation { stm_incheck, stm_haslegalmove, additional_bitboards: abb }

}

/// The piece kinds whose moves `add_pieces_moves` adds, in its order: knights, queens,
/// bishops, rooks.
pub open spec fn pieces_kind(j: int) -> int {
    if j == 0 {
        1
    } else if j == 1 {
        4
    } else if j == 2 {
        2
    } else {
        3
    }
}

/// A piece of kind `k` of the side to move, not pinned, moves from `s` to `t`: a capture
/// on the capture mask or a move to an empty square on the push mask.
pub open spec fn piece_target(
    g: GameState,
    abb: AdditionalBitBoards,
    pinned_pieces: u64,
    empty_squares: u64,
    push_mask: u64,
    capture_mask: u64,
    k: int,
    s: int,
    t: int,
) -> bool {
    normal_target(
        g.pieces[k][g.color_to_move as int],
        pinned_pieces,
        k,
        abb.all_pieces,
        capture_mask,
        abb.enemy_pieces,
        push_mask,
        empty_squares,
        s,
        t,
    )
}

/// The moves of the knights, queens, bishops and rooks of the side to move that are not
/// pinned, in that order; tells whether a legal move is known.
fn add_pieces_moves(
    g: &GameState,
    movelist: &mut MoveList,
    abb: &AdditionalBitBoards,
    pinned_pieces: u64,
    empty_squares: u64,
    push_mask: u64,
    capture_mask: u64,
    only_captures: bool,
    stm_haslegalmove: bool,
) -> (res: bool)
    requires
        position_ok(*g),
        abb_of(*g, *abb),
        forall|t: int| 0 <= t < 64 ==> #[trigger] bit(empty_squares, t) == !bit(abb.all_pieces, t),
        all_sound(*g, old(movelist).move_list@),
    ensures
        all_sound(*g, final(movelist).move_list@),
        only_captures && all_captures(old(movelist).move_list@) ==> all_captures(
            final(movelist).move_list@,
        ),
        extends(old(movelist).move_list@, final(movelist).move_list@),
        res == (stm_haslegalmove || exists|j: int, s: int, t: int|
            0 <= j < 4 && #[trigger] piece_target(
                *g,
                *abb,
                pinned_pieces,
                empty_squares,
                push_mask,
                capture_mask,
                pieces_kind(j),
                s,
                t,
            )),
        forall|j: int, s: int, t: int|
            0 <= j < 4 && #[trigger] piece_target(
                *g,
                *abb,
                pinned_pieces,
                empty_squares,
                push_mask,
                capture_mask,
                pieces_kind(j),
                s,
                t,
            ) && (bit(capture_mask, t) && bit(abb.enemy_pieces, t) || !only_captures) ==> has_move(
                old(movelist).move_list@,
                final(movelist).move_list@,
                s,
                t,
            ),
        forall|i: int|
            old(movelist).move_list@.len() <= i < final(movelist).move_list@.len() ==> {
                let mv = #[trigger] final(movelist).move_list@[i];
                exists|j: int|
                    0 <= j < 4 && pieces_kind(j) == piece_index(mv.piece_type) && piece_target(
                        *g,
                        *abb,
                        pinned_pieces,
                        empty_squares,
                        push_mask,
                        capture_mask,
                        pieces_kind(j),
                        mv.from as int,
                        mv.to as int,
                    )
            },
{
    let ghost start_moves = movelist.move_list@;
    let ghost hlm_in = stm_haslegalmove;
    let c = g.color_to_move;
    let e = 1 - c;
    let ghost ci = c as int;
    let stm_color_iswhite = c == WHITE;
    let enemy_pawns = g.pieces[PAWN][e];
    let enemy_knights = g.pieces[KNIGHT][e];
    let enemy_bishops = g.pieces[BISHOP][e];
    let enemy_rooks = g.pieces[ROOK][e];
    let enemy_queens = g.pieces[QUEEN][e];
    let mut stm_haslegalmove = stm_haslegalmove;
    let kinds: [PieceType; 4] = [PieceType::Knight, PieceType::Queen, PieceType::Bishop, PieceType::Rook];
    let mut n: usize = 0;
    while n < 4
        invariant
            n <= 4,
            position_ok(*g),
            abb_of(*g, *abb),
            c == g.color_to_move,
            ci == c,
            e == 1 - c,
            enemy_pawns == g.pieces[0][1 - ci],
            enemy_knights == g.pieces[1][1 - ci],
            enemy_bishops == g.pieces[2][1 - ci],
            enemy_rooks == g.pieces[3][1 - ci],
            enemy_queens == g.pieces[4][1 - ci],
            kinds@ == seq![PieceType::Knight, PieceType::Queen, PieceType::Bishop, PieceType::Rook],
            forall|t: int| 0 <= t < 64 ==> #[trigger] bit(empty_squares, t) == !bit(abb.all_pieces, t),
            all_sound(*g, movelist.move_list@),
            only_captures && all_captures(start_moves) ==> all_captures(movelist.move_list@),
            extends(start_moves, movelist.move_list@),
            forall|t: int| 0 <= t < 64 ==> #[trigger] bit(empty_squares, t) == !bit(abb.all_pieces, t),
            stm_haslegalmove == (hlm_in || exists|j: int, s: int, t: int|
                0 <= j < n && #[trigger] piece_target(
                    *g,
                    *abb,
                    pinned_pieces,
                    empty_squares,
                    push_mask,
                    capture_mask,
                    pieces_kind(j),
                    s,
                    t,
                )),
            forall|j: int, s: int, t: int|
                0 <= j < n && #[trigger] piece_target(
                    *g,
                    *abb,
                    pinned_pieces,
                    empty_squares,
                    push_mask,
                    capture_mask,
                    pieces_kind(j),
                    s,
                    t,
                ) && (bit(capture_mask, t) && bit(abb.enemy_pieces, t) || !only_captures) ==> has_move(
                    start_moves,
                    movelist.move_list@,
                    s,
                    t,
                ),
            forall|i: int|
                start_moves.len() <= i < movelist.move_list@.len() ==> {
                    let mv = #[trigger] movelist.move_list@[i];
                    exists|j: int|
                        0 <= j < n && pieces_kind(j) == piece_index(mv.piece_type) && piece_target(
                            *g,
                            *abb,
                            pinned_pieces,
                            empty_squares,
                            push_mask,
                            capture_mask,
                            pieces_kind(j),
                            mv.from as int,
                            mv.to as int,
                        )
                },
        decreases 4 - n,
    {
        let piece_type = kinds[n];
        let ghost hlm_before = stm_haslegalmove;
        let ghost k = piece_index(piece_type);
        let piece_board = g.pieces[piece_type.to_index()][c];
        let ghost before = movelist.move_list@;
        proof {
            assert forall|s: int, t: int|
                0 <= s < 64 && 0 <= t < 64 && bit(piece_board, s) && !bit(pinned_pieces, s)
                    && #[trigger] piece_attacks(k, 0, s, abb.all_pieces, t) && bit(capture_mask, t)
                    && bit(abb.enemy_pieces, t) implies capturable(
                t,
                enemy_pawns,
                enemy_knights,
                enemy_bishops,
                enemy_rooks,
                enemy_queens,
            ) by {
                assert(piece_attacks(k, ci, s, occupancy(g.pieces), t));
                lemma_attacked_not_king(*g, k, s, t);
                assert(side_at(g.pieces, 1 - ci, t));
            }
        }
        let has = add_normal_moves_to_movelist(
            movelist,
            piece_type,
            piece_board,
            pinned_pieces,
            enemy_pawns,
            enemy_knights,
            enemy_bishops,
            enemy_rooks,
            enemy_queens,
            abb.enemy_pieces,
            empty_squares,
            abb.all_pieces,
            push_mask,
            capture_mask,
            only_captures,
            stm_color_iswhite,
        );
        stm_haslegalmove = stm_haslegalmove || has;
        proof {
            let now = movelist.move_list@;
            assert(k == pieces_kind(n as int));
            assert(piece_board == g.pieces[k][ci]);
            assert forall|j: int, s: int, t: int|
                0 <= j < n + 1 && #[trigger] piece_target(
                    *g,
                    *abb,
                    pinned_pieces,
                    empty_squares,
                    push_mask,
                    capture_mask,
                    pieces_kind(j),
                    s,
                    t,
                ) && (bit(capture_mask, t) && bit(abb.enemy_pieces, t) || !only_captures) implies has_move(
                start_moves,
                now,
                s,
                t,
            ) by {
                if j < n {
                    assert(has_move(start_moves, before, s, t));
                    let i = choose|i: int|
                        start_moves.len() <= i < before.len() && (#[trigger] before[i]).from == s
                            && before[i].to == t;
                    assert(now[i] == before[i]);
                } else {
                    assert(normal_target(
                        piece_board,
                        pinned_pieces,
                        k,
                        abb.all_pieces,
                        capture_mask,
                        abb.enemy_pieces,
                        push_mask,
                        empty_squares,
                        s,
                        t,
                    ));
                    assert(has_move(before, now, s, t));
                    let i = choose|i: int|
                        before.len() <= i < now.len() && (#[trigger] now[i]).from == s && now[i].to == t;
                }
            }
            assert forall|i: int| start_moves.len() <= i < now.len() implies {
                let mv = #[trigger] now[i];
                exists|j: int|
                    0 <= j < n + 1 && pieces_kind(j) == piece_index(mv.piece_type) && piece_target(
                        *g,
                        *abb,
                        pinned_pieces,
                        empty_squares,
                        push_mask,
                        capture_mask,
                        pieces_kind(j),
                        mv.from as int,
                        mv.to as int,
                    )
            } by {
                if i < before.len() {
                    assert(now[i] == before[i]);
                } else {
                    let mv = now[i];
                    assert(normal_target(
                        piece_board,
                        pinned_pieces,
                        k,
                        abb.all_pieces,
                        capture_mask,
                        abb.enemy_pieces,
                        push_mask,
                        empty_squares,
                        mv.from as int,
                        mv.to as int,
                    ));
                    assert(pieces_kind(n as int) == piece_index(mv.piece_type));
                }
            }
            if has {
                let (s, t) = choose|s: int, t: int|
                    #[trigger] normal_target(
                        piece_board,
                        pinned_pieces,
                        k,
                        abb.all_pieces,
                        capture_mask,
                        abb.enemy_pieces,
                        push_mask,
                        empty_squares,
                        s,
                        t,
                    );
                assert(piece_target(*g, *abb, pinned_pieces, empty_squares, push_mask, capture_mask, pieces_kind(n as int), s, t));
            }
            if exists|j: int, s: int, t: int|
                0 <= j < n + 1 && #[trigger] piece_target(
                    *g,
                    *abb,
                    pinned_pieces,
                    empty_squares,
                    push_mask,
                    capture_mask,
                    pieces_kind(j),
                    s,
                    t,
                ) {
                let (j, s, t) = choose|j: int, s: int, t: int|
                    0 <= j < n + 1 && #[trigger] piece_target(
                        *g,
                        *abb,
                        pinned_pieces,
                        empty_squares,
                        push_mask,
                        capture_mask,
                        pieces_kind(j),
                        s,
                        t,
                    );
                if j == n {
                    assert(normal_target(
                        piece_board,
                        pinned_pieces,
                        k,
                        abb.all_pieces,
                        capture_mask,
                        abb.enemy_pieces,
                        push_mask,
                        empty_squares,
                        s,
                        t,
                    ));
                }
            }
            assert forall|i: int| 0 <= i < now.len() implies sound_move(*g, #[trigger] now[i]) by {
                if i < before.len() {
                    assert(now[i] == before[i]);
                } else {
                    let t = now[i].to as int;
                    let f = now[i].from as int;
                    assert(side_at(g.pieces, ci, f));
                    lemma_occupancy(g.pieces, f);
                    lemma_occupancy(g.pieces, t);
                    if bit(abb.enemy_pieces, t) && bit(capture_mask, t) {
                        assert(capturable(t, enemy_pawns, enemy_knights, enemy_bishops, enemy_rooks, enemy_queens));
                    }
                }
            }
        }
        n = n + 1;
    }
    stm_haslegalmove
}


/// The king of the side to move on `k` is attacked exactly when some enemy piece gives
/// it check, seen through the king itself.
proof fn lemma_incheck(g: GameState, occ_without_king: u64, checkers: u64, k: int)
    requires
        position_ok(g),
        k == lowest_square(g.pieces[5][g.color_to_move as int]),
        forall|t: int|
            0 <= t < 64 ==> #[trigger] bit(occ_without_king, t) == (side_at(
                g.pieces,
                1 - g.color_to_move as int,
                t,
            ) || bit(g.pieces[0][g.color_to_move as int], t) || bit(
                g.pieces[1][g.color_to_move as int],
                t,
            ) || bit(g.pieces[2][g.color_to_move as int], t) || bit(
                g.pieces[3][g.color_to_move as int],
                t,
            ) || bit(g.pieces[4][g.color_to_move as int], t)),
        forall|s: int|
            0 <= s < 64 ==> #[trigger] bit(checkers, s) == checks_king(
                g.color_to_move == 0,
                g.pieces[0][1 - g.color_to_move as int],
                g.pieces[1][1 - g.color_to_move as int],
                g.pieces[2][1 - g.color_to_move as int],
                g.pieces[3][1 - g.color_to_move as int],
                g.pieces[4][1 - g.color_to_move as int],
                occ_without_king,
                k,
                s,
            ),
    ensures
        (checkers != 0u64) == attacked_by(g.pieces, 1 - g.color_to_move as int, occupancy(g.pieces), k),
{
    let c = g.color_to_move as int;
    let e = 1 - c;
    let occ = occupancy(g.pieces);
    vstd::std_specs::bits::axiom_u64_trailing_zeros(g.pieces[5][c]);
    crate::bitboards::lemma_zero_board(g.pieces[5][c]);
    assert(bit(g.pieces[5][c], k));
    assert forall|u: int| u != k implies #[trigger] bit(occ_without_king, u) == bit(occ, u) by {
        lemma_occupancy(g.pieces, u);
    }
    crate::bitboards::lemma_zero_board(checkers);
    if checkers != 0u64 {
        let s = choose|s: int| 0 <= s < 64 && #[trigger] bit(checkers, s);
        lemma_slider_reach_ignores_target(true, s, occ_without_king, occ, k);
        lemma_slider_reach_ignores_target(false, s, occ_without_king, occ, k);
        if bit(g.pieces[0][e], s) && pawn_attacks(e, s, k) {
            assert(piece_attacks(0, e, s, occ, k));
            assert(covers(0, e, g.pieces[0][e], occ, k));
        } else if bit(g.pieces[1][e], s) && piece_attacks(1, 0, s, occ_without_king, k) {
            assert(piece_attacks(1, e, s, occ, k));
            assert(covers(1, e, g.pieces[1][e], occ, k));
        } else if bit(g.pieces[2][e], s) && piece_attacks(2, 0, s, occ_without_king, k) {
            assert(piece_attacks(2, e, s, occ, k));
            assert(covers(2, e, g.pieces[2][e], occ, k));
        } else if bit(g.pieces[3][e], s) && piece_attacks(3, 0, s, occ_without_king, k) {
            assert(piece_attacks(3, e, s, occ, k));
            assert(covers(3, e, g.pieces[3][e], occ, k));
        } else {
            assert(piece_attacks(4, e, s, occ, k));
            assert(covers(4, e, g.pieces[4][e], occ, k));
        }
    }
    if attacked_by(g.pieces, e, occ, k) {
        let p = choose|p: int| 0 <= p < 6 && #[trigger] covers(p, e, g.pieces[p][e], occ, k);
        let s = choose|s: int| 0 <= s < 64 && bit(g.pieces[p][e], s) && #[trigger] piece_attacks(p, e, s, occ, k);
        lemma_slider_reach_ignores_target(true, s, occ_without_king, occ, k);
        lemma_slider_reach_ignores_target(false, s, occ_without_king, occ, k);
        if p == 5 {
            assert(piece_attacks(5, c, k, occ, s));
            assert(covers(5, c, g.pieces[5][c], occ, s));
            assert(!attacked_by(g.pieces, c, occ, s));
        } else {
            assert(bit(checkers, s));
        }
    }
}

} // verus!
