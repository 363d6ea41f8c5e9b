use crate::bitboards::{
    bit, king_adjacent, knight_adjacent, lemma_bit_rank_mask, lemma_popcount_nonzero,
    lemma_popcount_remove, lemma_popcount_same, popcount, rank_of,
};
use crate::board_representation::game_state::{
    GameMove, GameMoveType, GameState, PieceType, BISHOP, BLACK, KING, KNIGHT, PAWN, QUEEN, ROOK,
    WHITE,
};
use crate::move_generation::attacks::pawn_attacks;
use crate::move_generation::magic::{bishop_reaches, rook_reaches};
use crate::move_generation::movegen::{
    b_pawn_east_targets, b_pawn_west_targets, bishop_attack, king_attack, knight_attack,
    rook_attack, w_pawn_east_targets, w_pawn_west_targets,
};
use crate::search::{CombinedSearchParameters, SearchInstruction};
use vstd::prelude::*;

verus! {

broadcast use crate::bitboards::group_bit_ops;

/// The margin by which a capture must be able to raise the static score towards alpha.
pub const DELTA_PRUNING: i16 = 100;

/// The worth of each piece kind for exchanges: pawn, knight, bishop, rook, queen, king.
pub const PIECE_VALUES: [i16; 6] = [100, 300, 310, 500, 900, 30000];

/// The exchange worth of a piece kind.
pub open spec fn spec_piece_value(p: PieceType) -> i16 {
    match p {
        PieceType::Pawn => 100,
        PieceType::Knight => 300,
        PieceType::Bishop => 310,
        PieceType::Rook => 500,
        PieceType::Queen => 900,
        PieceType::King => 30000,
    }
}

/// The exchange worth of a piece kind.
pub fn piece_value(piece_type: PieceType) -> (res: i16)
    ensures
        res == spec_piece_value(piece_type),
{
    let values = PIECE_VALUES;
    values[piece_type.to_index()]
}

/// The move takes a piece: a capture, a capture en passant, or a promotion that takes.
pub open spec fn spec_is_capture(mv: GameMove) -> bool {
    match mv.move_type {
        GameMoveType::Capture(_) => true,
        GameMoveType::Promotion(_, taken) => taken is Some,
        GameMoveType::EnPassant => true,
        _ => false,
    }
}

/// Whether the move takes a piece.
pub fn is_capture(mv: &GameMove) -> (res: bool)
    ensures
        res == spec_is_capture(*mv),
{
    match &mv.move_type {
        GameMoveType::Capture(_) => true,
        GameMoveType::Promotion(_, s) => match s {
            Some(_) => true,
            _ => false,
        },
        GameMoveType::EnPassant => true,
        _ => false,
    }
}

/// The worth of the piece a capture or a capturing promotion takes.
pub fn capture_value(mv: &GameMove) -> (res: i16)
    requires
        mv.move_type matches GameMoveType::Capture(_) || mv.move_type matches GameMoveType::Promotion(
            _,
            Some(_),
        ),
    ensures
        res == match mv.move_type {
            GameMoveType::Capture(c) => spec_piece_value(c),
            GameMoveType::Promotion(_, b) => spec_piece_value(b->0),
            _ => 0,
        },
{
    match &mv.move_type {
        GameMoveType::Capture(c) => piece_value(*c),
        GameMoveType::Promotion(_, b) => piece_value(b.unwrap()),
        _ => 0,
    }
}

/// The lowest-square piece of the first kind from `k` on (pawn, knight, bishop, rook,
/// queen, king) of the side `c` that stands on `from_board`, with the kind's index;
/// `(0, 1000)` where none does.
pub open spec fn least_valuable_from(g: GameState, from_board: u64, c: int, k: int) -> (u64, usize)
    decreases 6 - k,
{
    if k >= 6 {
        (0u64, 1000usize)
    } else if g.pieces[k][c] & from_board != 0u64 {
        (
            1u64 << vstd::std_specs::bits::u64_trailing_zeros(g.pieces[k][c] & from_board) as u64,
            k as usize,
        )
    } else {
        least_valuable_from(g, from_board, c, k + 1)
    }
}

/// What the least valuable attacker is: none, or a single square of a piece of that kind
/// on the board, with no piece of a cheaper kind on it.
pub proof fn lemma_least_valuable_from(g: GameState, from_board: u64, c: int, k: int)
    requires
        0 <= k <= 6,
    ensures
        ({
            let r = least_valuable_from(g, from_board, c, k);
            ||| r.1 == 1000 && r.0 == 0u64
            ||| k <= r.1 < 6 && r.0 != 0u64 && ({
                let sq = vstd::std_specs::bits::u64_trailing_zeros(
                    g.pieces[r.1 as int][c] & from_board,
                ) as int;
                &&& 0 <= sq < 64
                &&& bit(g.pieces[r.1 as int][c], sq)
                &&& bit(from_board, sq)
                &&& forall|t: int| 0 <= t < 64 ==> #[trigger] bit(r.0, t) == (t == sq)
            })
        }),
    decreases 6 - k,
{
    if k < 6 {
        let sub = g.pieces[k][c] & from_board;
        if sub != 0u64 {
            vstd::std_specs::bits::axiom_u64_trailing_zeros(sub);
            let sq = vstd::std_specs::bits::u64_trailing_zeros(sub) as int;
            crate::bitboards::lemma_bit_test(sub, sq as u64);
            assert(bit(sub, sq));
            crate::bitboards::lemma_bit_single(sq as u64, sq);
            assert forall|t: int| 0 <= t < 64 implies #[trigger] bit(1u64 << sq as u64, t) == (t
                == sq) by {
                crate::bitboards::lemma_bit_single(sq as u64, t);
            }
        } else {
            lemma_least_valuable_from(g, from_board, c, k + 1);
        }
    }
}

/// The lowest-square piece of the least valuable kind of the side `color_to_move` on the
/// squares of `from_board`, and its kind's index; `(0, 1000)` where there is none.
pub fn least_valuable_piece(from_board: u64, color_to_move: usize, game_state: &GameState) -> (res:
    (u64, usize))
    requires
        color_to_move < 2,
    ensures
        res.1 == 1000 ==> res.0 == 0 && forall|k: int, t: int|
            0 <= k < 6 ==> !(#[trigger] bit(game_state.pieces[k][color_to_move as int], t) && bit(
                from_board,
                t,
            )),
        res.1 < 1000 ==> res.1 < 6 && (forall|k: int, t: int|
            0 <= k < res.1 ==> !(#[trigger] bit(game_state.pieces[k][color_to_move as int], t)
                && bit(from_board, t))) && res.0 == 1u64 << vstd::std_specs::bits::u64_trailing_zeros(
            game_state.pieces[res.1 as int][color_to_move as int] & from_board,
        ) as u64 && (game_state.pieces[res.1 as int][color_to_move as int] & from_board) != 0u64,
        res == least_valuable_from(*game_state, from_board, color_to_move as int, 0),
{
    let mut i: usize = 0;
    while i < 6
        invariant
            i <= 6,
            color_to_move < 2,
            least_valuable_from(*game_state, from_board, color_to_move as int, i as int)
                == least_valuable_from(*game_state, from_board, color_to_move as int, 0),
            forall|k: int, t: int|
                0 <= k < i ==> !(#[trigger] bit(game_state.pieces[k][color_to_move as int], t) && bit(
                    from_board,
                    t,
                )),
        decreases 6 - i,
    {
        let subset = game_state.pieces[i][color_to_move] & from_board;
        proof {
            crate::bitboards::lemma_and_zero(game_state.pieces[i as int][color_to_move as int], from_board);
        }
        if subset != 0u64 {
            proof {
                vstd::std_specs::bits::axiom_u64_trailing_zeros(subset);
            }
            return (1u64 << subset.trailing_zeros() as u64, i);
        }
        i = i + 1;
    }
    (0u64, 1000)
}

/// The stand-pat score ends the node when it reaches beta; else it raises alpha to itself.
pub fn adjust_standpat(p: &mut CombinedSearchParameters, stand_pat: i16) -> (res:
    SearchInstruction)
    ensures
        stand_pat >= old(p).beta ==> res == SearchInstruction::StopSearching(stand_pat)
            && *final(p) == *old(p),
        stand_pat < old(p).beta ==> res == SearchInstruction::ContinueSearching,
        stand_pat < old(p).beta ==> final(p).alpha == if stand_pat > old(p).alpha {
            stand_pat
        } else {
            old(p).alpha
        },
        final(p).beta == old(p).beta,
        final(p).depth_left == old(p).depth_left,
        final(p).game_state == old(p).game_state,
        final(p).color == old(p).color,
        final(p).current_depth == old(p).current_depth,
{
    if stand_pat >= p.beta {
        return SearchInstruction::StopSearching(stand_pat);
    }
    if stand_pat > p.alpha {
        p.alpha = stand_pat;
    }
    SearchInstruction::ContinueSearching
}

/// The side `c` has a pawn on the rank from which it promotes next move.
pub open spec fn pawn_about_to_promote(g: GameState, c: int) -> bool {
    exists|t: int|
        0 <= t < 64 && #[trigger] bit(g.pieces[0][c], t) && rank_of(t) == if c == 0 {
            6int
        } else {
            1int
        }
}

/// The most a capture by the side to move can win: the worth of the enemy's most
/// valuable piece among queens, rooks, bishops and knights, and a queen less a pawn more
/// where a pawn of its own is about to promote.
pub open spec fn spec_best_move_value(g: GameState) -> int {
    let e = 1 - g.color_to_move as int;
    (if g.pieces[4][e] != 0u64 {
        900int
    } else if g.pieces[3][e] != 0u64 {
        500int
    } else if g.pieces[2][e] != 0u64 {
        310int
    } else if g.pieces[1][e] != 0u64 {
        300int
    } else {
        0int
    }) + (if pawn_about_to_promote(g, g.color_to_move as int) {
        800int
    } else {
        0int
    })
}

/// The most a capture by the side to move can win.
pub fn best_move_value(state: &GameState) -> (res: i16)
    requires
        state.color_to_move < 2,
    ensures
        res == spec_best_move_value(*state),
{
    let values = PIECE_VALUES;
    let mut res: i16 = 0;
    let mut i: usize = 4;
    while i > 0 && res == 0
        invariant
            i <= 4,
            state.color_to_move < 2,
            values == PIECE_VALUES,
            res == 0 || (i >= 1 && state.pieces[i as int][1 - state.color_to_move] != 0u64
                && res == values[i as int]),
            forall|k: int| i < k <= 4 ==> state.pieces[k][1 - state.color_to_move] == 0u64,
        decreases i + if res == 0 {
            1int
        } else {
            0int
        },
    {
        if state.pieces[i][1 - state.color_to_move] != 0u64 {
            res = values[i];
        } else {
            i = i - 1;
        }
    }
    let c = state.color_to_move;
    let rank: u64 = if c == WHITE {
        6
    } else {
        1
    };
    let mask = 0xffu64 << (8 * rank);
    let near = state.pieces[PAWN][c] & mask;
    proof {
        crate::bitboards::lemma_and_zero(state.pieces[0][c as int], mask);
        assert forall|t: int| 0 <= t < 64 implies #[trigger] bit(mask, t) == (rank_of(t)
            == rank) by {
            lemma_bit_rank_mask(rank, t);
        }
        if near != 0u64 {
            let t = choose|t: int| bit(state.pieces[0][c as int], t) && bit(mask, t);
            assert(bit(mask, t));
        }
    }
    if near != 0u64 {
        res = res + (values[QUEEN] - values[PAWN]);
    }
    res
}

/// The static score is so far below alpha that no capture can bring it back: stop.
pub fn delta_pruning(p: &CombinedSearchParameters, stand_pat: i16) -> (res: SearchInstruction)
    requires
        p.game_state.color_to_move < 2,
        i16::MIN <= p.alpha - stand_pat <= i16::MAX,
        i16::MIN <= p.alpha - stand_pat - DELTA_PRUNING <= i16::MAX,
    ensures
        res == if p.alpha - stand_pat - DELTA_PRUNING > 0 && spec_best_move_value(*p.game_state)
            < p.alpha - stand_pat - DELTA_PRUNING {
            SearchInstruction::StopSearching(stand_pat)
        } else {
            SearchInstruction::ContinueSearching
        },
{
    let diff = p.alpha - stand_pat - DELTA_PRUNING;
    if diff > 0 && best_move_value(p.game_state) < diff {
        SearchInstruction::StopSearching(stand_pat)
    } else {
        SearchInstruction::ContinueSearching
    }
}

/// A piece of `g` on `s` attacks `square` (sliders through the occupancy `occ`), of either
/// side.
pub open spec fn attacks_square(g: GameState, square: int, occ: u64, s: int) -> bool {
    ||| knight_adjacent(square, s) && (bit(g.pieces[1][0], s) || bit(g.pieces[1][1], s))
    ||| bishop_reaches(square, occ, s) && (bit(g.pieces[2][0], s) || bit(g.pieces[4][0], s) || bit(
        g.pieces[2][1],
        s,
    ) || bit(g.pieces[4][1], s))
    ||| rook_reaches(square, occ, s) && (bit(g.pieces[3][0], s) || bit(g.pieces[4][0], s) || bit(
        g.pieces[3][1],
        s,
    ) || bit(g.pieces[4][1], s))
    ||| pawn_attacks(0, square, s) && bit(g.pieces[0][1], s)
    ||| pawn_attacks(1, square, s) && bit(g.pieces[0][0], s)
    ||| king_adjacent(square, s) && (bit(g.pieces[5][0], s) || bit(g.pieces[5][1], s))
}

/// The pieces of both sides that attack `square` when the board holds `occ`: knights,
/// kings and pawns by their moves, bishops, rooks and queens along rays that `occ` leaves
/// open.
pub fn attacks_to(game_state: &GameState, square: usize, occ: u64) -> (res: u64)
    requires
        square < 64,
    ensures
        forall|s: int|
            0 <= s < 64 ==> #[trigger] bit(res, s) == attacks_square(
                *game_state,
                square as int,
                occ,
                s,
            ),
{
    let square_board = 1u64 << square as u64;
    let knights = game_state.pieces[KNIGHT][WHITE] | game_state.pieces[KNIGHT][BLACK];
    let bishops = game_state.pieces[BISHOP][WHITE] | game_state.pieces[QUEEN][WHITE]
        | game_state.pieces[BISHOP][BLACK] | game_state.pieces[QUEEN][BLACK];
    let rooks = game_state.pieces[ROOK][WHITE] | game_state.pieces[QUEEN][WHITE]
        | game_state.pieces[ROOK][BLACK] | game_state.pieces[QUEEN][BLACK];
    let kings = game_state.pieces[KING][WHITE] | game_state.pieces[KING][BLACK];
    let a_knight = knight_attack(square) & knights;
    let a_bishop = bishop_attack(square, occ) & bishops;
    let a_rook = rook_attack(square, occ) & rooks;
    let w_targets = w_pawn_west_targets(square_board) | w_pawn_east_targets(square_board);
    let b_targets = b_pawn_west_targets(square_board) | b_pawn_east_targets(square_board);
    let a_bpawn = w_targets & game_state.pieces[PAWN][BLACK];
    let a_wpawn = b_targets & game_state.pieces[PAWN][WHITE];
    let a_king = king_attack(square) & kings;
    let res = a_knight | a_bishop | a_rook | a_bpawn | a_wpawn | a_king;
    proof {
        assert forall|s: int| 0 <= s < 64 implies #[trigger] bit(res, s) == attacks_square(
            *game_state,
            square as int,
            occ,
            s,
        ) by {
            assert forall|t: int| 0 <= t < 64 implies #[trigger] bit(square_board, t) == (t
                == square) by {
                crate::bitboards::lemma_bit_single(square as u64, t);
            }
            if 0 <= s - 7 < 64 {
                assert(bit(square_board, s - 7) == (s - 7 == square));
            }
            if 0 <= s - 9 < 64 {
                assert(bit(square_board, s - 9) == (s - 9 == square));
            }
            if 0 <= s + 7 < 64 {
                assert(bit(square_board, s + 7) == (s + 7 == square));
            }
            if 0 <= s + 9 < 64 {
                assert(bit(square_board, s + 9) == (s + 9 == square));
            }
        }
    }
    res
}

/// A bishop or queen of side `c` on `s` reaches `square` along a diagonal, or a rook or
/// queen along a line, when the board holds `occ`.
pub open spec fn slider_attacker(g: GameState, c: int, square: int, occ: u64, s: int) -> bool {
    ||| bishop_reaches(square, occ, s) && (bit(g.pieces[2][c], s) || bit(g.pieces[4][c], s))
    ||| rook_reaches(square, occ, s) && (bit(g.pieces[3][c], s) || bit(g.pieces[4][c], s))
}

/// The bishops and queens (along diagonals) and the rooks and queens (along lines) of the
/// side `color_to_move` that reach `square` when the board holds `occ`.
pub fn recalculate_sliders(game_state: &GameState, color_to_move: usize, square: usize, occ: u64)
    -> (res: u64)
    requires
        color_to_move < 2,
        square < 64,
    ensures
        forall|s: int|
            0 <= s < 64 ==> #[trigger] bit(res, s) == slider_attacker(
                *game_state,
                color_to_move as int,
                square as int,
                occ,
                s,
            ),
{
    bishop_attack(square, occ) & (game_state.pieces[BISHOP][color_to_move]
        | game_state.pieces[QUEEN][color_to_move]) | rook_attack(square, occ) & (
    game_state.pieces[ROOK][color_to_move] | game_state.pieces[QUEEN][color_to_move])
}

// ---------------------------------------------------------------------------
// Static exchange evaluation: what a capture wins once both sides have taken back on
// its square, each with its least valuable piece, as long as that pays.
// ---------------------------------------------------------------------------

/// The worth of the piece kind with index `k`.
pub open spec fn kind_value(k: int) -> int {
    if k == 0 {
        100
    } else if k == 1 {
        300
    } else if k == 2 {
        310
    } else if k == 3 {
        500
    } else if k == 4 {
        900
    } else {
        30000
    }
}

/// `b` holds the pieces of side `c` that slide to `square` through `occ`.
pub open spec fn is_slider_board(b: u64, g: GameState, c: int, square: int, occ: u64) -> bool {
    forall|s: int| 0 <= s < 64 ==> #[trigger] bit(b, s) == slider_attacker(g, c, square, occ, s)
}

/// The board of the pieces of side `c` that slide to `square` through `occ`.
pub open spec fn slider_board(g: GameState, c: int, square: int, occ: u64) -> u64 {
    choose|b: u64| is_slider_board(b, g, c, square, occ)
}

/// `b` holds the pieces of either side that attack `square` through `occ`.
pub open spec fn is_attack_board(b: u64, g: GameState, square: int, occ: u64) -> bool {
    forall|s: int| 0 <= s < 64 ==> #[trigger] bit(b, s) == attacks_square(g, square, occ, s)
}

/// The board of the pieces of either side that attack `square` through `occ`.
pub open spec fn attack_board(g: GameState, square: int, occ: u64) -> u64 {
    choose|b: u64| is_attack_board(b, g, square, occ)
}

/// `b` holds the squares of all pieces of the position.
pub open spec fn is_all_squares(b: u64, g: GameState) -> bool {
    forall|t: int|
        0 <= t < 64 ==> #[trigger] bit(b, t) == exists|p: int, c: int|
            0 <= p < 6 && 0 <= c < 2 && #[trigger] bit(g.pieces[p][c], t)
}

/// The squares of all pieces of the position.
pub open spec fn all_squares(g: GameState) -> u64 {
    choose|b: u64| is_all_squares(b, g)
}

/// The slider board is the board computed.
proof fn lemma_slider_board(b: u64, g: GameState, c: int, square: int, occ: u64)
    requires
        is_slider_board(b, g, c, square, occ),
    ensures
        slider_board(g, c, square, occ) == b,
{
    let x = slider_board(g, c, square, occ);
    assert forall|t: int| 0 <= t < 64 implies #[trigger] bit(x, t) == bit(b, t) by {
        assert(bit(x, t) == slider_attacker(g, c, square, occ, t));
    }
    crate::bitboards::lemma_bit_extensional(x, b);
}

/// The attack board is the board computed.
proof fn lemma_attack_board(b: u64, g: GameState, square: int, occ: u64)
    requires
        is_attack_board(b, g, square, occ),
    ensures
        attack_board(g, square, occ) == b,
{
    let x = attack_board(g, square, occ);
    assert forall|t: int| 0 <= t < 64 implies #[trigger] bit(x, t) == bit(b, t) by {
        assert(bit(x, t) == attacks_square(g, square, occ, t));
    }
    crate::bitboards::lemma_bit_extensional(x, b);
}

/// The board of all squares is the board computed.
proof fn lemma_all_squares(b: u64, g: GameState)
    requires
        is_all_squares(b, g),
    ensures
        all_squares(g) == b,
{
    let x = all_squares(g);
    assert forall|t: int| 0 <= t < 64 implies #[trigger] bit(x, t) == bit(b, t) by {
        assert(bit(x, t) == exists|p: int, c: int|
            0 <= p < 6 && 0 <= c < 2 && #[trigger] bit(g.pieces[p][c], t));
    }
    crate::bitboards::lemma_bit_extensional(x, b);
}

/// The pieces whose leaving a square may uncover a slider behind them: pawns, bishops,
/// rooks and queens of both sides.
pub open spec fn xray_pieces(g: GameState) -> u64 {
    g.pieces[0][0] | g.pieces[0][1] | g.pieces[2][0] | g.pieces[2][1] | g.pieces[3][0]
        | g.pieces[3][1] | g.pieces[4][0] | g.pieces[4][1]
}

/// An exchange on one square, between two captures: the pieces that attack the square,
/// the occupancy, the pieces that have taken part, the side to capture next, the square
/// of the piece that captures next (none when it is 0), and the kind of the piece
/// standing on the square.
pub struct ExchangeState {
    pub attadef: u64,
    pub occ: u64,
    pub deleted: u64,
    pub color: usize,
    pub from_set: u64,
    pub attacked: usize,
}

/// The exchange after the capture by `from_set`: that piece has taken part and left its
/// square; where it may have stood in front of a slider of its side, those sliders that
/// now reach `to` join; the other side's least valuable attacker captures next.
pub open spec fn exchange_step(g: GameState, to: int, st: ExchangeState) -> ExchangeState {
    let deleted = st.deleted | st.from_set;
    let occ = st.occ ^ st.from_set;
    let after = st.attadef ^ st.from_set;
    let attadef = if st.from_set & xray_pieces(g) != 0u64 {
        after | (slider_board(g, st.color as int, to, occ) & !deleted)
    } else {
        after
    };
    let color = (1 - st.color) as usize;
    let next = least_valuable_from(g, attadef, color as int, 0);
    ExchangeState { attadef, occ, deleted, color, from_set: next.0, attacked: next.1 }
}

/// The next capture would be by a king while the other side still attacks the square.
pub open spec fn king_refused(g: GameState, st: ExchangeState) -> bool {
    st.attacked == 5 && least_valuable_from(g, st.attadef, 1 - st.color as int, 0).1 != 1000
}

/// The gains of the captures from `st` on, where `prev` is the gain of the capture before:
/// each capture wins the piece on the square less what the capture before won. Without
/// `exact`, the sequence ends where neither side would go on; it ends too where no piece
/// is left to capture, or a king would capture into an attack; at most `fuel` captures.
pub open spec fn exchange_gains(
    g: GameState,
    to: int,
    exact: bool,
    st: ExchangeState,
    prev: int,
    fuel: nat,
) -> Seq<int>
    decreases fuel,
{
    if fuel == 0 || st.from_set == 0u64 {
        Seq::<int>::empty()
    } else {
        let gi = kind_value(st.attacked as int) - prev;
        if !exact && (if -prev > gi {
            -prev
        } else {
            gi
        }) < 0 {
            seq![gi]
        } else {
            let next = exchange_step(g, to, st);
            if king_refused(g, next) {
                seq![gi]
            } else {
                seq![gi] + exchange_gains(g, to, exact, next, gi, (fuel - 1) as nat)
            }
        }
    }
}

/// Each side, from the last capture back, keeps the better of stopping and going on.
pub open spec fn swap_fold(gs: Seq<int>, i: int) -> int
    decreases gs.len() - i,
{
    if i + 1 >= gs.len() {
        gs[i]
    } else {
        let rest = swap_fold(gs, i + 1);
        -(if -gs[i] > rest {
            -gs[i]
        } else {
            rest
        })
    }
}

/// The worth of what the capture `mv` takes.
pub open spec fn taken_value(mv: GameMove) -> int {
    match mv.move_type {
        GameMoveType::Capture(c) => spec_piece_value(c) as int,
        GameMoveType::Promotion(_, b) => spec_piece_value(b->0) as int,
        _ => 0,
    }
}

/// The exchange as it stands before the capture `mv`: every piece that attacks the
/// target square, the mover about to capture.
pub open spec fn exchange_start(g: GameState, mv: GameMove) -> ExchangeState {
    ExchangeState {
        attadef: attack_board(g, mv.to as int, all_squares(g)),
        occ: all_squares(g),
        deleted: 0u64,
        color: g.color_to_move,
        from_set: 1u64 << mv.from as u64,
        attacked: crate::board_representation::game_state::piece_index(mv.piece_type) as usize,
    }
}

/// The longest exchange followed: each capture takes a piece off the board.
pub const EXCHANGE_FUEL: usize = 66;

/// The gains of the exchange that the capture `mv` opens, its own first.
pub open spec fn see_gains(g: GameState, mv: GameMove, exact: bool) -> Seq<int> {
    seq![taken_value(mv)] + exchange_gains(
        g,
        mv.to as int,
        exact,
        exchange_start(g, mv),
        taken_value(mv),
        EXCHANGE_FUEL as nat,
    )
}

/// What the capture `mv` wins once the exchange on its square is played out: the gains
/// up to the last capture that took place, folded back from the end.
pub open spec fn see_value(g: GameState, mv: GameMove, exact: bool) -> int {
    let n = see_gains(g, mv, exact).len() - 1;
    swap_fold(see_gains(g, mv, exact).take(n), 0)
}

/// Every gain of the exchange fits in an `i16` with its negation.
pub open spec fn see_fits(g: GameState, mv: GameMove, exact: bool) -> bool {
    forall|i: int|
        0 <= i < see_gains(g, mv, exact).len() ==> -32767 <= #[trigger] see_gains(g, mv, exact)[i]
            <= 32767
}

/// One capture of the exchange, counted: the squares that have not taken part lose the
/// capturer's square where it had not taken part before; the squares that have taken part
/// and still attack gain it where it did not attack (the first capture only), and lose
/// it where it had taken part before.
proof fn lemma_exchange_step_counts(g: GameState, to: int, st: ExchangeState, f: int)
    requires
        0 <= f < 64,
        forall|t: int| 0 <= t < 64 ==> #[trigger] bit(st.from_set, t) == (t == f),
    ensures
        ({
            let nx = exchange_step(g, to, st);
            &&& !bit(st.deleted, f) ==> popcount(!st.deleted) == popcount(!nx.deleted) + 1
            &&& bit(st.deleted, f) ==> popcount(!st.deleted) == popcount(!nx.deleted)
            &&& !bit(st.deleted, f) && !bit(st.attadef, f) ==> popcount(nx.attadef & nx.deleted)
                == popcount(st.attadef & st.deleted) + 1
            &&& !bit(st.deleted, f) && bit(st.attadef, f) ==> popcount(nx.attadef & nx.deleted)
                == popcount(st.attadef & st.deleted)
            &&& bit(st.deleted, f) && bit(st.attadef, f) ==> popcount(nx.attadef & nx.deleted) + 1
                == popcount(st.attadef & st.deleted)
        }),
{
    let nx = exchange_step(g, to, st);
    let d = st.deleted;
    let a = st.attadef;
    assert forall|t: int| 0 <= t < 64 implies #[trigger] bit(nx.deleted, t) == (bit(d, t) || t
        == f) by {
    }
    assert forall|t: int| 0 <= t < 64 implies #[trigger] bit(!nx.deleted, t) == (bit(!d, t) && t
        != f) by {
        assert(bit(nx.deleted, t) == (bit(d, t) || t == f));
    }
    assert forall|t: int| 0 <= t < 64 implies #[trigger] bit(nx.attadef & nx.deleted, t) == ((bit(
        a,
        t,
    ) != (t == f)) && (bit(d, t) || t == f)) by {
        assert(bit(nx.deleted, t) == (bit(d, t) || t == f));
        assert(bit(a ^ st.from_set, t) == (bit(a, t) != (t == f)));
    }
    if !bit(d, f) {
        lemma_popcount_remove(!d, !nx.deleted, f);
        if !bit(a, f) {
            assert forall|t: int| 0 <= t < 64 implies #[trigger] bit(a & d, t) == (bit(
                nx.attadef & nx.deleted,
                t,
            ) && t != f) by {
                assert(bit(nx.attadef & nx.deleted, t) == ((bit(a, t) != (t == f)) && (bit(d, t)
                    || t == f)));
            }
            lemma_popcount_remove(nx.attadef & nx.deleted, a & d, f);
        } else {
            assert forall|t: int| 0 <= t < 64 implies #[trigger] bit(nx.attadef & nx.deleted, t)
                == bit(a & d, t) by {
                assert(bit(nx.attadef & nx.deleted, t) == ((bit(a, t) != (t == f)) && (bit(d, t)
                    || t == f)));
            }
            lemma_popcount_same(nx.attadef & nx.deleted, a & d);
        }
    } else {
        assert forall|t: int| 0 <= t < 64 implies #[trigger] bit(!d, t) == bit(!nx.deleted, t) by {
            assert(bit(!nx.deleted, t) == (bit(!d, t) && t != f));
        }
        lemma_popcount_same(!d, !nx.deleted);
        if bit(a, f) {
            assert forall|t: int| 0 <= t < 64 implies #[trigger] bit(nx.attadef & nx.deleted, t)
                == (bit(a & d, t) && t != f) by {
                assert(bit(nx.attadef & nx.deleted, t) == ((bit(a, t) != (t == f)) && (bit(d, t)
                    || t == f)));
            }
            lemma_popcount_remove(a & d, nx.attadef & nx.deleted, f);
        }
    }
}

/// Folding back gains that fit keeps within their bounds.
proof fn lemma_swap_fold_bounds(gs: Seq<int>, i: int)
    requires
        0 <= i < gs.len(),
        forall|j: int| 0 <= j < gs.len() ==> -32767 <= #[trigger] gs[j] <= 32767,
    ensures
        -32767 <= swap_fold(gs, i) <= 32767,
    decreases gs.len() - i,
{
    if i + 1 < gs.len() {
        lemma_swap_fold_bounds(gs, i + 1);
    }
}

/// What the capture `mv` wins once both sides have taken back on its square, each with
/// its least valuable piece (a slider behind a piece that has left joining in), each free
/// to stop where going on would lose; a king does not take where the other side still
/// attacks. Without `exact` the exchange is cut short where neither side would go on.
/// `gain` is working room for the gains of the captures.
pub fn see(game_state: &GameState, mv: &GameMove, exact: bool, gain: &mut Vec<i16>) -> (res: i16)
    requires
        game_state.color_to_move < 2,
        mv.from < 64,
        mv.to < 64,
        mv.move_type matches GameMoveType::Capture(_) || mv.move_type matches GameMoveType::Promotion(
            _,
            Some(_),
        ),
        see_gains(*game_state, *mv, exact).len() <= old(gain).len(),
        see_fits(*game_state, *mv, exact),
    ensures
        res == see_value(*game_state, *mv, exact),
        final(gain).len() == old(gain).len(),
{
    let g = game_state;
    let may_xray = g.pieces[PAWN][WHITE] | g.pieces[PAWN][BLACK] | g.pieces[BISHOP][WHITE]
        | g.pieces[BISHOP][BLACK] | g.pieces[ROOK][WHITE] | g.pieces[ROOK][BLACK]
        | g.pieces[QUEEN][WHITE] | g.pieces[QUEEN][BLACK];
    let mut from_set = 1u64 << mv.from as u64;
    let mut occ = g.get_all_pieces();
    let mut attadef = attacks_to(g, mv.to, occ);
    let values = PIECE_VALUES;
    let g0 = capture_value(mv);
    gain.set(0, g0);
    let mut color_to_move = g.color_to_move;
    let mut attacked_piece = mv.piece_type.to_index();
    let mut index: usize = 0;
    let mut deleted_pieces = 0u64;
    let mut done = false;
    let ghost gains = see_gains(*g, *mv, exact);
    let ghost to = mv.to as int;
    let ghost mut from_sq: int = mv.from as int;
    proof {
        lemma_all_squares(occ, *g);
        lemma_attack_board(attadef, *g, to, occ);
        assert forall|t: int| 0 <= t < 64 implies #[trigger] bit(from_set, t) == (t == from_sq) by {
            crate::bitboards::lemma_bit_single(mv.from as u64, t);
        }
        assert(bit(from_set, from_sq));
        assert(from_set != 0u64);
        assert forall|t: int| 0 <= t < 64 implies #[trigger] bit(!deleted_pieces, t) by {}
        assert forall|t: int| 0 <= t < 64 implies !#[trigger] bit(attadef & deleted_pieces, t) by {}
        crate::bitboards::lemma_zero_board(attadef & deleted_pieces);
        lemma_popcount_nonzero(attadef & deleted_pieces);
        assert(popcount(!deleted_pieces) <= 64) by {
            crate::bitboards::lemma_count_bits_bound(!deleted_pieces, 64);
        }
        assert(gains =~= gains.take(1) + exchange_gains(
            *g,
            to,
            exact,
            exchange_start(*g, *mv),
            gains[0],
            EXCHANGE_FUEL as nat,
        ));
    }
    while from_set != 0u64 && !done
        invariant
            gain.len() == old(gain).len(),
            gains.len() <= old(gain).len(),
            index <= 65,
            color_to_move < 2,
            values == PIECE_VALUES,
            g.color_to_move < 2,
            mv.to < 64,
            to == mv.to as int,
            may_xray == xray_pieces(*g),
            gains == see_gains(*g, *mv, exact),
            see_fits(*g, *mv, exact),
            index < gains.len(),
            forall|j: int| 0 <= j <= index ==> #[trigger] gain[j] as int == gains[j],
            done ==> gains.len() == index + 1,
            !done ==> gains =~= gains.take(index + 1) + exchange_gains(
                *g,
                to,
                exact,
                (ExchangeState {
                    attadef,
                    occ,
                    deleted: deleted_pieces,
                    color: color_to_move,
                    from_set,
                    attacked: attacked_piece,
                }),
                gains[index as int],
                (EXCHANGE_FUEL - index) as nat,
            ),
            from_set != 0u64 ==> attacked_piece < 6,
            !done && from_set != 0u64 ==> 0 <= from_sq < 64 && forall|t: int|
                0 <= t < 64 ==> #[trigger] bit(from_set, t) == (t == from_sq),
            !done && from_set != 0u64 && index >= 1 ==> bit(attadef, from_sq),
            index == 0 ==> deleted_pieces == 0u64 && !done && from_set != 0u64,
            !done ==> index + popcount(!deleted_pieces) + popcount(attadef & deleted_pieces) <= 64
                + (if index >= 1 {
                1int
            } else {
                0int
            }),
        decreases EXCHANGE_FUEL - index,
    {
        let ghost cur = ExchangeState {
            attadef,
            occ,
            deleted: deleted_pieces,
            color: color_to_move,
            from_set,
            attacked: attacked_piece,
        };
        let ghost f = from_sq;
        let ghost fuel = (EXCHANGE_FUEL - index) as nat;
        proof {
            if !bit(deleted_pieces, f) {
                assert(bit(!deleted_pieces, f));
                lemma_popcount_nonzero(!deleted_pieces);
            } else {
                assert(bit(attadef & deleted_pieces, f));
                lemma_popcount_nonzero(attadef & deleted_pieces);
            }
            lemma_exchange_step_counts(*g, to, cur, f);
        }
        deleted_pieces = deleted_pieces | from_set;
        index = index + 1;
        let prev = gain[index - 1];
        proof {
            assert(gains[index as int] == kind_value(attacked_piece as int) - prev);
            assert(index < gains.len());
        }
        let gi = values[attacked_piece] - prev;
        gain.set(index, gi);
        let best = if -prev > gi {
            -prev
        } else {
            gi
        };
        if !exact && best < 0 {
            done = true;
            proof {
                assert(gains =~= gains.take(index as int) + seq![gains[index as int]]);
            }
        } else {
            attadef = attadef ^ from_set;
            occ = occ ^ from_set;
            if from_set & may_xray != 0u64 {
                let sl = recalculate_sliders(g, color_to_move, mv.to, occ);
                proof {
                    lemma_slider_board(sl, *g, color_to_move as int, to, occ);
                }
                attadef = attadef | (sl & !deleted_pieces);
            }
            color_to_move = 1 - color_to_move;
            let r = least_valuable_piece(attadef, color_to_move, g);
            from_set = r.0;
            attacked_piece = r.1;
            proof {
                lemma_least_valuable_from(*g, attadef, color_to_move as int, 0);
                if from_set != 0u64 {
                    from_sq = vstd::std_specs::bits::u64_trailing_zeros(
                        g.pieces[attacked_piece as int][color_to_move as int] & attadef,
                    ) as int;
                }
                assert(exchange_step(*g, to, cur) == (ExchangeState {
                    attadef,
                    occ,
                    deleted: deleted_pieces,
                    color: color_to_move,
                    from_set,
                    attacked: attacked_piece,
                }));
            }
            if attacked_piece == 5 && least_valuable_piece(attadef, 1 - color_to_move, g).1
                != 1000 {
                done = true;
                proof {
                    assert(gains =~= gains.take(index as int) + seq![gains[index as int]]);
                }
            } else {
                proof {
                    assert(gains =~= gains.take(index + 1) + exchange_gains(
                        *g,
                        to,
                        exact,
                        exchange_step(*g, to, cur),
                        gains[index as int],
                        (EXCHANGE_FUEL - index) as nat,
                    ));
                }
            }
        }
    }
    let ghost n = index as int;
    let ghost gs = gains.take(n);
    proof {
        if !done {
            assert(gains =~= gains.take(index + 1));
        }
        assert(gains.len() == n + 1);
        assert(n >= 1);
        assert(gain[n - 1] as int == gains[n - 1]);
        assert(gs[n - 1] == gains[n - 1]);
        assert(swap_fold(gs, n - 1) == gs[n - 1]);
        assert forall|j: int| 0 <= j < gs.len() implies -32767 <= #[trigger] gs[j] <= 32767 by {
            assert(gs[j] == gains[j]);
        }
    }
    while index > 1
        invariant
            1 <= index <= n,
            n + 1 == gains.len(),
            n <= 65,
            gs == gains.take(n),
            gain.len() == old(gain).len(),
            gains.len() <= old(gain).len(),
            see_fits(*g, *mv, exact),
            gains == see_gains(*g, *mv, exact),
            forall|j: int| 0 <= j < gs.len() ==> -32767 <= #[trigger] gs[j] <= 32767,
            forall|j: int| 0 <= j < index - 1 ==> #[trigger] gain[j] as int == gains[j],
            gain[index - 1] as int == swap_fold(gs, index - 1),
        decreases index,
    {
        index = index - 1;
        let a = gain[index - 1];
        let b = gain[index];
        proof {
            assert(a as int == gs[index - 1]);
            lemma_swap_fold_bounds(gs, index as int);
        }
        let m = if -a > b {
            -a
        } else {
            b
        };
        gain.set(index - 1, -m);
    }
    proof {
        assert(n == see_gains(*g, *mv, exact).len() - 1);
    }
    gain[0]
}

} // verus!
