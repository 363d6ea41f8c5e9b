use fabchess::board_representation::game_state::GameState;
use fabchess::board_representation::zobrist_hashing::init_zobrist;
use fabchess::evaluation::psqt_evaluation::psqt_slow;
use fabchess::evaluation::bishop_evaluation::BishopEvaluation;
use fabchess::evaluation::knight_evaluation::KnightEvaluation;
use fabchess::evaluation::piecewise_evaluation::piecewise_eval;
use fabchess::evaluation::queen_evaluation::QueenEvaluation;

#[test]
fn rook_on_open_file_with_full_mobility() {
    let e = piecewise_eval(0, 1, 0, 0, 0, true, 0, 1, 1);
    assert_eq!(e.eval_mg(), 20 + 35);
    assert_eq!(e.eval_eg(), 20 + 75);
}

#[test]
fn black_rook_on_its_seventh_rank() {
    let rook = 1u64 << 15;
    let pawn = 1u64 << 31;
    let e = piecewise_eval(0, rook, 0, 0, 0, false, pawn, rook, rook | pawn);
    assert_eq!(e.eval_mg(), 10 + 17);
    assert_eq!(e.eval_eg(), 10 + 55);
}

#[test]
fn knight_in_the_corner() {
    let e = piecewise_eval(0, 0, 0, 1, 0, true, 0, 1, 1);
    assert_eq!(e.eval_mg(), -15);
    assert_eq!(e.eval_eg(), -15);
}

#[test]
fn bishop_between_own_pawns() {
    let bishop = 1u64 << 27;
    let pawns = (1u64 << 18) | (1u64 << 20);
    let all = bishop | pawns;
    let e = piecewise_eval(pawns, 0, bishop, 0, 0, true, pawns, all, all);
    assert_eq!(e.eval_mg(), 0 + 55);
    assert_eq!(e.eval_eg(), 0 + 27);
    let crowded = pawns | (1u64 << 34) | (1u64 << 36);
    let all = bishop | crowded;
    let e = piecewise_eval(crowded, 0, bishop, 0, 0, true, crowded, all, all);
    assert_eq!(e.eval_mg(), -100 - 50);
}

#[test]
fn queen_on_the_first_rank() {
    let e = piecewise_eval(0, 0, 0, 0, 1u64 << 3, true, 0, 1u64 << 3, 1u64 << 3);
    assert_eq!(e.eval_mg(), 40);
    assert_eq!(e.eval_eg(), 55);
}

#[test]
fn knight_bishop_and_queen_worth() {
    let k = KnightEvaluation {
        amount_of_knights: 2,
        pawns_on_board: 16,
        supported_knights: 1,
        outpost_knights: 1u64 << 36,
        is_white: true,
    };
    assert_eq!(k.eval_mg(), 2 * (500 + 10) + 10 + 15);
    assert_eq!(k.eval_eg(), 2 * (500 + 10) + 5 + 15);
    let black = KnightEvaluation {
        amount_of_knights: 1,
        pawns_on_board: 0,
        supported_knights: 0,
        outpost_knights: 1u64 << 28,
        is_white: false,
    };
    assert_eq!(black.eval_mg(), 500 - 30 + 15);
    let b = BishopEvaluation { amount_of_bishops: 2, bishop_pair: true };
    assert_eq!(b.eval_mg(), 1070);
    assert_eq!(b.eval_eg(), 1070);
    let q = QueenEvaluation { amount_of_queens: 1 };
    assert_eq!(q.eval_mg(), 1500);
    assert_eq!(q.eval_eg(), 1600);
}

#[test]
fn board_by_board_piece_square_values() {
    let keys = init_zobrist();
    let g = GameState::from_fen(&keys, "7k/1n6/8/8/4K3/8/8/8 w - - 0 1");
    assert_eq!(psqt_slow(&g), (20 + 5, -5 + 20));
    let g = GameState::from_fen(&keys, "7k/8/8/8/8/8/8/K7 w - - 0 1");
    assert_eq!(psqt_slow(&g), (0, 0));
}
