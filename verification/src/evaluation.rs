pub mod bishop_evaluation;
pub mod king_evaluation;
pub mod knight_evaluation;
pub mod mobility;
pub mod passed_evaluation;
pub mod pawn_evaluation;
pub mod phase;
pub mod piecewise_evaluation;
pub mod psqt_evaluation;
pub mod queen_evaluation;
pub mod rook_evaluation;
