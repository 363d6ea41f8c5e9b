pub mod fen;
pub mod game_state;
pub mod game_state_attack_container;
pub mod zobrist_hashing;
