pub mod attack_sets;
pub mod attacks;
pub mod magic;
pub mod makemove;
pub mod movegen;
pub mod position_check;
pub mod attackers;
pub mod king_safety;
