//! Win probabilities for a single Risk battle: an exact solver over
//! rational numbers and a dice-rolling battle simulator.

pub mod battle;
pub mod bignat;
pub mod dice;
pub mod solver;
