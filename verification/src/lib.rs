//! Keyboard layout optimisation: the combinatorial core of a simulated
//! annealing search for a letter-to-key assignment.

pub mod bigram;
pub mod keyboard;
pub mod keymap;
pub mod layout;
pub mod params;
mod random;
pub mod records;
pub mod schedule;
pub mod search;
pub mod secretary;
pub mod text;
