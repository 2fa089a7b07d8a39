//! Exhaustive adversarial search for generalized N x N tic-tac-toe:
//! a negamax engine with alpha-beta pruning and a Zobrist-hashed
//! transposition cache, with verified contracts on the board logic.

pub mod game;
pub mod zobrist;
