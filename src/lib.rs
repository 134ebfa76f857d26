//! Bitboard move generation, static evaluation and game-tree search for
//! 8x8 Othello. A position is a pair of 64-bit masks, one for the side to
//! move and one for its opponent.

pub mod bitboard;
pub mod evaluator;
pub mod player;
pub mod alpha_beta;
pub mod board;
pub mod monte_carlo;
pub mod mcts;
