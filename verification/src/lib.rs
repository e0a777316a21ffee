//! A solver for the one-player board game of bunnies, foxes and mushrooms on a 5x5
//! board: bunnies jump over rows of pieces, foxes slide along their lane, and the game
//! is won when three bunnies sit in holes. A breadth-first search over positions, with
//! positions that a rotation or reflection turns into one another taken as one, finds
//! a shortest solution or shows that there is none.
pub mod bits;
pub mod geometry;
pub mod pieces;
pub mod board;
pub mod order;
pub mod moves;
pub mod compare;
pub mod state;
pub mod seqs;
pub mod rules;
pub mod setup;
pub mod bound;
pub mod symmetry;
pub mod orient;
pub mod turned_moves;
pub mod equivalence;
pub mod layout;
pub mod reversal;
pub mod graph;
