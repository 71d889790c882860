//! Halma on a board of 16 by 16 cells: the positions of the game, the
//! generator of legal moves with its chains of jumps, the depth-limited
//! search of the game tree with and without pruning, and the round loop that
//! plays a whole game between two evaluators.
//!
//! The rules and the searches are stated as functions on positions, and the
//! executable code is verified against them with Verus. The graph in which
//! a tree can be recorded comes from `petgraph`; what is assumed of it is
//! said in `graph`.

pub mod decision_tree;
pub mod graph;
pub mod halma;
pub mod heuristics;
pub mod minimax;
