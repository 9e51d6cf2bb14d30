//! The core of a Quoridor engine: the position, the legal moves, the paths
//! to the goal rows, and the search for a move.
//!
//! The board is nine squares by nine. Each player has a pawn and ten walls;
//! White has to reach row 0, Black row 8. A move is a step of the pawn, a
//! jump over the other pawn, or a wall that leaves both pawns a way to their
//! goal rows.
//!
//! Every function is proved against a model of the game: [`model`] says what
//! a position is and what the walls allow, [`moves`] which successors a
//! position has, [`laws`] what follows from that for every position.

pub mod bits;
pub mod board;
pub mod dice;
pub mod engine;
pub mod laws;
pub mod mcts;
pub mod minimax;
pub mod model;
pub mod montecarlo;
pub mod moves;
pub mod notation;
pub mod paths;
pub mod playout;
pub mod routes;
pub mod search;
pub mod square;
pub mod text;

pub use crate::board::Board;
pub use crate::engine::{conclude, decide, mcts, presearch, Choice};
pub use crate::mcts::{grow, solver, Node, Outcome, Reward, Tally};
pub use crate::minimax::minimax;
pub use crate::montecarlo::{mc, random};
pub use crate::notation::TqbnError;
pub use crate::playout::simulate;
pub use crate::square::{sqnum_for_coord, sqnum_for_string, string_for_sqnum, Direction, Player};
