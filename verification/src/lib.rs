//! A verified rules engine and search-based move chooser for Gomoku
//! (five-in-a-row) on a fixed 15x15 board.
//!
//! The crate enforces legal placement, detects line-of-five wins, scores
//! positions with a pattern-based evaluator, and picks a move for the
//! automated side with a fixed-depth alpha-beta search.

pub mod eval;
pub mod game;
pub mod movegen;
pub mod search;

pub use eval::EvalContext;
pub use eval::evaluate;
pub use game::GameEnd;
pub use game::GameState;
pub use game::MoveError;
pub use game::Piece;
pub use game::Point;
pub use movegen::generate_moves;
pub use search::best_move;
pub use search::best_move_from;
