//! A generic Monte Carlo Tree Search engine.
//!
//! The engine builds an append-only, arena-allocated search tree over the
//! states of a perfect-information game, estimates the value of actions by
//! random rollouts, and steers the search with an integer-arithmetic UCT
//! score. Concrete games plug in through the [`game::GameState`] trait.

pub mod arena;
pub mod arith;
pub mod connect_four;
pub mod digit_party;
pub mod engine;
pub mod game;
pub mod rng;
pub mod score;
pub mod tic_tac_toe;
pub mod wordle;

pub use arena::{Node, NodeId, Tree};
pub use engine::{MonteCarloNode, MonteCarloTree};
pub use game::GameState;
pub use score::GameScore;
