//! Turn resolution for a multi-player conquest game, and the pieces of a
//! Monte Carlo evaluator of moves built on it.
//!
//! - `player`: players, actions, and what a player may do.
//! - `combat`: one combat between a defender and its attackers.
//! - `engine`: one round of simultaneous actions.
//! - `rollout`: decision policies, simulated games and Monte Carlo trials.
//! - `genetic_basic`: genetic agents, which play a fixed plan.
//! - `encoding`: how a trained policy is shown a position.
//! - `random`: the outside generator and list the library draws with.
pub mod combat;
pub mod encoding;
pub mod engine;
pub mod genetic_basic;
pub mod player;
pub mod random;
pub mod rollout;

pub use engine::update;
pub use player::{Action, Player, MAX_BARRACKS, MAX_OBELISKS, MAX_WALLS};
