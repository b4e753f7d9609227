//! The game logic of a punter for the river-claiming graph game: the game
//! board, the state a punter keeps between turns, shortest-path distances
//! from mines, reachability along claimed rivers, scoring, the
//! length-prefixed message framing, and enumeration of multi-move plans.
pub mod types;
pub mod plans;
pub mod board;
pub mod search;
pub mod random;
pub mod measure;
pub mod score;
pub mod framing;
pub mod connect;
