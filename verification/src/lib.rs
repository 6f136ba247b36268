pub mod adjacency;
pub mod bits;
pub mod candidates;
pub mod game;
pub mod grid;
pub mod json;
pub mod laws;
pub mod model;
pub mod nogoods;
pub mod search;
pub mod sorting;
pub mod tracker;

pub use adjacency::AdjacentsLookup;
pub use candidates::{forward_check_failure, get_candidates};
pub use game::Game;
pub use json::solve_json;
pub use nogoods::{NoGoods, TrieNode};
pub use search::{solve, solve_backtracking};
pub use tracker::UsedTracker;
