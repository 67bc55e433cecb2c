//! Verified core of a GNU Backgammon engine.
pub mod classify;
pub mod moves;
pub mod position_id;
pub mod text;
pub mod types;
pub mod search;
pub mod match_id;
pub mod transposition;
pub mod cache;
pub mod cli;
pub mod features;
pub mod eval;
pub mod weights;
pub mod play;
