//! Opening preparation for chess: a forest of prepared lines, the builder that
//! grows it from the moves of recorded games, and the drill that holds a
//! player's moves against it.

pub mod board;
pub mod builder;
pub mod config;
pub mod db;
pub mod events;
pub mod game;
pub mod graph;
pub mod laws;
pub mod lines;
pub mod merge;
pub mod model;
