//! Search engine for a tile-elimination puzzle on a fixed square grid.
//!
//! A move removes a group of at least two orthogonally connected tiles of one
//! colour; the tiles above fall, emptied columns close up, and the move earns
//! a score that grows with the square of the group's size. The crate extracts
//! the groups of a board, plays moves, and explores the graph of reachable
//! boards to find a line of play with a high total score.

pub mod board;
pub mod region;
pub mod sequences;
pub mod transition;
pub mod group;
pub mod rank;
pub mod extract;
pub mod memo;
pub mod score;
pub mod choice;
pub mod search;
pub mod expand;
pub mod driver;
pub mod play;
pub mod input;
