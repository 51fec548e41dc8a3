//! Verified solvers and game logic for a collection of small grid puzzles.
//!
//! The centrepiece is [`engine`], a breadth-first enumeration engine for a
//! 3x3 tile-placement game: it expands every legal placement sequence up to
//! a depth bound, deduplicates boards per level while tracking how many
//! histories produce each one, and folds every terminal or depth-bounded
//! board into a single checksum modulo 2^30.

pub mod bisect;
pub mod engine;
pub mod forest;
pub mod labyrinth;
pub mod lakes;
pub mod recycler;
pub mod spreadsheet;
