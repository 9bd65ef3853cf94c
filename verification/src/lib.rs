//! Verified core of an SGF game-record browser for Go.
//!
//! The library reconstructs, for any node of a parsed game-record tree, the
//! board position that results from replaying every ancestor's setup and move
//! instructions in root-to-leaf order, and computes the groups of same-color
//! stones (connected components under 4-adjacency) on the resulting grid.
//! Parsing the record's textual syntax and all terminal rendering live
//! outside this crate; they hand in an already-parsed tree and read plain
//! values back.

pub mod model;
pub mod codec;
pub mod record;
pub mod nav;
pub mod board;
pub mod groups;
