//! Line-oriented minimal edit scripts.
//!
//! Given two sequences of text lines, `expected` and `actual`, the crate
//! searches the edit graph greedily for a shortest sequence of line
//! insertions and deletions that relates them, walks the search record
//! backwards into a list of snake end points, and renders that list as an
//! ordered list of kept, inserted and deleted lines.

pub mod diff;
pub mod frontier;
pub mod lcs;
pub mod line;
pub mod operation;
pub mod path;
pub mod query;
pub mod render;
pub mod script;
pub mod trace;
pub mod walk;
