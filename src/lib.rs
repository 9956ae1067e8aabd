//! Finds every dictionary word that can be traced as a path of adjacent
//! cells on a square letter grid.
//!
//! The dictionary lives in a [`LetterTree`], a prefix tree that tells for any
//! letter sequence whether it is a word, the start of a word, or neither.
//! [`solve`] walks the grid and uses that answer to cut off every path whose
//! letters cannot grow into a word.

pub mod search;
pub mod text;
pub mod tree;

pub use search::{is_valid_grid, solve, SIDE};
pub use text::{dictionary_word, strip_bom};
pub use tree::{LetterTree, Status};
