//! Building and checking American-style crossword grids: the cell grid and
//! its geometry, word extraction and validation, a length-indexed dictionary
//! and the sparse patterns used to look up fill-in suggestions.

pub mod dictionary;
pub mod grid;
pub mod puzzle;
pub mod text;

use vstd::prelude::*;

verus! {

/// The largest share of black squares, in percent, that a valid grid may hold.
pub const PERCENT_BLACK: usize = 16;

/// Words of this many characters or more are not kept in a dictionary.
pub const MAX_WORD_LEN: usize = 30;

} // verus!
