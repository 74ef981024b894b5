//! The part of the document that the terminal shows.
use vstd::prelude::*;

verus! {

/// The first row and column shown, and the size of the terminal.
pub struct Viewport {
    pub top_row: usize,
    pub left_column: usize,
    pub width: usize,
    pub height: usize,
}

impl Viewport {
    /// A viewport of a terminal of `width` columns and `height` rows, showing
    /// the document from its first row and column.
    pub fn new(width: usize, height: usize) -> (v: Viewport)
        ensures
            v.top_row == 0,
            v.left_column == 0,
            v.width == width,
            v.height == height,
    {
        Viewport { top_row: 0, left_column: 0, width, height }
    }
}

} // verus!
