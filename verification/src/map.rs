//! Size of the server's board.

use vstd::prelude::*;

verus! {

/// Width and height of the server's board.
pub struct MapShape {
    pub width: usize,
    pub height: usize,
}

impl MapShape {
    /// A board of `width * height` squares.
    pub fn new(width: usize, height: usize) -> (m: MapShape)
        ensures
            m.width == width,
            m.height == height,
    {
        MapShape { width, height }
    }

    /// Resizes the board to `(width, height)`.
    pub fn define_size(&mut self, size: (usize, usize))
        ensures
            final(self).width == size.0,
            final(self).height == size.1,
    {
        let (width, height) = size;
        self.width = width;
        self.height = height;
    }
}

} // verus!
