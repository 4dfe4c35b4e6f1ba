use vstd::prelude::*;

verus! {

/// One grid position of a maze.
///
/// `x` and `y` are the position of the cell inside its grid.  `visited`
/// says whether the cell has been incorporated into the spanning
/// structure that a generator grows.  `walls` holds the four walls of
/// the cell — index 0 = top, 1 = right, 2 = bottom, 3 = left — where
/// `true` means the wall is present and blocks passage to the matching
/// neighbor.
#[derive(Clone, Copy, Debug)]
pub struct Node {
    pub x: usize,
    pub y: usize,
    pub visited: bool,
    pub walls: [bool; 4],
}

impl Node {
    /// A cell that has not been touched by generation: unvisited, with
    /// all four walls present.
    pub open spec fn fresh_at(self, x: int, y: int) -> bool {
        &&& self.x == x
        &&& self.y == y
        &&& !self.visited
        &&& self.walls@[0]
        &&& self.walls@[1]
        &&& self.walls@[2]
        &&& self.walls@[3]
    }
}

} // verus!
