use vstd::prelude::*;
use crate::node::Node;
use crate::rng::MazeRng;
use crate::counting::{grid_count, lemma_grid_count_update, lemma_grid_count_none, lemma_grid_count_all, lemma_grid_count_full};
use vstd::arithmetic::div_mod::lemma_fundamental_div_mod;
use vstd::arithmetic::div_mod::lemma_mod_bound;
use vstd::arithmetic::mul::lemma_mul_inequality;

verus! {

/// The frontier state of the one active generation algorithm.
///
/// Exactly one variant is live while generation is in progress; `None`
/// in [`Maze::generator`] means "not started" or "complete".
pub enum MazeGenerator {
    /// Depth-first backtracker: the stack of coordinates on the
    /// current path, innermost last.
    Dfs { stack: Vec<(usize, usize)> },
    /// Prim's frontier expansion: candidate walls `(x1, y1, x2, y2)`
    /// where `(x1, y1)` was visited when the entry was added and
    /// `(x2, y2)` is its neighbor.  Entries may go stale; staleness is
    /// resolved when an entry is consumed.
    Prims { walls: Vec<(usize, usize, usize, usize)> },
    /// Aldous-Broder uniform random walk: the walker position and the
    /// number of cells still unvisited.
    AldousBroder { current: (usize, usize), unvisited: usize },
    /// Kruskal: the pre-shuffled list of all candidate edges, and a
    /// union-find parent table over flattened cell indices.
    Kruskal { edges: Vec<(usize, usize, usize, usize)>, sets: Vec<usize> },
}

/// The one hard failure of the engine: a grid configuration it cannot
/// accept.
#[derive(Clone, Copy, Debug, PartialEq, Eq, Structural)]
pub enum MazeError {
    /// A zero dimension, or a cell count beyond what this machine can
    /// index.
    InvalidConfiguration,
}

/// A rectangular maze under construction: the cell grid, the active
/// generator if any, and the maze's own randomness source.
pub struct Maze {
    pub width: usize,
    pub height: usize,
    pub grid: Vec<Vec<Node>>,
    pub generator: Option<MazeGenerator>,
    pub rng: MazeRng,
}

/// Cell predicate used to count visited cells.
pub open spec fn f_visited() -> spec_fn(Node) -> bool {
    |nd: Node| nd.visited
}

/// Cell predicate used to count passages opened to the right.
pub open spec fn f_open_right() -> spec_fn(Node) -> bool {
    |nd: Node| !nd.walls@[1]
}

/// Cell predicate used to count passages opened downward.
pub open spec fn f_open_down() -> spec_fn(Node) -> bool {
    |nd: Node| !nd.walls@[2]
}

impl Maze {
    pub open spec fn in_bounds(self, x: int, y: int) -> bool {
        0 <= x < self.width && 0 <= y < self.height
    }

    pub open spec fn node_at(self, x: int, y: int) -> Node {
        self.grid@[y]@[x]
    }

    pub open spec fn visited(self, x: int, y: int) -> bool {
        self.node_at(x, y).visited
    }

    pub open spec fn wall(self, x: int, y: int, w: int) -> bool {
        self.node_at(x, y).walls@[w]
    }

    /// Number of cells of the grid.
    pub open spec fn total(self) -> int {
        self.width * self.height
    }

    /// Structural shape of the grid: positive dimensions that this
    /// machine can index, one row per `y`, one cell per `x`, each cell
    /// carrying its own coordinates.
    pub open spec fn dims_ok(self) -> bool {
        &&& self.width >= 1
        &&& self.height >= 1
        &&& self.total() <= usize::MAX
        &&& self.grid@.len() == self.height
        &&& forall|y: int| 0 <= y < self.height ==> (#[trigger] self.grid@[y])@.len() == self.width
        &&& forall|x: int, y: int|
            self.in_bounds(x, y) ==> ((#[trigger] self.node_at(x, y)).x == x && self.node_at(
                x,
                y,
            ).y == y)
    }

    /// The two walls of one boundary agree: a passage is never carved
    /// on one side only.
    pub open spec fn sym_ok_at(self, x: int, y: int) -> bool {
        &&& (x + 1 < self.width ==> self.wall(x, y, 1) == self.wall(x + 1, y, 3))
        &&& (y + 1 < self.height ==> self.wall(x, y, 2) == self.wall(x, y + 1, 0))
    }

    /// Walls on the outer border of the grid are never carved.
    pub open spec fn border_ok_at(self, x: int, y: int) -> bool {
        &&& (y == 0 ==> self.wall(x, y, 0))
        &&& (x == self.width - 1 ==> self.wall(x, y, 1))
        &&& (y == self.height - 1 ==> self.wall(x, y, 2))
        &&& (x == 0 ==> self.wall(x, y, 3))
    }

    /// Every state the engine hands out keeps the grid consistent:
    /// well-shaped, with matching wall pairs and an intact border.
    pub open spec fn grid_wf(self) -> bool {
        &&& self.dims_ok()
        &&& forall|x: int, y: int| self.in_bounds(x, y) ==> #[trigger] self.sym_ok_at(x, y)
        &&& forall|x: int, y: int| self.in_bounds(x, y) ==> #[trigger] self.border_ok_at(x, y)
    }

    /// A grid none of whose cells has been touched by generation.
    pub open spec fn pristine(self) -> bool {
        forall|x: int, y: int|
            self.in_bounds(x, y) ==> (#[trigger] self.node_at(x, y)).fresh_at(x, y)
    }

    /// Number of visited cells.
    pub open spec fn visited_count(self) -> int {
        grid_count(self.grid@, self.height as int, self.width as int, f_visited())
    }

    /// Number of passages carved so far.  Each passage between two
    /// adjacent cells is counted once, at the cell on its left or
    /// upper side, so under `grid_wf` this is the number of edges of
    /// the passage graph.
    pub open spec fn passages(self) -> int {
        grid_count(self.grid@, self.height as int, self.width as int, f_open_right())
            + grid_count(self.grid@, self.height as int, self.width as int, f_open_down())
    }

    /// Passages are carved only between cells that are both visited.
    pub open spec fn carve_ok_at(self, x: int, y: int) -> bool {
        &&& (x + 1 < self.width && !self.wall(x, y, 1) ==> self.visited(x, y) && self.visited(
            x + 1,
            y,
        ))
        &&& (y + 1 < self.height && !self.wall(x, y, 2) ==> self.visited(x, y) && self.visited(
            x,
            y + 1,
        ))
    }

    pub open spec fn passages_within_visited(self) -> bool {
        forall|x: int, y: int| self.in_bounds(x, y) ==> #[trigger] self.carve_ok_at(x, y)
    }

    pub open spec fn some_visited(self) -> bool {
        exists|x: int, y: int| self.in_bounds(x, y) && #[trigger] self.visited(x, y)
    }

    /// All four in-bounds neighbors of the cell are visited.
    pub open spec fn cell_closed(self, x: int, y: int) -> bool {
        &&& (x > 0 ==> self.visited(x - 1, y))
        &&& (x + 1 < self.width ==> self.visited(x + 1, y))
        &&& (y > 0 ==> self.visited(x, y - 1))
        &&& (y + 1 < self.height ==> self.visited(x, y + 1))
    }

    pub open spec fn all_visited(self) -> bool {
        forall|x: int, y: int| self.in_bounds(x, y) ==> #[trigger] self.visited(x, y)
    }
}

impl Maze {
    /// The predicate `p` on cells is closed under moving through open
    /// passages: wherever it holds, it also holds one step through
    /// any carved boundary.
    pub open spec fn passage_closed(self, p: spec_fn(int, int) -> bool) -> bool {
        forall|x: int, y: int|
            self.in_bounds(x, y) && #[trigger] p(x, y) ==> {
                &&& (x + 1 < self.width && !self.wall(x, y, 1) ==> p(x + 1, y))
                &&& (x > 0 && !self.wall(x - 1, y, 1) ==> p(x - 1, y))
                &&& (y + 1 < self.height && !self.wall(x, y, 2) ==> p(x, y + 1))
                &&& (y > 0 && !self.wall(x, y - 1, 2) ==> p(x, y - 1))
            }
    }

    /// The visited region is connected by carved passages, stated as
    /// an induction principle: any passage-closed predicate that
    /// holds at one visited cell holds at every visited cell.
    pub open spec fn visited_connected(self) -> bool {
        forall|p: spec_fn(int, int) -> bool, sx: int, sy: int|
            #![trigger self.passage_closed(p), p(sx, sy)]
            self.passage_closed(p) && self.in_bounds(sx, sy) && self.visited(sx, sy) && p(sx, sy)
                ==> (forall|x: int, y: int|
                self.in_bounds(x, y) && #[trigger] self.visited(x, y) ==> p(x, y))
    }

    /// The whole maze is connected by carved passages: any
    /// passage-closed predicate that holds at one cell holds at every
    /// cell.  This is what makes a completed maze perfect, together
    /// with its passage count of `width*height - 1`.
    pub open spec fn maze_connected(self) -> bool {
        forall|p: spec_fn(int, int) -> bool, sx: int, sy: int|
            #![trigger self.passage_closed(p), p(sx, sy)]
            self.passage_closed(p) && self.in_bounds(sx, sy) && p(sx, sy) ==> (forall|
                x: int,
                y: int,
            |
                self.in_bounds(x, y) ==> #[trigger] p(x, y))
    }

    /// A visited region that is passage-connected and covers the
    /// whole grid makes the whole maze passage-connected.
    pub proof fn lemma_connected_when_all_visited(self)
        requires
            self.visited_connected(),
            self.all_visited(),
        ensures
            self.maze_connected(),
    {
        assert forall|p: spec_fn(int, int) -> bool, sx: int, sy: int|
            #![trigger self.passage_closed(p), p(sx, sy)]
            self.passage_closed(p) && self.in_bounds(sx, sy) && p(sx, sy) implies (forall|
            x: int,
            y: int,
        |
            self.in_bounds(x, y) ==> #[trigger] p(x, y)) by {
            assert(self.visited(sx, sy));
            assert forall|x: int, y: int| self.in_bounds(x, y) implies #[trigger] p(x, y) by {
                assert(self.visited(x, y));
            }
        }
    }
}

/// Carving one passage from the visited region to a newly visited
/// cell keeps the visited region passage-connected: `b` is `a` with
/// the boundary between the visited `(cx, cy)` and its neighbor
/// `(nx, ny)` carved and that neighbor marked visited.
pub proof fn lemma_connected_after_carve(a: Maze, b: Maze, cx: int, cy: int, w1: int, nx: int, ny: int, w2: int)
    requires
        a.visited_connected(),
        b.grid_wf(),
        b.width == a.width,
        b.height == a.height,
        a.in_bounds(cx, cy),
        a.in_bounds(nx, ny),
        a.visited(cx, cy),
        Maze::wall_pair_ok(cx, cy, w1, nx, ny, w2),
        !b.wall(cx, cy, w1),
        forall|x: int, y: int|
            a.in_bounds(x, y) ==> (#[trigger] b.visited(x, y) == (a.visited(x, y) || (x == nx && y
                == ny))),
        forall|x: int, y: int, w: int|
            a.in_bounds(x, y) && 0 <= w < 4 && #[trigger] b.wall(x, y, w) ==> a.wall(x, y, w),
    ensures
        b.visited_connected(),
{
    assert forall|p: spec_fn(int, int) -> bool, sx: int, sy: int|
        #![trigger b.passage_closed(p), p(sx, sy)]
        b.passage_closed(p) && b.in_bounds(sx, sy) && b.visited(sx, sy) && p(sx, sy) implies (
    forall|x: int, y: int| b.in_bounds(x, y) && #[trigger] b.visited(x, y) ==> p(x, y)) by {
        assert(a.passage_closed(p)) by {
            assert forall|x: int, y: int| a.in_bounds(x, y) && #[trigger] p(x, y) implies {
                &&& (x + 1 < a.width && !a.wall(x, y, 1) ==> p(x + 1, y))
                &&& (x > 0 && !a.wall(x - 1, y, 1) ==> p(x - 1, y))
                &&& (y + 1 < a.height && !a.wall(x, y, 2) ==> p(x, y + 1))
                &&& (y > 0 && !a.wall(x, y - 1, 2) ==> p(x, y - 1))
            } by {}
        }
        // whichever side the walk starts on, `p` spreads through the
        // new passage between (cx, cy) and (nx, ny)
        let start_old = if a.visited(sx, sy) {
            (sx, sy)
        } else {
            (cx, cy)
        };
        if !a.visited(sx, sy) {
            assert(sx == nx && sy == ny);
            assert(p(cx, cy)) by {
                assert(b.sym_ok_at(cx, cy));
                assert(b.sym_ok_at(nx, ny));
                if w1 == 1 {
                    assert(!b.wall(cx, cy, 1));
                } else if w1 == 3 {
                    assert(!b.wall(nx, ny, 1));
                } else if w1 == 2 {
                    assert(!b.wall(cx, cy, 2));
                } else {
                    assert(!b.wall(nx, ny, 2));
                }
            }
        }
        assert(a.visited(start_old.0, start_old.1) && p(start_old.0, start_old.1));
        assert forall|x: int, y: int|
            a.in_bounds(x, y) && #[trigger] a.visited(x, y) implies p(x, y) by {}
        assert forall|x: int, y: int|
            b.in_bounds(x, y) && #[trigger] b.visited(x, y) implies p(x, y) by {
            if !a.visited(x, y) {
                assert(x == nx && y == ny);
                assert(p(cx, cy));
                assert(b.sym_ok_at(cx, cy));
                assert(b.sym_ok_at(nx, ny));
                if w1 == 1 {
                    assert(!b.wall(cx, cy, 1));
                } else if w1 == 3 {
                    assert(!b.wall(nx, ny, 1));
                } else if w1 == 2 {
                    assert(!b.wall(cx, cy, 2));
                } else {
                    assert(!b.wall(nx, ny, 2));
                }
            }
        }
    }
}

/// The grids of two mazes have the same dimensions, visited flags are
/// never cleared between them, and walls are never re-added.
pub open spec fn grid_monotone(m0: Maze, m1: Maze) -> bool {
    &&& m1.width == m0.width
    &&& m1.height == m0.height
    &&& forall|x: int, y: int|
        m0.in_bounds(x, y) && #[trigger] m0.visited(x, y) ==> m1.visited(x, y)
    &&& forall|x: int, y: int, w: int|
        m0.in_bounds(x, y) && 0 <= w < 4 && #[trigger] m1.wall(x, y, w) ==> m0.wall(x, y, w)
}

/// Two maze states over the same grid satisfy the same grid
/// predicates; only the generator or the randomness source differs.
pub proof fn lemma_same_grid(a: Maze, b: Maze)
    requires
        b.grid == a.grid,
        b.width == a.width,
        b.height == a.height,
    ensures
        forall|x: int, y: int| #[trigger] b.node_at(x, y) == a.node_at(x, y),
        b.visited_count() == a.visited_count(),
        b.passages() == a.passages(),
        a.dims_ok() ==> b.dims_ok(),
        a.grid_wf() ==> b.grid_wf(),
        a.pristine() ==> b.pristine(),
        a.passages_within_visited() ==> b.passages_within_visited(),
        a.some_visited() ==> b.some_visited(),
        a.all_visited() ==> b.all_visited(),
        a.visited_connected() ==> b.visited_connected(),
        grid_monotone(a, b),
{
    assert(b.grid@ == a.grid@);
    assert forall|x: int, y: int| #[trigger] b.node_at(x, y) == a.node_at(x, y) by {
        assert(b.grid@[y] == a.grid@[y]);
    }
    if a.dims_ok() {
        assert forall|y: int| 0 <= y < b.height implies (#[trigger] b.grid@[y])@.len()
            == b.width by {
            assert(a.grid@[y] == b.grid@[y]);
            assert(a.grid@[y]@.len() == a.width);
        }
        assert forall|x: int, y: int| b.in_bounds(x, y) implies ((#[trigger] b.node_at(x, y)).x
            == x && b.node_at(x, y).y == y) by {
            assert(a.node_at(x, y).x == x);
        }
    }
    if a.grid_wf() {
        assert forall|x: int, y: int| b.in_bounds(x, y) implies #[trigger] b.sym_ok_at(x, y) by {
            assert(a.sym_ok_at(x, y));
            assert(b.node_at(x, y) == a.node_at(x, y));
            assert(b.node_at(x + 1, y) == a.node_at(x + 1, y));
            assert(b.node_at(x, y + 1) == a.node_at(x, y + 1));
        }
        assert forall|x: int, y: int| b.in_bounds(x, y) implies #[trigger] b.border_ok_at(x, y) by {
            assert(a.border_ok_at(x, y));
            assert(b.node_at(x, y) == a.node_at(x, y));
        }
    }
    if a.pristine() {
        assert forall|x: int, y: int| b.in_bounds(x, y) implies (#[trigger] b.node_at(x, y)).fresh_at(
            x,
            y,
        ) by {
            assert(a.node_at(x, y).fresh_at(x, y));
        }
    }
    if a.passages_within_visited() {
        assert forall|x: int, y: int| b.in_bounds(x, y) implies #[trigger] b.carve_ok_at(x, y) by {
            assert(a.carve_ok_at(x, y));
            assert(b.node_at(x, y) == a.node_at(x, y));
            assert(b.node_at(x + 1, y) == a.node_at(x + 1, y));
            assert(b.node_at(x, y + 1) == a.node_at(x, y + 1));
        }
    }
    if a.some_visited() {
        let (sx, sy) = choose|sx: int, sy: int| a.in_bounds(sx, sy) && #[trigger] a.visited(sx, sy);
        assert(b.visited(sx, sy));
    }
    if a.all_visited() {
        assert forall|x: int, y: int| b.in_bounds(x, y) implies #[trigger] b.visited(x, y) by {
            assert(a.visited(x, y));
        }
    }
    if a.visited_connected() {
        assert forall|p: spec_fn(int, int) -> bool, sx: int, sy: int|
            #![trigger b.passage_closed(p), p(sx, sy)]
            b.passage_closed(p) && b.in_bounds(sx, sy) && b.visited(sx, sy) && p(sx, sy) implies (
        forall|x: int, y: int| b.in_bounds(x, y) && #[trigger] b.visited(x, y) ==> p(x, y)) by {
            assert(a.passage_closed(p)) by {
                assert forall|x: int, y: int| a.in_bounds(x, y) && #[trigger] p(x, y) implies {
                    &&& (x + 1 < a.width && !a.wall(x, y, 1) ==> p(x + 1, y))
                    &&& (x > 0 && !a.wall(x - 1, y, 1) ==> p(x - 1, y))
                    &&& (y + 1 < a.height && !a.wall(x, y, 2) ==> p(x, y + 1))
                    &&& (y > 0 && !a.wall(x, y - 1, 2) ==> p(x, y - 1))
                } by {
                    assert(b.node_at(x, y) == a.node_at(x, y));
                    assert(b.node_at(x - 1, y) == a.node_at(x - 1, y));
                    assert(b.node_at(x, y - 1) == a.node_at(x, y - 1));
                }
            }
            assert(a.visited(sx, sy));
            assert forall|x: int, y: int|
                b.in_bounds(x, y) && #[trigger] b.visited(x, y) implies p(x, y) by {
                assert(a.visited(x, y));
            }
        }
    }
    assert forall|x: int, y: int|
        a.in_bounds(x, y) && #[trigger] a.visited(x, y) implies b.visited(x, y) by {
        assert(b.node_at(x, y) == a.node_at(x, y));
    }
    assert forall|x: int, y: int, w: int|
        a.in_bounds(x, y) && 0 <= w < 4 && #[trigger] b.wall(x, y, w) implies a.wall(x, y, w) by {
        assert(b.node_at(x, y) == a.node_at(x, y));
    }
}

/// Being carved-from is transitive: if `b` only extends `a`'s visited
/// region and only removes walls, and `c` does the same to `b`, then
/// `c` relates to `a` the same way.
pub proof fn lemma_monotone_trans(a: Maze, b: Maze, c: Maze)
    requires
        grid_monotone(a, b),
        grid_monotone(b, c),
    ensures
        grid_monotone(a, c),
{
    assert forall|x: int, y: int|
        a.in_bounds(x, y) && #[trigger] a.visited(x, y) implies c.visited(x, y) by {
        assert(b.visited(x, y));
    }
    assert forall|x: int, y: int, w: int|
        a.in_bounds(x, y) && 0 <= w < 4 && #[trigger] c.wall(x, y, w) implies a.wall(x, y, w) by {
        assert(b.wall(x, y, w));
    }
}

impl Maze {
    /// Builds the `width × height` grid of fresh cells: every cell
    /// unvisited with all four walls present, no generator active.
    pub fn new(width: usize, height: usize) -> (m: Maze)
        requires
            width >= 1,
            height >= 1,
            width * height <= usize::MAX,
        ensures
            m.width == width,
            m.height == height,
            m.grid_wf(),
            m.pristine(),
            m.generator is None,
    {
        let mut grid: Vec<Vec<Node>> = Vec::new();
        let mut y: usize = 0;
        while y < height
            invariant
                y <= height,
                grid@.len() == y,
                forall|r: int| 0 <= r < y ==> (#[trigger] grid@[r])@.len() == width,
                forall|r: int, c: int|
                    0 <= r < y && 0 <= c < width ==> (#[trigger] grid@[r]@[c]).fresh_at(c, r),
            decreases height - y,
        {
            let mut row: Vec<Node> = Vec::new();
            let mut x: usize = 0;
            while x < width
                invariant
                    x <= width,
                    row@.len() == x,
                    forall|c: int| 0 <= c < x ==> (#[trigger] row@[c]).fresh_at(c, y as int),
                decreases width - x,
            {
                row.push(Node { x, y, visited: false, walls: [true, true, true, true] });
                x = x + 1;
            }
            grid.push(row);
            y = y + 1;
        }
        let m = Maze { width, height, grid, generator: None, rng: MazeRng::from_entropy() };
        proof {
            assert forall|x: int, yy: int| m.in_bounds(x, yy) implies (#[trigger] m.node_at(
                x,
                yy,
            )).fresh_at(x, yy) by {
                assert(m.grid@[yy]@[x].fresh_at(x, yy));
            }
            assert forall|x: int, yy: int| m.in_bounds(x, yy) implies #[trigger] m.sym_ok_at(
                x,
                yy,
            ) by {
                assert(m.node_at(x, yy).fresh_at(x, yy));
                if x + 1 < m.width {
                    assert(m.node_at(x + 1, yy).fresh_at(x + 1, yy));
                }
                if yy + 1 < m.height {
                    assert(m.node_at(x, yy + 1).fresh_at(x, yy + 1));
                }
            }
            assert forall|x: int, yy: int| m.in_bounds(x, yy) implies #[trigger] m.border_ok_at(
                x,
                yy,
            ) by {
                assert(m.node_at(x, yy).fresh_at(x, yy));
            }
        }
        m
    }

    /// Checked construction: accepts exactly the configurations with
    /// both dimensions at least 1 whose cell count this machine can
    /// index, and rejects every other with `InvalidConfiguration`.
    pub fn try_new(width: usize, height: usize) -> (r: Result<Maze, MazeError>)
        ensures
            (r is Ok) <==> (width >= 1 && height >= 1 && width * height <= usize::MAX),
            r matches Ok(m) ==> m.width == width && m.height == height && m.grid_wf()
                && m.pristine() && m.generator is None,
            r matches Err(e) ==> e == MazeError::InvalidConfiguration,
    {
        if width == 0 || height == 0 {
            proof {
                assert(width * height > usize::MAX ==> width >= 1 && height >= 1) by (nonlinear_arith);
            }
            return Err(MazeError::InvalidConfiguration);
        }
        if height > usize::MAX / width {
            proof {
                let q = (usize::MAX as int) / (width as int);
                lemma_fundamental_div_mod(usize::MAX as int, width as int);
                lemma_mod_bound(usize::MAX as int, width as int);
                lemma_mul_inequality(q + 1, height as int, width as int);
                assert((q + 1) * (width as int) == q * (width as int) + width) by (nonlinear_arith);
                assert((width as int) * q == q * (width as int)) by (nonlinear_arith);
                assert(width * height == height * width) by (nonlinear_arith);
            }
            return Err(MazeError::InvalidConfiguration);
        }
        proof {
            let q = (usize::MAX as int) / (width as int);
            lemma_fundamental_div_mod(usize::MAX as int, width as int);
            lemma_mod_bound(usize::MAX as int, width as int);
            lemma_mul_inequality(height as int, q, width as int);
            assert((width as int) * q == q * (width as int)) by (nonlinear_arith);
            assert(width * height == height * width) by (nonlinear_arith);
        }
        Ok(Self::new(width, height))
    }

    /// Replaces the maze's randomness source with one derived from the
    /// given seed, so that a generation run can be reproduced.
    pub fn set_seed(&mut self, seed: u64)
        ensures
            final(self).width == old(self).width,
            final(self).height == old(self).height,
            final(self).grid == old(self).grid,
            final(self).generator == old(self).generator,
    {
        self.rng = MazeRng::seeded(seed);
    }

    /// One cell of the grid, by value.
    pub fn node_copy(&self, x: usize, y: usize) -> (n: Node)
        requires
            self.dims_ok(),
            self.in_bounds(x as int, y as int),
        ensures
            n == self.node_at(x as int, y as int),
    {
        self.grid[y][x]
    }

    /// Overwrites one cell of the grid.
    fn set_node(&mut self, x: usize, y: usize, n: Node)
        requires
            old(self).dims_ok(),
            old(self).in_bounds(x as int, y as int),
            n.x == x,
            n.y == y,
        ensures
            final(self).dims_ok(),
            final(self).width == old(self).width,
            final(self).height == old(self).height,
            final(self).generator == old(self).generator,
            final(self).rng == old(self).rng,
            final(self).grid@.len() == old(self).grid@.len(),
            forall|r: int|
                0 <= r < old(self).height && r != y ==> #[trigger] final(self).grid@[r] == old(
                    self,
                ).grid@[r],
            final(self).grid@[y as int]@ == old(self).grid@[y as int]@.update(x as int, n),
    {
        let row: &mut Vec<Node> = &mut self.grid[y];
        row[x] = n;
        proof {
            assert forall|c: int, r: int| self.in_bounds(c, r) implies ((#[trigger] self.node_at(
                c,
                r,
            )).x == c && self.node_at(c, r).y == r) by {
                if r != y {
                    assert(self.grid@[r] == old(self).grid@[r]);
                    assert(old(self).node_at(c, r).x == c);
                } else if c != x {
                    assert(old(self).node_at(c, r).x == c);
                }
            }
            assert forall|r: int| 0 <= r < self.height implies (#[trigger] self.grid@[r])@.len()
                == self.width by {
                if r != y {
                    assert(self.grid@[r] == old(self).grid@[r]);
                }
            }
        }
    }

    /// Marks one cell visited, leaving every wall and every other cell
    /// untouched.
    pub(crate) fn mark_visited(&mut self, x: usize, y: usize)
        requires
            old(self).dims_ok(),
            old(self).in_bounds(x as int, y as int),
        ensures
            final(self).width == old(self).width,
            final(self).height == old(self).height,
            final(self).generator == old(self).generator,
            final(self).rng == old(self).rng,
            final(self).dims_ok(),
            old(self).grid_wf() ==> final(self).grid_wf(),
            old(self).pristine() && old(self).total() == 1 ==> final(self).visited(0, 0),
            forall|x2: int, y2: int|
                old(self).in_bounds(x2, y2) ==> #[trigger] final(self).visited(x2, y2) == (old(
                    self,
                ).visited(x2, y2) || (x2 == x && y2 == y)),
            forall|x2: int, y2: int, w: int|
                old(self).in_bounds(x2, y2) && 0 <= w < 4 ==> #[trigger] final(self).wall(
                    x2,
                    y2,
                    w,
                ) == old(self).wall(x2, y2, w),
            final(self).visited_count() == old(self).visited_count() + (if old(self).visited(
                x as int,
                y as int,
            ) {
                0int
            } else {
                1int
            }),
            final(self).passages() == old(self).passages(),
    {
        let mut n = self.node_copy(x, y);
        n.visited = true;
        let ghost m0 = *self;
        self.set_node(x, y, n);
        proof {
            let xi = x as int;
            let yi = y as int;
            let rows = m0.height as int;
            let cols = m0.width as int;
            assert forall|x2: int, y2: int| m0.in_bounds(x2, y2) implies #[trigger] self.node_at(
                x2,
                y2,
            ) == (if x2 == xi && y2 == yi {
                n
            } else {
                m0.node_at(x2, y2)
            }) by {
                if y2 != yi {
                    assert(self.grid@[y2] == m0.grid@[y2]);
                }
            }
            lemma_grid_count_update(m0.grid@, self.grid@, rows, cols, yi, xi, f_visited());
            lemma_grid_count_update(m0.grid@, self.grid@, rows, cols, yi, xi, f_open_right());
            lemma_grid_count_update(m0.grid@, self.grid@, rows, cols, yi, xi, f_open_down());
            if m0.pristine() && m0.total() == 1 {
                assert(m0.width == 1 && m0.height == 1) by (nonlinear_arith)
                    requires m0.width >= 1, m0.height >= 1, m0.width * m0.height == 1,
                ;
            }
            assert forall|x2: int, y2: int| self.in_bounds(x2, y2) && m0.sym_ok_at(x2, y2)
                implies #[trigger] self.sym_ok_at(x2, y2) by {}
            assert forall|x2: int, y2: int| self.in_bounds(x2, y2) && m0.border_ok_at(x2, y2)
                implies #[trigger] self.border_ok_at(x2, y2) by {}
        }
    }

    /// The two wall indices `w1` at `(x1, y1)` and `w2` at `(x2, y2)`
    /// name the one boundary between two adjacent cells, from each
    /// side.
    pub open spec fn wall_pair_ok(x1: int, y1: int, w1: int, x2: int, y2: int, w2: int) -> bool {
        ||| (w1 == 1 && x2 == x1 + 1 && y2 == y1 && w2 == 3)
        ||| (w1 == 3 && x2 == x1 - 1 && y2 == y1 && w2 == 1)
        ||| (w1 == 2 && x2 == x1 && y2 == y1 + 1 && w2 == 0)
        ||| (w1 == 0 && x2 == x1 && y2 == y1 - 1 && w2 == 2)
    }

    /// Carves one passage: clears the same boundary from both sides in
    /// one atomic step, so the grid is never seen with a
    /// half-cleared pair.
    pub(crate) fn clear_wall_pair(&mut self, x1: usize, y1: usize, w1: usize, x2: usize, y2: usize, w2: usize)
        requires
            old(self).grid_wf(),
            old(self).in_bounds(x1 as int, y1 as int),
            old(self).in_bounds(x2 as int, y2 as int),
            Maze::wall_pair_ok(x1 as int, y1 as int, w1 as int, x2 as int, y2 as int, w2 as int),
            old(self).wall(x1 as int, y1 as int, w1 as int),
        ensures
            final(self).width == old(self).width,
            final(self).height == old(self).height,
            final(self).generator == old(self).generator,
            final(self).rng == old(self).rng,
            final(self).grid_wf(),
            forall|x: int, y: int|
                old(self).in_bounds(x, y) ==> #[trigger] final(self).visited(x, y) == old(
                    self,
                ).visited(x, y),
            forall|x: int, y: int, w: int|
                old(self).in_bounds(x, y) && 0 <= w < 4 ==> #[trigger] final(self).wall(x, y, w)
                    == (old(self).wall(x, y, w) && !((x == x1 && y == y1 && w == w1) || (x == x2
                    && y == y2 && w == w2))),
            final(self).visited_count() == old(self).visited_count(),
            final(self).passages() == old(self).passages() + 1,
    {
        proof {
            assert(old(self).sym_ok_at(x1 as int, y1 as int));
            assert(old(self).sym_ok_at(x2 as int, y2 as int));
            assert(old(self).border_ok_at(x1 as int, y1 as int));
        }
        let mut n1 = self.node_copy(x1, y1);
        n1.walls[w1] = false;
        let ghost m0 = *self;
        self.set_node(x1, y1, n1);
        let ghost m1 = *self;
        let mut n2 = self.node_copy(x2, y2);
        n2.walls[w2] = false;
        self.set_node(x2, y2, n2);
        proof {
            let rows = m0.height as int;
            let cols = m0.width as int;
            assert forall|x: int, y: int| m0.in_bounds(x, y) implies #[trigger] self.node_at(x, y)
                == (if x == x1 as int && y == y1 as int {
                n1
            } else if x == x2 as int && y == y2 as int {
                n2
            } else {
                m0.node_at(x, y)
            }) by {
                if y != y1 as int {
                    assert(m1.grid@[y] == m0.grid@[y]);
                }
                if y != y2 as int {
                    assert(self.grid@[y] == m1.grid@[y]);
                }
            }
            lemma_grid_count_update(m0.grid@, m1.grid@, rows, cols, y1 as int, x1 as int, f_visited());
            lemma_grid_count_update(m1.grid@, self.grid@, rows, cols, y2 as int, x2 as int, f_visited());
            lemma_grid_count_update(m0.grid@, m1.grid@, rows, cols, y1 as int, x1 as int, f_open_right());
            lemma_grid_count_update(m1.grid@, self.grid@, rows, cols, y2 as int, x2 as int, f_open_right());
            lemma_grid_count_update(m0.grid@, m1.grid@, rows, cols, y1 as int, x1 as int, f_open_down());
            lemma_grid_count_update(m1.grid@, self.grid@, rows, cols, y2 as int, x2 as int, f_open_down());
            assert forall|x: int, y: int| self.in_bounds(x, y) implies #[trigger] self.sym_ok_at(
                x,
                y,
            ) by {
                assert(m0.sym_ok_at(x, y));
            }
            assert forall|x: int, y: int| self.in_bounds(x, y) implies #[trigger] self.border_ok_at(
                x,
                y,
            ) by {
                assert(m0.border_ok_at(x, y));
            }
        }
    }
}

} // verus!
