use vstd::prelude::*;
use crate::maze::{Maze, MazeGenerator, f_visited, f_open_right, f_open_down, grid_monotone};
use crate::counting::{lemma_grid_count_none, lemma_grid_count_all};
use crate::connectivity::{grid_closed, lemma_closed_covers};
use crate::union_find::{uf_wf, root_of, root_count};
use vstd::arithmetic::div_mod::lemma_fundamental_div_mod;
use vstd::arithmetic::div_mod::lemma_mod_bound;
use vstd::arithmetic::div_mod::lemma_fundamental_div_mod_converse;

verus! {

/// Two grid cells sharing one boundary.
pub open spec fn adjacent(x1: int, y1: int, x2: int, y2: int) -> bool {
    ||| (y1 == y2 && (x2 == x1 + 1 || x2 == x1 - 1))
    ||| (x1 == x2 && (y2 == y1 + 1 || y2 == y1 - 1))
}

/// Pushing onto a sequence keeps every element it already contains,
/// and makes the pushed element contained.
pub proof fn lemma_push_keeps<T>(s: Seq<T>, v: T)
    ensures
        forall|e: T| s.contains(e) ==> #[trigger] s.push(v).contains(e),
        s.push(v).contains(v),
{
    assert forall|e: T| s.contains(e) implies #[trigger] s.push(v).contains(e) by {
        let i = choose|i: int| 0 <= i < s.len() && s[i] == e;
        assert(s.push(v)[i] == e);
    }
    assert(s.push(v)[s.len() as int] == v);
}

/// Dropping the last element keeps every element other than that one.
pub proof fn lemma_drop_last_keeps<T>(s: Seq<T>)
    requires
        s.len() >= 1,
    ensures
        forall|e: T|
            s.contains(e) && e != s[s.len() - 1] ==> #[trigger] s.subrange(
                0,
                s.len() - 1,
            ).contains(e),
{
    assert forall|e: T| s.contains(e) && e != s[s.len() - 1] implies #[trigger] s.subrange(
        0,
        s.len() - 1,
    ).contains(e) by {
        let i = choose|i: int| 0 <= i < s.len() && s[i] == e;
        assert(s.subrange(0, s.len() - 1)[i] == e);
    }
}

/// Removing position `i` by swapping in the last element keeps every
/// element other than the removed one.
pub proof fn lemma_swap_remove_keeps<T>(s: Seq<T>, i: int)
    requires
        0 <= i < s.len(),
    ensures
        forall|e: T|
            s.contains(e) && e != s[i] ==> #[trigger] s.update(i, s.last()).subrange(
                0,
                s.len() - 1,
            ).contains(e),
{
    let s2 = s.update(i, s.last()).subrange(0, s.len() - 1);
    assert forall|e: T| s.contains(e) && e != s[i] implies #[trigger] s2.contains(e) by {
        let j = choose|j: int| 0 <= j < s.len() && s[j] == e;
        if j < s.len() - 1 {
            assert(s2[j] == e);
        } else {
            assert(i < s.len() - 1);
            assert(s2[i] == e);
        }
    }
}

/// The wall index at `(x1, y1)` of the boundary toward the adjacent
/// cell `(x2, y2)`: 0 = top, 1 = right, 2 = bottom, 3 = left.
pub open spec fn wall_toward(x1: int, y1: int, x2: int, y2: int) -> int {
    if x2 == x1 + 1 {
        1
    } else if x2 == x1 - 1 {
        3
    } else if y2 == y1 + 1 {
        2
    } else {
        0
    }
}

/// `b` is `a` after one carving step from `(x1, y1)` to its adjacent
/// cell `(x2, y2)`: exactly that boundary is cleared, from both
/// sides, and exactly the far cell becomes visited.
pub open spec fn carved_passage(a: Maze, b: Maze, x1: int, y1: int, x2: int, y2: int) -> bool {
    &&& a.in_bounds(x1, y1)
    &&& a.in_bounds(x2, y2)
    &&& adjacent(x1, y1, x2, y2)
    &&& forall|x: int, y: int|
        a.in_bounds(x, y) ==> #[trigger] b.visited(x, y) == (a.visited(x, y) || (x == x2 && y
            == y2))
    &&& carved_wall_pair_only(a, b, x1, y1, x2, y2)
}

/// The walls of `b` are those of `a` with exactly the boundary
/// between `(x1, y1)` and `(x2, y2)` cleared, from both sides.
pub open spec fn carved_wall_pair_only(a: Maze, b: Maze, x1: int, y1: int, x2: int, y2: int) -> bool {
    forall|x: int, y: int, w: int|
        a.in_bounds(x, y) && 0 <= w < 4 ==> #[trigger] b.wall(x, y, w) == (a.wall(x, y, w) && !((x
            == x1 && y == y1 && w == wall_toward(x1, y1, x2, y2)) || (x == x2 && y == y2 && w
            == wall_toward(x2, y2, x1, y1))))
}

/// No wall differs between the two states.
pub open spec fn walls_unchanged(a: Maze, b: Maze) -> bool {
    forall|x: int, y: int, w: int|
        a.in_bounds(x, y) && 0 <= w < 4 ==> #[trigger] b.wall(x, y, w) == a.wall(x, y, w)
}

/// The boundary between two adjacent cells has been carved open.
pub open spec fn passage_between(m: Maze, x1: int, y1: int, x2: int, y2: int) -> bool {
    ||| (x2 == x1 + 1 && y2 == y1 && !m.wall(x1, y1, 1))
    ||| (x2 == x1 - 1 && y2 == y1 && !m.wall(x2, y2, 1))
    ||| (x2 == x1 && y2 == y1 + 1 && !m.wall(x1, y1, 2))
    ||| (x2 == x1 && y2 == y1 - 1 && !m.wall(x2, y2, 2))
}

/// The cell has an in-bounds orthogonal neighbor that is not visited.
pub open spec fn has_unvisited_neighbor(m: Maze, x: int, y: int) -> bool {
    ||| (x > 0 && !m.visited(x - 1, y))
    ||| (x + 1 < m.width && !m.visited(x + 1, y))
    ||| (y > 0 && !m.visited(x, y - 1))
    ||| (y + 1 < m.height && !m.visited(x, y + 1))
}

/// Both cells of a candidate edge are visited.
pub open spec fn edge_endpoints_visited(m: Maze, e: (usize, usize, usize, usize)) -> bool {
    m.visited(e.0 as int, e.1 as int) && m.visited(e.2 as int, e.3 as int)
}

/// The frontier entries Prim's step adds after carving to the newly
/// visited cell `(x2, y2)`: one wall toward each in-bounds neighbor
/// still unvisited, in left, right, up, down order.
pub open spec fn frontier_additions(m: Maze, x2: int, y2: int) -> Seq<(usize, usize, usize, usize)> {
    (if x2 > 0 && !m.visited(x2 - 1, y2) {
        seq![(((x2 as usize), (y2 as usize), ((x2 - 1) as usize), (y2 as usize)))]
    } else {
        Seq::empty()
    }) + (if x2 + 1 < m.width && !m.visited(x2 + 1, y2) {
        seq![(((x2 as usize), (y2 as usize), ((x2 + 1) as usize), (y2 as usize)))]
    } else {
        Seq::empty()
    }) + (if y2 > 0 && !m.visited(x2, y2 - 1) {
        seq![(((x2 as usize), (y2 as usize), (x2 as usize), ((y2 - 1) as usize)))]
    } else {
        Seq::empty()
    }) + (if y2 + 1 < m.height && !m.visited(x2, y2 + 1) {
        seq![(((x2 as usize), (y2 as usize), (x2 as usize), ((y2 + 1) as usize)))]
    } else {
        Seq::empty()
    })
}

/// The initial frontier of Prim's expansion seeded at `(sx, sy)`:
/// one wall toward each in-bounds neighbor of the start cell, in
/// left, right, up, down order.
pub open spec fn start_frontier(sx: int, sy: int, w: int, h: int) -> Seq<(usize, usize, usize, usize)> {
    (if sx > 0 {
        seq![(((sx as usize), (sy as usize), ((sx - 1) as usize), (sy as usize)))]
    } else {
        Seq::empty()
    }) + (if sx + 1 < w {
        seq![(((sx as usize), (sy as usize), ((sx + 1) as usize), (sy as usize)))]
    } else {
        Seq::empty()
    }) + (if sy > 0 {
        seq![(((sx as usize), (sy as usize), (sx as usize), ((sy - 1) as usize)))]
    } else {
        Seq::empty()
    }) + (if sy + 1 < h {
        seq![(((sx as usize), (sy as usize), (sx as usize), ((sy + 1) as usize)))]
    } else {
        Seq::empty()
    })
}

/// Position of a candidate edge in the row-major build order of the
/// Kruskal edge list: rights before downs at each cell.  Strictly
/// increasing along the list as built, which makes the list
/// duplicate-free.
spec fn edge_key(e: (usize, usize, usize, usize), w: int) -> int {
    2 * (e.1 * w + e.0) + (if e.2 == e.0 {
        1int
    } else {
        0int
    })
}

/// Which algorithm an active generator is running.
pub open spec fn variant_of(g: MazeGenerator) -> int {
    match g {
        MazeGenerator::Dfs { .. } => 0,
        MazeGenerator::Prims { .. } => 1,
        MazeGenerator::AldousBroder { .. } => 2,
        MazeGenerator::Kruskal { .. } => 3,
    }
}

pub open spec fn active_variant(m: Maze) -> Option<int> {
    match m.generator {
        Option::None => Option::None,
        Option::Some(g) => Option::Some(variant_of(g)),
    }
}

/// How much work the active generator still has before it: every
/// micro-step of the backtracker, of Prim's expansion and of Kruskal
/// strictly shrinks it.  The random walk carries its countdown here,
/// which a step need not shrink.
pub open spec fn gen_measure(m: Maze) -> int {
    match m.generator {
        Option::None => 0,
        Option::Some(MazeGenerator::Dfs { stack }) => 2 * (m.total() - m.visited_count())
            + stack@.len(),
        Option::Some(MazeGenerator::Prims { walls }) => walls@.len() + 4 * (m.total()
            - m.visited_count()),
        Option::Some(MazeGenerator::AldousBroder { current, unvisited }) => unvisited as int,
        Option::Some(MazeGenerator::Kruskal { edges, sets }) => edges@.len() as int,
    }
}

/// The random walk has nothing left to visit: its very next step
/// reports completion.
pub open spec fn ab_done(m: Maze) -> bool {
    match m.generator {
        Option::Some(MazeGenerator::AldousBroder { current, unvisited }) => unvisited == 0,
        _ => false,
    }
}

/// The walker position of an active random walk.
pub open spec fn ab_current_of(m: Maze) -> (usize, usize) {
    match m.generator {
        Option::Some(MazeGenerator::AldousBroder { current, unvisited }) => current,
        _ => ((0usize, 0usize)),
    }
}

impl Maze {
    /// A neighbor descriptor `(nx, ny, cw, nw)` of the cell `(x, y)`:
    /// an in-bounds unvisited neighbor, the wall index toward it at
    /// `(x, y)`, the matching wall index back at the neighbor, and the
    /// wall itself still present.
    pub open spec fn nbr_ok(self, x: int, y: int, e: (usize, usize, usize, usize)) -> bool {
        &&& self.in_bounds(e.0 as int, e.1 as int)
        &&& !self.visited(e.0 as int, e.1 as int)
        &&& Maze::wall_pair_ok(x, y, e.2 as int, e.0 as int, e.1 as int, e.3 as int)
        &&& self.wall(x, y, e.2 as int)
    }

    /// Invariant of the depth-first backtracker: stack cells are
    /// in-bounds and visited, and every visited cell is either still
    /// on the stack or already closed (all its neighbors visited), so
    /// an empty stack means the visited region cannot grow — and then
    /// covers the whole grid.
    pub open spec fn dfs_inv(self, stack: Seq<(usize, usize)>) -> bool {
        &&& forall|i: int|
            0 <= i < stack.len() ==> self.in_bounds((#[trigger] stack[i]).0 as int,
                stack[i].1 as int) && self.visited(stack[i].0 as int, stack[i].1 as int)
        &&& forall|x: int, y: int|
            self.in_bounds(x, y) && #[trigger] self.visited(x, y) ==> (stack.contains(
                ((x as usize), (y as usize)),
            ) || self.cell_closed(x, y))
        &&& forall|i: int|
            0 <= i < stack.len() - 1 ==> passage_between(
                self,
                (#[trigger] stack[i]).0 as int,
                stack[i].1 as int,
                stack[i + 1].0 as int,
                stack[i + 1].1 as int,
            )
        &&& self.some_visited()
        &&& self.passages_within_visited()
        &&& self.passages() == self.visited_count() - 1
        &&& self.visited_connected()
    }

    /// One frontier entry of Prim's algorithm: `(x1, y1)` was visited
    /// when the entry was added (and stays visited), `(x2, y2)` is an
    /// in-bounds neighbor of it.
    pub open spec fn prims_entry_ok(self, e: (usize, usize, usize, usize)) -> bool {
        &&& self.in_bounds(e.0 as int, e.1 as int)
        &&& self.in_bounds(e.2 as int, e.3 as int)
        &&& adjacent(e.0 as int, e.1 as int, e.2 as int, e.3 as int)
        &&& self.visited(e.0 as int, e.1 as int)
    }

    /// Every unvisited in-bounds neighbor of the visited cell `(x, y)`
    /// is still reachable through a candidate wall of the frontier.
    pub open spec fn frontier_ok_at(self, walls: Seq<(usize, usize, usize, usize)>, x: int, y: int) -> bool {
        &&& (x > 0 && !self.visited(x - 1, y) ==> walls.contains(
            ((x as usize), (y as usize), ((x - 1) as usize), (y as usize)),
        ))
        &&& (x + 1 < self.width && !self.visited(x + 1, y) ==> walls.contains(
            ((x as usize), (y as usize), ((x + 1) as usize), (y as usize)),
        ))
        &&& (y > 0 && !self.visited(x, y - 1) ==> walls.contains(
            ((x as usize), (y as usize), (x as usize), ((y - 1) as usize)),
        ))
        &&& (y + 1 < self.height && !self.visited(x, y + 1) ==> walls.contains(
            ((x as usize), (y as usize), (x as usize), ((y + 1) as usize)),
        ))
    }

    /// Invariant of Prim's frontier expansion: entries are boundaries
    /// out of the visited region (possibly stale), and an exhausted
    /// frontier leaves no visited cell with an unvisited neighbor.
    pub open spec fn prims_inv(self, walls: Seq<(usize, usize, usize, usize)>) -> bool {
        &&& forall|i: int| 0 <= i < walls.len() ==> self.prims_entry_ok(#[trigger] walls[i])
        &&& forall|x: int, y: int|
            self.in_bounds(x, y) && #[trigger] self.visited(x, y) ==> self.frontier_ok_at(
                walls,
                x,
                y,
            )
        &&& self.some_visited()
        &&& self.passages_within_visited()
        &&& self.passages() == self.visited_count() - 1
        &&& self.visited_connected()
    }

    /// Invariant of the Aldous-Broder walk: the walker stands on a
    /// visited in-bounds cell and `unvisited` counts exactly the cells
    /// not yet visited.
    pub open spec fn ab_inv(self, current: (usize, usize), unvisited: usize) -> bool {
        &&& self.in_bounds(current.0 as int, current.1 as int)
        &&& self.visited(current.0 as int, current.1 as int)
        &&& unvisited == self.total() - self.visited_count()
        &&& self.some_visited()
        &&& self.passages_within_visited()
        &&& self.passages() == self.visited_count() - 1
        &&& self.visited_connected()
    }

    /// Flattened union-find index of the cell `(x, y)`.
    pub open spec fn cell_index(self, x: int, y: int) -> int {
        y * self.width + x
    }

    /// One candidate edge of Kruskal's algorithm: a right-neighbor or
    /// bottom-neighbor pair, in bounds.
    pub open spec fn kruskal_edge_ok(self, e: (usize, usize, usize, usize)) -> bool {
        &&& self.in_bounds(e.0 as int, e.1 as int)
        &&& self.in_bounds(e.2 as int, e.3 as int)
        &&& ((e.2 == e.0 + 1 && e.3 == e.1) || (e.2 == e.0 && e.3 == e.1 + 1))
    }

    /// Every boundary of the grid is either still on the candidate
    /// list or already decided: its two cells were touched and united.
    pub open spec fn kruskal_cover_at(self, edges: Seq<(usize, usize, usize, usize)>, sets: Seq<usize>, x: int, y: int) -> bool {
        &&& (x + 1 < self.width ==> (edges.contains(
            ((x as usize), (y as usize), ((x + 1) as usize), (y as usize)),
        ) || (root_of(sets, self.cell_index(x, y)) == root_of(sets, self.cell_index(x + 1, y))
            && self.visited(x, y) && self.visited(x + 1, y))))
        &&& (y + 1 < self.height ==> (edges.contains(
            ((x as usize), (y as usize), (x as usize), ((y + 1) as usize)),
        ) || (root_of(sets, self.cell_index(x, y)) == root_of(sets, self.cell_index(x, y + 1))
            && self.visited(x, y) && self.visited(x, y + 1))))
    }

    /// Cells joined by a carved passage share a union-find root.
    pub open spec fn kruskal_passage_ok_at(self, sets: Seq<usize>, x: int, y: int) -> bool {
        &&& (x + 1 < self.width && !self.wall(x, y, 1) ==> root_of(sets, self.cell_index(x, y))
            == root_of(sets, self.cell_index(x + 1, y)))
        &&& (y + 1 < self.height && !self.wall(x, y, 2) ==> root_of(sets, self.cell_index(x, y))
            == root_of(sets, self.cell_index(x, y + 1)))
    }

    /// Cells in one union-find class are linked by carved passages,
    /// stated as an induction principle: a passage-closed predicate
    /// holding at a cell holds at every cell sharing its
    /// representative.
    pub open spec fn kruskal_linked(self, sets: Seq<usize>) -> bool {
        forall|p: spec_fn(int, int) -> bool, x1: int, y1: int, x2: int, y2: int|
            #![trigger self.passage_closed(p), p(x1, y1), p(x2, y2)]
            self.passage_closed(p) && self.in_bounds(x1, y1) && self.in_bounds(x2, y2) && root_of(
                sets,
                self.cell_index(x1, y1),
            ) == root_of(sets, self.cell_index(x2, y2)) && p(x1, y1) ==> p(x2, y2)
    }

    /// Distinct cells have distinct flattened indices.
    proof fn lemma_cell_index_injective(m: Maze, x1: int, y1: int, x2: int, y2: int)
        requires
            m.dims_ok(),
            m.in_bounds(x1, y1),
            m.in_bounds(x2, y2),
            m.cell_index(x1, y1) == m.cell_index(x2, y2),
        ensures
            x1 == x2 && y1 == y2,
    {
        let w = m.width as int;
        lemma_fundamental_div_mod_converse(y1 * w + x1, w, y1, x1);
        lemma_fundamental_div_mod_converse(y2 * w + x2, w, y2, x2);
    }

    /// Invariant of Kruskal's algorithm: a well-formed union-find
    /// table over all cells, candidate edges that cover every boundary
    /// not yet decided, passages only within united components, and a
    /// carve count that mirrors the number of merges performed.
    pub open spec fn kruskal_inv(self, edges: Seq<(usize, usize, usize, usize)>, sets: Seq<usize>) -> bool {
        &&& sets.len() == self.total()
        &&& uf_wf(sets)
        &&& forall|i: int| 0 <= i < edges.len() ==> self.kruskal_edge_ok(#[trigger] edges[i])
        &&& forall|x: int, y: int|
            self.in_bounds(x, y) ==> #[trigger] self.kruskal_cover_at(edges, sets, x, y)
        &&& forall|x: int, y: int|
            self.in_bounds(x, y) ==> #[trigger] self.kruskal_passage_ok_at(sets, x, y)
        &&& (self.total() == 1 ==> self.visited(0, 0))
        &&& self.passages_within_visited()
        &&& self.kruskal_linked(sets)
        &&& self.passages() == self.total() - root_count(sets, self.total())
    }

    /// The invariant of whichever generator is active; trivial when
    /// none is.
    pub open spec fn gen_inv(self) -> bool {
        match self.generator {
            Option::None => true,
            Option::Some(MazeGenerator::Dfs { stack }) => self.dfs_inv(stack@),
            Option::Some(MazeGenerator::Prims { walls }) => self.prims_inv(walls@),
            Option::Some(MazeGenerator::AldousBroder { current, unvisited }) => self.ab_inv(
                current,
                unvisited,
            ),
            Option::Some(MazeGenerator::Kruskal { edges, sets }) => self.kruskal_inv(edges@, sets@),
        }
    }

    /// Well-formed engine state: a consistent grid and a generator
    /// whose frontier data agrees with it.
    pub open spec fn wf(self) -> bool {
        &&& self.grid_wf()
        &&& self.gen_inv()
    }

    /// From a grid whose visited region is closed and non-empty, every
    /// cell is visited, and the carved passages number one less than
    /// the cells.
    proof fn lemma_closed_region_covers_grid(self)
        requires
            self.grid_wf(),
            self.some_visited(),
            forall|x: int, y: int|
                self.in_bounds(x, y) && #[trigger] self.visited(x, y) ==> self.cell_closed(x, y),
            self.passages() == self.visited_count() - 1,
        ensures
            self.all_visited(),
            self.passages() == self.total() - 1,
    {
        let m = self;
        let p = |x: int, y: int| m.in_bounds(x, y) && m.visited(x, y);
        let w = self.width as int;
        let h = self.height as int;
        assert(grid_closed(p, w, h));
        let (sx, sy) = choose|sx: int, sy: int| m.in_bounds(sx, sy) && #[trigger] m.visited(sx, sy);
        assert forall|x: int, y: int| self.in_bounds(x, y) implies #[trigger] self.visited(x, y) by {
            lemma_closed_covers(p, w, h, sx, sy, x, y);
        }
        assert forall|y: int, i: int| 0 <= y < h && 0 <= i < w implies f_visited()(
            #[trigger] self.grid@[y]@[i],
        ) by {
            assert(self.visited(i, y));
        }
        lemma_grid_count_all(self.grid@, h, w, f_visited());
        assert(h * w == w * h) by (nonlinear_arith);
    }

    /// After one backtracker step the stack still covers the visited
    /// region: every visited cell is on the new stack or closed.
    proof fn lemma_dfs_cover(a: Maze, b: Maze, s0: Seq<(usize, usize)>, s1: Seq<(usize, usize)>)
        requires
            b.width == a.width,
            b.height == a.height,
            forall|x: int, y: int|
                a.in_bounds(x, y) && #[trigger] a.visited(x, y) ==> (s0.contains(
                    ((x as usize), (y as usize)),
                ) || a.cell_closed(x, y)),
            forall|x: int, y: int|
                a.in_bounds(x, y) && #[trigger] a.visited(x, y) ==> b.visited(x, y),
            forall|x: int, y: int|
                a.in_bounds(x, y) && #[trigger] b.visited(x, y) && !a.visited(x, y)
                    ==> s1.contains(((x as usize), (y as usize))),
            forall|e: (usize, usize)|
                s0.contains(e) ==> #[trigger] s1.contains(e) || b.cell_closed(
                    e.0 as int,
                    e.1 as int,
                ),
        ensures
            forall|x: int, y: int|
                b.in_bounds(x, y) && #[trigger] b.visited(x, y) ==> (s1.contains(
                    ((x as usize), (y as usize)),
                ) || b.cell_closed(x, y)),
    {
        assert forall|x: int, y: int|
            b.in_bounds(x, y) && #[trigger] b.visited(x, y) implies (s1.contains(
            ((x as usize), (y as usize)),
        ) || b.cell_closed(x, y)) by {
            let e = ((x as usize), (y as usize));
            if a.visited(x, y) {
                if s0.contains(e) {
                    assert(s1.contains(e) || b.cell_closed(e.0 as int, e.1 as int));
                } else {
                    assert(a.cell_closed(x, y));
                    assert(b.cell_closed(x, y));
                }
            }
        }
    }

    /// The depth-first invariant depends only on the grid, not on the
    /// generator field or the randomness source.
    proof fn lemma_frame_dfs_inv(a: Maze, b: Maze, s: Seq<(usize, usize)>)
        requires
            b.grid == a.grid,
            b.width == a.width,
            b.height == a.height,
            a.dfs_inv(s),
        ensures
            b.dfs_inv(s),
    {
        crate::maze::lemma_same_grid(a, b);
        assert forall|i: int| 0 <= i < s.len() implies b.in_bounds((#[trigger] s[i]).0 as int,
            s[i].1 as int) && b.visited(s[i].0 as int, s[i].1 as int) by {
            assert(b.node_at(s[i].0 as int, s[i].1 as int) == a.node_at(
                s[i].0 as int,
                s[i].1 as int,
            ));
        }
        assert forall|x: int, y: int| b.in_bounds(x, y) && #[trigger] b.visited(x, y) implies (
        s.contains(((x as usize), (y as usize))) || b.cell_closed(x, y)) by {
            assert(b.node_at(x, y) == a.node_at(x, y));
            assert(a.visited(x, y));
            if !s.contains(((x as usize), (y as usize))) {
                assert(a.cell_closed(x, y));
                assert(b.node_at(x - 1, y) == a.node_at(x - 1, y));
                assert(b.node_at(x + 1, y) == a.node_at(x + 1, y));
                assert(b.node_at(x, y - 1) == a.node_at(x, y - 1));
                assert(b.node_at(x, y + 1) == a.node_at(x, y + 1));
            }
        }
        assert forall|i: int| 0 <= i < s.len() - 1 implies passage_between(
            b,
            (#[trigger] s[i]).0 as int,
            s[i].1 as int,
            s[i + 1].0 as int,
            s[i + 1].1 as int,
        ) by {
            assert(passage_between(a, s[i].0 as int, s[i].1 as int, s[i + 1].0 as int, s[i + 1].1 as int));
            assert(b.node_at(s[i].0 as int, s[i].1 as int) == a.node_at(s[i].0 as int, s[i].1 as int));
            assert(b.node_at(s[i + 1].0 as int, s[i + 1].1 as int) == a.node_at(
                s[i + 1].0 as int,
                s[i + 1].1 as int,
            ));
        }
    }

    /// A wall toward an unvisited neighbor is always still present:
    /// passages are only ever carved between visited cells.
    proof fn lemma_wall_present_to_unvisited(self, x: int, y: int, cw: int, nx: int, ny: int, nw: int)
        requires
            self.grid_wf(),
            self.passages_within_visited(),
            self.in_bounds(x, y),
            self.in_bounds(nx, ny),
            Maze::wall_pair_ok(x, y, cw, nx, ny, nw),
            !self.visited(nx, ny),
        ensures
            self.wall(x, y, cw),
    {
        if cw == 1 {
            assert(self.carve_ok_at(x, y));
        } else if cw == 3 {
            assert(self.carve_ok_at(nx, ny));
            assert(self.sym_ok_at(nx, ny));
        } else if cw == 2 {
            assert(self.carve_ok_at(x, y));
        } else {
            assert(self.carve_ok_at(nx, ny));
            assert(self.sym_ok_at(nx, ny));
        }
    }

    /// The walk invariant depends only on the grid.
    proof fn lemma_frame_ab_inv(a: Maze, b: Maze, current: (usize, usize), unvisited: usize)
        requires
            b.grid == a.grid,
            b.width == a.width,
            b.height == a.height,
            a.ab_inv(current, unvisited),
        ensures
            b.ab_inv(current, unvisited),
    {
        crate::maze::lemma_same_grid(a, b);
        assert(b.node_at(current.0 as int, current.1 as int) == a.node_at(
            current.0 as int,
            current.1 as int,
        ));
    }

    /// Seeds the Aldous-Broder walk: marks one random start cell
    /// visited, stands the walker on it, and counts the remaining
    /// unvisited cells.
    pub fn init_aldous_broder(&mut self)
        requires
            old(self).grid_wf(),
        ensures
            final(self).grid_wf(),
            grid_monotone(*old(self), *final(self)),
            forall|x: int, y: int, w: int|
                old(self).in_bounds(x, y) && 0 <= w < 4 ==> #[trigger] final(self).wall(x, y, w)
                    == old(self).wall(x, y, w),
            active_variant(*final(self)) == Option::Some(2int),
            old(self).pristine() ==> final(self).wf(),
    {
        let start_x = self.rng.index_below(self.width);
        let start_y = self.rng.index_below(self.height);
        proof {
            crate::maze::lemma_same_grid(*old(self), *self);
        }
        let ghost m0 = *self;
        self.mark_visited(start_x, start_y);
        proof {
            assert(self.width * self.height <= usize::MAX);
            assert(self.width * self.height >= 1) by (nonlinear_arith)
                requires self.width >= 1, self.height >= 1,
            ;
        }
        let unvisited: usize = self.width * self.height - 1;
        proof {
            if m0.pristine() {
                let sxi = start_x as int;
                let syi = start_y as int;
                assert forall|x: int, y: int| self.in_bounds(x, y) implies #[trigger] self.carve_ok_at(
                    x,
                    y,
                ) by {
                    assert(m0.node_at(x, y).fresh_at(x, y));
                    if x + 1 < self.width {
                        assert(m0.node_at(x + 1, y).fresh_at(x + 1, y));
                        assert(self.wall(x, y, 1));
                    }
                    if y + 1 < self.height {
                        assert(self.wall(x, y, 2));
                    }
                }
                assert forall|y: int, i: int|
                    0 <= y < m0.height as int && 0 <= i < m0.width as int implies !f_visited()(
                    #[trigger] m0.grid@[y]@[i],
                ) by {
                    assert(m0.node_at(i, y).fresh_at(i, y));
                }
                lemma_grid_count_none(m0.grid@, m0.height as int, m0.width as int, f_visited());
                assert forall|y: int, i: int|
                    0 <= y < self.height as int && 0 <= i < self.width as int implies !f_open_right()(
                    #[trigger] self.grid@[y]@[i],
                ) by {
                    assert(m0.node_at(i, y).fresh_at(i, y));
                    assert(self.wall(i, y, 1) == m0.wall(i, y, 1));
                }
                assert forall|y: int, i: int|
                    0 <= y < self.height as int && 0 <= i < self.width as int implies !f_open_down()(
                    #[trigger] self.grid@[y]@[i],
                ) by {
                    assert(m0.node_at(i, y).fresh_at(i, y));
                    assert(self.wall(i, y, 2) == m0.wall(i, y, 2));
                }
                lemma_grid_count_none(self.grid@, self.height as int, self.width as int, f_open_right());
                lemma_grid_count_none(self.grid@, self.height as int, self.width as int, f_open_down());
                assert(self.visited(sxi, syi));
                assert forall|p: spec_fn(int, int) -> bool, ax: int, ay: int|
                    #![trigger self.passage_closed(p), p(ax, ay)]
                    self.passage_closed(p) && self.in_bounds(ax, ay) && self.visited(ax, ay) && p(
                    ax,
                    ay,
                ) implies (forall|x: int, y: int|
                    self.in_bounds(x, y) && #[trigger] self.visited(x, y) ==> p(x, y)) by {
                    assert(m0.node_at(ax, ay).fresh_at(ax, ay));
                    assert(ax == sxi && ay == syi);
                    assert forall|x: int, y: int|
                        self.in_bounds(x, y) && #[trigger] self.visited(x, y) implies p(x, y) by {
                        assert(m0.node_at(x, y).fresh_at(x, y));
                        assert(x == sxi && y == syi);
                    }
                }
                assert(self.visited_connected());
                assert(self.ab_inv((start_x, start_y), unvisited));
            }
        }
        let ghost m2 = *self;
        self.generator = Some(MazeGenerator::AldousBroder { current: (start_x, start_y), unvisited });
        proof {
            crate::maze::lemma_same_grid(m2, *self);
            if m0.pristine() {
                Maze::lemma_frame_ab_inv(m2, *self, (start_x, start_y), unvisited);
            }
            assert forall|x: int, y: int, w: int|
                old(self).in_bounds(x, y) && 0 <= w < 4 implies #[trigger] self.wall(x, y, w)
                == old(self).wall(x, y, w) by {
                assert(self.node_at(x, y) == m2.node_at(x, y));
                assert(m2.wall(x, y, w) == m0.wall(x, y, w));
                assert(m0.node_at(x, y) == old(self).node_at(x, y));
            }
            assert forall|x: int, y: int|
                old(self).in_bounds(x, y) && #[trigger] old(self).visited(x, y) implies self.visited(
                x,
                y,
            ) by {
                assert(m0.node_at(x, y) == old(self).node_at(x, y));
                assert(m2.visited(x, y));
                assert(self.node_at(x, y) == m2.node_at(x, y));
            }
        }
    }

    /// One micro-step of the Aldous-Broder walk: move to a uniformly
    /// random in-bounds neighbor, carving the boundary first whenever
    /// that neighbor has not been visited yet.  Returns false exactly
    /// when no unvisited cell remains (or the walker cannot move at
    /// all, on a single-cell grid) — and then every cell is visited
    /// and the passages form `width*height - 1` pairs.
    #[verifier::rlimit(50)]
    fn aldous_broder_step(&mut self, current: &mut (usize, usize), unvisited: &mut usize) -> (in_progress: bool)
        requires
            old(self).grid_wf(),
            old(self).ab_inv(*old(current), *old(unvisited)),
        ensures
            final(self).grid_wf(),
            final(self).ab_inv(*final(current), *final(unvisited)),
            grid_monotone(*old(self), *final(self)),
            final(self).generator == old(self).generator,
            final(self).width == old(self).width,
            final(self).height == old(self).height,
            !in_progress ==> final(self).all_visited() && final(self).passages() == final(self).total() - 1 && final(self).maze_connected(),
            in_progress == (*final(unvisited) > 0),
            *final(unvisited) == *old(unvisited) || *final(unvisited) + 1 == *old(unvisited),
            old(self).total() == 1 ==> final(self).grid == old(self).grid && *final(current)
                == *old(current) && *final(unvisited) == *old(unvisited),
            old(self).total() >= 2 ==> (exists|nx: int, ny: int|
                #![auto]
                old(self).in_bounds(nx, ny) && adjacent(
                    (*old(current)).0 as int,
                    (*old(current)).1 as int,
                    nx,
                    ny,
                ) && *final(current) == (((nx as usize), (ny as usize))) && (if old(self).visited(
                    nx,
                    ny,
                ) {
                    final(self).grid == old(self).grid && *final(unvisited) == *old(unvisited)
                } else {
                    carved_passage(
                        *old(self),
                        *final(self),
                        (*old(current)).0 as int,
                        (*old(current)).1 as int,
                        nx,
                        ny,
                    ) && *final(unvisited) + 1 == *old(unvisited)
                })),
    {
        let (x, y) = *current;
        let mut neighbors: Vec<(usize, usize, usize, usize)> = Vec::new();
        if x > 0 {
            neighbors.push((x - 1, y, 3, 1));
        }
        if x + 1 < self.width {
            neighbors.push((x + 1, y, 1, 3));
        }
        if y > 0 {
            neighbors.push((x, y - 1, 0, 2));
        }
        if y + 1 < self.height {
            neighbors.push((x, y + 1, 2, 0));
        }
        proof {
            assert forall|i: int| 0 <= i < neighbors@.len() implies {
                let e = #[trigger] neighbors@[i];
                self.in_bounds(e.0 as int, e.1 as int) && Maze::wall_pair_ok(
                    x as int,
                    y as int,
                    e.2 as int,
                    e.0 as int,
                    e.1 as int,
                    e.3 as int,
                )
            } by {}
        }
        proof {
            if old(self).total() >= 2 {
                assert(!(self.width == 1 && self.height == 1)) by (nonlinear_arith)
                    requires self.width * self.height >= 2, self.width >= 1, self.height >= 1,
                ;
            }
        }
        if neighbors.is_empty() {
            proof {
                assert(self.width == 1 && self.height == 1);
                assert(self.width * self.height == 1) by (nonlinear_arith)
                    requires self.width == 1, self.height == 1,
                ;
                assert(old(self).total() == 1);
                assert(self.visited(0, 0));
                assert forall|x2: int, y2: int| self.in_bounds(x2, y2)
                    implies #[trigger] self.visited(x2, y2) by {}
                assert forall|y2: int, i: int|
                    0 <= y2 < self.height as int && 0 <= i < self.width as int implies f_visited()(
                    #[trigger] self.grid@[y2]@[i],
                ) by {
                    assert(self.visited(i, y2));
                }
                lemma_grid_count_all(self.grid@, self.height as int, self.width as int, f_visited());
                self.lemma_connected_when_all_visited();
            }
            return false;
        }
        proof {
            assert(self.width >= 2 || self.height >= 2);
            assert(self.width * self.height >= 2) by (nonlinear_arith)
                requires self.width >= 1, self.height >= 1, self.width >= 2 || self.height >= 2,
            ;
            assert(old(self).total() != 1);
        }
        let k = self.rng.index_below(neighbors.len());
        proof {
            crate::maze::lemma_same_grid(*old(self), *self);
        }
        let ghost m1 = *self;
        let (nx, ny, cw, nw) = neighbors[k];
        if !self.node_copy(nx, ny).visited {
            proof {
                m1.lemma_wall_present_to_unvisited(
                    x as int,
                    y as int,
                    cw as int,
                    nx as int,
                    ny as int,
                    nw as int,
                );
            }
            self.clear_wall_pair(x, y, cw, nx, ny, nw);
            self.mark_visited(nx, ny);
            proof {
                assert forall|x2: int, y2: int|
                    m1.in_bounds(x2, y2) implies (#[trigger] self.visited(x2, y2) == (m1.visited(
                    x2,
                    y2,
                ) || (x2 == nx as int && y2 == ny as int))) by {}
                assert forall|x2: int, y2: int, w2: int|
                    m1.in_bounds(x2, y2) && 0 <= w2 < 4 && #[trigger] self.wall(x2, y2, w2)
                    implies m1.wall(x2, y2, w2) by {}
                assert(!self.wall(x as int, y as int, cw as int));
                crate::maze::lemma_connected_after_carve(
                    m1,
                    *self,
                    x as int,
                    y as int,
                    cw as int,
                    nx as int,
                    ny as int,
                    nw as int,
                );
                assert forall|x2: int, y2: int|
                    old(self).in_bounds(x2, y2) implies (#[trigger] self.visited(x2, y2) == (old(
                    self,
                ).visited(x2, y2) || (x2 == nx as int && y2 == ny as int))) by {
                    assert(m1.node_at(x2, y2) == old(self).node_at(x2, y2));
                }
                assert forall|x2: int, y2: int, w2: int|
                    old(self).in_bounds(x2, y2) && 0 <= w2 < 4 implies #[trigger] self.wall(
                    x2,
                    y2,
                    w2,
                ) == (old(self).wall(x2, y2, w2) && !((x2 == x as int && y2 == y as int && w2
                    == wall_toward(x as int, y as int, nx as int, ny as int)) || (x2 == nx as int
                    && y2 == ny as int && w2 == wall_toward(nx as int, ny as int, x as int, y as int)))) by {
                    assert(m1.node_at(x2, y2) == old(self).node_at(x2, y2));
                    assert(m1.wall(x2, y2, w2) == old(self).wall(x2, y2, w2));
                }
                assert(carved_passage(*old(self), *self, x as int, y as int, nx as int, ny as int));
                if m1.visited_count() == m1.total() {
                    assert((m1.height as int) * (m1.width as int) == m1.total()) by (nonlinear_arith);
                    crate::counting::lemma_grid_count_full(
                        m1.grid@,
                        m1.height as int,
                        m1.width as int,
                        f_visited(),
                    );
                    assert(f_visited()(m1.grid@[ny as int]@[nx as int]));
                    assert(false);
                }
                crate::counting::lemma_grid_count_bounds(
                    m1.grid@,
                    m1.height as int,
                    m1.width as int,
                    f_visited(),
                );
                assert((m1.height as int) * (m1.width as int) == m1.total()) by (nonlinear_arith);
            }
            *unvisited = *unvisited - 1;
        }
        *current = (nx, ny);
        proof {
            assert(self.visited(nx as int, ny as int));
            assert forall|x2: int, y2: int| self.in_bounds(x2, y2)
                implies #[trigger] self.carve_ok_at(x2, y2) by {
                assert(m1.carve_ok_at(x2, y2));
            }
            if *unvisited == 0 {
                assert((self.height as int) * (self.width as int) == self.total()) by (nonlinear_arith);
                crate::counting::lemma_grid_count_full(
                    self.grid@,
                    self.height as int,
                    self.width as int,
                    f_visited(),
                );
                assert forall|x2: int, y2: int| self.in_bounds(x2, y2)
                    implies #[trigger] self.visited(x2, y2) by {
                    assert(f_visited()(self.grid@[y2]@[x2]));
                }
                self.lemma_connected_when_all_visited();
            }
        }
        *unvisited > 0
    }

    /// The frontier invariant depends only on the grid.
    proof fn lemma_frame_prims_inv(a: Maze, b: Maze, walls: Seq<(usize, usize, usize, usize)>)
        requires
            b.grid == a.grid,
            b.width == a.width,
            b.height == a.height,
            a.prims_inv(walls),
        ensures
            b.prims_inv(walls),
    {
        crate::maze::lemma_same_grid(a, b);
        assert forall|i: int| 0 <= i < walls.len() implies b.prims_entry_ok(#[trigger] walls[i]) by {
            assert(a.prims_entry_ok(walls[i]));
            assert(b.node_at(walls[i].0 as int, walls[i].1 as int) == a.node_at(
                walls[i].0 as int,
                walls[i].1 as int,
            ));
        }
        assert forall|x: int, y: int| b.in_bounds(x, y) && #[trigger] b.visited(x, y)
            implies b.frontier_ok_at(walls, x, y) by {
            assert(b.node_at(x, y) == a.node_at(x, y));
            assert(a.visited(x, y));
            assert(a.frontier_ok_at(walls, x, y));
            assert(b.node_at(x - 1, y) == a.node_at(x - 1, y));
            assert(b.node_at(x + 1, y) == a.node_at(x + 1, y));
            assert(b.node_at(x, y - 1) == a.node_at(x, y - 1));
            assert(b.node_at(x, y + 1) == a.node_at(x, y + 1));
        }
    }

    /// After consuming the frontier entry `e` whose far cell is (now)
    /// visited, every cell that was already visited keeps its
    /// frontier coverage: each of its still-unvisited neighbors is
    /// covered by an entry that survived into the new frontier.
    proof fn lemma_prims_cover_preserved(a: Maze, b: Maze, ws0: Seq<(usize, usize, usize, usize)>, ws1: Seq<(usize, usize, usize, usize)>, e: (usize, usize, usize, usize))
        requires
            b.width == a.width,
            b.height == a.height,
            forall|x: int, y: int|
                a.in_bounds(x, y) && #[trigger] a.visited(x, y) ==> a.frontier_ok_at(ws0, x, y),
            forall|t: (usize, usize, usize, usize)|
                ws0.contains(t) && t != e ==> #[trigger] ws1.contains(t),
            b.in_bounds(e.2 as int, e.3 as int),
            b.visited(e.2 as int, e.3 as int),
            forall|x: int, y: int|
                a.in_bounds(x, y) && #[trigger] a.visited(x, y) ==> b.visited(x, y),
            forall|x: int, y: int|
                a.in_bounds(x, y) && #[trigger] b.visited(x, y) && !a.visited(x, y) ==> x
                    == e.2 as int && y == e.3 as int,
        ensures
            forall|x: int, y: int|
                a.in_bounds(x, y) && #[trigger] a.visited(x, y) ==> b.frontier_ok_at(ws1, x, y),
    {
        assert forall|x: int, y: int|
            a.in_bounds(x, y) && #[trigger] a.visited(x, y) implies b.frontier_ok_at(
            ws1,
            x,
            y,
        ) by {
            assert(a.frontier_ok_at(ws0, x, y));
            if x > 0 && !b.visited(x - 1, y) {
                let t = ((x as usize), (y as usize), ((x - 1) as usize), (y as usize));
                assert(!a.visited(x - 1, y));
                assert(ws0.contains(t));
                assert(t != e);
                assert(ws1.contains(t));
            }
            if x + 1 < b.width && !b.visited(x + 1, y) {
                let t = ((x as usize), (y as usize), ((x + 1) as usize), (y as usize));
                assert(!a.visited(x + 1, y));
                assert(ws0.contains(t));
                assert(t != e);
                assert(ws1.contains(t));
            }
            if y > 0 && !b.visited(x, y - 1) {
                let t = ((x as usize), (y as usize), (x as usize), ((y - 1) as usize));
                assert(!a.visited(x, y - 1));
                assert(ws0.contains(t));
                assert(t != e);
                assert(ws1.contains(t));
            }
            if y + 1 < b.height && !b.visited(x, y + 1) {
                let t = ((x as usize), (y as usize), (x as usize), ((y + 1) as usize));
                assert(!a.visited(x, y + 1));
                assert(ws0.contains(t));
                assert(t != e);
                assert(ws1.contains(t));
            }
        }
    }

    /// Seeds Prim's expansion: marks one random start cell visited
    /// and lists the walls toward each of its in-bounds neighbors as
    /// the initial frontier.
    #[verifier::rlimit(50)]
    pub fn init_prims(&mut self)
        requires
            old(self).grid_wf(),
        ensures
            final(self).grid_wf(),
            grid_monotone(*old(self), *final(self)),
            forall|x: int, y: int, w: int|
                old(self).in_bounds(x, y) && 0 <= w < 4 ==> #[trigger] final(self).wall(x, y, w)
                    == old(self).wall(x, y, w),
            active_variant(*final(self)) == Option::Some(1int),
            old(self).pristine() ==> final(self).wf(),
            exists|sx: int, sy: int|
                #![auto]
                old(self).in_bounds(sx, sy) && (final(self).generator matches Some(
                    MazeGenerator::Prims { walls },
                ) && walls@ == start_frontier(
                    sx,
                    sy,
                    old(self).width as int,
                    old(self).height as int,
                )) && (forall|x: int, y: int|
                    old(self).in_bounds(x, y) ==> final(self).visited(x, y) == (old(self).visited(
                        x,
                        y,
                    ) || (x == sx && y == sy))),
    {
        let start_x = self.rng.index_below(self.width);
        let start_y = self.rng.index_below(self.height);
        proof {
            crate::maze::lemma_same_grid(*old(self), *self);
        }
        let ghost m0 = *self;
        self.mark_visited(start_x, start_y);
        let mut walls: Vec<(usize, usize, usize, usize)> = Vec::new();
        if start_x > 0 {
            let ghost w0 = walls@;
            walls.push((start_x, start_y, start_x - 1, start_y));
            proof {
                lemma_push_keeps(w0, (start_x, start_y, (start_x - 1) as usize, start_y));
            }
        }
        if start_x + 1 < self.width {
            let ghost w0 = walls@;
            walls.push((start_x, start_y, start_x + 1, start_y));
            proof {
                lemma_push_keeps(w0, (start_x, start_y, (start_x + 1) as usize, start_y));
            }
        }
        if start_y > 0 {
            let ghost w0 = walls@;
            walls.push((start_x, start_y, start_x, start_y - 1));
            proof {
                lemma_push_keeps(w0, (start_x, start_y, start_x, (start_y - 1) as usize));
            }
        }
        if start_y + 1 < self.height {
            let ghost w0 = walls@;
            walls.push((start_x, start_y, start_x, start_y + 1));
            proof {
                lemma_push_keeps(w0, (start_x, start_y, start_x, (start_y + 1) as usize));
            }
        }
        proof {
            assert(walls@ =~= start_frontier(
                start_x as int,
                start_y as int,
                self.width as int,
                self.height as int,
            ));
        }
        proof {
            if m0.pristine() {
                let sxi = start_x as int;
                let syi = start_y as int;
                assert forall|x: int, y: int| self.in_bounds(x, y) implies #[trigger] self.carve_ok_at(
                    x,
                    y,
                ) by {
                    assert(m0.node_at(x, y).fresh_at(x, y));
                    if x + 1 < self.width {
                        assert(m0.node_at(x + 1, y).fresh_at(x + 1, y));
                        assert(self.wall(x, y, 1));
                    }
                    if y + 1 < self.height {
                        assert(self.wall(x, y, 2));
                    }
                }
                assert forall|y: int, i: int|
                    0 <= y < m0.height as int && 0 <= i < m0.width as int implies !f_visited()(
                    #[trigger] m0.grid@[y]@[i],
                ) by {
                    assert(m0.node_at(i, y).fresh_at(i, y));
                }
                lemma_grid_count_none(m0.grid@, m0.height as int, m0.width as int, f_visited());
                assert forall|y: int, i: int|
                    0 <= y < self.height as int && 0 <= i < self.width as int implies !f_open_right()(
                    #[trigger] self.grid@[y]@[i],
                ) by {
                    assert(m0.node_at(i, y).fresh_at(i, y));
                    assert(self.wall(i, y, 1) == m0.wall(i, y, 1));
                }
                assert forall|y: int, i: int|
                    0 <= y < self.height as int && 0 <= i < self.width as int implies !f_open_down()(
                    #[trigger] self.grid@[y]@[i],
                ) by {
                    assert(m0.node_at(i, y).fresh_at(i, y));
                    assert(self.wall(i, y, 2) == m0.wall(i, y, 2));
                }
                lemma_grid_count_none(self.grid@, self.height as int, self.width as int, f_open_right());
                lemma_grid_count_none(self.grid@, self.height as int, self.width as int, f_open_down());
                assert forall|x: int, y: int|
                    self.in_bounds(x, y) && #[trigger] self.visited(x, y) implies self.frontier_ok_at(
                    walls@,
                    x,
                    y,
                ) by {
                    assert(m0.node_at(x, y).fresh_at(x, y));
                    assert(x == sxi && y == syi);
                    if x > 0 {
                        assert(m0.node_at(x - 1, y).fresh_at(x - 1, y));
                    }
                    if x + 1 < self.width {
                        assert(m0.node_at(x + 1, y).fresh_at(x + 1, y));
                    }
                    if y > 0 {
                        assert(m0.node_at(x, y - 1).fresh_at(x, y - 1));
                    }
                    if y + 1 < self.height {
                        assert(m0.node_at(x, y + 1).fresh_at(x, y + 1));
                    }
                }
                assert(self.visited(sxi, syi));
                assert(self.some_visited());
                assert forall|i: int| 0 <= i < walls@.len() implies self.prims_entry_ok(
                    #[trigger] walls@[i],
                ) by {}
                assert forall|p: spec_fn(int, int) -> bool, ax: int, ay: int|
                    #![trigger self.passage_closed(p), p(ax, ay)]
                    self.passage_closed(p) && self.in_bounds(ax, ay) && self.visited(ax, ay) && p(
                    ax,
                    ay,
                ) implies (forall|x: int, y: int|
                    self.in_bounds(x, y) && #[trigger] self.visited(x, y) ==> p(x, y)) by {
                    assert(m0.node_at(ax, ay).fresh_at(ax, ay));
                    assert(ax == sxi && ay == syi);
                    assert forall|x: int, y: int|
                        self.in_bounds(x, y) && #[trigger] self.visited(x, y) implies p(x, y) by {
                        assert(m0.node_at(x, y).fresh_at(x, y));
                        assert(x == sxi && y == syi);
                    }
                }
                assert(self.visited_connected());
                assert(self.prims_inv(walls@));
            }
        }
        let ghost m2 = *self;
        let ghost ws = walls@;
        self.generator = Some(MazeGenerator::Prims { walls });
        proof {
            crate::maze::lemma_same_grid(m2, *self);
            if m0.pristine() {
                Maze::lemma_frame_prims_inv(m2, *self, ws);
            }
            assert forall|x: int, y: int, w: int|
                old(self).in_bounds(x, y) && 0 <= w < 4 implies #[trigger] self.wall(x, y, w)
                == old(self).wall(x, y, w) by {
                assert(self.node_at(x, y) == m2.node_at(x, y));
                assert(m2.wall(x, y, w) == m0.wall(x, y, w));
                assert(m0.node_at(x, y) == old(self).node_at(x, y));
            }
            assert forall|x: int, y: int|
                old(self).in_bounds(x, y) implies #[trigger] self.visited(x, y) == (old(
                self,
            ).visited(x, y) || (x == start_x as int && y == start_y as int)) by {
                assert(m0.node_at(x, y) == old(self).node_at(x, y));
                assert(m2.visited(x, y) == (m0.visited(x, y) || (x == start_x as int && y
                    == start_y as int)));
                assert(self.node_at(x, y) == m2.node_at(x, y));
            }
            assert(old(self).in_bounds(start_x as int, start_y as int) && (self.generator
                matches Some(MazeGenerator::Prims { walls }) && walls@ == start_frontier(
                start_x as int,
                start_y as int,
                old(self).width as int,
                old(self).height as int,
            )) && (forall|x: int, y: int|
                old(self).in_bounds(x, y) ==> self.visited(x, y) == (old(self).visited(x, y) || (x
                    == start_x as int && y == start_y as int))));
        }
    }

    /// Consumes a live frontier entry: carves the boundary between
    /// `(x1, y1)` and the still-unvisited `(x2, y2)`, marks the far
    /// cell visited, and adds that cell's own walls toward unvisited
    /// neighbors to the frontier.
    #[verifier::rlimit(100)]
    fn prims_carve(&mut self, walls: &mut Vec<(usize, usize, usize, usize)>, x1: usize, y1: usize, x2: usize, y2: usize)
        requires
            old(self).grid_wf(),
            old(self).passages_within_visited(),
            forall|i: int|
                0 <= i < old(walls)@.len() ==> old(self).prims_entry_ok(#[trigger] old(walls)@[i]),
            old(self).prims_entry_ok((x1, y1, x2, y2)),
            !old(self).visited(x2 as int, y2 as int),
        ensures
            final(self).grid_wf(),
            final(self).passages_within_visited(),
            grid_monotone(*old(self), *final(self)),
            final(self).generator == old(self).generator,
            final(self).width == old(self).width,
            final(self).height == old(self).height,
            forall|x: int, y: int|
                old(self).in_bounds(x, y) ==> #[trigger] final(self).visited(x, y) == (old(
                    self,
                ).visited(x, y) || (x == x2 as int && y == y2 as int)),
            final(self).visited(x2 as int, y2 as int),
            forall|i: int|
                0 <= i < final(walls)@.len() ==> final(self).prims_entry_ok(
                    #[trigger] final(walls)@[i],
                ),
            forall|t: (usize, usize, usize, usize)|
                old(walls)@.contains(t) ==> #[trigger] final(walls)@.contains(t),
            final(walls)@.len() <= old(walls)@.len() + 4,
            old(self).visited_connected() ==> final(self).visited_connected(),
            carved_passage(*old(self), *final(self), x1 as int, y1 as int, x2 as int, y2 as int),
            final(walls)@ == old(walls)@ + frontier_additions(*old(self), x2 as int, y2 as int),
            final(self).frontier_ok_at(final(walls)@, x2 as int, y2 as int),
            final(self).visited_count() == old(self).visited_count() + 1,
            final(self).passages() == old(self).passages() + 1,
    {
        let ghost m1 = *self;
        let cw: usize;
        let nw: usize;
        if x1 == x2 {
            if y1 > y2 {
                cw = 0;
                nw = 2;
            } else {
                cw = 2;
                nw = 0;
            }
        } else {
            if x1 > x2 {
                cw = 3;
                nw = 1;
            } else {
                cw = 1;
                nw = 3;
            }
        }
        proof {
            assert(Maze::wall_pair_ok(x1 as int, y1 as int, cw as int, x2 as int, y2 as int, nw as int));
            m1.lemma_wall_present_to_unvisited(
                x1 as int,
                y1 as int,
                cw as int,
                x2 as int,
                y2 as int,
                nw as int,
            );
        }
        self.clear_wall_pair(x1, y1, cw, x2, y2, nw);
        self.mark_visited(x2, y2);
        if x2 > 0 && !self.node_copy(x2 - 1, y2).visited {
            let ghost w0 = walls@;
            walls.push((x2, y2, x2 - 1, y2));
            proof {
                lemma_push_keeps(w0, (x2, y2, (x2 - 1) as usize, y2));
            }
        }
        if x2 + 1 < self.width && !self.node_copy(x2 + 1, y2).visited {
            let ghost w0 = walls@;
            walls.push((x2, y2, x2 + 1, y2));
            proof {
                lemma_push_keeps(w0, (x2, y2, (x2 + 1) as usize, y2));
            }
        }
        if y2 > 0 && !self.node_copy(x2, y2 - 1).visited {
            let ghost w0 = walls@;
            walls.push((x2, y2, x2, y2 - 1));
            proof {
                lemma_push_keeps(w0, (x2, y2, x2, (y2 - 1) as usize));
            }
        }
        if y2 + 1 < self.height && !self.node_copy(x2, y2 + 1).visited {
            let ghost w0 = walls@;
            walls.push((x2, y2, x2, y2 + 1));
            proof {
                lemma_push_keeps(w0, (x2, y2, x2, (y2 + 1) as usize));
            }
        }
        proof {
            assert forall|x: int, y: int| self.in_bounds(x, y)
                implies #[trigger] self.carve_ok_at(x, y) by {
                assert(m1.carve_ok_at(x, y));
            }
            assert(self.visited(x2 as int, y2 as int));
            assert forall|i: int| 0 <= i < walls@.len() implies self.prims_entry_ok(
                #[trigger] walls@[i],
            ) by {
                let en = walls@[i];
                if m1.prims_entry_ok(en) {
                    assert(self.visited(en.0 as int, en.1 as int));
                }
            }
            assert forall|a: int, b: int, w2: int|
                m1.in_bounds(a, b) && 0 <= w2 < 4 implies #[trigger] self.wall(a, b, w2) == (
            m1.wall(a, b, w2) && !((a == x1 as int && b == y1 as int && w2 == wall_toward(
                x1 as int,
                y1 as int,
                x2 as int,
                y2 as int,
            )) || (a == x2 as int && b == y2 as int && w2 == wall_toward(
                x2 as int,
                y2 as int,
                x1 as int,
                y1 as int,
            )))) by {}
            assert(carved_passage(m1, *self, x1 as int, y1 as int, x2 as int, y2 as int));
            if x2 > 0 {
                assert(self.visited(x2 as int - 1, y2 as int) == m1.visited(x2 as int - 1, y2 as int));
            }
            if x2 + 1 < self.width {
                assert(self.visited(x2 as int + 1, y2 as int) == m1.visited(x2 as int + 1, y2 as int));
            }
            if y2 > 0 {
                assert(self.visited(x2 as int, y2 as int - 1) == m1.visited(x2 as int, y2 as int - 1));
            }
            if y2 + 1 < self.height {
                assert(self.visited(x2 as int, y2 as int + 1) == m1.visited(x2 as int, y2 as int + 1));
            }
            assert(walls@ =~= old(walls)@ + frontier_additions(m1, x2 as int, y2 as int));
            if m1.visited_connected() {
                assert forall|a: int, b: int|
                    m1.in_bounds(a, b) implies (#[trigger] self.visited(a, b) == (m1.visited(a, b)
                    || (a == x2 as int && b == y2 as int))) by {}
                assert forall|a: int, b: int, w2: int|
                    m1.in_bounds(a, b) && 0 <= w2 < 4 && #[trigger] self.wall(a, b, w2)
                    implies m1.wall(a, b, w2) by {}
                assert(!self.wall(x1 as int, y1 as int, cw as int));
                crate::maze::lemma_connected_after_carve(
                    m1,
                    *self,
                    x1 as int,
                    y1 as int,
                    cw as int,
                    x2 as int,
                    y2 as int,
                    nw as int,
                );
            }
        }
    }

    /// One micro-step of Prim's expansion: remove one candidate wall
    /// chosen uniformly at random; if its far cell is still
    /// unvisited, carve the boundary, mark it visited and add its own
    /// walls toward unvisited neighbors; a stale entry only consumes
    /// the step.  Returns false exactly when the frontier was already
    /// empty, which is completion — and then every cell is visited
    /// and the passages form `width*height - 1` pairs.
    #[verifier::rlimit(100)]
    fn prims_step(&mut self, walls: &mut Vec<(usize, usize, usize, usize)>) -> (in_progress: bool)
        requires
            old(self).grid_wf(),
            old(self).prims_inv(old(walls)@),
        ensures
            final(self).grid_wf(),
            final(self).prims_inv(final(walls)@),
            grid_monotone(*old(self), *final(self)),
            final(self).generator == old(self).generator,
            final(self).width == old(self).width,
            final(self).height == old(self).height,
            !in_progress ==> final(self).all_visited() && final(self).passages() == final(self).total() - 1 && final(self).maze_connected(),
            in_progress ==> final(walls)@.len() + 4 * (final(self).total() - final(self).visited_count())
                < old(walls)@.len() + 4 * (old(self).total() - old(self).visited_count()),
            in_progress == (old(walls)@.len() > 0),
            old(walls)@.len() == 0 ==> *final(self) == *old(self) && final(walls)@ == old(walls)@,
            old(walls)@.len() > 0 ==> (exists|i: int|
                #![auto]
                0 <= i < old(walls)@.len() && (if old(self).visited(
                    old(walls)@[i].2 as int,
                    old(walls)@[i].3 as int,
                ) {
                    final(self).grid == old(self).grid && final(walls)@ == old(walls)@.update(
                        i,
                        old(walls)@.last(),
                    ).drop_last()
                } else {
                    carved_passage(
                        *old(self),
                        *final(self),
                        old(walls)@[i].0 as int,
                        old(walls)@[i].1 as int,
                        old(walls)@[i].2 as int,
                        old(walls)@[i].3 as int,
                    ) && final(walls)@ == old(walls)@.update(i, old(walls)@.last()).drop_last()
                        + frontier_additions(
                        *old(self),
                        old(walls)@[i].2 as int,
                        old(walls)@[i].3 as int,
                    )
                })),
    {
        if walls.len() == 0 {
            proof {
                assert forall|x: int, y: int|
                    self.in_bounds(x, y) && #[trigger] self.visited(x, y) implies self.cell_closed(
                    x,
                    y,
                ) by {
                    assert(self.frontier_ok_at(old(walls)@, x, y));
                }
                self.lemma_closed_region_covers_grid();
                self.lemma_connected_when_all_visited();
            }
            return false;
        }
        let index = self.rng.index_below(walls.len());
        proof {
            crate::maze::lemma_same_grid(*old(self), *self);
            Maze::lemma_frame_prims_inv(*old(self), *self, walls@);
        }
        let ghost m1 = *self;
        let ghost ws0 = walls@;
        let (x1, y1, x2, y2) = walls.swap_remove(index);
        proof {
            lemma_swap_remove_keeps(ws0, index as int);
            assert(m1.prims_entry_ok(ws0[index as int]));
            assert forall|i: int| 0 <= i < walls@.len() implies m1.prims_entry_ok(
                #[trigger] walls@[i],
            ) by {
                if i < ws0.len() - 1 && i != index {
                    assert(walls@[i] == ws0[i]);
                } else {
                    assert(walls@[i] == ws0[ws0.len() - 1]);
                }
            }
        }
        let ghost e = (x1, y1, x2, y2);
        if !self.node_copy(x2, y2).visited {
            let ghost ws_removed = walls@;
            self.prims_carve(walls, x1, y1, x2, y2);
            proof {
                assert forall|a: int, b: int|
                    old(self).in_bounds(a, b) implies (#[trigger] self.visited(a, b) == (old(
                    self,
                ).visited(a, b) || (a == x2 as int && b == y2 as int))) by {
                    assert(m1.node_at(a, b) == old(self).node_at(a, b));
                }
                assert forall|a: int, b: int, w2: int|
                    old(self).in_bounds(a, b) && 0 <= w2 < 4 implies #[trigger] self.wall(a, b, w2)
                    == (old(self).wall(a, b, w2) && !((a == x1 as int && b == y1 as int && w2
                    == wall_toward(x1 as int, y1 as int, x2 as int, y2 as int)) || (a == x2 as int
                    && b == y2 as int && w2 == wall_toward(
                    x2 as int,
                    y2 as int,
                    x1 as int,
                    y1 as int,
                )))) by {
                    assert(m1.node_at(a, b) == old(self).node_at(a, b));
                    assert(m1.wall(a, b, w2) == old(self).wall(a, b, w2));
                }
                assert(carved_passage(*old(self), *self, x1 as int, y1 as int, x2 as int, y2 as int));
                assert(frontier_additions(m1, x2 as int, y2 as int) =~= frontier_additions(
                    *old(self),
                    x2 as int,
                    y2 as int,
                )) by {
                    assert(m1.node_at(x2 as int - 1, y2 as int) == old(self).node_at(x2 as int - 1, y2 as int));
                    assert(m1.node_at(x2 as int + 1, y2 as int) == old(self).node_at(x2 as int + 1, y2 as int));
                    assert(m1.node_at(x2 as int, y2 as int - 1) == old(self).node_at(x2 as int, y2 as int - 1));
                    assert(m1.node_at(x2 as int, y2 as int + 1) == old(self).node_at(x2 as int, y2 as int + 1));
                }
                assert(walls@ == ws_removed + frontier_additions(*old(self), x2 as int, y2 as int));
                let (vx, vy) = choose|vx: int, vy: int|
                    m1.in_bounds(vx, vy) && #[trigger] m1.visited(vx, vy);
                assert(self.visited(vx, vy));
                assert forall|t: (usize, usize, usize, usize)|
                    ws0.contains(t) && t != e implies #[trigger] walls@.contains(t) by {}
                Maze::lemma_prims_cover_preserved(m1, *self, ws0, walls@, e);
                assert forall|x: int, y: int|
                    self.in_bounds(x, y) && #[trigger] self.visited(x, y) implies self.frontier_ok_at(
                    walls@,
                    x,
                    y,
                ) by {
                    if x == x2 as int && y == y2 as int {
                        assert(self.frontier_ok_at(walls@, x, y));
                    } else {
                        assert(m1.visited(x, y));
                        assert(self.frontier_ok_at(walls@, x, y));
                    }
                }
            }
            true
        } else {
            proof {
                assert(self.visited(x2 as int, y2 as int));
                assert forall|t: (usize, usize, usize, usize)|
                    ws0.contains(t) && t != e implies #[trigger] walls@.contains(t) by {}
                Maze::lemma_prims_cover_preserved(m1, *self, ws0, walls@, e);
                assert forall|x: int, y: int|
                    self.in_bounds(x, y) && #[trigger] self.visited(x, y) implies self.frontier_ok_at(
                    walls@,
                    x,
                    y,
                ) by {
                    assert(m1.visited(x, y));
                    assert(self.frontier_ok_at(walls@, x, y));
                }
            }
            true
        }
    }

    /// Union-find lookup with path compression, as Kruskal's variant
    /// uses it: returns the representative of `node` and may rewrite
    /// entries along the way to point directly at it, which changes
    /// no representative and no root.
    pub fn find(&self, sets: &mut Vec<usize>, node: usize) -> (r: usize)
        requires
            uf_wf(old(sets)@),
            node < old(sets)@.len(),
        ensures
            final(sets)@.len() == old(sets)@.len(),
            uf_wf(final(sets)@),
            r as int == root_of(old(sets)@, node as int),
            r < final(sets)@.len(),
            final(sets)@[node as int] == r,
            forall|j: int|
                0 <= j < old(sets)@.len() ==> #[trigger] root_of(final(sets)@, j) == root_of(
                    old(sets)@,
                    j,
                ),
            forall|j: int|
                0 <= j < old(sets)@.len() ==> ((#[trigger] final(sets)@[j]) == j <==> old(
                    sets,
                )@[j] == j),
        decreases node,
    {
        let p = sets[node];
        if p != node {
            proof {
                crate::union_find::lemma_root_props(old(sets)@, node as int);
            }
            let r = self.find(sets, p);
            let ghost s1 = sets@;
            sets[node] = r;
            proof {
                crate::union_find::lemma_root_props(old(sets)@, p as int);
                assert(root_of(old(sets)@, node as int) == root_of(old(sets)@, p as int));
                assert(r as int == root_of(s1, node as int));
                crate::union_find::lemma_compress(s1, node as int);
                assert(sets@ == s1.update(node as int, root_of(s1, node as int) as usize));
            }
            r
        } else {
            proof {
                crate::union_find::lemma_root_props(old(sets)@, node as int);
            }
            node
        }
    }

    /// Union by representative, as Kruskal's variant uses it: after
    /// the call `a` and `b` share a representative; classes only ever
    /// merge; and the number of roots drops by one exactly when the
    /// two classes were distinct.
    pub fn union(&self, sets: &mut Vec<usize>, a: usize, b: usize)
        requires
            uf_wf(old(sets)@),
            a < old(sets)@.len(),
            b < old(sets)@.len(),
        ensures
            final(sets)@.len() == old(sets)@.len(),
            uf_wf(final(sets)@),
            root_of(final(sets)@, a as int) == root_of(final(sets)@, b as int),
            forall|i: int, j: int|
                0 <= i < old(sets)@.len() && 0 <= j < old(sets)@.len() && root_of(old(sets)@, i)
                    == root_of(old(sets)@, j) ==> #[trigger] root_of(final(sets)@, i)
                    == #[trigger] root_of(final(sets)@, j),
            forall|j: int|
                0 <= j < old(sets)@.len() ==> #[trigger] root_of(final(sets)@, j) == (if root_of(
                    old(sets)@,
                    j,
                ) == root_of(old(sets)@, a as int) || root_of(old(sets)@, j) == root_of(
                    old(sets)@,
                    b as int,
                ) {
                    root_of(final(sets)@, a as int)
                } else {
                    root_of(old(sets)@, j)
                }),
            root_of(final(sets)@, a as int) == root_of(old(sets)@, a as int) || root_of(
                final(sets)@,
                a as int,
            ) == root_of(old(sets)@, b as int),
            root_count(final(sets)@, old(sets)@.len() as int) == root_count(
                old(sets)@,
                old(sets)@.len() as int,
            ) - (if root_of(old(sets)@, a as int) == root_of(old(sets)@, b as int) {
                0int
            } else {
                1int
            }),
    {
        let ghost s0 = old(sets)@;
        let ghost n = old(sets)@.len() as int;
        let root_a = self.find(sets, a);
        let ghost s1 = sets@;
        let root_b = self.find(sets, b);
        let ghost s2 = sets@;
        proof {
            crate::union_find::lemma_root_count_congruence(s0, s1, n);
            crate::union_find::lemma_root_count_congruence(s1, s2, n);
            assert(root_a as int == root_of(s2, a as int));
            assert(root_b as int == root_of(s2, b as int));
            crate::union_find::lemma_root_props(s2, a as int);
            crate::union_find::lemma_root_props(s2, b as int);
        }
        if root_a != root_b {
            let lo: usize;
            let hi: usize;
            if root_a < root_b {
                lo = root_a;
                hi = root_b;
            } else {
                lo = root_b;
                hi = root_a;
            }
            sets[hi] = lo;
            proof {
                crate::union_find::lemma_attach(s2, lo as int, hi as int);
                assert(sets@ == s2.update(hi as int, lo as usize));
                crate::union_find::lemma_root_count_update(s2, sets@, n, hi as int);
            }
        }
    }

    /// The Kruskal invariant depends only on the grid and its own
    /// payload.
    proof fn lemma_frame_kruskal_inv(a: Maze, b: Maze, edges: Seq<(usize, usize, usize, usize)>, sets: Seq<usize>)
        requires
            b.grid == a.grid,
            b.width == a.width,
            b.height == a.height,
            a.kruskal_inv(edges, sets),
        ensures
            b.kruskal_inv(edges, sets),
    {
        crate::maze::lemma_same_grid(a, b);
        assert forall|i: int| 0 <= i < edges.len() implies b.kruskal_edge_ok(#[trigger] edges[i]) by {
            assert(a.kruskal_edge_ok(edges[i]));
        }
        assert forall|x: int, y: int| b.in_bounds(x, y) implies #[trigger] b.kruskal_cover_at(
            edges,
            sets,
            x,
            y,
        ) by {
            assert(a.kruskal_cover_at(edges, sets, x, y));
            assert(b.node_at(x, y) == a.node_at(x, y));
            assert(b.node_at(x + 1, y) == a.node_at(x + 1, y));
            assert(b.node_at(x, y + 1) == a.node_at(x, y + 1));
        }
        assert forall|x: int, y: int| b.in_bounds(x, y) implies #[trigger] b.kruskal_passage_ok_at(
            sets,
            x,
            y,
        ) by {
            assert(a.kruskal_passage_ok_at(sets, x, y));
            assert(b.node_at(x, y) == a.node_at(x, y));
        }
        if a.total() == 1 {
            assert(b.node_at(0, 0) == a.node_at(0, 0));
        }
        assert forall|p: spec_fn(int, int) -> bool, x1: int, y1: int, x2: int, y2: int|
            #![trigger b.passage_closed(p), p(x1, y1), p(x2, y2)]
            b.passage_closed(p) && b.in_bounds(x1, y1) && b.in_bounds(x2, y2) && root_of(
            sets,
            b.cell_index(x1, y1),
        ) == root_of(sets, b.cell_index(x2, y2)) && p(x1, y1) implies p(x2, y2) by {
            assert(a.passage_closed(p)) by {
                assert forall|x: int, y: int| a.in_bounds(x, y) && #[trigger] p(x, y) implies {
                    &&& (x + 1 < a.width && !a.wall(x, y, 1) ==> p(x + 1, y))
                    &&& (x > 0 && !a.wall(x - 1, y, 1) ==> p(x - 1, y))
                    &&& (y + 1 < a.height && !a.wall(x, y, 2) ==> p(x, y + 1))
                    &&& (y > 0 && !a.wall(x, y - 1, 2) ==> p(x, y - 1))
                } by {
                    assert(b.node_at(x, y) == a.node_at(x, y));
                    assert(b.node_at(x - 1, y) == a.node_at(x - 1, y));
                    assert(b.node_at(x, y - 1) == a.node_at(x, y - 1));
                }
            }
            assert(a.cell_index(x1, y1) == b.cell_index(x1, y1));
            assert(a.cell_index(x2, y2) == b.cell_index(x2, y2));
        }
    }

    /// When the edge list is exhausted, every boundary has been
    /// decided: the whole grid is visited and shares one union-find
    /// representative, and the carve count is exactly one less than
    /// the number of cells.
    proof fn lemma_kruskal_complete(self, edges: Seq<(usize, usize, usize, usize)>, sets: Seq<usize>)
        requires
            self.grid_wf(),
            self.kruskal_inv(edges, sets),
            edges.len() == 0,
        ensures
            self.all_visited(),
            self.passages() == self.total() - 1,
            self.maze_connected(),
            forall|i: int, j: int|
                0 <= i < self.total() && 0 <= j < self.total() ==> #[trigger] root_of(sets, i)
                    == #[trigger] root_of(sets, j),
    {
        let w = self.width as int;
        let h = self.height as int;
        assert forall|x: int, y: int| self.in_bounds(x, y) implies #[trigger] self.visited(x, y) by {
            assert(self.kruskal_cover_at(edges, sets, x, y));
            if x + 1 < w {
            } else if x > 0 {
                assert(self.kruskal_cover_at(edges, sets, x - 1, y));
            } else if y + 1 < h {
                assert(w == 1);
            } else if y > 0 {
                assert(w == 1);
                assert(self.kruskal_cover_at(edges, sets, x, y - 1));
            } else {
                assert(w == 1 && h == 1);
                assert(self.total() == 1) by (nonlinear_arith)
                    requires self.width == 1, self.height == 1, self.total() == self.width * self.height,
                ;
            }
        }
        let p = |x: int, y: int| root_of(sets, self.cell_index(x, y)) == root_of(sets, 0);
        assert(grid_closed(p, w, h)) by {
            assert forall|x: int, y: int| 0 <= x < w && 0 <= y < h && #[trigger] p(x, y) implies {
                &&& (x > 0 ==> p(x - 1, y))
                &&& (x + 1 < w ==> p(x + 1, y))
                &&& (y > 0 ==> p(x, y - 1))
                &&& (y + 1 < h ==> p(x, y + 1))
            } by {
                assert(self.kruskal_cover_at(edges, sets, x, y));
                if x > 0 {
                    assert(self.kruskal_cover_at(edges, sets, x - 1, y));
                }
                if y > 0 {
                    assert(self.kruskal_cover_at(edges, sets, x, y - 1));
                }
            }
        }
        assert(p(0, 0));
        assert forall|i: int| 0 <= i < self.total() implies #[trigger] root_of(sets, i) == root_of(
            sets,
            0,
        ) by {
            let y = i / w;
            let x = i % w;
            lemma_fundamental_div_mod(i, w);
            lemma_mod_bound(i, w);
            assert(y < h) by (nonlinear_arith)
                requires i < w * h, i == w * y + x, 0 <= x < w, w >= 1,
            ;
            assert(y >= 0) by (nonlinear_arith)
                requires i >= 0, i == w * y + x, 0 <= x < w, w >= 1,
            ;
            lemma_closed_covers(p, w, h, 0, 0, x, y);
            assert(self.cell_index(x, y) == y * w + x);
            assert(y * w == w * y) by (nonlinear_arith);
        }
        assert(self.total() >= 1) by (nonlinear_arith)
            requires self.width >= 1, self.height >= 1, self.total() == self.width * self.height,
        ;
        crate::union_find::lemma_root_count_single(sets, self.total());
        assert forall|y: int, i: int| 0 <= y < h && 0 <= i < w implies f_visited()(
            #[trigger] self.grid@[y]@[i],
        ) by {
            assert(self.visited(i, y));
        }
        assert forall|p2: spec_fn(int, int) -> bool, sx: int, sy: int|
            #![trigger self.passage_closed(p2), p2(sx, sy)]
            self.passage_closed(p2) && self.in_bounds(sx, sy) && p2(sx, sy) implies (forall|
            x: int,
            y: int,
        |
            self.in_bounds(x, y) ==> #[trigger] p2(x, y)) by {
            assert forall|x: int, y: int| self.in_bounds(x, y) implies #[trigger] p2(x, y) by {
                Maze::lemma_cell_index_bounds(self, sx, sy);
                Maze::lemma_cell_index_bounds(self, x, y);
                assert(root_of(sets, self.cell_index(sx, sy)) == root_of(
                    sets,
                    self.cell_index(x, y),
                ));
            }
        }
    }

    /// Seeds Kruskal's algorithm: a union-find table with one
    /// singleton class per cell, and the shuffled list of every
    /// boundary of the grid.  On a single-cell grid the one cell is
    /// already a complete maze, so it is marked visited at once.
    #[verifier::rlimit(100)]
    pub fn init_kruskals(&mut self)
        requires
            old(self).grid_wf(),
        ensures
            final(self).grid_wf(),
            grid_monotone(*old(self), *final(self)),
            forall|x: int, y: int, w: int|
                old(self).in_bounds(x, y) && 0 <= w < 4 ==> #[trigger] final(self).wall(x, y, w)
                    == old(self).wall(x, y, w),
            active_variant(*final(self)) == Option::Some(3int),
            old(self).pristine() ==> final(self).wf(),
            final(self).generator matches Some(MazeGenerator::Kruskal { edges, sets })
                && sets@.len() == old(self).total() && (forall|j: int|
                0 <= j < sets@.len() ==> sets@[j] == j) && edges@.no_duplicates() && edges@.len()
                == (old(self).width - 1) * old(self).height + old(self).width * (old(self).height
                - 1),
    {
        proof {
            assert(self.width * self.height >= 1) by (nonlinear_arith)
                requires self.width >= 1, self.height >= 1,
            ;
        }
        let n: usize = self.width * self.height;
        let mut sets: Vec<usize> = Vec::new();
        let mut i: usize = 0;
        while i < n
            invariant
                i <= n,
                sets@.len() == i,
                forall|j: int| 0 <= j < i ==> (#[trigger] sets@[j]) == j,
            decreases n - i,
        {
            sets.push(i);
            i = i + 1;
        }
        let mut edges: Vec<(usize, usize, usize, usize)> = Vec::new();
        let ghost m_in = *self;
        let mut y: usize = 0;
        while y < self.height
            invariant
                *self == m_in,
                self.grid_wf(),
                y <= self.height,
                forall|k: int| 0 <= k < edges@.len() ==> self.kruskal_edge_ok(#[trigger] edges@[k]),
                forall|k1: int, k2: int|
                    0 <= k1 < k2 < edges@.len() ==> edge_key(#[trigger] edges@[k1], self.width as int)
                        < edge_key(#[trigger] edges@[k2], self.width as int),
                forall|k: int|
                    0 <= k < edges@.len() ==> edge_key(#[trigger] edges@[k], self.width as int) < 2
                        * (y * self.width),
                edges@.len() == y * (self.width - 1) + (if y <= self.height - 1 {
                    y as int
                } else {
                    (self.height - 1) as int
                }) * self.width,
                forall|a: int, b: int|
                    self.in_bounds(a, b) && b < y && a + 1 < self.width ==> edges@.contains(
                        (((a as usize), (b as usize), ((a + 1) as usize), (b as usize))),
                    ),
                forall|a: int, b: int|
                    self.in_bounds(a, b) && b < y && b + 1 < self.height ==> edges@.contains(
                        (((a as usize), (b as usize), (a as usize), ((b + 1) as usize))),
                    ),
            decreases self.height - y,
        {
            let mut x: usize = 0;
            while x < self.width
                invariant
                    *self == m_in,
                    self.grid_wf(),
                    y < self.height,
                    x <= self.width,
                    forall|k: int| 0 <= k < edges@.len() ==> self.kruskal_edge_ok(#[trigger] edges@[k]),
                    forall|k1: int, k2: int|
                        0 <= k1 < k2 < edges@.len() ==> edge_key(
                            #[trigger] edges@[k1],
                            self.width as int,
                        ) < edge_key(#[trigger] edges@[k2], self.width as int),
                    forall|k: int|
                        0 <= k < edges@.len() ==> edge_key(#[trigger] edges@[k], self.width as int)
                            < 2 * (y * self.width + x),
                    edges@.len() == y * (self.width - 1) + y * self.width + (if x <= self.width - 1 {
                        x as int
                    } else {
                        (self.width - 1) as int
                    }) + (if y + 1 < self.height {
                        x as int
                    } else {
                        0int
                    }),
                    forall|a: int, b: int|
                        self.in_bounds(a, b) && (b < y || (b == y && a < x)) && a + 1 < self.width
                            ==> edges@.contains(
                            (((a as usize), (b as usize), ((a + 1) as usize), (b as usize))),
                        ),
                    forall|a: int, b: int|
                        self.in_bounds(a, b) && (b < y || (b == y && a < x)) && b + 1 < self.height
                            ==> edges@.contains(
                            (((a as usize), (b as usize), (a as usize), ((b + 1) as usize))),
                        ),
                decreases self.width - x,
            {
                if x + 1 < self.width {
                    let ghost e0 = edges@;
                    edges.push((x, y, x + 1, y));
                    proof {
                        lemma_push_keeps(e0, (x, y, (x + 1) as usize, y));
                    }
                }
                if y + 1 < self.height {
                    let ghost e0 = edges@;
                    edges.push((x, y, x, y + 1));
                    proof {
                        lemma_push_keeps(e0, (x, y, x, (y + 1) as usize));
                    }
                }
                x = x + 1;
            }
            proof {
                assert((y + 1) * (self.width - 1) == y * (self.width - 1) + (self.width - 1))
                    by (nonlinear_arith);
                assert((y + 1) * self.width == y * self.width + self.width) by (nonlinear_arith);
                assert(2 * ((y + 1) * self.width) == 2 * (y * self.width + self.width))
                    by (nonlinear_arith);
            }
            y = y + 1;
        }
        let ghost ep = edges@;
        proof {
            assert forall|a: int, b: int|
                m_in.in_bounds(a, b) && a + 1 < m_in.width implies ep.contains(
                (((a as usize), (b as usize), ((a + 1) as usize), (b as usize))),
            ) by {
                assert(self.in_bounds(a, b));
                assert(edges@.contains((((a as usize), (b as usize), ((a + 1) as usize), (b as usize)))));
            }
            assert forall|a: int, b: int|
                m_in.in_bounds(a, b) && b + 1 < m_in.height implies ep.contains(
                (((a as usize), (b as usize), (a as usize), ((b + 1) as usize))),
            ) by {
                assert(self.in_bounds(a, b));
                assert(edges@.contains((((a as usize), (b as usize), (a as usize), ((b + 1) as usize)))));
            }
        }
        proof {
            assert forall|i1: int, j1: int|
                0 <= i1 < ep.len() && 0 <= j1 < ep.len() && i1 != j1 implies #[trigger] ep[i1]
                != #[trigger] ep[j1] by {
                if i1 < j1 {
                    assert(edge_key(ep[i1], self.width as int) < edge_key(ep[j1], self.width as int));
                } else {
                    assert(edge_key(ep[j1], self.width as int) < edge_key(ep[i1], self.width as int));
                }
            }
            assert(ep.no_duplicates());
            ep.lemma_multiset_has_no_duplicates();
        }
        self.rng.shuffle_edges(&mut edges);
        proof {
            crate::maze::lemma_same_grid(m_in, *self);
            assert forall|e: (usize, usize, usize, usize)|
                edges@.to_multiset().contains(e) implies #[trigger] edges@.to_multiset().count(e)
                == 1 by {
                assert(ep.to_multiset().contains(e));
            }
            edges@.lemma_multiset_has_no_duplicates_conv();
            assert(edges@.no_duplicates());
            assert(edges@.len() == (self.height as int) * (self.width - 1) + ((self.height
                - 1) as int) * self.width);
            assert((self.height as int) * (self.width - 1) + ((self.height - 1) as int)
                * self.width == (self.width - 1) * self.height + self.width * (self.height - 1))
                by (nonlinear_arith);
        }
        let ghost m1 = *self;
        let ghost es = edges@;
        if self.width == 1 && self.height == 1 {
            self.mark_visited(0, 0);
        }
        proof {
            if m_in.pristine() {
                assert forall|x2: int, y2: int| self.in_bounds(x2, y2)
                    implies #[trigger] self.carve_ok_at(x2, y2) by {
                    assert(m_in.node_at(x2, y2).fresh_at(x2, y2));
                    if x2 + 1 < self.width {
                        assert(m_in.node_at(x2 + 1, y2).fresh_at(x2 + 1, y2));
                        assert(self.wall(x2, y2, 1) == m_in.wall(x2, y2, 1));
                    }
                    if y2 + 1 < self.height {
                        assert(self.wall(x2, y2, 2) == m_in.wall(x2, y2, 2));
                    }
                }
                assert forall|y2: int, i2: int|
                    0 <= y2 < self.height as int && 0 <= i2 < self.width as int implies !f_open_right()(
                    #[trigger] self.grid@[y2]@[i2],
                ) by {
                    assert(m_in.node_at(i2, y2).fresh_at(i2, y2));
                    assert(self.wall(i2, y2, 1) == m_in.wall(i2, y2, 1));
                }
                assert forall|y2: int, i2: int|
                    0 <= y2 < self.height as int && 0 <= i2 < self.width as int implies !f_open_down()(
                    #[trigger] self.grid@[y2]@[i2],
                ) by {
                    assert(m_in.node_at(i2, y2).fresh_at(i2, y2));
                    assert(self.wall(i2, y2, 2) == m_in.wall(i2, y2, 2));
                }
                lemma_grid_count_none(self.grid@, self.height as int, self.width as int, f_open_right());
                lemma_grid_count_none(self.grid@, self.height as int, self.width as int, f_open_down());
                crate::union_find::lemma_root_count_all(sets@, n as int);
                assert forall|k: int| 0 <= k < edges@.len() implies self.kruskal_edge_ok(
                    #[trigger] edges@[k],
                ) by {
                    assert(edges@.contains(edges@[k]));
                    assert(es.contains(edges@[k]));
                    let j = choose|j: int| 0 <= j < es.len() && es[j] == edges@[k];
                    assert(m1.kruskal_edge_ok(es[j]));
                }
                assert forall|x2: int, y2: int| self.in_bounds(x2, y2)
                    implies #[trigger] self.kruskal_cover_at(edges@, sets@, x2, y2) by {
                    assert(m_in.in_bounds(x2, y2));
                    if x2 + 1 < self.width {
                        assert(ep.contains(
                            (((x2 as usize), (y2 as usize), ((x2 + 1) as usize), (y2 as usize))),
                        ));
                        assert(es.contains(
                            (((x2 as usize), (y2 as usize), ((x2 + 1) as usize), (y2 as usize))),
                        ));
                    }
                    if y2 + 1 < self.height {
                        assert(ep.contains(
                            (((x2 as usize), (y2 as usize), (x2 as usize), ((y2 + 1) as usize))),
                        ));
                        assert(es.contains(
                            (((x2 as usize), (y2 as usize), (x2 as usize), ((y2 + 1) as usize))),
                        ));
                    }
                }
                assert forall|x2: int, y2: int| self.in_bounds(x2, y2)
                    implies #[trigger] self.kruskal_passage_ok_at(sets@, x2, y2) by {
                    assert(self.carve_ok_at(x2, y2));
                    assert(m_in.node_at(x2, y2).fresh_at(x2, y2));
                    assert(self.wall(x2, y2, 1) == m_in.wall(x2, y2, 1));
                    assert(self.wall(x2, y2, 2) == m_in.wall(x2, y2, 2));
                }
                if self.total() == 1 {
                    assert(self.width == 1 && self.height == 1) by (nonlinear_arith)
                        requires self.width >= 1, self.height >= 1, self.width * self.height == 1,
                    ;
                    assert(self.visited(0, 0));
                }
                assert forall|p: spec_fn(int, int) -> bool, x1: int, y1: int, x2: int, y2: int|
                    #![trigger self.passage_closed(p), p(x1, y1), p(x2, y2)]
                    self.passage_closed(p) && self.in_bounds(x1, y1) && self.in_bounds(x2, y2)
                        && root_of(sets@, self.cell_index(x1, y1)) == root_of(
                        sets@,
                        self.cell_index(x2, y2),
                    ) && p(x1, y1) implies p(x2, y2) by {
                    Maze::lemma_cell_index_bounds(*self, x1, y1);
                    Maze::lemma_cell_index_bounds(*self, x2, y2);
                    assert(root_of(sets@, self.cell_index(x1, y1)) == self.cell_index(x1, y1));
                    assert(root_of(sets@, self.cell_index(x2, y2)) == self.cell_index(x2, y2));
                    Maze::lemma_cell_index_injective(*self, x1, y1, x2, y2);
                }
                assert(self.kruskal_inv(edges@, sets@));
            }
        }
        let ghost m2 = *self;
        let ghost es2 = edges@;
        let ghost ss2 = sets@;
        self.generator = Some(MazeGenerator::Kruskal { edges, sets });
        proof {
            crate::maze::lemma_same_grid(m2, *self);
            if m_in.pristine() {
                Maze::lemma_frame_kruskal_inv(m2, *self, es2, ss2);
            }
            assert(self.generator matches Some(MazeGenerator::Kruskal { edges: e2, sets: s2 })
                && s2@.len() == old(self).total() && (forall|j: int|
                0 <= j < s2@.len() ==> s2@[j] == j) && e2@.no_duplicates() && e2@.len() == (old(
                self,
            ).width - 1) * old(self).height + old(self).width * (old(self).height - 1)) by {
                assert(ss2.len() == n);
                assert(n == old(self).total());
            }
            assert forall|x: int, y2: int, w: int|
                old(self).in_bounds(x, y2) && 0 <= w < 4 implies #[trigger] self.wall(x, y2, w)
                == old(self).wall(x, y2, w) by {
                assert(self.node_at(x, y2) == m2.node_at(x, y2));
                assert(m2.wall(x, y2, w) == m1.wall(x, y2, w));
                assert(m1.node_at(x, y2) == old(self).node_at(x, y2));
            }
            assert forall|x: int, y2: int|
                old(self).in_bounds(x, y2) && #[trigger] old(self).visited(x, y2) implies self.visited(
                x,
                y2,
            ) by {
                assert(m1.node_at(x, y2) == old(self).node_at(x, y2));
                assert(m2.visited(x, y2));
                assert(self.node_at(x, y2) == m2.node_at(x, y2));
            }
        }
    }

    /// A cell's flattened index lies within the union-find table.
    proof fn lemma_cell_index_bounds(m: Maze, x: int, y: int)
        requires
            m.dims_ok(),
            m.in_bounds(x, y),
        ensures
            0 <= y * m.width + x < m.total(),
            m.cell_index(x, y) == y * m.width + x,
    {
        assert(0 <= y * m.width + x < m.width * m.height) by (nonlinear_arith)
            requires 0 <= x < m.width, 0 <= y < m.height,
        ;
    }

    /// After consuming the candidate edge `e`, whose two cells are
    /// now visited and united, every boundary of the grid is still
    /// covered: on the remaining list, or decided.
    proof fn lemma_kruskal_cover_preserved(a: Maze, b: Maze, es0: Seq<(usize, usize, usize, usize)>, es1: Seq<(usize, usize, usize, usize)>, sets0: Seq<usize>, sets1: Seq<usize>, e: (usize, usize, usize, usize))
        requires
            a.dims_ok(),
            b.width == a.width,
            b.height == a.height,
            sets0.len() == a.total(),
            sets1.len() == a.total(),
            forall|x: int, y: int|
                a.in_bounds(x, y) ==> #[trigger] a.kruskal_cover_at(es0, sets0, x, y),
            forall|t: (usize, usize, usize, usize)|
                es0.contains(t) && t != e ==> #[trigger] es1.contains(t),
            forall|x: int, y: int|
                a.in_bounds(x, y) && #[trigger] a.visited(x, y) ==> b.visited(x, y),
            forall|i: int, j: int|
                0 <= i < sets0.len() && 0 <= j < sets0.len() && root_of(sets0, i) == root_of(
                    sets0,
                    j,
                ) ==> #[trigger] root_of(sets1, i) == #[trigger] root_of(sets1, j),
            b.visited(e.0 as int, e.1 as int),
            b.visited(e.2 as int, e.3 as int),
            a.in_bounds(e.0 as int, e.1 as int),
            a.in_bounds(e.2 as int, e.3 as int),
            root_of(sets1, a.cell_index(e.0 as int, e.1 as int)) == root_of(
                sets1,
                a.cell_index(e.2 as int, e.3 as int),
            ),
        ensures
            forall|x: int, y: int|
                b.in_bounds(x, y) ==> #[trigger] b.kruskal_cover_at(es1, sets1, x, y),
    {
        assert forall|x: int, y: int| b.in_bounds(x, y) implies #[trigger] b.kruskal_cover_at(
            es1,
            sets1,
            x,
            y,
        ) by {
            assert(a.kruskal_cover_at(es0, sets0, x, y));
            Maze::lemma_cell_index_bounds(a, x, y);
            if x + 1 < b.width {
                Maze::lemma_cell_index_bounds(a, x + 1, y);
                let t = ((x as usize), (y as usize), ((x + 1) as usize), (y as usize));
                if es0.contains(t) {
                    if t == e {
                        assert(b.visited(x, y) && b.visited(x + 1, y));
                    } else {
                        assert(es1.contains(t));
                    }
                } else {
                    assert(root_of(sets1, a.cell_index(x, y)) == root_of(
                        sets1,
                        a.cell_index(x + 1, y),
                    ));
                }
            }
            if y + 1 < b.height {
                Maze::lemma_cell_index_bounds(a, x, y + 1);
                let t = ((x as usize), (y as usize), (x as usize), ((y + 1) as usize));
                if es0.contains(t) {
                    if t == e {
                        assert(b.visited(x, y) && b.visited(x, y + 1));
                    } else {
                        assert(es1.contains(t));
                    }
                } else {
                    assert(root_of(sets1, a.cell_index(x, y)) == root_of(
                        sets1,
                        a.cell_index(x, y + 1),
                    ));
                }
            }
        }
    }

    /// One micro-step of Kruskal's algorithm: pop candidate edges off
    /// the pre-shuffled list, marking both cells of each as touched,
    /// until one joins two distinct union-find classes — then unite
    /// them and carve that boundary — or the list runs out.  Returns
    /// false exactly when the list was exhausted, which is completion
    /// — and then every cell is visited and the passages form
    /// `width*height - 1` pairs.
    #[verifier::rlimit(100)]
    fn kruskal_step(&mut self, edges: &mut Vec<(usize, usize, usize, usize)>, sets: &mut Vec<usize>) -> (in_progress: bool)
        requires
            old(self).grid_wf(),
            old(self).kruskal_inv(old(edges)@, old(sets)@),
        ensures
            final(self).grid_wf(),
            final(self).kruskal_inv(final(edges)@, final(sets)@),
            grid_monotone(*old(self), *final(self)),
            final(self).generator == old(self).generator,
            final(self).width == old(self).width,
            final(self).height == old(self).height,
            !in_progress ==> final(self).all_visited() && final(self).passages() == final(self).total() - 1 && final(self).maze_connected(),
            final(edges)@ == old(edges)@.subrange(0, final(edges)@.len() as int),
            forall|j: int|
                final(edges)@.len() <= j < old(edges)@.len() ==> edge_endpoints_visited(
                    *final(self),
                    #[trigger] old(edges)@[j],
                ),
            in_progress ==> final(edges)@.len() < old(edges)@.len() && final(self).passages()
                == old(self).passages() + 1 && root_count(final(sets)@, final(self).total())
                == root_count(old(sets)@, old(self).total()) - 1 && carved_wall_pair_only(
                *old(self),
                *final(self),
                old(edges)@[final(edges)@.len() as int].0 as int,
                old(edges)@[final(edges)@.len() as int].1 as int,
                old(edges)@[final(edges)@.len() as int].2 as int,
                old(edges)@[final(edges)@.len() as int].3 as int,
            ),
            !in_progress ==> final(edges)@.len() == 0 && final(self).passages() == old(self).passages()
                && walls_unchanged(*old(self), *final(self)) && root_count(
                final(sets)@,
                final(self).total(),
            ) == root_count(old(sets)@, old(self).total()),
    {
        let ghost m_start = *old(self);
        let ghost es_start = old(edges)@;
        let ghost ss_start = old(sets)@;
        loop
            invariant
                m_start == *old(self),
                es_start == old(edges)@,
                ss_start == old(sets)@,
                m_start.kruskal_inv(es_start, ss_start),
                edges@.len() <= es_start.len(),
                self.grid_wf(),
                self.kruskal_inv(edges@, sets@),
                grid_monotone(m_start, *self),
                self.generator == m_start.generator,
                self.width == m_start.width,
                self.height == m_start.height,
                edges@ == es_start.subrange(0, edges@.len() as int),
                forall|j: int|
                    edges@.len() <= j < es_start.len() ==> edge_endpoints_visited(
                        *self,
                        #[trigger] es_start[j],
                    ),
                self.passages() == m_start.passages(),
                walls_unchanged(m_start, *self),
                root_count(sets@, self.total()) == root_count(ss_start, m_start.total()),
            decreases edges@.len(),
        {
            let ghost m1 = *self;
            let ghost es0 = edges@;
            let ghost ss0 = sets@;
            let popped = edges.pop();
            match popped {
                None => {
                    proof {
                        self.lemma_kruskal_complete(edges@, sets@);
                    }
                    return false;
                },
                Some((x1, y1, x2, y2)) => {
                    let ghost e = (x1, y1, x2, y2);
                    proof {
                        assert(es0[es0.len() - 1] == e);
                        assert(m1.kruskal_edge_ok(e));
                        lemma_drop_last_keeps(es0);
                        assert forall|k: int| 0 <= k < edges@.len() implies m1.kruskal_edge_ok(
                            #[trigger] edges@[k],
                        ) by {
                            assert(edges@[k] == es0[k]);
                        }
                    }
                    self.mark_visited(x1, y1);
                    self.mark_visited(x2, y2);
                    proof {
                        Maze::lemma_cell_index_bounds(*self, x1 as int, y1 as int);
                        Maze::lemma_cell_index_bounds(*self, x2 as int, y2 as int);
                    }
                    let i1: usize = y1 * self.width + x1;
                    let i2: usize = y2 * self.width + x2;
                    let r1 = self.find(sets, i1);
                    let ghost ss1 = sets@;
                    let r2 = self.find(sets, i2);
                    let ghost ss2 = sets@;
                    proof {
                        crate::union_find::lemma_root_count_congruence(ss0, ss1, ss0.len() as int);
                        crate::union_find::lemma_root_count_congruence(ss1, ss2, ss0.len() as int);
                    }
                    if r1 != r2 {
                        let cw: usize;
                        let nw: usize;
                        if x1 == x2 {
                            cw = 2;
                            nw = 0;
                        } else {
                            cw = 1;
                            nw = 3;
                        }
                        proof {
                            assert(Maze::wall_pair_ok(
                                x1 as int,
                                y1 as int,
                                cw as int,
                                x2 as int,
                                y2 as int,
                                nw as int,
                            ));
                            if !self.wall(x1 as int, y1 as int, cw as int) {
                                assert(m1.kruskal_passage_ok_at(ss0, x1 as int, y1 as int));
                                assert(m1.wall(x1 as int, y1 as int, cw as int) == self.wall(
                                    x1 as int,
                                    y1 as int,
                                    cw as int,
                                ));
                                assert(root_of(ss0, m1.cell_index(x1 as int, y1 as int)) == root_of(
                                    ss0,
                                    m1.cell_index(x2 as int, y2 as int),
                                ));
                                assert(false);
                            }
                        }
                        self.clear_wall_pair(x1, y1, cw, x2, y2, nw);
                        self.union(sets, i1, i2);
                        proof {
                            assert forall|x: int, y: int| self.in_bounds(x, y)
                                implies #[trigger] self.carve_ok_at(x, y) by {
                                assert(m1.carve_ok_at(x, y));
                            }
                            assert forall|t: (usize, usize, usize, usize)|
                                es0.contains(t) && t != e implies #[trigger] edges@.contains(t) by {}
                            assert forall|i: int, j: int|
                                0 <= i < ss0.len() && 0 <= j < ss0.len() && root_of(ss0, i)
                                    == root_of(ss0, j) implies #[trigger] root_of(sets@, i)
                                == #[trigger] root_of(sets@, j) by {}
                            assert(root_of(sets@, i1 as int) == root_of(sets@, i2 as int));
                            Maze::lemma_kruskal_cover_preserved(
                                m1,
                                *self,
                                es0,
                                edges@,
                                ss0,
                                sets@,
                                e,
                            );
                            assert forall|x: int, y: int| self.in_bounds(x, y)
                                implies #[trigger] self.kruskal_passage_ok_at(sets@, x, y) by {
                                Maze::lemma_cell_index_bounds(m1, x, y);
                                if x + 1 < self.width {
                                    Maze::lemma_cell_index_bounds(m1, x + 1, y);
                                    if !self.wall(x, y, 1) {
                                        if x == x1 as int && y == y1 as int && 1 == cw as int {
                                            assert(root_of(sets@, self.cell_index(x, y)) == root_of(
                                                sets@,
                                                self.cell_index(x + 1, y),
                                            ));
                                        } else {
                                            assert(!m1.wall(x, y, 1));
                                            assert(m1.kruskal_passage_ok_at(ss0, x, y));
                                        }
                                    }
                                }
                                if y + 1 < self.height {
                                    Maze::lemma_cell_index_bounds(m1, x, y + 1);
                                    if !self.wall(x, y, 2) {
                                        if x == x1 as int && y == y1 as int && 2 == cw as int {
                                            assert(root_of(sets@, self.cell_index(x, y)) == root_of(
                                                sets@,
                                                self.cell_index(x, y + 1),
                                            ));
                                        } else {
                                            assert(!m1.wall(x, y, 2));
                                            assert(m1.kruskal_passage_ok_at(ss0, x, y));
                                        }
                                    }
                                }
                            }
                            assert forall|k: int| 0 <= k < edges@.len()
                                implies self.kruskal_edge_ok(#[trigger] edges@[k]) by {
                                assert(m1.kruskal_edge_ok(edges@[k]));
                            }
                            if self.total() == 1 {
                                assert(m1.visited(0, 0));
                            }
                            let r1o = root_of(ss0, i1 as int);
                            let r2o = root_of(ss0, i2 as int);
                            let common = root_of(sets@, i1 as int);
                            assert(common == r1o || common == r2o);
                            assert forall|p: spec_fn(int, int) -> bool, ax: int, ay: int, bx: int, cy: int|
                                #![trigger self.passage_closed(p), p(ax, ay), p(bx, cy)]
                                self.passage_closed(p) && self.in_bounds(ax, ay) && self.in_bounds(
                                bx,
                                cy,
                            ) && root_of(sets@, self.cell_index(ax, ay)) == root_of(
                                sets@,
                                self.cell_index(bx, cy),
                            ) && p(ax, ay) implies p(bx, cy) by {
                                assert(m1.passage_closed(p)) by {
                                    assert forall|x: int, y: int|
                                        m1.in_bounds(x, y) && #[trigger] p(x, y) implies {
                                        &&& (x + 1 < m1.width && !m1.wall(x, y, 1) ==> p(x + 1, y))
                                        &&& (x > 0 && !m1.wall(x - 1, y, 1) ==> p(x - 1, y))
                                        &&& (y + 1 < m1.height && !m1.wall(x, y, 2) ==> p(x, y + 1))
                                        &&& (y > 0 && !m1.wall(x, y - 1, 2) ==> p(x, y - 1))
                                    } by {
                                        if x + 1 < m1.width && !m1.wall(x, y, 1) {
                                            assert(!self.wall(x, y, 1));
                                        }
                                        if x > 0 && !m1.wall(x - 1, y, 1) {
                                            assert(!self.wall(x - 1, y, 1));
                                        }
                                        if y + 1 < m1.height && !m1.wall(x, y, 2) {
                                            assert(!self.wall(x, y, 2));
                                        }
                                        if y > 0 && !m1.wall(x, y - 1, 2) {
                                            assert(!self.wall(x, y - 1, 2));
                                        }
                                    }
                                }
                                Maze::lemma_cell_index_bounds(m1, ax, ay);
                                Maze::lemma_cell_index_bounds(m1, bx, cy);
                                let ia = m1.cell_index(ax, ay);
                                let ib = m1.cell_index(bx, cy);
                                let ra0 = root_of(ss0, ia);
                                let rb0 = root_of(ss0, ib);
                                // the bridge: `p` crosses the newly carved boundary
                                assert(!self.wall(x1 as int, y1 as int, cw as int));
                                assert(p(x1 as int, y1 as int) ==> p(x2 as int, y2 as int));
                                assert(p(x2 as int, y2 as int) ==> p(x1 as int, y1 as int));
                                if ra0 == r1o || ra0 == r2o {
                                    assert(rb0 == r1o || rb0 == r2o);
                                    if ra0 == r1o {
                                        assert(p(x1 as int, y1 as int));
                                    } else {
                                        assert(p(x2 as int, y2 as int));
                                    }
                                    if rb0 == r1o {
                                        assert(p(x1 as int, y1 as int));
                                        assert(p(bx, cy));
                                    } else {
                                        assert(p(x2 as int, y2 as int));
                                        assert(p(bx, cy));
                                    }
                                } else {
                                    assert(root_of(sets@, ia) == ra0);
                                    assert(rb0 == ra0);
                                    assert(p(bx, cy));
                                }
                            }
                            assert(es0.len() <= es_start.len());
                            assert forall|ii: int| 0 <= ii < edges@.len() implies #[trigger] edges@[ii]
                                == es_start[ii] by {
                                assert(edges@[ii] == es0[ii]);
                                assert(es0[ii] == es_start.subrange(0, es0.len() as int)[ii]);
                            }
                            assert(edges@ =~= es_start.subrange(0, edges@.len() as int));
                            assert forall|j: int|
                                edges@.len() <= j < es_start.len() implies edge_endpoints_visited(
                                *self,
                                #[trigger] es_start[j],
                            ) by {
                                if j == edges@.len() {
                                    assert(es_start.subrange(0, es0.len() as int)[j] == es_start[j]);
                                    assert(es_start[j] == e);
                                    assert(self.visited(x1 as int, y1 as int));
                                    assert(self.visited(x2 as int, y2 as int));
                                } else {
                                    assert(edge_endpoints_visited(m1, es_start[j]));
                                    assert(m_start.kruskal_edge_ok(es_start[j]));
                                    assert(m1.visited(es_start[j].0 as int, es_start[j].1 as int));
                                    assert(m1.visited(es_start[j].2 as int, es_start[j].3 as int));
                                    assert(self.visited(es_start[j].0 as int, es_start[j].1 as int));
                                    assert(self.visited(es_start[j].2 as int, es_start[j].3 as int));
                                }
                            }
                        }
                        return true;
                    } else {
                        proof {
                            assert forall|t: (usize, usize, usize, usize)|
                                es0.contains(t) && t != e implies #[trigger] edges@.contains(t) by {}
                            assert forall|i: int, j: int|
                                0 <= i < ss0.len() && 0 <= j < ss0.len() && root_of(ss0, i)
                                    == root_of(ss0, j) implies #[trigger] root_of(sets@, i)
                                == #[trigger] root_of(sets@, j) by {}
                            assert(root_of(sets@, i1 as int) == root_of(sets@, i2 as int));
                            Maze::lemma_kruskal_cover_preserved(
                                m1,
                                *self,
                                es0,
                                edges@,
                                ss0,
                                sets@,
                                e,
                            );
                            assert forall|x: int, y: int| self.in_bounds(x, y)
                                implies #[trigger] self.kruskal_passage_ok_at(sets@, x, y) by {
                                assert(m1.kruskal_passage_ok_at(ss0, x, y));
                                Maze::lemma_cell_index_bounds(m1, x, y);
                                if x + 1 < self.width {
                                    Maze::lemma_cell_index_bounds(m1, x + 1, y);
                                    assert(m1.wall(x, y, 1) == self.wall(x, y, 1));
                                }
                                if y + 1 < self.height {
                                    Maze::lemma_cell_index_bounds(m1, x, y + 1);
                                    assert(m1.wall(x, y, 2) == self.wall(x, y, 2));
                                }
                            }
                            assert forall|x: int, y: int| self.in_bounds(x, y)
                                implies #[trigger] self.carve_ok_at(x, y) by {
                                assert(m1.carve_ok_at(x, y));
                            }
                            assert forall|k: int| 0 <= k < edges@.len()
                                implies self.kruskal_edge_ok(#[trigger] edges@[k]) by {
                                assert(m1.kruskal_edge_ok(edges@[k]));
                            }
                            if self.total() == 1 {
                                assert(m1.visited(0, 0));
                            }
                            assert forall|p: spec_fn(int, int) -> bool, ax: int, ay: int, bx: int, cy: int|
                                #![trigger self.passage_closed(p), p(ax, ay), p(bx, cy)]
                                self.passage_closed(p) && self.in_bounds(ax, ay) && self.in_bounds(
                                bx,
                                cy,
                            ) && root_of(sets@, self.cell_index(ax, ay)) == root_of(
                                sets@,
                                self.cell_index(bx, cy),
                            ) && p(ax, ay) implies p(bx, cy) by {
                                assert(m1.passage_closed(p)) by {
                                    assert forall|x: int, y: int|
                                        m1.in_bounds(x, y) && #[trigger] p(x, y) implies {
                                        &&& (x + 1 < m1.width && !m1.wall(x, y, 1) ==> p(x + 1, y))
                                        &&& (x > 0 && !m1.wall(x - 1, y, 1) ==> p(x - 1, y))
                                        &&& (y + 1 < m1.height && !m1.wall(x, y, 2) ==> p(x, y + 1))
                                        &&& (y > 0 && !m1.wall(x, y - 1, 2) ==> p(x, y - 1))
                                    } by {
                                        assert(self.wall(x, y, 1) == m1.wall(x, y, 1));
                                        if x > 0 {
                                            assert(self.wall(x - 1, y, 1) == m1.wall(x - 1, y, 1));
                                        }
                                        assert(self.wall(x, y, 2) == m1.wall(x, y, 2));
                                        if y > 0 {
                                            assert(self.wall(x, y - 1, 2) == m1.wall(x, y - 1, 2));
                                        }
                                    }
                                }
                                Maze::lemma_cell_index_bounds(m1, ax, ay);
                                Maze::lemma_cell_index_bounds(m1, bx, cy);
                                assert(root_of(ss0, m1.cell_index(ax, ay)) == root_of(
                                    sets@,
                                    m1.cell_index(ax, ay),
                                ));
                                assert(root_of(ss0, m1.cell_index(bx, cy)) == root_of(
                                    sets@,
                                    m1.cell_index(bx, cy),
                                ));
                                assert(p(bx, cy));
                            }
                        }
                    }
                },
            }
        }
    }

    /// Seeds the depth-first backtracker: marks one random start cell
    /// visited and makes it the whole stack.
    pub fn init_dfs(&mut self)
        requires
            old(self).grid_wf(),
        ensures
            final(self).grid_wf(),
            grid_monotone(*old(self), *final(self)),
            forall|x: int, y: int, w: int|
                old(self).in_bounds(x, y) && 0 <= w < 4 ==> #[trigger] final(self).wall(x, y, w)
                    == old(self).wall(x, y, w),
            active_variant(*final(self)) == Option::Some(0int),
            old(self).pristine() ==> final(self).wf(),
            exists|sx: int, sy: int|
                #![auto]
                old(self).in_bounds(sx, sy) && (final(self).generator matches Some(
                    MazeGenerator::Dfs { stack },
                ) && stack@ == seq![(((sx as usize), (sy as usize)))]) && (forall|x: int, y: int|
                    old(self).in_bounds(x, y) ==> final(self).visited(x, y) == (old(self).visited(
                        x,
                        y,
                    ) || (x == sx && y == sy))),
    {
        let start_x = self.rng.index_below(self.width);
        let start_y = self.rng.index_below(self.height);
        proof {
            crate::maze::lemma_same_grid(*old(self), *self);
        }
        let ghost m0 = *self;
        self.mark_visited(start_x, start_y);
        let mut stack: Vec<(usize, usize)> = Vec::new();
        stack.push((start_x, start_y));
        proof {
            assert(stack@ =~= seq![((start_x, start_y))]);
        }
        proof {
            if m0.pristine() {
                let sxi = start_x as int;
                let syi = start_y as int;
                assert(self.visited(sxi, syi));
                assert(stack@[0] == ((start_x, start_y)));
                assert forall|x: int, y: int|
                    self.in_bounds(x, y) && #[trigger] self.visited(x, y) implies stack@.contains(
                    ((x as usize), (y as usize)),
                ) by {
                    assert(m0.node_at(x, y).fresh_at(x, y));
                    assert(x == sxi && y == syi);
                    assert(stack@[0] == ((x as usize), (y as usize)));
                }
                assert forall|x: int, y: int| self.in_bounds(x, y) implies #[trigger] self.carve_ok_at(
                    x,
                    y,
                ) by {
                    assert(m0.node_at(x, y).fresh_at(x, y));
                    if x + 1 < self.width {
                        assert(m0.node_at(x + 1, y).fresh_at(x + 1, y));
                        assert(self.wall(x, y, 1));
                    }
                    if y + 1 < self.height {
                        assert(self.wall(x, y, 2));
                    }
                }
                assert forall|y: int, i: int|
                    0 <= y < m0.height as int && 0 <= i < m0.width as int implies !f_visited()(
                    #[trigger] m0.grid@[y]@[i],
                ) by {
                    assert(m0.node_at(i, y).fresh_at(i, y));
                }
                lemma_grid_count_none(m0.grid@, m0.height as int, m0.width as int, f_visited());
                assert forall|y: int, i: int|
                    0 <= y < self.height as int && 0 <= i < self.width as int implies !f_open_right()(
                    #[trigger] self.grid@[y]@[i],
                ) by {
                    assert(m0.node_at(i, y).fresh_at(i, y));
                    assert(self.wall(i, y, 1) == m0.wall(i, y, 1));
                }
                assert forall|y: int, i: int|
                    0 <= y < self.height as int && 0 <= i < self.width as int implies !f_open_down()(
                    #[trigger] self.grid@[y]@[i],
                ) by {
                    assert(m0.node_at(i, y).fresh_at(i, y));
                    assert(self.wall(i, y, 2) == m0.wall(i, y, 2));
                }
                lemma_grid_count_none(self.grid@, self.height as int, self.width as int, f_open_right());
                lemma_grid_count_none(self.grid@, self.height as int, self.width as int, f_open_down());
                assert forall|p: spec_fn(int, int) -> bool, ax: int, ay: int|
                    #![trigger self.passage_closed(p), p(ax, ay)]
                    self.passage_closed(p) && self.in_bounds(ax, ay) && self.visited(ax, ay) && p(
                    ax,
                    ay,
                ) implies (forall|x: int, y: int|
                    self.in_bounds(x, y) && #[trigger] self.visited(x, y) ==> p(x, y)) by {
                    assert(m0.node_at(ax, ay).fresh_at(ax, ay));
                    assert(ax == sxi && ay == syi);
                    assert forall|x: int, y: int|
                        self.in_bounds(x, y) && #[trigger] self.visited(x, y) implies p(x, y) by {
                        assert(m0.node_at(x, y).fresh_at(x, y));
                        assert(x == sxi && y == syi);
                    }
                }
                assert(self.visited_connected());
                assert(self.dfs_inv(stack@));
            }
        }
        let ghost m2 = *self;
        let ghost s = stack@;
        self.generator = Some(MazeGenerator::Dfs { stack });
        proof {
            crate::maze::lemma_same_grid(m2, *self);
            if m0.pristine() {
                Maze::lemma_frame_dfs_inv(m2, *self, s);
            }
            assert forall|x: int, y: int, w: int|
                old(self).in_bounds(x, y) && 0 <= w < 4 implies #[trigger] self.wall(x, y, w)
                == old(self).wall(x, y, w) by {
                assert(self.node_at(x, y) == m2.node_at(x, y));
                assert(m2.wall(x, y, w) == m0.wall(x, y, w));
                assert(m0.node_at(x, y) == old(self).node_at(x, y));
            }
            assert forall|x: int, y: int|
                old(self).in_bounds(x, y) implies #[trigger] self.visited(x, y) == (old(
                self,
            ).visited(x, y) || (x == start_x as int && y == start_y as int)) by {
                assert(m0.node_at(x, y) == old(self).node_at(x, y));
                assert(m2.visited(x, y) == (m0.visited(x, y) || (x == start_x as int && y
                    == start_y as int)));
                assert(self.node_at(x, y) == m2.node_at(x, y));
            }
            assert(old(self).in_bounds(start_x as int, start_y as int) && (self.generator
                matches Some(MazeGenerator::Dfs { stack }) && stack@ == seq![((start_x, start_y))])
                && (forall|x: int, y: int|
                old(self).in_bounds(x, y) ==> self.visited(x, y) == (old(self).visited(x, y) || (x
                    == start_x as int && y == start_y as int))));
        }
    }

    /// One micro-step of the depth-first backtracker, as described for
    /// the stepping engine: pop the current cell; if it has unvisited
    /// neighbors, carve to one chosen at random and push both cells
    /// back; otherwise leave it popped.  Returns false exactly when
    /// the stack was already empty, which is completion — and then
    /// every cell is visited and the passages form `width*height - 1`
    /// pairs.
    #[verifier::rlimit(100)]
    fn dfs_step(&mut self, stack: &mut Vec<(usize, usize)>) -> (in_progress: bool)
        requires
            old(self).grid_wf(),
            old(self).dfs_inv(old(stack)@),
        ensures
            final(self).grid_wf(),
            final(self).dfs_inv(final(stack)@),
            grid_monotone(*old(self), *final(self)),
            final(self).generator == old(self).generator,
            final(self).width == old(self).width,
            final(self).height == old(self).height,
            !in_progress ==> final(self).all_visited() && final(self).passages() == final(self).total() - 1 && final(self).maze_connected(),
            in_progress ==> 2 * (final(self).total() - final(self).visited_count()) + final(stack)@.len()
                < 2 * (old(self).total() - old(self).visited_count()) + old(stack)@.len(),
            in_progress == (old(stack)@.len() > 0),
            old(stack)@.len() == 0 ==> *final(self) == *old(self) && final(stack)@ == old(stack)@,
            old(stack)@.len() > 0 && !has_unvisited_neighbor(
                *old(self),
                old(stack)@.last().0 as int,
                old(stack)@.last().1 as int,
            ) ==> *final(self) == *old(self) && final(stack)@ == old(stack)@.drop_last(),
            old(stack)@.len() > 0 && has_unvisited_neighbor(
                *old(self),
                old(stack)@.last().0 as int,
                old(stack)@.last().1 as int,
            ) ==> (exists|nx: int, ny: int|
                #![auto]
                !old(self).visited(nx, ny) && carved_passage(
                    *old(self),
                    *final(self),
                    old(stack)@.last().0 as int,
                    old(stack)@.last().1 as int,
                    nx,
                    ny,
                ) && final(stack)@ == old(stack)@.push(((nx as usize), (ny as usize)))),
    {
        let popped = stack.pop();
        match popped {
            None => {
                proof {
                    self.lemma_closed_region_covers_grid();
                    self.lemma_connected_when_all_visited();
                }
                false
            },
            Some((x, y)) => {
                proof {
                    assert(old(stack)@[old(stack)@.len() - 1] == ((x, y)));
                }
                let ghost m0 = *self;
                let ghost stack0 = old(stack)@;
                let mut neighbors: Vec<(usize, usize, usize, usize)> = Vec::new();
                if x > 0 && !self.node_copy(x - 1, y).visited {
                    proof {
                        assert(self.carve_ok_at(x as int - 1, y as int));
                        assert(self.sym_ok_at(x as int - 1, y as int));
                    }
                    neighbors.push((x - 1, y, 3, 1));
                }
                if x + 1 < self.width && !self.node_copy(x + 1, y).visited {
                    proof {
                        assert(self.carve_ok_at(x as int, y as int));
                    }
                    neighbors.push((x + 1, y, 1, 3));
                }
                if y > 0 && !self.node_copy(x, y - 1).visited {
                    proof {
                        assert(self.carve_ok_at(x as int, y as int - 1));
                        assert(self.sym_ok_at(x as int, y as int - 1));
                    }
                    neighbors.push((x, y - 1, 0, 2));
                }
                if y + 1 < self.height && !self.node_copy(x, y + 1).visited {
                    proof {
                        assert(self.carve_ok_at(x as int, y as int));
                    }
                    neighbors.push((x, y + 1, 2, 0));
                }
                proof {
                    assert forall|i: int| 0 <= i < neighbors@.len() implies self.nbr_ok(
                        x as int,
                        y as int,
                        #[trigger] neighbors@[i],
                    ) by {}
                }
                if neighbors.len() > 0 {
                    let k = self.rng.index_below(neighbors.len());
                    proof {
                        crate::maze::lemma_same_grid(m0, *self);
                    }
                    let (nx, ny, cw, nw) = neighbors[k];
                    proof {
                        assert(m0.nbr_ok(x as int, y as int, (nx, ny, cw, nw)));
                        assert(self.node_at(nx as int, ny as int) == m0.node_at(nx as int, ny as int));
                        assert(self.node_at(x as int, y as int) == m0.node_at(x as int, y as int));
                        assert(self.nbr_ok(x as int, y as int, (nx, ny, cw, nw)));
                    }
                    self.clear_wall_pair(x, y, cw, nx, ny, nw);
                    self.mark_visited(nx, ny);
                    stack.push((x, y));
                    stack.push((nx, ny));
                    proof {
                        let s1 = stack0.subrange(0, stack0.len() - 1);
                        let s2 = s1.push((x, y));
                        let s3 = s2.push((nx, ny));
                        assert(stack@ == s3);
                        lemma_push_keeps(s1, (x, y));
                        lemma_push_keeps(s2, (nx, ny));
                        lemma_drop_last_keeps(stack0);
                        assert forall|ee: (usize, usize)| stack0.contains(ee)
                            implies #[trigger] s3.contains(ee) by {
                            if ee != stack0[stack0.len() - 1] {
                                assert(s1.contains(ee));
                                assert(s2.contains(ee));
                            } else {
                                assert(s2.contains((x, y)));
                            }
                        }
                        assert(s3.contains((nx, ny)));
                        Maze::lemma_dfs_cover(m0, *self, stack0, s3);
                        assert forall|x2: int, y2: int|
                            m0.in_bounds(x2, y2) implies (#[trigger] self.visited(x2, y2) == (
                        m0.visited(x2, y2) || (x2 == nx as int && y2 == ny as int))) by {}
                        assert forall|x2: int, y2: int, w2: int|
                            m0.in_bounds(x2, y2) && 0 <= w2 < 4 && #[trigger] self.wall(
                            x2,
                            y2,
                            w2,
                        ) implies m0.wall(x2, y2, w2) by {}
                        assert(!self.wall(x as int, y as int, cw as int));
                        crate::maze::lemma_connected_after_carve(
                            m0,
                            *self,
                            x as int,
                            y as int,
                            cw as int,
                            nx as int,
                            ny as int,
                            nw as int,
                        );
                        assert forall|x2: int, y2: int, w2: int|
                            m0.in_bounds(x2, y2) && 0 <= w2 < 4 implies #[trigger] self.wall(
                            x2,
                            y2,
                            w2,
                        ) == (m0.wall(x2, y2, w2) && !((x2 == x as int && y2 == y as int && w2
                            == wall_toward(x as int, y as int, nx as int, ny as int)) || (x2
                            == nx as int && y2 == ny as int && w2 == wall_toward(
                            nx as int,
                            ny as int,
                            x as int,
                            y as int,
                        )))) by {}
                        assert(carved_passage(m0, *self, x as int, y as int, nx as int, ny as int));
                        assert(s2 =~= stack0);
                        assert(stack@ =~= stack0.push(((nx, ny))));
                        assert forall|x2: int, y2: int| self.in_bounds(x2, y2)
                            implies #[trigger] self.carve_ok_at(x2, y2) by {
                            assert(m0.carve_ok_at(x2, y2));
                        }
                        let (vx, vy) = choose|vx: int, vy: int|
                            m0.in_bounds(vx, vy) && #[trigger] m0.visited(vx, vy);
                        assert(self.visited(vx, vy));
                        assert(self.some_visited());
                    }
                    true
                } else {
                    proof {
                        let s1 = stack0.subrange(0, stack0.len() - 1);
                        assert(stack@ == s1);
                        assert(x > 0 ==> self.visited(x as int - 1, y as int));
                        assert(x as int + 1 < self.width ==> self.visited(x as int + 1, y as int));
                        assert(y > 0 ==> self.visited(x as int, y as int - 1));
                        assert(y as int + 1 < self.height ==> self.visited(x as int, y as int + 1));
                        assert(self.cell_closed(x as int, y as int));
                        lemma_drop_last_keeps(stack0);
                        assert forall|ee: (usize, usize)| stack0.contains(ee)
                            implies #[trigger] s1.contains(ee) || self.cell_closed(
                            ee.0 as int,
                            ee.1 as int,
                        ) by {
                            if ee == stack0[stack0.len() - 1] {
                                assert(self.cell_closed(x as int, y as int));
                            } else {
                                assert(s1.contains(ee));
                            }
                        }
                        Maze::lemma_dfs_cover(m0, *self, stack0, s1);
                    }
                    true
                }
            },
        }
    }

    /// Runs the depth-first backtracker to completion on a fresh
    /// grid: when it returns, every cell is visited and the carved
    /// passages form a spanning structure of `width*height - 1`
    /// boundary pairs.
    pub fn dfs_maze(&mut self)
        requires
            old(self).grid_wf(),
            old(self).pristine(),
        ensures
            final(self).grid_wf(),
            final(self).all_visited(),
            final(self).passages() == final(self).total() - 1,
            final(self).maze_connected(),
            final(self).width == old(self).width,
            final(self).height == old(self).height,
            final(self).generator is None,
    {
        self.init_dfs();
        let ghost m1 = *self;
        let generator = self.generator.take();
        proof {
            crate::maze::lemma_same_grid(m1, *self);
        }
        match generator {
            Some(MazeGenerator::Dfs { mut stack }) => {
                proof {
                    Maze::lemma_frame_dfs_inv(m1, *self, stack@);
                    crate::counting::lemma_grid_count_bounds(
                        self.grid@,
                        self.height as int,
                        self.width as int,
                        f_visited(),
                    );
                    assert((self.height as int) * (self.width as int) == self.total()) by (nonlinear_arith);
                }
                let ghost mw = *self;
                loop
                    invariant_except_break
                        self.grid_wf(),
                        self.dfs_inv(stack@),
                        self.width == mw.width,
                        self.height == mw.height,
                        self.generator is None,
                        0 <= self.visited_count() <= self.total(),
                    ensures
                        self.grid_wf(),
                        self.all_visited(),
                        self.passages() == self.total() - 1,
                        self.maze_connected(),
                        self.width == mw.width,
                        self.height == mw.height,
                        self.generator is None,
                    decreases 2 * (self.total() - self.visited_count()) + stack@.len(),
                {
                    let cont = self.dfs_step(&mut stack);
                    proof {
                        crate::counting::lemma_grid_count_bounds(
                            self.grid@,
                            self.height as int,
                            self.width as int,
                            f_visited(),
                        );
                        assert((self.height as int) * (self.width as int) == self.total()) by (nonlinear_arith);
                    }
                    if !cont {
                        break;
                    }
                }
            },
            _ => {
                proof {
                    assert(false);
                }
            },
        }
    }

    /// Runs Prim's expansion to completion on a fresh grid: when it
    /// returns, every cell is visited and the carved passages form a
    /// spanning structure of `width*height - 1` boundary pairs.
    pub fn prims_maze(&mut self)
        requires
            old(self).grid_wf(),
            old(self).pristine(),
        ensures
            final(self).grid_wf(),
            final(self).all_visited(),
            final(self).passages() == final(self).total() - 1,
            final(self).maze_connected(),
            final(self).width == old(self).width,
            final(self).height == old(self).height,
            final(self).generator is None,
    {
        self.init_prims();
        let ghost m1 = *self;
        let generator = self.generator.take();
        proof {
            crate::maze::lemma_same_grid(m1, *self);
        }
        match generator {
            Some(MazeGenerator::Prims { mut walls }) => {
                proof {
                    Maze::lemma_frame_prims_inv(m1, *self, walls@);
                }
                let ghost m2 = *self;
                let ghost wpre = walls@;
                self.rng.shuffle_edges(&mut walls);
                proof {
                    crate::maze::lemma_same_grid(m2, *self);
                    assert forall|i: int| 0 <= i < walls@.len() implies self.prims_entry_ok(
                        #[trigger] walls@[i],
                    ) by {
                        assert(walls@.contains(walls@[i]));
                        assert(wpre.contains(walls@[i]));
                        let j = choose|j: int| 0 <= j < wpre.len() && wpre[j] == walls@[i];
                        assert(m2.prims_entry_ok(wpre[j]));
                        assert(self.node_at(wpre[j].0 as int, wpre[j].1 as int) == m2.node_at(
                            wpre[j].0 as int,
                            wpre[j].1 as int,
                        ));
                    }
                    assert forall|x: int, y: int|
                        self.in_bounds(x, y) && #[trigger] self.visited(x, y)
                        implies self.frontier_ok_at(walls@, x, y) by {
                        assert(m2.visited(x, y));
                        assert(m2.frontier_ok_at(wpre, x, y));
                        assert(self.node_at(x - 1, y) == m2.node_at(x - 1, y));
                        assert(self.node_at(x + 1, y) == m2.node_at(x + 1, y));
                        assert(self.node_at(x, y - 1) == m2.node_at(x, y - 1));
                        assert(self.node_at(x, y + 1) == m2.node_at(x, y + 1));
                    }
                    assert(self.prims_inv(walls@));
                    crate::counting::lemma_grid_count_bounds(
                        self.grid@,
                        self.height as int,
                        self.width as int,
                        f_visited(),
                    );
                    assert((self.height as int) * (self.width as int) == self.total()) by (nonlinear_arith);
                }
                let ghost mw = *self;
                loop
                    invariant_except_break
                        self.grid_wf(),
                        self.prims_inv(walls@),
                        self.width == mw.width,
                        self.height == mw.height,
                        self.generator is None,
                        0 <= self.visited_count() <= self.total(),
                    ensures
                        self.grid_wf(),
                        self.all_visited(),
                        self.passages() == self.total() - 1,
                        self.maze_connected(),
                        self.width == mw.width,
                        self.height == mw.height,
                        self.generator is None,
                    decreases walls@.len() + 4 * (self.total() - self.visited_count()),
                {
                    let cont = self.prims_step(&mut walls);
                    proof {
                        crate::counting::lemma_grid_count_bounds(
                            self.grid@,
                            self.height as int,
                            self.width as int,
                            f_visited(),
                        );
                        assert((self.height as int) * (self.width as int) == self.total()) by (nonlinear_arith);
                    }
                    if !cont {
                        break;
                    }
                }
            },
            _ => {
                proof {
                    assert(false);
                }
            },
        }
    }

    /// Advances whichever generator is active by up to `steps`
    /// micro-steps, accumulating the time spent into
    /// `generation_time`.  Returns true exactly when generation is
    /// still in progress afterwards — that is, when a generator is
    /// still active.  With no active generator the call returns false
    /// at once and changes nothing, so repeated calls after
    /// completion stay no-ops.  When an active generator finishes
    /// during the call it is cleared, every cell is visited, and the
    /// carved passages number `width*height - 1`: a spanning
    /// structure over the grid.
    pub fn step(&mut self, steps: usize, generation_time: &mut std::time::Duration) -> (in_progress: bool)
        requires
            old(self).wf(),
        ensures
            final(self).wf(),
            grid_monotone(*old(self), *final(self)),
            in_progress == (final(self).generator is Some),
            final(self).generator is Some ==> active_variant(*final(self)) == active_variant(*old(self)),
            old(self).generator is None ==> *final(self) == *old(self) && *final(generation_time) == *old(generation_time),
            (old(self).generator is Some && !in_progress) ==> final(self).all_visited() && final(self).passages() == final(self).total() - 1 && final(self).maze_connected(),
            (steps >= 1 && in_progress && old(self).generator is Some && active_variant(*old(self))
                != Some(2int)) ==> gen_measure(*final(self)) < gen_measure(*old(self)),
            steps >= 1 && ab_done(*old(self)) ==> !in_progress,
            (steps == 1 && in_progress && old(self).total() >= 2 && active_variant(*old(self))
                == Some(2int)) ==> adjacent(
                ab_current_of(*old(self)).0 as int,
                ab_current_of(*old(self)).1 as int,
                ab_current_of(*final(self)).0 as int,
                ab_current_of(*final(self)).1 as int,
            ),
    {
        if self.generator.is_none() {
            return false;
        }
        let start = crate::timing::instant_now();
        let ghost m0 = *self;
        let mut i: usize = 0;
        while i < steps
            invariant
                m0 == *old(self),
                i <= steps,
                self.wf(),
                self.generator is Some,
                active_variant(*self) == active_variant(m0),
                grid_monotone(m0, *self),
                i == 0 ==> *self == m0,
                i >= 1 && active_variant(m0) != Some(2int) ==> gen_measure(*self) < gen_measure(m0),
                ab_done(m0) ==> i == 0,
                (i >= 1 && steps == 1 && m0.total() >= 2 && active_variant(m0) == Some(2int))
                    ==> adjacent(
                    ab_current_of(m0).0 as int,
                    ab_current_of(m0).1 as int,
                    ab_current_of(*self).0 as int,
                    ab_current_of(*self).1 as int,
                ),
            decreases steps - i,
        {
            let ghost m_pre = *self;
            let generator_opt = self.generator.take();
            proof {
                crate::maze::lemma_same_grid(m_pre, *self);
            }
            let ghost m_taken = *self;
            match generator_opt {
                None => {
                    proof {
                        assert(false);
                    }
                },
                Some(mut generator) => {
                    let still: bool;
                    match &mut generator {
                        MazeGenerator::Dfs { stack } => {
                            proof {
                                Maze::lemma_frame_dfs_inv(m_pre, *self, stack@);
                            }
                            let ghost s_before = stack@;
                            still = self.dfs_step(stack);
                            proof {
                                if still {
                                    assert(gen_measure(m_pre) == 2 * (m_pre.total()
                                        - m_pre.visited_count()) + s_before.len());
                                    assert(2 * (self.total() - self.visited_count())
                                        + stack@.len() < gen_measure(m_pre));
                                }
                            }
                        },
                        MazeGenerator::Prims { walls } => {
                            proof {
                                Maze::lemma_frame_prims_inv(m_pre, *self, walls@);
                            }
                            let ghost w_before = walls@;
                            still = self.prims_step(walls);
                            proof {
                                if still {
                                    assert(gen_measure(m_pre) == w_before.len() + 4 * (
                                    m_pre.total() - m_pre.visited_count()));
                                    assert(walls@.len() + 4 * (self.total()
                                        - self.visited_count()) < gen_measure(m_pre));
                                }
                            }
                        },
                        MazeGenerator::AldousBroder { current, unvisited } => {
                            proof {
                                Maze::lemma_frame_ab_inv(m_pre, *self, *current, *unvisited);
                            }
                            let ghost c_before = *current;
                            let ghost u_before = *unvisited;
                            still = self.aldous_broder_step(current, unvisited);
                            proof {
                                if u_before == 0 {
                                    assert(!still);
                                }
                                if still && m_pre.total() >= 2 {
                                    assert(adjacent(
                                        c_before.0 as int,
                                        c_before.1 as int,
                                        (*current).0 as int,
                                        (*current).1 as int,
                                    ));
                                }
                            }
                        },
                        MazeGenerator::Kruskal { edges, sets } => {
                            proof {
                                Maze::lemma_frame_kruskal_inv(m_pre, *self, edges@, sets@);
                            }
                            let ghost e_before = edges@;
                            still = self.kruskal_step(edges, sets);
                            proof {
                                if still {
                                    assert(gen_measure(m_pre) == e_before.len());
                                    assert(edges@.len() < e_before.len());
                                }
                            }
                        },
                    }
                    proof {
                        crate::maze::lemma_monotone_trans(m0, m_pre, m_taken);
                        crate::maze::lemma_monotone_trans(m0, m_taken, *self);
                    }
                    if !still {
                        crate::timing::duration_accumulate(
                            generation_time,
                            crate::timing::elapsed_since(&start),
                        );
                        return false;
                    }
                    let ghost g_snap = generator;
                    let ghost m_snap = *self;
                    self.generator = Some(generator);
                    proof {
                        crate::maze::lemma_same_grid(m_snap, *self);
                        crate::maze::lemma_monotone_trans(m0, m_snap, *self);
                        match g_snap {
                            MazeGenerator::Dfs { stack } => {
                                Maze::lemma_frame_dfs_inv(m_snap, *self, stack@);
                                assert(gen_measure(*self) == 2 * (self.total()
                                    - self.visited_count()) + stack@.len());
                            },
                            MazeGenerator::Prims { walls } => {
                                Maze::lemma_frame_prims_inv(m_snap, *self, walls@);
                                assert(gen_measure(*self) == walls@.len() + 4 * (self.total()
                                    - self.visited_count()));
                            },
                            MazeGenerator::AldousBroder { current, unvisited } => {
                                Maze::lemma_frame_ab_inv(m_snap, *self, current, unvisited);
                                assert(ab_current_of(*self) == current);
                            },
                            MazeGenerator::Kruskal { edges, sets } => {
                                Maze::lemma_frame_kruskal_inv(m_snap, *self, edges@, sets@);
                                assert(gen_measure(*self) == edges@.len());
                            },
                        }
                        if active_variant(m0) != Some(2int) {
                            assert(gen_measure(*self) < gen_measure(m_pre));
                            if i == 0 {
                                assert(m_pre == m0);
                            } else {
                                assert(gen_measure(m_pre) < gen_measure(m0));
                            }
                            assert(gen_measure(*self) < gen_measure(m0));
                        }
                    }
                },
            }
            i = i + 1;
        }
        crate::timing::duration_accumulate(generation_time, crate::timing::elapsed_since(&start));
        true
    }
}

impl Maze {
    /// Transient rendering hint, derived from the generator state:
    /// whether `(x, y)` is the cell the active generator works from —
    /// the top of the backtracker's stack, or the walker's position.
    pub fn cell_is_current(&self, x: usize, y: usize) -> (r: bool)
        ensures
            r == match self.generator {
                Option::Some(MazeGenerator::Dfs { stack }) => stack@.len() > 0 && stack@.last()
                    == ((x, y)),
                Option::Some(MazeGenerator::AldousBroder { current, unvisited }) => current == ((
                    x,
                    y,
                )),
                _ => false,
            },
    {
        match &self.generator {
            Some(MazeGenerator::Dfs { stack }) => {
                if stack.len() > 0 {
                    let top = stack[stack.len() - 1];
                    top.0 == x && top.1 == y
                } else {
                    false
                }
            },
            Some(MazeGenerator::AldousBroder { current, unvisited: _ }) => {
                current.0 == x && current.1 == y
            },
            _ => false,
        }
    }

    /// Transient rendering hint, derived from the generator state:
    /// whether `(x, y)` lies on the backtracker's current path.
    pub fn cell_in_stack(&self, x: usize, y: usize) -> (r: bool)
        ensures
            r == match self.generator {
                Option::Some(MazeGenerator::Dfs { stack }) => stack@.contains(((x, y))),
                _ => false,
            },
    {
        match &self.generator {
            Some(MazeGenerator::Dfs { stack }) => {
                let mut i: usize = 0;
                let mut found: bool = false;
                while i < stack.len()
                    invariant
                        i <= stack@.len(),
                        found == exists|j: int| 0 <= j < i && #[trigger] stack@[j] == ((x, y)),
                    decreases stack@.len() - i,
                {
                    let entry = stack[i];
                    if entry.0 == x && entry.1 == y {
                        proof {
                            assert(stack@[i as int] == ((x, y)));
                        }
                        found = true;
                    }
                    i = i + 1;
                }
                proof {
                    if found {
                        let j = choose|j: int| 0 <= j < stack@.len() && #[trigger] stack@[j] == ((
                            x,
                            y,
                        ));
                        assert(stack@.contains(((x, y))));
                    }
                }
                found
            },
            _ => false,
        }
    }
}

/// The work measure of a well-formed engine state is never negative,
/// so repeated `step` calls with a positive budget drive the
/// backtracker, Prim's expansion and Kruskal's algorithm to
/// completion in finitely many calls.
pub proof fn lemma_gen_measure_nonneg(m: Maze)
    requires
        m.wf(),
    ensures
        gen_measure(m) >= 0,
{
    crate::counting::lemma_grid_count_bounds(
        m.grid@,
        m.height as int,
        m.width as int,
        f_visited(),
    );
    assert((m.height as int) * (m.width as int) == m.total()) by (nonlinear_arith);
}

/// Kruskal's terminal state has a single connected component: once
/// the edge list is exhausted, following parent pointers in the
/// union-find table from any two flattened cell indices reaches one
/// and the same root.
pub proof fn lemma_kruskal_single_component(m: Maze, edges: Vec<(usize, usize, usize, usize)>, sets: Vec<usize>)
    requires
        m.wf(),
        m.generator == Some(MazeGenerator::Kruskal { edges, sets }),
        edges@.len() == 0,
    ensures
        forall|i: int, j: int|
            0 <= i < m.total() && 0 <= j < m.total() ==> #[trigger] root_of(sets@, i)
                == #[trigger] root_of(sets@, j),
{
    m.lemma_kruskal_complete(edges@, sets@);
}

} // verus!
