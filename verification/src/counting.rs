use vstd::prelude::*;
use crate::node::Node;

verus! {

/// Number of positions `i < n` of `row` whose cell satisfies `f`.
pub open spec fn row_count(row: Seq<Node>, n: int, f: spec_fn(Node) -> bool) -> int
    decreases n,
{
    if n <= 0 {
        0
    } else {
        row_count(row, n - 1, f) + (if f(row[n - 1]) {
            1int
        } else {
            0int
        })
    }
}

/// Sum of `row_count` over the first `rows` rows of a grid, each row
/// counted over its first `cols` positions.
pub open spec fn grid_count(g: Seq<Vec<Node>>, rows: int, cols: int, f: spec_fn(Node) -> bool) -> int
    decreases rows,
{
    if rows <= 0 {
        0
    } else {
        grid_count(g, rows - 1, cols, f) + row_count(g[rows - 1]@, cols, f)
    }
}

pub proof fn lemma_row_count_bounds(row: Seq<Node>, n: int, f: spec_fn(Node) -> bool)
    requires
        n >= 0,
    ensures
        0 <= row_count(row, n, f) <= n,
    decreases n,
{
    if n > 0 {
        lemma_row_count_bounds(row, n - 1, f);
    }
}

pub proof fn lemma_row_count_congruence(r1: Seq<Node>, r2: Seq<Node>, n: int, f: spec_fn(Node) -> bool)
    requires
        forall|i: int| 0 <= i < n ==> f(#[trigger] r1[i]) == f(r2[i]),
    ensures
        row_count(r1, n, f) == row_count(r2, n, f),
    decreases n,
{
    if n > 0 {
        lemma_row_count_congruence(r1, r2, n - 1, f);
    }
}

pub proof fn lemma_row_count_update(r1: Seq<Node>, r2: Seq<Node>, n: int, x: int, f: spec_fn(Node) -> bool)
    requires
        0 <= x < n,
        forall|i: int| 0 <= i < n && i != x ==> f(#[trigger] r1[i]) == f(r2[i]),
    ensures
        row_count(r2, n, f) == row_count(r1, n, f) + (if f(r2[x]) {
            1int
        } else {
            0int
        }) - (if f(r1[x]) {
            1int
        } else {
            0int
        }),
    decreases n,
{
    if x == n - 1 {
        lemma_row_count_congruence(r1, r2, n - 1, f);
    } else {
        lemma_row_count_update(r1, r2, n - 1, x, f);
    }
}

pub proof fn lemma_row_count_full(row: Seq<Node>, n: int, f: spec_fn(Node) -> bool)
    requires
        n >= 0,
        row_count(row, n, f) == n,
    ensures
        forall|i: int| 0 <= i < n ==> f(#[trigger] row[i]),
    decreases n,
{
    if n > 0 {
        lemma_row_count_bounds(row, n - 1, f);
        lemma_row_count_full(row, n - 1, f);
    }
}

pub proof fn lemma_row_count_all(row: Seq<Node>, n: int, f: spec_fn(Node) -> bool)
    requires
        n >= 0,
        forall|i: int| 0 <= i < n ==> f(#[trigger] row[i]),
    ensures
        row_count(row, n, f) == n,
    decreases n,
{
    if n > 0 {
        lemma_row_count_all(row, n - 1, f);
    }
}

pub proof fn lemma_row_count_none(row: Seq<Node>, n: int, f: spec_fn(Node) -> bool)
    requires
        n >= 0,
        forall|i: int| 0 <= i < n ==> !f(#[trigger] row[i]),
    ensures
        row_count(row, n, f) == 0,
    decreases n,
{
    if n > 0 {
        lemma_row_count_none(row, n - 1, f);
    }
}

pub proof fn lemma_grid_count_bounds(g: Seq<Vec<Node>>, rows: int, cols: int, f: spec_fn(Node) -> bool)
    requires
        rows >= 0,
        cols >= 0,
    ensures
        0 <= grid_count(g, rows, cols, f) <= rows * cols,
    decreases rows,
{
    if rows > 0 {
        lemma_grid_count_bounds(g, rows - 1, cols, f);
        lemma_row_count_bounds(g[rows - 1]@, cols, f);
        assert(rows * cols == (rows - 1) * cols + cols) by (nonlinear_arith);
    }
}

pub proof fn lemma_grid_count_congruence(g1: Seq<Vec<Node>>, g2: Seq<Vec<Node>>, rows: int, cols: int, f: spec_fn(Node) -> bool)
    requires
        forall|y: int, i: int| 0 <= y < rows && 0 <= i < cols ==> f(#[trigger] g1[y]@[i]) == f(#[trigger] g2[y]@[i]),
    ensures
        grid_count(g1, rows, cols, f) == grid_count(g2, rows, cols, f),
    decreases rows,
{
    if rows > 0 {
        lemma_grid_count_congruence(g1, g2, rows - 1, cols, f);
        lemma_row_count_congruence(g1[rows - 1]@, g2[rows - 1]@, cols, f);
    }
}

/// Effect on a grid count of changing the single cell at column `x` of
/// row `y`: the count moves by the difference of `f` at that cell.
pub proof fn lemma_grid_count_update(g1: Seq<Vec<Node>>, g2: Seq<Vec<Node>>, rows: int, cols: int, y: int, x: int, f: spec_fn(Node) -> bool)
    requires
        0 <= y < rows,
        0 <= x < cols,
        forall|r: int| 0 <= r < rows && r != y ==> #[trigger] g2[r] == g1[r],
        forall|i: int| 0 <= i < cols && i != x ==> f(#[trigger] g1[y]@[i]) == f(g2[y]@[i]),
    ensures
        grid_count(g2, rows, cols, f) == grid_count(g1, rows, cols, f) + (if f(g2[y]@[x]) {
            1int
        } else {
            0int
        }) - (if f(g1[y]@[x]) {
            1int
        } else {
            0int
        }),
    decreases rows,
{
    if y == rows - 1 {
        lemma_grid_count_congruence(g1, g2, rows - 1, cols, f);
        lemma_row_count_update(g1[y]@, g2[y]@, cols, x, f);
    } else {
        lemma_grid_count_update(g1, g2, rows - 1, cols, y, x, f);
        assert(g2[rows - 1] == g1[rows - 1]);
    }
}

pub proof fn lemma_grid_count_full(g: Seq<Vec<Node>>, rows: int, cols: int, f: spec_fn(Node) -> bool)
    requires
        rows >= 0,
        cols >= 0,
        grid_count(g, rows, cols, f) == rows * cols,
    ensures
        forall|y: int, i: int| 0 <= y < rows && 0 <= i < cols ==> f(#[trigger] g[y]@[i]),
    decreases rows,
{
    if rows > 0 {
        lemma_grid_count_bounds(g, rows - 1, cols, f);
        lemma_row_count_bounds(g[rows - 1]@, cols, f);
        assert(rows * cols == (rows - 1) * cols + cols) by (nonlinear_arith);
        lemma_grid_count_full(g, rows - 1, cols, f);
        lemma_row_count_full(g[rows - 1]@, cols, f);
        assert forall|y: int, i: int| 0 <= y < rows && 0 <= i < cols implies f(#[trigger] g[y]@[i]) by {
            if y == rows - 1 {
                assert(f(g[rows - 1]@[i]));
            }
        }
    }
}

pub proof fn lemma_grid_count_all(g: Seq<Vec<Node>>, rows: int, cols: int, f: spec_fn(Node) -> bool)
    requires
        rows >= 0,
        cols >= 0,
        forall|y: int, i: int| 0 <= y < rows && 0 <= i < cols ==> f(#[trigger] g[y]@[i]),
    ensures
        grid_count(g, rows, cols, f) == rows * cols,
    decreases rows,
{
    if rows > 0 {
        lemma_grid_count_all(g, rows - 1, cols, f);
        lemma_row_count_all(g[rows - 1]@, cols, f);
        assert(grid_count(g, rows - 1, cols, f) == (rows - 1) * cols);
        assert(row_count(g[rows - 1]@, cols, f) == cols);
        assert(rows * cols == (rows - 1) * cols + cols) by (nonlinear_arith);
        assert(grid_count(g, rows, cols, f) == grid_count(g, rows - 1, cols, f) + row_count(g[rows - 1]@, cols, f));
    } else {
        assert(rows * cols == 0) by (nonlinear_arith)
            requires rows == 0,
        ;
    }
}

pub proof fn lemma_grid_count_none(g: Seq<Vec<Node>>, rows: int, cols: int, f: spec_fn(Node) -> bool)
    requires
        rows >= 0,
        cols >= 0,
        forall|y: int, i: int| 0 <= y < rows && 0 <= i < cols ==> !f(#[trigger] g[y]@[i]),
    ensures
        grid_count(g, rows, cols, f) == 0,
    decreases rows,
{
    if rows > 0 {
        lemma_grid_count_none(g, rows - 1, cols, f);
        lemma_row_count_none(g[rows - 1]@, cols, f);
    }
}

} // verus!
