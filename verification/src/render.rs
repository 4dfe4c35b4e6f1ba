use vstd::prelude::*;
use crate::maze::Maze;
use vstd::arithmetic::div_mod::lemma_fundamental_div_mod;
use vstd::arithmetic::div_mod::lemma_fundamental_div_mod_converse;

verus! {

/// The cell `(x, y)`, drawn at `cell_size` pixels a side, paints the
/// pixel `(px, py)` dark: the pixel lies on one of the cell's present
/// walls — its top or bottom pixel row, or its left or right pixel
/// column.
pub open spec fn cell_paints(m: Maze, cs: int, x: int, y: int, px: int, py: int) -> bool {
    m.in_bounds(x, y) && ({
        ||| (m.wall(x, y, 0) && py == y * cs && x * cs <= px < x * cs + cs)
        ||| (m.wall(x, y, 1) && px == x * cs + cs - 1 && y * cs <= py < y * cs + cs)
        ||| (m.wall(x, y, 2) && py == y * cs + cs - 1 && x * cs <= px < x * cs + cs)
        ||| (m.wall(x, y, 3) && px == x * cs && y * cs <= py < y * cs + cs)
    })
}

/// A pixel of the rendered maze is dark exactly when some cell's
/// present wall covers it.
pub open spec fn wall_pixel(m: Maze, cs: int, px: int, py: int) -> bool {
    exists|x: int, y: int| #[trigger] cell_paints(m, cs, x, y, px, py)
}

/// Each cell paints only pixels of its own `cell_size`-sized square,
/// so the cell owning a painted pixel is the one the pixel falls in.
proof fn lemma_painter_is_own_cell(m: Maze, cs: int, x: int, y: int, px: int, py: int)
    requires
        cs >= 1,
        px >= 0,
        py >= 0,
        cell_paints(m, cs, x, y, px, py),
    ensures
        x == px / cs,
        y == py / cs,
{
    if m.wall(x, y, 0) && py == y * cs && x * cs <= px < x * cs + cs {
        lemma_fundamental_div_mod_converse(px, cs, x, px - x * cs);
        lemma_fundamental_div_mod_converse(py, cs, y, 0);
    } else if m.wall(x, y, 1) && px == x * cs + cs - 1 && y * cs <= py < y * cs + cs {
        lemma_fundamental_div_mod_converse(px, cs, x, cs - 1);
        lemma_fundamental_div_mod_converse(py, cs, y, py - y * cs);
    } else if m.wall(x, y, 2) && py == y * cs + cs - 1 && x * cs <= px < x * cs + cs {
        lemma_fundamental_div_mod_converse(px, cs, x, px - x * cs);
        lemma_fundamental_div_mod_converse(py, cs, y, cs - 1);
    } else {
        lemma_fundamental_div_mod_converse(px, cs, x, 0);
        lemma_fundamental_div_mod_converse(py, cs, y, py - y * cs);
    }
}

impl Maze {
    /// Whether the rendered image's pixel `(px, py)` lies on a wall.
    fn pixel_is_wall(&self, cell_size: usize, px: usize, py: usize) -> (dark: bool)
        requires
            self.grid_wf(),
            cell_size >= 1,
            self.width * cell_size <= usize::MAX,
            self.height * cell_size <= usize::MAX,
            px < self.width * cell_size,
            py < self.height * cell_size,
        ensures
            dark == wall_pixel(*self, cell_size as int, px as int, py as int),
    {
        let cx = px / cell_size;
        let cy = py / cell_size;
        proof {
            let pxi = px as int;
            let pyi = py as int;
            let csi = cell_size as int;
            let w = self.width as int;
            let h = self.height as int;
            lemma_fundamental_div_mod(pxi, csi);
            lemma_fundamental_div_mod(pyi, csi);
            let qx = pxi / csi;
            let rx = pxi % csi;
            let qy = pyi / csi;
            let ry = pyi % csi;
            assert(qx < w && qx * csi <= pxi < qx * csi + csi) by (nonlinear_arith)
                requires pxi < w * csi, csi >= 1, pxi == csi * qx + rx, 0 <= rx < csi,
            ;
            assert(qy < h && qy * csi <= pyi < qy * csi + csi) by (nonlinear_arith)
                requires pyi < h * csi, csi >= 1, pyi == csi * qy + ry, 0 <= ry < csi,
            ;
            assert(qx * csi + csi <= w * csi) by (nonlinear_arith)
                requires qx < w, csi >= 1,
            ;
            assert(qy * csi + csi <= h * csi) by (nonlinear_arith)
                requires qy < h, csi >= 1,
            ;
        }
        let node = self.node_copy(cx, cy);
        let dark = (node.walls[0] && py == cy * cell_size) || (node.walls[1] && px == cx
            * cell_size + cell_size - 1) || (node.walls[2] && py == cy * cell_size + cell_size - 1)
            || (node.walls[3] && px == cx * cell_size);
        proof {
            if dark {
                assert(cell_paints(*self, cell_size as int, cx as int, cy as int, px as int, py as int));
            }
            if wall_pixel(*self, cell_size as int, px as int, py as int) {
                let (x, y) = choose|x: int, y: int|
                    #[trigger] cell_paints(*self, cell_size as int, x, y, px as int, py as int);
                lemma_painter_is_own_cell(*self, cell_size as int, x, y, px as int, py as int);
                assert(x == cx as int && y == cy as int);
            }
        }
        dark
    }

    /// Renders the maze to a flat row-major buffer of
    /// `width*cell_size` by `height*cell_size` pixels, `true` for a
    /// pixel lying on a present wall and `false` for background.
    /// Encoding pixels into an image file is its caller's business.
    pub fn wall_pixels(&self, cell_size: usize) -> (r: Vec<bool>)
        requires
            self.grid_wf(),
            cell_size >= 1,
            self.width * cell_size <= usize::MAX,
            self.height * cell_size <= usize::MAX,
            (self.width * cell_size) * (self.height * cell_size) <= usize::MAX,
        ensures
            r@.len() == (self.width * cell_size) * (self.height * cell_size),
            forall|px: int, py: int|
                0 <= px < self.width * cell_size && 0 <= py < self.height * cell_size
                    ==> #[trigger] r@[py * (self.width * cell_size) + px] == wall_pixel(
                    *self,
                    cell_size as int,
                    px,
                    py,
                ),
    {
        let img_width: usize = self.width * cell_size;
        let img_height: usize = self.height * cell_size;
        proof {
            assert((self.width * cell_size) * (self.height * cell_size) == (img_width as int) * (
            img_height as int) && (img_width as int) * (img_height as int) == (img_height as int)
                * (img_width as int)) by (nonlinear_arith)
                requires img_width == self.width * cell_size, img_height == self.height * cell_size,
            ;
        }
        let mut r: Vec<bool> = Vec::new();
        let mut py: usize = 0;
        while py < img_height
            invariant
                self.grid_wf(),
                cell_size >= 1,
                img_width == self.width * cell_size,
                img_height == self.height * cell_size,
                (img_width as int) * (img_height as int) <= usize::MAX,
                py <= img_height,
                r@.len() == py * img_width,
                forall|qx: int, qy: int|
                    0 <= qx < img_width && 0 <= qy < py ==> #[trigger] r@[qy * (img_width as int)
                        + qx] == wall_pixel(*self, cell_size as int, qx, qy),
            decreases img_height - py,
        {
            let mut px: usize = 0;
            proof {
                assert((py + 1) * (img_width as int) == py * (img_width as int) + img_width)
                    by (nonlinear_arith);
                assert((py + 1) * (img_width as int) <= (img_height as int) * (img_width as int))
                    by (nonlinear_arith)
                    requires py < img_height,
                ;
                assert((img_height as int) * (img_width as int) == (img_width as int) * (
                img_height as int)) by (nonlinear_arith);
            }
            while px < img_width
                invariant
                    self.grid_wf(),
                    cell_size >= 1,
                    img_width == self.width * cell_size,
                    img_height == self.height * cell_size,
                    py < img_height,
                    px <= img_width,
                    py * (img_width as int) + img_width <= usize::MAX,
                    r@.len() == py * img_width + px,
                    forall|qx: int, qy: int|
                        0 <= qx < img_width && 0 <= qy < py ==> #[trigger] r@[qy * (
                        img_width as int) + qx] == wall_pixel(*self, cell_size as int, qx, qy),
                    forall|qx: int|
                        0 <= qx < px ==> #[trigger] r@[py * (img_width as int) + qx] == wall_pixel(
                            *self,
                            cell_size as int,
                            qx,
                            py as int,
                        ),
                decreases img_width - px,
            {
                let dark = self.pixel_is_wall(cell_size, px, py);
                r.push(dark);
                proof {
                    assert forall|qx: int, qy: int|
                        0 <= qx < img_width && 0 <= qy < py implies #[trigger] r@[qy * (
                        img_width as int) + qx] == wall_pixel(*self, cell_size as int, qx, qy) by {
                        assert(qy * (img_width as int) + qx < py * (img_width as int))
                            by (nonlinear_arith)
                            requires 0 <= qx < img_width, 0 <= qy < py,
                        ;
                    }
                }
                px = px + 1;
            }
            py = py + 1;
            proof {
                assert(py * img_width == (py - 1) * (img_width as int) + img_width)
                    by (nonlinear_arith);
                assert forall|qx: int, qy: int|
                    0 <= qx < img_width && 0 <= qy < py implies #[trigger] r@[qy * (
                    img_width as int) + qx] == wall_pixel(*self, cell_size as int, qx, qy) by {
                    if qy < py - 1 {
                        assert(qy * (img_width as int) + qx < (py - 1) * (img_width as int))
                            by (nonlinear_arith)
                            requires 0 <= qx < img_width, 0 <= qy < py - 1,
                        ;
                    }
                }
            }
        }
        r
    }
}

} // verus!
