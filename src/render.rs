use vstd::prelude::*;
use crate::maze::{Maze, MazeModel, cell, valid};
use crate::square::Coor;

verus! {

/// Pixels along the inside of a cell, between its walls.
pub const INNER_SIDE: u32 = 3;

/// Pixels from one cell's corner to the next: the inside plus one wall.
pub const BLOCK_SIDE: u32 = 4;

/// A straight wall segment from pixel `(x0, y0)` to pixel `(x1, y1)`.
#[derive(Clone, Copy, Debug, PartialEq, Eq)]
pub struct Wall {
    pub x0: u32,
    pub y0: u32,
    pub x1: u32,
    pub y1: u32,
}

/// A maze picture: a white `width` by `height` canvas with black `walls`.
#[derive(Debug)]
pub struct Drawing {
    pub width: u32,
    pub height: u32,
    pub walls: Vec<Wall>,
}

/// The segment from `(x0, y0)` to `(x1, y1)`.
pub open spec fn seg(x0: nat, y0: nat, x1: nat, y1: nat) -> Wall {
    Wall { x0: x0 as u32, y0: y0 as u32, x1: x1 as u32, y1: y1 as u32 }
}

/// The cell at `(x, y)` has a passage to `(nx, ny)`.
pub open spec fn open_to(m: MazeModel, x: nat, y: nat, nx: int, ny: int) -> bool {
    cell(m, (x as usize, y as usize)).dests.contains((nx as usize, ny as usize))
}

/// The walls of the cell at `(x, y)` for blocks of `s` pixels, in the order
/// top, bottom, right, left; a side is drawn unless it lies inside the grid
/// and the cell has a passage through it.
pub open spec fn cell_walls(m: MazeModel, x: nat, y: nat, s: nat) -> Seq<Wall> {
    let top = if y == 0 || !open_to(m, x, y, x as int, y - 1) {
        seq![seg(x * s, y * s, (x + 1) * s, y * s)]
    } else {
        Seq::empty()
    };
    let bottom = if y + 1 == m.height || !open_to(m, x, y, x as int, y + 1int) {
        seq![seg(x * s, (y + 1) * s, (x + 1) * s, (y + 1) * s)]
    } else {
        Seq::empty()
    };
    let right = if x + 1 == m.width || !open_to(m, x, y, x + 1int, y as int) {
        seq![seg((x + 1) * s, y * s, (x + 1) * s, (y + 1) * s)]
    } else {
        Seq::empty()
    };
    let left = if x == 0 || !open_to(m, x, y, x - 1, y as int) {
        seq![seg(x * s, y * s, x * s, (y + 1) * s)]
    } else {
        Seq::empty()
    };
    top + bottom + right + left
}

/// The walls of the cells `(x, 0)` to `(x, y - 1)`, in that order.
pub open spec fn column_walls(m: MazeModel, x: nat, y: nat, s: nat) -> Seq<Wall>
    decreases y,
{
    if y == 0 {
        Seq::empty()
    } else {
        column_walls(m, x, (y - 1) as nat, s) + cell_walls(m, x, (y - 1) as nat, s)
    }
}

/// The walls of the columns `0` to `x - 1`, each column top to bottom.
pub open spec fn grid_walls(m: MazeModel, x: nat, s: nat) -> Seq<Wall>
    decreases x,
{
    if x == 0 {
        Seq::empty()
    } else {
        grid_walls(m, (x - 1) as nat, s) + column_walls(m, (x - 1) as nat, m.height, s)
    }
}

/// Blocks of `s` pixels are at least one pixel wide, and the picture's pixels
/// fit a `u32` on both axes.
pub open spec fn fits(m: MazeModel, s: nat) -> bool {
    s >= 1 && m.width * s + 1 <= u32::MAX && m.height * s + 1 <= u32::MAX
}

/// Whether `v` holds `c`.
fn has_dest(v: &Vec<Coor>, c: Coor) -> (r: bool)
    ensures
        r == v@.contains(c),
{
    let mut i: usize = 0;
    while i < v.len()
        invariant
            i <= v@.len(),
            forall|k: int| 0 <= k < i ==> v@[k] != c,
        decreases v.len() - i,
    {
        if v[i].0 == c.0 && v[i].1 == c.1 {
            assert(v@[i as int] == c);
            return true;
        }
        i += 1;
    }
    false
}

impl Maze {
    /// The walls of the cell at `(x, y)` for blocks of `side` pixels.
    fn walls_of(&self, x: usize, y: usize, side: u32, out: &mut Vec<Wall>)
        requires
            self.wf(),
            valid(self@, (x, y)),
            fits(self@, side as nat),
        ensures
            final(out)@ == old(out)@ + cell_walls(self@, x as nat, y as nat, side as nat),
    {
        let ghost m = self@;
        let ghost (xn, yn, s) = (x as nat, y as nat, side as nat);
        proof {
            assert((x + 1) * s <= m.width * s && (y + 1) * s <= m.height * s) by (nonlinear_arith)
                requires x < m.width, y < m.height;
            assert(x * s <= (x + 1) * s && y * s <= (y + 1) * s) by (nonlinear_arith);
            assert(m.width <= m.width * s && m.height <= m.height * s) by (nonlinear_arith)
                requires s >= 1;
        }
        let dests = self.at((x, y)).dest();
        let x0 = x as u32 * side;
        let y0 = y as u32 * side;
        let x1 = (x as u32 + 1) * side;
        let y1 = (y as u32 + 1) * side;
        if y == 0 || !has_dest(dests, (x, y - 1)) {
            out.push(Wall { x0, y0, x1, y1: y0 });
        }
        if y == self.height() - 1 || !has_dest(dests, (x, y + 1)) {
            out.push(Wall { x0, y0: y1, x1, y1 });
        }
        if x == self.width() - 1 || !has_dest(dests, (x + 1, y)) {
            out.push(Wall { x0: x1, y0, x1, y1 });
        }
        if x == 0 || !has_dest(dests, (x - 1, y)) {
            out.push(Wall { x0, y0, x1: x0, y1 });
        }
        assert(final(out)@ =~= old(out)@ + cell_walls(m, xn, yn, s));
    }

    /// Every wall of the maze for blocks of `side` pixels, column by column,
    /// each column top to bottom.
    pub fn walls(&self, side: u32) -> (r: Vec<Wall>)
        requires
            self.wf(),
            fits(self@, side as nat),
        ensures
            r@ == grid_walls(self@, self@.width, side as nat),
    {
        let w = self.width();
        let h = self.height();
        let mut out: Vec<Wall> = Vec::new();
        let mut x: usize = 0;
        while x < w
            invariant
                self.wf(),
                fits(self@, side as nat),
                w == self@.width,
                h == self@.height,
                x <= w,
                out@ == grid_walls(self@, x as nat, side as nat),
            decreases w - x,
        {
            let mut y: usize = 0;
            let ghost before = out@;
            while y < h
                invariant
                    self.wf(),
                    fits(self@, side as nat),
                    w == self@.width,
                    h == self@.height,
                    x < w,
                    y <= h,
                    out@ == before + column_walls(self@, x as nat, y as nat, side as nat),
                decreases h - y,
            {
                self.walls_of(x, y, side, &mut out);
                proof {
                    assert(column_walls(self@, x as nat, (y + 1) as nat, side as nat)
                        == column_walls(self@, x as nat, y as nat, side as nat)
                            + cell_walls(self@, x as nat, y as nat, side as nat));
                    assert(before + column_walls(self@, x as nat, (y + 1) as nat, side as nat)
                        =~= before + column_walls(self@, x as nat, y as nat, side as nat)
                            + cell_walls(self@, x as nat, y as nat, side as nat));
                }
                y += 1;
            }
            x += 1;
        }
        out
    }

    /// The picture of the maze with blocks of `side` pixels: a canvas of
    /// `width * side + 1` by `height * side + 1` pixels and every wall.
    pub fn render_with_side(&self, side: u32) -> (r: Drawing)
        requires
            self.wf(),
            fits(self@, side as nat),
        ensures
            r.width == self@.width * side + 1,
            r.height == self@.height * side + 1,
            r.walls@ == grid_walls(self@, self@.width, side as nat),
    {
        let walls = self.walls(side);
        proof {
            assert(self@.width <= self@.width * side && self@.height <= self@.height * side)
                by (nonlinear_arith) requires side >= 1;
        }
        Drawing {
            width: self.width() as u32 * side + 1,
            height: self.height() as u32 * side + 1,
            walls,
        }
    }

    /// The picture of the maze with the standard blocks of `BLOCK_SIDE` pixels.
    pub fn render(&self) -> (r: Drawing)
        requires
            self.wf(),
            fits(self@, BLOCK_SIDE as nat),
        ensures
            r.width == self@.width * BLOCK_SIDE + 1,
            r.height == self@.height * BLOCK_SIDE + 1,
            r.walls@ == grid_walls(self@, self@.width, BLOCK_SIDE as nat),
    {
        self.render_with_side(BLOCK_SIDE)
    }
}

} // verus!
