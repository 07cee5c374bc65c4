//! The square lattice of byte cells shared by the occupancy grid and the two
//! trace grids.
//!
//! A grid with parameter `pic_size` has coordinates `0..=pic_size` on each
//! axis, so its side is `pic_size + 1`; cell `(x, y)` is stored at
//! `x + y * (pic_size + 1)`.

use vstd::prelude::*;

verus! {

/// Value of a frozen particle in the occupancy grid, and of a marked cell in
/// a trace grid.
pub const FROZEN: u8 = 250;

/// Position of cell `(x, y)` in the row-major storage of a grid with
/// parameter `p`.
pub open spec fn cell_index(p: int, x: int, y: int) -> int {
    x + y * (p + 1)
}

/// `(x, y)` is a coordinate of a grid with parameter `p`.
pub open spec fn in_grid(p: int, x: int, y: int) -> bool {
    0 <= x <= p && 0 <= y <= p
}

/// Cell value after one halo increment: one more, held at 255.
pub open spec fn halo_inc(v: u8) -> u8 {
    if v == 255 {
        255
    } else {
        (v + 1) as u8
    }
}

/// The storage positions of the cells of a grid are within its length and
/// distinct for distinct cells.
pub proof fn lemma_cell_index(p: int, x: int, y: int, x2: int, y2: int)
    requires
        0 <= p,
        in_grid(p, x, y),
        in_grid(p, x2, y2),
    ensures
        0 <= cell_index(p, x, y) < (p + 1) * (p + 1),
        (x, y) != (x2, y2) ==> cell_index(p, x, y) != cell_index(p, x2, y2),
{
    assert(0 <= cell_index(p, x, y) < (p + 1) * (p + 1)) by (nonlinear_arith)
        requires
            0 <= x <= p,
            0 <= y <= p,
    ;
    if y < y2 {
        assert(cell_index(p, x, y) < cell_index(p, x2, y2)) by (nonlinear_arith)
            requires
                0 <= x <= p,
                0 <= x2,
                y < y2,
        ;
    } else if y2 < y {
        assert(cell_index(p, x2, y2) < cell_index(p, x, y)) by (nonlinear_arith)
            requires
                0 <= x2 <= p,
                0 <= x,
                y2 < y,
        ;
    }
}

proof fn lemma_side_fits(p: int)
    requires
        0 <= p,
        (p + 1) * (p + 1) <= usize::MAX,
    ensures
        p + 1 <= usize::MAX,
{
    assert(p + 1 <= (p + 1) * (p + 1)) by (nonlinear_arith)
        requires
            0 <= p,
    ;
}

/// A square grid of byte cells.
pub struct Grid {
    /// Largest coordinate on each axis.
    pub pic_size: usize,
    /// The cells, row by row.
    pub cells: Vec<u8>,
}

impl Grid {
    /// The storage holds exactly one byte per cell.
    pub open spec fn wf(&self) -> bool {
        &&& self.cells@.len() == (self.pic_size + 1) * (self.pic_size + 1)
        &&& (self.pic_size + 1) * (self.pic_size + 1) <= usize::MAX
    }

    /// Value of cell `(x, y)`.
    pub open spec fn at(&self, x: int, y: int) -> u8 {
        self.cells@[cell_index(self.pic_size as int, x, y)]
    }

    /// A grid of side `pic_size + 1` whose cells are all zero.
    pub fn new(pic_size: usize) -> (g: Grid)
        requires
            (pic_size + 1) * (pic_size + 1) <= usize::MAX,
        ensures
            g.wf(),
            g.pic_size == pic_size,
            forall|i: int| 0 <= i < g.cells@.len() ==> g.cells@[i] == 0,
    {
        proof {
            lemma_side_fits(pic_size as int);
        }
        let side = pic_size + 1;
        let n = side * side;
        let mut cells: Vec<u8> = Vec::new();
        while cells.len() < n
            invariant
                cells@.len() <= n,
                forall|i: int| 0 <= i < cells@.len() ==> cells@[i] == 0,
            decreases n - cells@.len(),
        {
            cells.push(0);
        }
        Grid { pic_size, cells }
    }

    /// Number of cells on each side.
    pub fn side(&self) -> (s: usize)
        requires
            self.wf(),
        ensures
            s == self.pic_size + 1,
    {
        proof {
            lemma_side_fits(self.pic_size as int);
        }
        self.pic_size + 1
    }

    /// Value of cell `(x, y)`.
    pub fn get(&self, x: usize, y: usize) -> (v: u8)
        requires
            self.wf(),
            in_grid(self.pic_size as int, x as int, y as int),
        ensures
            v == self.at(x as int, y as int),
    {
        let i = self.index(x, y);
        self.cells[i]
    }

    /// Storage position of cell `(x, y)`.
    fn index(&self, x: usize, y: usize) -> (i: usize)
        requires
            self.wf(),
            in_grid(self.pic_size as int, x as int, y as int),
        ensures
            i == cell_index(self.pic_size as int, x as int, y as int),
            i < self.cells@.len(),
    {
        proof {
            let p = self.pic_size as int;
            lemma_side_fits(p);
            lemma_cell_index(p, x as int, y as int, x as int, y as int);
            assert(y * (p + 1) <= cell_index(p, x as int, y as int));
        }
        x + y * (self.pic_size + 1)
    }

    /// Sets cell `(x, y)` to `v`, leaving the others.
    pub fn set(&mut self, x: usize, y: usize, v: u8)
        requires
            old(self).wf(),
            in_grid(old(self).pic_size as int, x as int, y as int),
        ensures
            final(self).pic_size == old(self).pic_size,
            final(self).cells@ == old(self).cells@.update(
                cell_index(old(self).pic_size as int, x as int, y as int),
                v,
            ),
            final(self).wf(),
    {
        let i = self.index(x, y);
        self.cells.set(i, v);
    }

    /// Adds one to cell `(x, y)`, holding it at 255.
    pub fn bump(&mut self, x: usize, y: usize)
        requires
            old(self).wf(),
            in_grid(old(self).pic_size as int, x as int, y as int),
        ensures
            final(self).pic_size == old(self).pic_size,
            final(self).cells@ == old(self).cells@.update(
                cell_index(old(self).pic_size as int, x as int, y as int),
                halo_inc(old(self).at(x as int, y as int)),
            ),
            final(self).wf(),
    {
        let i = self.index(x, y);
        let v = self.cells[i].saturating_add(1);
        self.cells.set(i, v);
    }
}

} // verus!
