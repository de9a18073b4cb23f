//! The dense four-dimensional grid: a `Vec` in row-major order behind an
//! exact cell-indexed view.

use vstd::prelude::*;
use crate::space::{Pos, in_grid, flat_idx, lemma_flat_parts, lemma_flat_idx_inj};

verus! {

/// The state of one grid cell.
#[derive(Clone, Copy, PartialEq, Eq, Structural, Debug)]
pub enum Cell {
    /// Carved and passable.
    Empty,
    /// Impassable; the initial state of every cell.
    Wall,
    /// Passable and terminal for the solver.
    Goal,
}

/// A dense `size^4` array of `T`, indexed by 4-tuple positions with all
/// coordinates in `[0, size)`.
pub struct Grid<T> {
    size: usize,
    cells: Vec<T>,
}

impl<T: Copy> Grid<T> {
    /// The fixed odd side length along each of the four axes.
    pub closed spec fn size(self) -> int {
        self.size as int
    }

    /// The backing row-major sequence of cells.
    pub closed spec fn data(self) -> Seq<T> {
        self.cells@
    }

    /// Well-formed: odd side length in `[3, 63]` and a fully allocated
    /// backing array.
    pub open spec fn wf(self) -> bool {
        &&& 3 <= self.size() <= 63
        &&& self.size() % 2 == 1
        &&& self.data().len() == self.size() * self.size() * self.size() * self.size()
    }

    /// The cell at position `p`.
    pub open spec fn cell(self, p: (int, int, int, int)) -> T {
        self.data()[flat_idx(self.size(), p)]
    }

    /// Allocates a grid with every cell set to `fill`.
    pub fn new(size: usize, fill: T) -> (g: Self)
        requires
            3 <= size <= 63,
            size % 2 == 1,
        ensures
            g.wf(),
            g.size() == size,
            forall|p: (int, int, int, int)| in_grid(size as int, p) ==> g.cell(p) == fill,
            forall|i: int| 0 <= i < g.data().len() ==> g.data()[i] == fill,
    {
        proof {
            assert(size * size <= 63 * 63) by (nonlinear_arith)
                requires 0 < size <= 63,
            {}
            assert(size * size * size <= 63 * 63 * 63) by (nonlinear_arith)
                requires 0 < size <= 63, size * size <= 63 * 63,
            {}
            assert(size * size * size * size <= 63 * 63 * 63 * 63) by (nonlinear_arith)
                requires 0 < size <= 63, size * size * size <= 63 * 63 * 63,
            {}
        }
        let total: usize = size * size * size * size;
        let mut cells: Vec<T> = Vec::new();
        while cells.len() < total
            invariant
                cells@.len() <= total,
                forall|i: int| 0 <= i < cells@.len() ==> cells@[i] == fill,
            decreases total - cells@.len(),
        {
            cells.push(fill);
        }
        let g = Grid { size, cells };
        proof {
            assert forall|p: (int, int, int, int)| in_grid(size as int, p)
                implies g.cell(p) == fill by {
                lemma_flat_parts(size as int, p);
            }
        }
        g
    }

    /// The side length as a machine integer.
    pub fn side(&self) -> (s: usize)
        ensures
            s as int == self.size(),
    {
        self.size
    }

    /// Reads the cell at `p`.
    pub fn get(&self, p: Pos) -> (c: T)
        requires
            self.wf(),
            in_grid(self.size(), p.at()),
        ensures
            c == self.cell(p.at()),
    {
        let i = self.flat_of(p);
        self.cells[i]
    }

    /// Writes `v` at `p`; every other cell is unchanged.
    pub fn set(&mut self, p: Pos, v: T)
        requires
            old(self).wf(),
            in_grid(old(self).size(), p.at()),
        ensures
            final(self).wf(),
            final(self).size() == old(self).size(),
            final(self).data() == old(self).data().update(
                flat_idx(final(self).size(), p.at()), v),
            final(self).cell(p.at()) == v,
            forall|q: (int, int, int, int)|
                in_grid(final(self).size(), q) && q != p.at()
                    ==> final(self).cell(q) == old(self).cell(q),
    {
        let i = self.flat_of(p);
        self.cells.set(i, v);
        proof {
            assert forall|q: (int, int, int, int)|
                in_grid(self.size(), q) && q != p.at()
                implies self.cell(q) == old(self).cell(q) by {
                lemma_flat_parts(self.size(), q);
                if flat_idx(self.size(), q) == flat_idx(self.size(), p.at()) {
                    lemma_flat_idx_inj(self.size(), q, p.at());
                }
            }
        }
    }

    /// Computes the flat row-major index of `p`.
    fn flat_of(&self, p: Pos) -> (i: usize)
        requires
            self.wf(),
            in_grid(self.size(), p.at()),
        ensures
            i == flat_idx(self.size(), p.at()),
            i < self.data().len(),
    {
        proof {
            lemma_flat_parts(self.size(), p.at());
            let s = self.size();
            assert(s * s <= 63 * 63) by (nonlinear_arith)
                requires 0 < s <= 63,
            {}
            assert(s * s * s <= 63 * 63 * 63) by (nonlinear_arith)
                requires 0 < s <= 63, s * s <= 63 * 63,
            {}
            assert(s * s * s * s <= 63 * 63 * 63 * 63) by (nonlinear_arith)
                requires 0 < s <= 63, s * s * s <= 63 * 63 * 63,
            {}
        }
        ((p.x * self.size + p.y) * self.size + p.z) * self.size + p.w
    }
}

} // verus!
