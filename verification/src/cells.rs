//! Solid and fluid cells of the fine main block.
use vstd::prelude::*;
use crate::parameters::{NI_M, NJ_M};
use crate::grid::{node, in_grid, lemma_node, lemma_node_inj};

verus! {

/// State of a node: `Dead` is solid (an obstacle), `Alive` is fluid.
#[derive(Clone, Copy, Debug, PartialEq, Eq, Structural)]
pub enum Cell {
    Dead,
    Alive,
}

/// A node of the main block, by column `i` and row `j`.
#[derive(Clone, Copy, Debug, PartialEq, Eq, Structural)]
pub struct Index {
    pub i: usize,
    pub j: usize,
}

/// Solid/fluid map of the main block, row by row (`cell[j * NI_M + i]`).
#[derive(Debug)]
pub struct Boundary {
    pub cell: Vec<Cell>,
}

/// Number of nodes of the main block.
pub open spec fn n_main() -> int {
    NI_M as int * NJ_M as int
}

impl Boundary {
    /// The map holds one cell for each node of the main block.
    pub open spec fn wf(&self) -> bool {
        self.cell@.len() == n_main()
    }

    /// A map in which every node is fluid.
    pub fn new() -> (b: Self)
        ensures
            b.wf(),
            forall|p: int| 0 <= p < n_main() ==> #[trigger] b.cell@[p] == Cell::Alive,
    {
        let n: usize = NI_M * NJ_M;
        let mut cell: Vec<Cell> = Vec::new();
        for p in 0..n
            invariant
                n == n_main(),
                cell@.len() == p,
                forall|q: int| 0 <= q < p ==> #[trigger] cell@[q] == Cell::Alive,
        {
            cell.push(Cell::Alive);
        }
        Boundary { cell }
    }

    /// Makes solid exactly the nodes of the cylinder (see `in_cylinder`);
    /// every other node becomes fluid.
    pub fn set_cylinder(&mut self)
        requires
            old(self).wf(),
        ensures
            final(self).wf(),
            forall|j: int, i: int|
                in_grid(NI_M as int, NJ_M as int, j, i) ==> #[trigger] final(self).cell@[node(
                    NI_M as int,
                    j,
                    i,
                )] == (if in_cylinder(j, i) { Cell::Dead } else { Cell::Alive }),
    {
        let j_c: usize = NJ_M / 2;
        let i_c: usize = j_c;
        for j in 0..NJ_M
            invariant
                j_c == NJ_M / 2,
                i_c == j_c,
                self.wf(),
                forall|jj: int, ii: int|
                    in_grid(NI_M as int, j as int, jj, ii) ==> #[trigger] self.cell@[node(
                        NI_M as int,
                        jj,
                        ii,
                    )] == (if in_cylinder(jj, ii) { Cell::Dead } else { Cell::Alive }),
        {
            for i in 0..NI_M
                invariant
                    0 <= j < NJ_M,
                    j_c == NJ_M / 2,
                    i_c == j_c,
                    self.wf(),
                    forall|jj: int, ii: int|
                        (in_grid(NI_M as int, j as int, jj, ii) || (jj == j && 0 <= ii < i))
                            ==> #[trigger] self.cell@[node(NI_M as int, jj, ii)] == (if in_cylinder(
                            jj,
                            ii,
                        ) {
                            Cell::Dead
                        } else {
                            Cell::Alive
                        }),
            {
                let di: usize = if i >= i_c { i - i_c } else { i_c - i };
                let dj: usize = if j >= j_c { j - j_c } else { j_c - j };
                assert(di * di == (i - i_c) * (i - i_c)) by (nonlinear_arith)
                    requires
                        di == i - i_c || di == i_c - i,
                ;
                assert(dj * dj == (j - j_c) * (j - j_c)) by (nonlinear_arith)
                    requires
                        dj == j - j_c || dj == j_c - j,
                ;
                assert(di * di <= 200 * 200 && dj * dj <= 200 * 200) by (nonlinear_arith)
                    requires
                        di <= 200,
                        dj <= 200,
                ;
                let d2: usize = di * di + dj * dj;
                proof {
                    lemma_node(NI_M as int, NJ_M as int, j as int, i as int);
                }
                let p = j * NI_M + i;
                let ghost prev = self.cell@;
                if 64 * d2 < NJ_M * NJ_M {
                    self.cell.set(p, Cell::Dead);
                } else {
                    self.cell.set(p, Cell::Alive);
                }
                proof {
                    assert forall|jj: int, ii: int|
                        (in_grid(NI_M as int, j as int, jj, ii) || (jj == j && 0 <= ii < i + 1))
                            implies #[trigger] self.cell@[node(NI_M as int, jj, ii)] == (
                        if in_cylinder(jj, ii) {
                            Cell::Dead
                        } else {
                            Cell::Alive
                        }) by {
                        lemma_node(NI_M as int, NJ_M as int, jj, ii);
                        if !(jj == j && ii == i) {
                            if node(NI_M as int, jj, ii) == node(NI_M as int, j as int, i as int) {
                                lemma_node_inj(NI_M as int, jj, ii, j as int, i as int);
                            }
                            assert(self.cell@[node(NI_M as int, jj, ii)] == prev[node(NI_M as int, jj, ii)]);
                        }
                    }
                }
            }
        }
    }

    /// Makes solid exactly the nodes whose entry of `mask` is zero; every other
    /// node becomes fluid. `mask` is laid out like the map.
    pub fn set_mask(&mut self, mask: &Vec<u8>)
        requires
            old(self).wf(),
            mask@.len() == n_main(),
        ensures
            final(self).wf(),
            forall|p: int|
                0 <= p < n_main() ==> #[trigger] final(self).cell@[p] == (if mask@[p] == 0 {
                    Cell::Dead
                } else {
                    Cell::Alive
                }),
    {
        let n: usize = NI_M * NJ_M;
        for p in 0..n
            invariant
                n == n_main(),
                self.wf(),
                mask@.len() == n_main(),
                forall|q: int|
                    0 <= q < p ==> #[trigger] self.cell@[q] == (if mask@[q] == 0 {
                        Cell::Dead
                    } else {
                        Cell::Alive
                    }),
        {
            if mask[p] == 0 {
                self.cell.set(p, Cell::Dead);
            } else {
                self.cell.set(p, Cell::Alive);
            }
        }
    }

    /// Makes every node fluid.
    pub fn init(&mut self)
        requires
            old(self).wf(),
        ensures
            final(self).wf(),
            forall|p: int| 0 <= p < n_main() ==> #[trigger] final(self).cell@[p] == Cell::Alive,
    {
        let n: usize = NI_M * NJ_M;
        for p in 0..n
            invariant
                n == n_main(),
                self.wf(),
                forall|q: int| 0 <= q < p ==> #[trigger] self.cell@[q] == Cell::Alive,
        {
            self.cell.set(p, Cell::Alive);
        }
    }
}

/// Whether node (j, i) of the map is solid.
pub open spec fn dead_at(cells: Seq<Cell>, j: int, i: int) -> bool {
    cells[node(NI_M as int, j, i)] == Cell::Dead
}

/// Whether node (j, i) of the map is fluid.
pub open spec fn alive_node(cells: Seq<Cell>, j: int, i: int) -> bool {
    cells[node(NI_M as int, j, i)] == Cell::Alive
}

/// Whether node (j, i) lies strictly inside the cylinder: the circle of radius
/// NJ_M / 8 around node (NJ_M / 2, NJ_M / 2), with integer centre coordinates.
pub open spec fn in_cylinder(j: int, i: int) -> bool {
    let c = NJ_M as int / 2;
    64 * ((i - c) * (i - c) + (j - c) * (j - c)) < NJ_M as int * NJ_M as int
}

} // verus!
