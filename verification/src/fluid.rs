//! Geometry and picture state of the solver: the solid map of the main block,
//! the fluid nodes that face a solid node, and the RGB plot buffer.
use vstd::prelude::*;
use crate::parameters::{NI_M, NJ_M, NI_PLOT, NJ_PLOT, N_RGB, RAT_PLOT, lemma_sizes};
use crate::grid::{node, in_grid, lemma_node};
use crate::cells::{Boundary, Cell, Index, dead_at, alive_node, n_main};
use crate::plot::{Plot, CMap, in_cells, cell_byte, before_rows, solid_color, fluid_color, channel, lemma_cell_byte, lemma_paint_pixel};
use crate::cells::in_cylinder;

verus! {

/// The node reached from node (j, i) by the offset (dj, di), as an `Index`.
pub open spec fn target(dj: int, di: int, j: int, i: int) -> Index {
    Index { i: (i + di) as usize, j: (j + dj) as usize }
}

/// Whether solid node (j, i) has a fluid neighbour at offset (dj, di).
pub open spec fn faces_fluid(cells: Seq<Cell>, dj: int, di: int, j: int, i: int) -> bool {
    &&& dead_at(cells, j, i)
    &&& in_grid(NI_M as int, NJ_M as int, j + dj, i + di)
    &&& alive_node(cells, j + dj, i + di)
}

/// What the scan of node (j, i) adds to the list of offset (dj, di).
pub open spec fn face_item(cells: Seq<Cell>, dj: int, di: int, j: int, i: int) -> Seq<Index> {
    if faces_fluid(cells, dj, di, j, i) {
        seq![target(dj, di, j, i)]
    } else {
        Seq::empty()
    }
}

/// The list of offset (dj, di) gathered from the first `i` nodes of row `j`.
pub open spec fn row_faces(cells: Seq<Cell>, dj: int, di: int, j: int, i: int) -> Seq<Index>
    decreases i,
{
    if i <= 0 {
        Seq::empty()
    } else {
        row_faces(cells, dj, di, j, i - 1) + face_item(cells, dj, di, j, i - 1)
    }
}

/// The list of offset (dj, di) gathered from the first `j` rows, scanning rows
/// from the bottom and each row from the left.
pub open spec fn faces(cells: Seq<Cell>, dj: int, di: int, j: int) -> Seq<Index>
    decreases j,
{
    if j <= 0 {
        Seq::empty()
    } else {
        faces(cells, dj, di, j - 1) + row_faces(cells, dj, di, j - 1, NI_M as int)
    }
}

/// Whether `x` is a fluid node whose neighbour at offset (-dj, -di) is a solid node.
pub open spec fn faces_solid(cells: Seq<Cell>, dj: int, di: int, x: Index) -> bool {
    let sj = x.j - dj;
    let si = x.i - di;
    &&& in_grid(NI_M as int, NJ_M as int, sj, si)
    &&& faces_fluid(cells, dj, di, sj, si)
}

/// Whether the solid neighbour of `x` comes before node (j, i) in scan order.
pub open spec fn source_before(dj: int, di: int, x: Index, j: int, i: int) -> bool {
    let sj = x.j - dj;
    let si = x.i - di;
    sj < j || (sj == j && si < i)
}

/// What the scan has gathered before node (j, i), for the offset (dj, di).
pub open spec fn scanned(cells: Seq<Cell>, dj: int, di: int, j: int, i: int) -> Seq<Index> {
    faces(cells, dj, di, j) + row_faces(cells, dj, di, j, i)
}

/// The scan up to node (j, i) holds, once each, exactly the nodes that face a
/// solid node scanned before (j, i).
proof fn lemma_scanned(cells: Seq<Cell>, dj: int, di: int, j: int, i: int)
    requires
        0 <= j <= NJ_M,
        0 <= i <= NI_M,
        j < NJ_M || i == 0,
    ensures
        ({
            let s = scanned(cells, dj, di, j, i);
            &&& forall|k: int|
                0 <= k < s.len() ==> faces_solid(cells, dj, di, #[trigger] s[k]) && source_before(
                    dj,
                    di,
                    s[k],
                    j,
                    i,
                )
            &&& forall|x: Index|
                faces_solid(cells, dj, di, x) && source_before(dj, di, x, j, i) ==> #[trigger] s.contains(x)
            &&& s.no_duplicates()
        }),
    decreases j, i,
{
    let s = scanned(cells, dj, di, j, i);
    if i == 0 {
        assert(row_faces(cells, dj, di, j, 0) =~= Seq::<Index>::empty());
        assert(s =~= faces(cells, dj, di, j));
        if j > 0 {
            lemma_scanned(cells, dj, di, j - 1, NI_M as int);
            assert(s =~= scanned(cells, dj, di, j - 1, NI_M as int));
            assert forall|x: Index|
                faces_solid(cells, dj, di, x) && source_before(dj, di, x, j, i) implies #[trigger] s.contains(x) by {
                assert(source_before(dj, di, x, j - 1, NI_M as int));
            }
        } else {
            assert(s =~= Seq::<Index>::empty());
        }
    } else {
        lemma_scanned(cells, dj, di, j, i - 1);
        let s0 = scanned(cells, dj, di, j, i - 1);
        let item = face_item(cells, dj, di, j, i - 1);
        assert(s =~= s0 + item);
        if faces_fluid(cells, dj, di, j, i - 1) {
            let t = target(dj, di, j, i - 1);
            assert(t.j == j + dj && t.i == i - 1 + di);
            assert(s =~= s0.push(t));
            assert(faces_solid(cells, dj, di, t));
            assert(!s0.contains(t)) by {
                if s0.contains(t) {
                    let k = choose|k: int| 0 <= k < s0.len() && s0[k] == t;
                    assert(source_before(dj, di, s0[k], j, i - 1));
                }
            }
            assert forall|x: Index|
                faces_solid(cells, dj, di, x) && source_before(dj, di, x, j, i) implies #[trigger] s.contains(x) by {
                if source_before(dj, di, x, j, i - 1) {
                    assert(s0.contains(x));
                    let k = choose|k: int| 0 <= k < s0.len() && s0[k] == x;
                    assert(s[k] == x);
                } else {
                    assert(x == t);
                    assert(s[s.len() - 1] == x);
                }
            }
            assert forall|a: int, b: int| 0 <= a < s.len() && 0 <= b < s.len() && a != b implies s[a]
                != s[b] by {
                if a < s0.len() && b < s0.len() {
                } else if a < s0.len() {
                    assert(s0.contains(s[a]));
                } else {
                    assert(s0.contains(s[b]));
                }
            }
        } else {
            assert(item =~= Seq::<Index>::empty());
            assert(s =~= s0);
            assert forall|x: Index|
                faces_solid(cells, dj, di, x) && source_before(dj, di, x, j, i) implies #[trigger] s.contains(x) by {
                assert(source_before(dj, di, x, j, i - 1));
            }
        }
    }
}

/// Each face list holds every fluid node whose neighbour at the opposite offset is
/// solid, holds nothing else, and holds no node twice.
pub proof fn lemma_faces_exact(cells: Seq<Cell>, dj: int, di: int)
    ensures
        ({
            let s = faces(cells, dj, di, NJ_M as int);
            &&& forall|k: int| 0 <= k < s.len() ==> faces_solid(cells, dj, di, #[trigger] s[k])
            &&& forall|x: Index| faces_solid(cells, dj, di, x) ==> #[trigger] s.contains(x)
            &&& s.no_duplicates()
        }),
{
    lemma_scanned(cells, dj, di, NJ_M as int, 0);
    let s = faces(cells, dj, di, NJ_M as int);
    assert(scanned(cells, dj, di, NJ_M as int, 0) =~= s);
    assert forall|x: Index| faces_solid(cells, dj, di, x) implies #[trigger] s.contains(x) by {
        assert(source_before(dj, di, x, NJ_M as int, 0));
    }
}

/// The face list of offset (dj, di) holds a node exactly when that node is an
/// in-grid fluid node whose neighbour at (-dj, -di) is an in-grid solid node,
/// whatever row or column that solid node lies in.
pub proof fn lemma_face_list_members(cells: Seq<Cell>, dj: int, di: int)
    ensures
        forall|x: Index|
            #[trigger] faces(cells, dj, di, NJ_M as int).contains(x) <==> (0 <= x.j - dj < NJ_M
                && 0 <= x.i - di < NI_M && cells[node(NI_M as int, x.j - dj, x.i - di)] == Cell::Dead
                && x.j < NJ_M && x.i < NI_M && cells[node(NI_M as int, x.j as int, x.i as int)]
                == Cell::Alive),
{
    lemma_faces_exact(cells, dj, di);
    let s = faces(cells, dj, di, NJ_M as int);
    assert forall|x: Index| #[trigger] s.contains(x) implies (0 <= x.j - dj < NJ_M && 0 <= x.i - di
        < NI_M && cells[node(NI_M as int, x.j - dj, x.i - di)] == Cell::Dead && x.j < NJ_M && x.i
        < NI_M && cells[node(NI_M as int, x.j as int, x.i as int)] == Cell::Alive) by {
        let k = choose|k: int| 0 <= k < s.len() && s[k] == x;
        assert(faces_solid(cells, dj, di, s[k]));
    }
    assert forall|x: Index|
        (0 <= x.j - dj < NJ_M && 0 <= x.i - di < NI_M && cells[node(NI_M as int, x.j - dj, x.i - di)]
            == Cell::Dead && x.j < NJ_M && x.i < NI_M && cells[node(NI_M as int, x.j as int, x.i as int)]
            == Cell::Alive) implies #[trigger] s.contains(x) by {
        assert(faces_solid(cells, dj, di, x));
    }
}

/// Solver state that is not floating point.
pub struct Fluid {
    /// RGB plot buffer, row by row, three bytes per pixel
    pub rgb: Vec<u8>,
    /// solid map of the main block
    pub bound: Boundary,
    /// painter of the plot buffer
    pub plotter: Plot,
    /// fluid nodes just above a solid node
    pub bound_up: Vec<Index>,
    /// fluid nodes just below a solid node
    pub bound_down: Vec<Index>,
    /// fluid nodes just left of a solid node
    pub bound_left: Vec<Index>,
    /// fluid nodes just right of a solid node
    pub bound_right: Vec<Index>,
}

impl Fluid {
    /// Sizes of the buffer, the map and the colour table.
    pub open spec fn wf(&self) -> bool {
        &&& self.rgb@.len() == N_RGB
        &&& self.bound.wf()
        &&& self.plotter.wf()
    }

    /// A fluid-only map, a black picture painted with the colour table `cmap`,
    /// and empty face lists.
    pub fn new(cmap: CMap) -> (fl: Self)
        requires
            cmap.wf(),
        ensures
            fl.wf(),
            forall|p: int| 0 <= p < N_RGB ==> #[trigger] fl.rgb@[p] == 0,
            forall|p: int| 0 <= p < n_main() ==> #[trigger] fl.bound.cell@[p] == Cell::Alive,
            fl.plotter.cmap == cmap,
            fl.bound_up@.len() == 0,
            fl.bound_down@.len() == 0,
            fl.bound_left@.len() == 0,
            fl.bound_right@.len() == 0,
    {
        let mut rgb: Vec<u8> = Vec::new();
        for p in 0..N_RGB
            invariant
                rgb@.len() == p,
                forall|q: int| 0 <= q < p ==> #[trigger] rgb@[q] == 0,
        {
            rgb.push(0);
        }
        Fluid {
            rgb,
            bound: Boundary::new(),
            plotter: Plot::new(cmap),
            bound_up: Vec::new(),
            bound_down: Vec::new(),
            bound_left: Vec::new(),
            bound_right: Vec::new(),
        }
    }

    /// Places the cylinder (see `Boundary::set_cylinder`).
    pub fn set_cylinder(&mut self)
        requires
            old(self).wf(),
        ensures
            final(self).wf(),
            forall|j: int, i: int|
                in_grid(NI_M as int, NJ_M as int, j, i) ==> #[trigger] final(self).bound.cell@[node(
                    NI_M as int,
                    j,
                    i,
                )] == (if in_cylinder(j, i) { Cell::Dead } else { Cell::Alive }),
            final(self).rgb == old(self).rgb,
            final(self).plotter == old(self).plotter,
            final(self).bound_up == old(self).bound_up,
            final(self).bound_down == old(self).bound_down,
            final(self).bound_left == old(self).bound_left,
            final(self).bound_right == old(self).bound_right,
    {
        self.bound.set_cylinder();
    }

    /// Places the airfoil given by its mask: solid exactly where `airfoil` is zero.
    pub fn set_airfoil(&mut self, airfoil: &Vec<u8>)
        requires
            old(self).wf(),
            airfoil@.len() == n_main(),
        ensures
            final(self).wf(),
            forall|p: int|
                0 <= p < n_main() ==> #[trigger] final(self).bound.cell@[p] == (if airfoil@[p] == 0 {
                    Cell::Dead
                } else {
                    Cell::Alive
                }),
            final(self).rgb == old(self).rgb,
            final(self).plotter == old(self).plotter,
            final(self).bound_up == old(self).bound_up,
            final(self).bound_down == old(self).bound_down,
            final(self).bound_left == old(self).bound_left,
            final(self).bound_right == old(self).bound_right,
    {
        self.bound.set_mask(airfoil);
    }

    /// Places the character shape given by its mask: solid exactly where `na` is zero.
    pub fn set_na(&mut self, na: &Vec<u8>)
        requires
            old(self).wf(),
            na@.len() == n_main(),
        ensures
            final(self).wf(),
            forall|p: int|
                0 <= p < n_main() ==> #[trigger] final(self).bound.cell@[p] == (if na@[p] == 0 {
                    Cell::Dead
                } else {
                    Cell::Alive
                }),
            final(self).rgb == old(self).rgb,
            final(self).plotter == old(self).plotter,
            final(self).bound_up == old(self).bound_up,
            final(self).bound_down == old(self).bound_down,
            final(self).bound_left == old(self).bound_left,
            final(self).bound_right == old(self).bound_right,
    {
        self.bound.set_mask(na);
    }

    /// Number of nodes of the main block in i direction.
    pub fn get_ni_cells(&self) -> (n: usize)
        ensures
            n == NI_M,
    {
        NI_M
    }

    /// Number of nodes of the main block in j direction.
    pub fn get_nj_cells(&self) -> (n: usize)
        ensures
            n == NJ_M,
    {
        NJ_M
    }

    /// Width of the plot in pixels.
    pub fn get_ni(&self) -> (n: usize)
        ensures
            n == NI_PLOT,
    {
        NI_PLOT
    }

    /// Height of the plot in pixels.
    pub fn get_nj(&self) -> (n: usize)
        ensures
            n == NJ_PLOT,
    {
        NJ_PLOT
    }

    /// Pixels per node, in each direction.
    pub fn get_rate_plot(&self) -> (n: usize)
        ensures
            n == RAT_PLOT,
    {
        RAT_PLOT
    }

    /// Makes every node fluid.
    pub fn init_cells(&mut self)
        requires
            old(self).wf(),
        ensures
            final(self).wf(),
            forall|p: int| 0 <= p < n_main() ==> #[trigger] final(self).bound.cell@[p] == Cell::Alive,
            final(self).rgb == old(self).rgb,
            final(self).plotter == old(self).plotter,
            final(self).bound_up == old(self).bound_up,
            final(self).bound_down == old(self).bound_down,
            final(self).bound_left == old(self).bound_left,
            final(self).bound_right == old(self).bound_right,
    {
        self.bound.init();
    }

    /// Draws on node (j, i): with `draw_mode` 0 the node becomes solid and its
    /// square gets the solid colour, otherwise it becomes fluid and its square
    /// gets the fluid colour. Nothing else changes.
    pub fn update_one_cell(&mut self, i: usize, j: usize, draw_mode: usize)
        requires
            old(self).wf(),
            i < NI_M,
            j < NJ_M,
        ensures
            final(self).wf(),
            final(self).bound.cell@ == old(self).bound.cell@.update(
                node(NI_M as int, j as int, i as int),
                if draw_mode == 0 { Cell::Dead } else { Cell::Alive },
            ),
            forall|ci: int, ri: int, cj: int, rj: int, c: int|
                in_cells(ci, ri, cj, rj, c) ==> #[trigger] final(self).rgb@[cell_byte(ci, ri, cj, rj, c)]
                    == if ci == i && cj == j {
                    if draw_mode == 0 { solid_color(c) } else { fluid_color(c) }
                } else {
                    old(self).rgb@[cell_byte(ci, ri, cj, rj, c)]
                },
            final(self).plotter == old(self).plotter,
            final(self).bound_up == old(self).bound_up,
            final(self).bound_down == old(self).bound_down,
            final(self).bound_left == old(self).bound_left,
            final(self).bound_right == old(self).bound_right,
    {
        proof {
            lemma_sizes();
            lemma_node(NI_M as int, NJ_M as int, j as int, i as int);
        }
        let ghost rgb0 = self.rgb@;
        let (r, g, b): (u8, u8, u8) = if draw_mode == 0 {
            self.bound.cell.set(j * NI_M + i, Cell::Dead);
            (71, 181, 255)
        } else {
            self.bound.cell.set(j * NI_M + i, Cell::Alive);
            (6, 40, 61)
        };
        let ghost bound1 = self.bound;
        assert(bound1.cell@ == old(self).bound.cell@.update(
            node(NI_M as int, j as int, i as int),
            if draw_mode == 0 { Cell::Dead } else { Cell::Alive },
        ));
        for kj in 0..RAT_PLOT
            invariant
                0 <= i < NI_M,
                0 <= j < NJ_M,
                self.wf(),
                self.bound == bound1,
                self.plotter == old(self).plotter,
                self.bound_up == old(self).bound_up,
                self.bound_down == old(self).bound_down,
                self.bound_left == old(self).bound_left,
                self.bound_right == old(self).bound_right,
                forall|ci: int, ri: int, cj: int, rj: int, c: int|
                    in_cells(ci, ri, cj, rj, c) ==> #[trigger] self.rgb@[cell_byte(ci, ri, cj, rj, c)]
                        == if ci == i && cj == j && rj < kj {
                        channel(r, g, b, c)
                    } else {
                        rgb0[cell_byte(ci, ri, cj, rj, c)]
                    },
        {
            for ki in 0..RAT_PLOT
                invariant
                    0 <= i < NI_M,
                    0 <= j < NJ_M,
                    0 <= kj < RAT_PLOT,
                    self.wf(),
                    self.bound == bound1,
                    self.plotter == old(self).plotter,
                    self.bound_up == old(self).bound_up,
                    self.bound_down == old(self).bound_down,
                    self.bound_left == old(self).bound_left,
                    self.bound_right == old(self).bound_right,
                    forall|ci: int, ri: int, cj: int, rj: int, c: int|
                        in_cells(ci, ri, cj, rj, c) ==> #[trigger] self.rgb@[cell_byte(ci, ri, cj, rj, c)]
                            == if ci == i && cj == j && (rj < kj || (rj == kj && ri < ki)) {
                            channel(r, g, b, c)
                        } else {
                            rgb0[cell_byte(ci, ri, cj, rj, c)]
                        },
            {
                proof {
                    lemma_cell_byte(i as int, ki as int, j as int, kj as int, 0);
                }
                let ghost prev = self.rgb@;
                self.plotter.set_color(i * RAT_PLOT + ki, j * RAT_PLOT + kj, r, g, b, &mut self.rgb);
                proof {
                    lemma_paint_pixel(prev, self.rgb@, i as int, ki as int, j as int, kj as int, r, g, b);
                }
            }
        }
    }

    /// Paints the whole picture as the solid map: solid colour on solid nodes,
    /// fluid colour on fluid nodes.
    pub fn plot_cells(&mut self)
        requires
            old(self).wf(),
        ensures
            final(self).wf(),
            forall|ci: int, ri: int, cj: int, rj: int, c: int|
                in_cells(ci, ri, cj, rj, c) ==> #[trigger] final(self).rgb@[cell_byte(ci, ri, cj, rj, c)]
                    == if dead_at(old(self).bound.cell@, cj, ci) {
                    solid_color(c)
                } else {
                    fluid_color(c)
                },
            final(self).bound == old(self).bound,
            final(self).plotter == old(self).plotter,
            final(self).bound_up == old(self).bound_up,
            final(self).bound_down == old(self).bound_down,
            final(self).bound_left == old(self).bound_left,
            final(self).bound_right == old(self).bound_right,
    {
        let ghost rgb0 = self.rgb@;
        for j in 0..NJ_M
            invariant
                self.wf(),
                self.bound == old(self).bound,
                self.plotter == old(self).plotter,
                self.bound_up == old(self).bound_up,
                self.bound_down == old(self).bound_down,
                self.bound_left == old(self).bound_left,
                self.bound_right == old(self).bound_right,
                forall|ci: int, ri: int, cj: int, rj: int, c: int|
                    in_cells(ci, ri, cj, rj, c) ==> #[trigger] self.rgb@[cell_byte(ci, ri, cj, rj, c)] == if before_rows(
                        ci,
                        ri,
                        cj,
                        rj,
                        j as int,
                        0,
                        0,
                        0,
                    ) {
                        if dead_at(self.bound.cell@, cj, ci) { solid_color(c) } else { fluid_color(c) }
                    } else {
                        rgb0[cell_byte(ci, ri, cj, rj, c)]
                    },
        {
            for kj in 0..RAT_PLOT
                invariant
                    0 <= j < NJ_M,
                    self.wf(),
                    self.bound == old(self).bound,
                    self.plotter == old(self).plotter,
                    self.bound_up == old(self).bound_up,
                    self.bound_down == old(self).bound_down,
                    self.bound_left == old(self).bound_left,
                    self.bound_right == old(self).bound_right,
                    forall|ci: int, ri: int, cj: int, rj: int, c: int|
                        in_cells(ci, ri, cj, rj, c) ==> #[trigger] self.rgb@[cell_byte(ci, ri, cj, rj, c)] == if before_rows(
                            ci,
                            ri,
                            cj,
                            rj,
                            j as int,
                            kj as int,
                            0,
                            0,
                        ) {
                            if dead_at(self.bound.cell@, cj, ci) { solid_color(c) } else { fluid_color(c) }
                        } else {
                            rgb0[cell_byte(ci, ri, cj, rj, c)]
                        },
            {
                for i in 0..NI_M
                    invariant
                        0 <= j < NJ_M,
                        0 <= kj < RAT_PLOT,
                        self.wf(),
                        self.bound == old(self).bound,
                        self.plotter == old(self).plotter,
                        self.bound_up == old(self).bound_up,
                        self.bound_down == old(self).bound_down,
                        self.bound_left == old(self).bound_left,
                        self.bound_right == old(self).bound_right,
                        forall|ci: int, ri: int, cj: int, rj: int, c: int|
                            in_cells(ci, ri, cj, rj, c) ==> #[trigger] self.rgb@[cell_byte(ci, ri, cj, rj, c)] == if before_rows(
                                ci,
                                ri,
                                cj,
                                rj,
                                j as int,
                                kj as int,
                                i as int,
                                0,
                            ) {
                                if dead_at(self.bound.cell@, cj, ci) { solid_color(c) } else { fluid_color(c) }
                            } else {
                                rgb0[cell_byte(ci, ri, cj, rj, c)]
                            },
                {
                    for ki in 0..RAT_PLOT
                        invariant
                            0 <= j < NJ_M,
                            0 <= kj < RAT_PLOT,
                            0 <= i < NI_M,
                            self.wf(),
                            self.bound == old(self).bound,
                            self.plotter == old(self).plotter,
                            self.bound_up == old(self).bound_up,
                            self.bound_down == old(self).bound_down,
                            self.bound_left == old(self).bound_left,
                            self.bound_right == old(self).bound_right,
                            forall|ci: int, ri: int, cj: int, rj: int, c: int|
                                in_cells(ci, ri, cj, rj, c) ==> #[trigger] self.rgb@[cell_byte(ci, ri, cj, rj, c)] == if before_rows(
                                    ci,
                                    ri,
                                    cj,
                                    rj,
                                    j as int,
                                    kj as int,
                                    i as int,
                                    ki as int,
                                ) {
                                    if dead_at(self.bound.cell@, cj, ci) { solid_color(c) } else { fluid_color(c) }
                                } else {
                                    rgb0[cell_byte(ci, ri, cj, rj, c)]
                                },
                    {
                        proof {
                            lemma_sizes();
                            lemma_node(NI_M as int, NJ_M as int, j as int, i as int);
                            lemma_cell_byte(i as int, ki as int, j as int, kj as int, 0);
                        }
                        let ghost prev = self.rgb@;
                        if self.bound.cell[j * NI_M + i] == Cell::Dead {
                            self.plotter.set_color(i * RAT_PLOT + ki, j * RAT_PLOT + kj, 71, 181, 255, &mut self.rgb);
                            proof {
                                lemma_paint_pixel(prev, self.rgb@, i as int, ki as int, j as int, kj as int, 71, 181, 255);
                            }
                        } else {
                            self.plotter.set_color(i * RAT_PLOT + ki, j * RAT_PLOT + kj, 6, 40, 61, &mut self.rgb);
                            proof {
                                lemma_paint_pixel(prev, self.rgb@, i as int, ki as int, j as int, kj as int, 6, 40, 61);
                            }
                        }
                    }
                }
            }
        }
    }

    /// Recomputes the four lists of fluid nodes that face a solid node.
    #[verifier::rlimit(60)]
    pub fn find_physical_boundary(&mut self)
        requires
            old(self).wf(),
        ensures
            final(self).wf(),
            final(self).rgb == old(self).rgb,
            final(self).bound == old(self).bound,
            final(self).plotter == old(self).plotter,
            final(self).bound_up@ == faces(old(self).bound.cell@, 1, 0, NJ_M as int),
            final(self).bound_down@ == faces(old(self).bound.cell@, -1, 0, NJ_M as int),
            final(self).bound_right@ == faces(old(self).bound.cell@, 0, 1, NJ_M as int),
            final(self).bound_left@ == faces(old(self).bound.cell@, 0, -1, NJ_M as int),
            forall|x: Index|
                #[trigger] final(self).bound_up@.contains(x) <==> (0 <= x.j - (1) < NJ_M && 0 <= x.i - (0)
                    < NI_M && old(self).bound.cell@[node(NI_M as int, x.j - (1), x.i - (0))] == Cell::Dead
                    && x.j < NJ_M && x.i < NI_M && old(self).bound.cell@[node(NI_M as int, x.j as int, x.i as int)]
                    == Cell::Alive),
            final(self).bound_up@.no_duplicates(),
            forall|x: Index|
                #[trigger] final(self).bound_down@.contains(x) <==> (0 <= x.j - (-1) < NJ_M && 0 <= x.i - (0)
                    < NI_M && old(self).bound.cell@[node(NI_M as int, x.j - (-1), x.i - (0))] == Cell::Dead
                    && x.j < NJ_M && x.i < NI_M && old(self).bound.cell@[node(NI_M as int, x.j as int, x.i as int)]
                    == Cell::Alive),
            final(self).bound_down@.no_duplicates(),
            forall|x: Index|
                #[trigger] final(self).bound_right@.contains(x) <==> (0 <= x.j - (0) < NJ_M && 0 <= x.i - (1)
                    < NI_M && old(self).bound.cell@[node(NI_M as int, x.j - (0), x.i - (1))] == Cell::Dead
                    && x.j < NJ_M && x.i < NI_M && old(self).bound.cell@[node(NI_M as int, x.j as int, x.i as int)]
                    == Cell::Alive),
            final(self).bound_right@.no_duplicates(),
            forall|x: Index|
                #[trigger] final(self).bound_left@.contains(x) <==> (0 <= x.j - (0) < NJ_M && 0 <= x.i - (-1)
                    < NI_M && old(self).bound.cell@[node(NI_M as int, x.j - (0), x.i - (-1))] == Cell::Dead
                    && x.j < NJ_M && x.i < NI_M && old(self).bound.cell@[node(NI_M as int, x.j as int, x.i as int)]
                    == Cell::Alive),
            final(self).bound_left@.no_duplicates(),
    {
        self.bound_up.clear();
        self.bound_down.clear();
        self.bound_left.clear();
        self.bound_right.clear();
        let ghost cells = self.bound.cell@;
        for j in 0..NJ_M
            invariant
                self.wf(),
                cells == self.bound.cell@,
                self.rgb == old(self).rgb,
                self.bound == old(self).bound,
                self.plotter == old(self).plotter,
                self.bound_up@ == faces(cells, 1, 0, j as int),
                self.bound_down@ == faces(cells, -1, 0, j as int),
                self.bound_right@ == faces(cells, 0, 1, j as int),
                self.bound_left@ == faces(cells, 0, -1, j as int),
        {
            for i in 0..NI_M
                invariant
                    0 <= j < NJ_M,
                    self.wf(),
                    cells == self.bound.cell@,
                    self.rgb == old(self).rgb,
                    self.bound == old(self).bound,
                    self.plotter == old(self).plotter,
                    self.bound_up@ == faces(cells, 1, 0, j as int) + row_faces(cells, 1, 0, j as int, i as int),
                    self.bound_down@ == faces(cells, -1, 0, j as int) + row_faces(cells, -1, 0, j as int, i as int),
                    self.bound_right@ == faces(cells, 0, 1, j as int) + row_faces(cells, 0, 1, j as int, i as int),
                    self.bound_left@ == faces(cells, 0, -1, j as int) + row_faces(cells, 0, -1, j as int, i as int),
            {
                proof {
                    lemma_sizes();
                    lemma_node(NI_M as int, NJ_M as int, j as int, i as int);
                }
                let ghost up0 = self.bound_up@;
                let ghost down0 = self.bound_down@;
                let ghost right0 = self.bound_right@;
                let ghost left0 = self.bound_left@;
                if self.bound.cell[j * NI_M + i] == Cell::Dead {
                    if j != NJ_M - 1 {
                        proof { lemma_node(NI_M as int, NJ_M as int, j + 1, i as int); }
                        if self.bound.cell[(j + 1) * NI_M + i] == Cell::Alive {
                            self.bound_up.push(Index { i, j: j + 1 });
                        }
                    }
                    if j != 0 {
                        proof { lemma_node(NI_M as int, NJ_M as int, j - 1, i as int); }
                        if self.bound.cell[(j - 1) * NI_M + i] == Cell::Alive {
                            self.bound_down.push(Index { i, j: j - 1 });
                        }
                    }
                    if i != NI_M - 1 {
                        proof { lemma_node(NI_M as int, NJ_M as int, j as int, i + 1); }
                        if self.bound.cell[j * NI_M + (i + 1)] == Cell::Alive {
                            self.bound_right.push(Index { i: i + 1, j });
                        }
                    }
                    if i != 0 {
                        proof { lemma_node(NI_M as int, NJ_M as int, j as int, i - 1); }
                        if self.bound.cell[j * NI_M + (i - 1)] == Cell::Alive {
                            self.bound_left.push(Index { i: i - 1, j });
                        }
                    }
                }
                proof {
                    assert(row_faces(cells, 1, 0, j as int, i + 1) == row_faces(cells, 1, 0, j as int, i as int) + face_item(cells, 1, 0, j as int, i as int));
                    assert(row_faces(cells, -1, 0, j as int, i + 1) == row_faces(cells, -1, 0, j as int, i as int) + face_item(cells, -1, 0, j as int, i as int));
                    assert(row_faces(cells, 0, 1, j as int, i + 1) == row_faces(cells, 0, 1, j as int, i as int) + face_item(cells, 0, 1, j as int, i as int));
                    assert(row_faces(cells, 0, -1, j as int, i + 1) == row_faces(cells, 0, -1, j as int, i as int) + face_item(cells, 0, -1, j as int, i as int));
                    assert(self.bound_up@ == up0 + face_item(cells, 1, 0, j as int, i as int));
                    assert(self.bound_down@ == down0 + face_item(cells, -1, 0, j as int, i as int));
                    assert(self.bound_right@ == right0 + face_item(cells, 0, 1, j as int, i as int));
                    assert(self.bound_left@ == left0 + face_item(cells, 0, -1, j as int, i as int));
                }
            }
            proof {
                assert(faces(cells, 1, 0, j + 1) == faces(cells, 1, 0, j as int) + row_faces(cells, 1, 0, j as int, NI_M as int));
                assert(faces(cells, -1, 0, j + 1) == faces(cells, -1, 0, j as int) + row_faces(cells, -1, 0, j as int, NI_M as int));
                assert(faces(cells, 0, 1, j + 1) == faces(cells, 0, 1, j as int) + row_faces(cells, 0, 1, j as int, NI_M as int));
                assert(faces(cells, 0, -1, j + 1) == faces(cells, 0, -1, j as int) + row_faces(cells, 0, -1, j as int, NI_M as int));
            }
        }
        proof {
            lemma_face_list_members(cells, 1, 0);
            lemma_face_list_members(cells, -1, 0);
            lemma_face_list_members(cells, 0, 1);
            lemma_face_list_members(cells, 0, -1);
            lemma_faces_exact(cells, 1, 0);
            lemma_faces_exact(cells, -1, 0);
            lemma_faces_exact(cells, 0, 1);
            lemma_faces_exact(cells, 0, -1);
        }
    }
}

} // verus!
