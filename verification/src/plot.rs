//! The RGB plot buffer: NI_PLOT x NJ_PLOT pixels, three bytes each, row by row.
//! Every node of the main block covers a RAT_PLOT x RAT_PLOT square of pixels.
use vstd::prelude::*;
use crate::parameters::{NI_M, NJ_M, NI_PLOT, NJ_PLOT, N_RGB, RAT_PLOT, lemma_sizes};
use crate::grid::{node, in_grid, lemma_node};
use crate::cells::{Boundary, Cell, dead_at};

verus! {

/// Position of colour channel `c` (0 red, 1 green, 2 blue) of pixel (pi, pj).
pub open spec fn byte(pi: int, pj: int, c: int) -> int {
    pj * (NI_PLOT as int * 3) + pi * 3 + c
}

/// Whether (pi, pj) is a pixel of the plot.
pub open spec fn in_plot(pi: int, pj: int) -> bool {
    0 <= pi < NI_PLOT && 0 <= pj < NJ_PLOT
}

/// Channel `c` of the colour (r, g, b).
pub open spec fn channel(r: u8, g: u8, b: u8, c: int) -> u8 {
    if c == 0 {
        r
    } else if c == 1 {
        g
    } else {
        b
    }
}

/// Channel `c` of the colour of solid nodes.
pub open spec fn solid_color(c: int) -> u8 {
    channel(71, 181, 255, c)
}

/// Channel `c` of the colour of fluid nodes.
pub open spec fn fluid_color(c: int) -> u8 {
    channel(6, 40, 61, c)
}

/// Pixels lie inside the buffer.
pub proof fn lemma_byte(pi: int, pj: int, c: int)
    requires
        in_plot(pi, pj),
        0 <= c < 3,
    ensures
        0 <= byte(pi, pj, c) < N_RGB,
{
    lemma_sizes();
    let w = NI_PLOT as int * 3;
    assert(0 <= pj * w + pi * 3 + c < N_RGB) by (nonlinear_arith)
        requires
            0 <= pi < 358,
            0 <= pj < 178,
            0 <= c < 3,
            w == 1074,
            N_RGB == 191172,
    ;
}

/// A byte position determines pixel and channel.
pub proof fn lemma_byte_inj(pi: int, pj: int, c: int, pi2: int, pj2: int, c2: int)
    requires
        in_plot(pi, pj),
        in_plot(pi2, pj2),
        0 <= c < 3,
        0 <= c2 < 3,
        byte(pi, pj, c) == byte(pi2, pj2, c2),
    ensures
        pi == pi2,
        pj == pj2,
        c == c2,
{
    lemma_sizes();
    let a = pi * 3 + c;
    let a2 = pi2 * 3 + c2;
    assert(pj == pj2) by (nonlinear_arith)
        requires
            0 <= a < NI_PLOT * 3,
            0 <= a2 < NI_PLOT * 3,
            pj * (NI_PLOT * 3) + a == pj2 * (NI_PLOT * 3) + a2,
    ;
    assert(pi * 3 + c == pi2 * 3 + c2);
}

/// Position of channel `c` of pixel (ri, rj) of the square of node (cj, ci).
pub open spec fn cell_byte(ci: int, ri: int, cj: int, rj: int, c: int) -> int {
    byte(ci * RAT_PLOT as int + ri, cj * RAT_PLOT as int + rj, c)
}

/// Whether (ci, ri, cj, rj, c) names a channel of a pixel of a node of the main block.
pub open spec fn in_cells(ci: int, ri: int, cj: int, rj: int, c: int) -> bool {
    &&& in_grid(NI_M as int, NJ_M as int, cj, ci)
    &&& 0 <= ri < RAT_PLOT
    &&& 0 <= rj < RAT_PLOT
    &&& 0 <= c < 3
}

/// The squares of the nodes tile the plot.
pub proof fn lemma_cell_byte(ci: int, ri: int, cj: int, rj: int, c: int)
    requires
        in_cells(ci, ri, cj, rj, c),
    ensures
        in_plot(ci * RAT_PLOT as int + ri, cj * RAT_PLOT as int + rj),
        0 <= cell_byte(ci, ri, cj, rj, c) < N_RGB,
{
    lemma_sizes();
    lemma_byte(ci * RAT_PLOT as int + ri, cj * RAT_PLOT as int + rj, c);
}

/// Distinct pixels of the node squares have distinct bytes.
pub proof fn lemma_cell_byte_inj(
    ci: int,
    ri: int,
    cj: int,
    rj: int,
    c: int,
    ci2: int,
    ri2: int,
    cj2: int,
    rj2: int,
    c2: int,
)
    requires
        in_cells(ci, ri, cj, rj, c),
        in_cells(ci2, ri2, cj2, rj2, c2),
        cell_byte(ci, ri, cj, rj, c) == cell_byte(ci2, ri2, cj2, rj2, c2),
    ensures
        ci == ci2 && ri == ri2 && cj == cj2 && rj == rj2 && c == c2,
{
    lemma_sizes();
    lemma_cell_byte(ci, ri, cj, rj, c);
    lemma_cell_byte(ci2, ri2, cj2, rj2, c2);
    lemma_byte_inj(
        ci * RAT_PLOT as int + ri,
        cj * RAT_PLOT as int + rj,
        c,
        ci2 * RAT_PLOT as int + ri2,
        cj2 * RAT_PLOT as int + rj2,
        c2,
    );
}

/// A byte of another pixel is none of the three bytes of pixel (ri, rj) of node (cj, ci).
pub proof fn lemma_distinct_from_square(
    ci2: int,
    ri2: int,
    cj2: int,
    rj2: int,
    c2: int,
    ci: int,
    ri: int,
    cj: int,
    rj: int,
)
    requires
        in_cells(ci2, ri2, cj2, rj2, c2),
        in_cells(ci, ri, cj, rj, 0),
        !(ci == ci2 && ri == ri2 && cj == cj2 && rj == rj2),
    ensures
        cell_byte(ci2, ri2, cj2, rj2, c2) != byte(ci * RAT_PLOT as int + ri, cj * RAT_PLOT as int + rj, 0),
        cell_byte(ci2, ri2, cj2, rj2, c2) != byte(ci * RAT_PLOT as int + ri, cj * RAT_PLOT as int + rj, 1),
        cell_byte(ci2, ri2, cj2, rj2, c2) != byte(ci * RAT_PLOT as int + ri, cj * RAT_PLOT as int + rj, 2),
{
    if cell_byte(ci2, ri2, cj2, rj2, c2) == cell_byte(ci, ri, cj, rj, 0) {
        lemma_cell_byte_inj(ci2, ri2, cj2, rj2, c2, ci, ri, cj, rj, 0);
    }
    if cell_byte(ci2, ri2, cj2, rj2, c2) == cell_byte(ci, ri, cj, rj, 1) {
        lemma_cell_byte_inj(ci2, ri2, cj2, rj2, c2, ci, ri, cj, rj, 1);
    }
    if cell_byte(ci2, ri2, cj2, rj2, c2) == cell_byte(ci, ri, cj, rj, 2) {
        lemma_cell_byte_inj(ci2, ri2, cj2, rj2, c2, ci, ri, cj, rj, 2);
    }
}

/// Painting one pixel of a node square changes the three bytes of that pixel
/// and no other byte.
pub proof fn lemma_paint_pixel(
    prev: Seq<u8>,
    new: Seq<u8>,
    i: int,
    ki: int,
    j: int,
    kj: int,
    r: u8,
    g: u8,
    b: u8,
)
    requires
        prev.len() == N_RGB,
        in_cells(i, ki, j, kj, 0),
        new == prev.update(byte(i * RAT_PLOT as int + ki, j * RAT_PLOT as int + kj, 0), r).update(
            byte(i * RAT_PLOT as int + ki, j * RAT_PLOT as int + kj, 1),
            g,
        ).update(byte(i * RAT_PLOT as int + ki, j * RAT_PLOT as int + kj, 2), b),
    ensures
        new.len() == N_RGB,
        forall|ci: int, ri: int, cj: int, rj: int, c: int|
            in_cells(ci, ri, cj, rj, c) ==> #[trigger] new[cell_byte(ci, ri, cj, rj, c)] == if ci == i
                && ri == ki && cj == j && rj == kj {
                channel(r, g, b, c)
            } else {
                prev[cell_byte(ci, ri, cj, rj, c)]
            },
{
    lemma_cell_byte(i, ki, j, kj, 0);
    lemma_cell_byte(i, ki, j, kj, 2);
    assert forall|ci: int, ri: int, cj: int, rj: int, c: int|
        in_cells(ci, ri, cj, rj, c) implies #[trigger] new[cell_byte(ci, ri, cj, rj, c)] == if ci == i
            && ri == ki && cj == j && rj == kj {
            channel(r, g, b, c)
        } else {
            prev[cell_byte(ci, ri, cj, rj, c)]
        } by {
        lemma_cell_byte(ci, ri, cj, rj, c);
        if !(ci == i && ri == ki && cj == j && rj == kj) {
            lemma_distinct_from_square(ci, ri, cj, rj, c, i, ki, j, kj);
        }
    }
}

/// Whether the painting loops, going through rows, pixel rows, columns and pixel
/// columns in this order, have handled pixel (ri, rj) of node (cj, ci) before
/// reaching step (j, kj, i, ki).
pub open spec fn before_rows(ci: int, ri: int, cj: int, rj: int, j: int, kj: int, i: int, ki: int) -> bool {
    cj < j || (cj == j && (rj < kj || (rj == kj && (ci < i || (ci == i && ri < ki)))))
}

/// Whether the painting loops, going through rows, columns, pixel rows and pixel
/// columns in this order, have handled pixel (ri, rj) of node (cj, ci) before
/// reaching step (j, i, kj, ki).
pub open spec fn before_cells(ci: int, ri: int, cj: int, rj: int, j: int, i: int, kj: int, ki: int) -> bool {
    cj < j || (cj == j && (ci < i || (ci == i && (rj < kj || (rj == kj && ri < ki)))))
}

/// A colour table of 256 entries, one channel per array.
#[derive(Debug)]
pub struct CMap {
    pub r: Vec<u8>,
    pub g: Vec<u8>,
    pub b: Vec<u8>,
}

impl CMap {
    /// Each channel has one entry per `u8` level.
    pub open spec fn wf(&self) -> bool {
        self.r@.len() == 256 && self.g@.len() == 256 && self.b@.len() == 256
    }

    /// Channel `c` of the colour of level `v`.
    pub open spec fn color(&self, v: int, c: int) -> u8 {
        if c == 0 {
            self.r@[v]
        } else if c == 1 {
            self.g@[v]
        } else {
            self.b@[v]
        }
    }
}

/// Channel `c` of the colour that a node of level `v` gets: the colour table's
/// entry for a level, black for no level.
pub open spec fn level_color(cmap: CMap, v: Option<u8>, c: int) -> u8 {
    match v {
        Some(value) => cmap.color(value as int, c),
        None => 0,
    }
}

/// Every level, zero included, gets the colour table's entry for that level;
/// only a missing level is black.
pub proof fn lemma_level_color(cmap: CMap, v: Option<u8>)
    ensures
        match v {
            Some(x) => level_color(cmap, v, 0) == cmap.r@[x as int]
                && level_color(cmap, v, 1) == cmap.g@[x as int]
                && level_color(cmap, v, 2) == cmap.b@[x as int],
            None => level_color(cmap, v, 0) == 0 && level_color(cmap, v, 1) == 0
                && level_color(cmap, v, 2) == 0,
        },
{
}

/// Painter of the plot buffer.
#[derive(Debug)]
pub struct Plot {
    pub cmap: CMap,
}

impl Plot {
    /// The colour table is complete.
    pub open spec fn wf(&self) -> bool {
        self.cmap.wf()
    }

    /// A painter with the colour table `cmap`.
    pub fn new(cmap: CMap) -> (p: Self)
        requires
            cmap.wf(),
        ensures
            p.wf(),
            p.cmap == cmap,
    {
        Plot { cmap }
    }

    /// Paints pixel (i, j) with the colour (r, g, b).
    pub fn set_color(&self, i: usize, j: usize, r: u8, g: u8, b: u8, rgb: &mut Vec<u8>)
        requires
            in_plot(i as int, j as int),
            old(rgb)@.len() == N_RGB,
        ensures
            final(rgb)@ == old(rgb)@.update(byte(i as int, j as int, 0), r).update(
                byte(i as int, j as int, 1),
                g,
            ).update(byte(i as int, j as int, 2), b),
    {
        proof {
            lemma_byte(i as int, j as int, 2);
        }
        let idx = j * (NI_PLOT * 3) + i * 3;
        rgb.set(idx, r);
        rgb.set(idx + 1, g);
        rgb.set(idx + 2, b);
    }

    /// Paints pixel (i, j) with the colour of level `value` of the colour table.
    pub fn set_cmap(&self, i: usize, j: usize, value: u8, rgb: &mut Vec<u8>)
        requires
            self.wf(),
            in_plot(i as int, j as int),
            old(rgb)@.len() == N_RGB,
        ensures
            final(rgb)@ == old(rgb)@.update(byte(i as int, j as int, 0), self.cmap.r@[value as int]).update(
                byte(i as int, j as int, 1),
                self.cmap.g@[value as int],
            ).update(byte(i as int, j as int, 2), self.cmap.b@[value as int]),
    {
        proof {
            lemma_byte(i as int, j as int, 2);
        }
        let idx = j * (NI_PLOT * 3) + i * 3;
        let v = value as usize;
        rgb.set(idx, self.cmap.r[v]);
        rgb.set(idx + 1, self.cmap.g[v]);
        rgb.set(idx + 2, self.cmap.b[v]);
    }

    /// Paints the square of every node with the colour of its level, or black
    /// where the node has no level. `levels` is laid out like the solid map.
    pub fn value(&self, levels: &Vec<Option<u8>>, rgb: &mut Vec<u8>)
        requires
            self.wf(),
            levels@.len() == NI_M * NJ_M,
            old(rgb)@.len() == N_RGB,
        ensures
            final(rgb)@.len() == N_RGB,
            forall|ci: int, ri: int, cj: int, rj: int, c: int|
                in_cells(ci, ri, cj, rj, c) ==> #[trigger] final(rgb)@[cell_byte(ci, ri, cj, rj, c)]
                    == level_color(self.cmap, levels@[node(NI_M as int, cj, ci)], c),
            forall|ci: int, ri: int, cj: int, rj: int|
                #![trigger final(rgb)@[cell_byte(ci, ri, cj, rj, 0)]]
                in_cells(ci, ri, cj, rj, 0) ==> match levels@[node(NI_M as int, cj, ci)] {
                    Some(v) => final(rgb)@[cell_byte(ci, ri, cj, rj, 0)] == self.cmap.r@[v as int]
                        && final(rgb)@[cell_byte(ci, ri, cj, rj, 1)] == self.cmap.g@[v as int]
                        && final(rgb)@[cell_byte(ci, ri, cj, rj, 2)] == self.cmap.b@[v as int],
                    None => final(rgb)@[cell_byte(ci, ri, cj, rj, 0)] == 0
                        && final(rgb)@[cell_byte(ci, ri, cj, rj, 1)] == 0
                        && final(rgb)@[cell_byte(ci, ri, cj, rj, 2)] == 0,
                },
    {
        let ghost rgb0 = rgb@;
        for j in 0..NJ_M
            invariant
                self.wf(),
                levels@.len() == NI_M * NJ_M,
                rgb@.len() == N_RGB,
                forall|ci: int, ri: int, cj: int, rj: int, c: int|
                    in_cells(ci, ri, cj, rj, c) ==> #[trigger] rgb@[cell_byte(ci, ri, cj, rj, c)] == if before_cells(
                        ci,
                        ri,
                        cj,
                        rj,
                        j as int,
                        0,
                        0,
                        0,
                    ) {
                        level_color(self.cmap, levels@[node(NI_M as int, cj, ci)], c)
                    } else {
                        rgb0[cell_byte(ci, ri, cj, rj, c)]
                    },
        {
            for i in 0..NI_M
                invariant
                    0 <= j < NJ_M,
                    self.wf(),
                    levels@.len() == NI_M * NJ_M,
                    rgb@.len() == N_RGB,
                    forall|ci: int, ri: int, cj: int, rj: int, c: int|
                        in_cells(ci, ri, cj, rj, c) ==> #[trigger] rgb@[cell_byte(ci, ri, cj, rj, c)] == if before_cells(
                            ci,
                            ri,
                            cj,
                            rj,
                            j as int,
                            i as int,
                            0,
                            0,
                        ) {
                            level_color(self.cmap, levels@[node(NI_M as int, cj, ci)], c)
                        } else {
                            rgb0[cell_byte(ci, ri, cj, rj, c)]
                        },
            {
                proof {
                    lemma_sizes();
                    lemma_node(NI_M as int, NJ_M as int, j as int, i as int);
                }
                let v_u8 = levels[j * NI_M + i];
                for kj in 0..RAT_PLOT
                    invariant
                        0 <= j < NJ_M,
                        0 <= i < NI_M,
                        v_u8 == levels@[node(NI_M as int, j as int, i as int)],
                        self.wf(),
                        levels@.len() == NI_M * NJ_M,
                        rgb@.len() == N_RGB,
                        forall|ci: int, ri: int, cj: int, rj: int, c: int|
                            in_cells(ci, ri, cj, rj, c) ==> #[trigger] rgb@[cell_byte(ci, ri, cj, rj, c)] == if before_cells(
                                ci,
                                ri,
                                cj,
                                rj,
                                j as int,
                                i as int,
                                kj as int,
                                0,
                            ) {
                                level_color(self.cmap, levels@[node(NI_M as int, cj, ci)], c)
                            } else {
                                rgb0[cell_byte(ci, ri, cj, rj, c)]
                            },
                {
                    for ki in 0..RAT_PLOT
                        invariant
                            0 <= j < NJ_M,
                            0 <= i < NI_M,
                            0 <= kj < RAT_PLOT,
                            v_u8 == levels@[node(NI_M as int, j as int, i as int)],
                            self.wf(),
                            levels@.len() == NI_M * NJ_M,
                            rgb@.len() == N_RGB,
                            forall|ci: int, ri: int, cj: int, rj: int, c: int|
                                in_cells(ci, ri, cj, rj, c) ==> #[trigger] rgb@[cell_byte(ci, ri, cj, rj, c)] == if before_cells(
                                    ci,
                                    ri,
                                    cj,
                                    rj,
                                    j as int,
                                    i as int,
                                    kj as int,
                                    ki as int,
                                ) {
                                    level_color(self.cmap, levels@[node(NI_M as int, cj, ci)], c)
                                } else {
                                    rgb0[cell_byte(ci, ri, cj, rj, c)]
                                },
                    {
                        proof {
                            lemma_sizes();
                            lemma_cell_byte(i as int, ki as int, j as int, kj as int, 0);
                        }
                        let ghost prev = rgb@;
                        match v_u8 {
                            Some(value) => {
                                self.set_cmap(i * RAT_PLOT + ki, j * RAT_PLOT + kj, value, rgb);
                                proof {
                                    lemma_paint_pixel(
                                        prev,
                                        rgb@,
                                        i as int,
                                        ki as int,
                                        j as int,
                                        kj as int,
                                        self.cmap.r@[value as int],
                                        self.cmap.g@[value as int],
                                        self.cmap.b@[value as int],
                                    );
                                }
                            },
                            None => {
                                self.set_color(i * RAT_PLOT + ki, j * RAT_PLOT + kj, 0, 0, 0, rgb);
                                proof {
                                    lemma_paint_pixel(prev, rgb@, i as int, ki as int, j as int, kj as int, 0, 0, 0);
                                }
                            },
                        }
                    }
                }
            }
        }
        proof {
            assert forall|ci: int, ri: int, cj: int, rj: int|
                #![trigger rgb@[cell_byte(ci, ri, cj, rj, 0)]]
                in_cells(ci, ri, cj, rj, 0) implies match levels@[node(NI_M as int, cj, ci)] {
                    Some(v) => rgb@[cell_byte(ci, ri, cj, rj, 0)] == self.cmap.r@[v as int]
                        && rgb@[cell_byte(ci, ri, cj, rj, 1)] == self.cmap.g@[v as int]
                        && rgb@[cell_byte(ci, ri, cj, rj, 2)] == self.cmap.b@[v as int],
                    None => rgb@[cell_byte(ci, ri, cj, rj, 0)] == 0
                        && rgb@[cell_byte(ci, ri, cj, rj, 1)] == 0
                        && rgb@[cell_byte(ci, ri, cj, rj, 2)] == 0,
                } by {
                assert(in_cells(ci, ri, cj, rj, 1));
                assert(in_cells(ci, ri, cj, rj, 2));
                lemma_level_color(self.cmap, levels@[node(NI_M as int, cj, ci)]);
            }
        }
    }

    /// Paints the square of every solid node with the solid colour; the other
    /// pixels keep their colour.
    pub fn boundary(&self, bound: &Boundary, rgb: &mut Vec<u8>)
        requires
            bound.wf(),
            old(rgb)@.len() == N_RGB,
        ensures
            final(rgb)@.len() == N_RGB,
            forall|ci: int, ri: int, cj: int, rj: int, c: int|
                in_cells(ci, ri, cj, rj, c) ==> #[trigger] final(rgb)@[cell_byte(ci, ri, cj, rj, c)]
                    == if dead_at(bound.cell@, cj, ci) {
                    solid_color(c)
                } else {
                    old(rgb)@[cell_byte(ci, ri, cj, rj, c)]
                },
    {
        let ghost rgb0 = rgb@;
        for j in 0..NJ_M
            invariant
                bound.wf(),
                rgb@.len() == N_RGB,
                forall|ci: int, ri: int, cj: int, rj: int, c: int|
                    in_cells(ci, ri, cj, rj, c) ==> #[trigger] rgb@[cell_byte(ci, ri, cj, rj, c)] == if dead_at(
                        bound.cell@,
                        cj,
                        ci,
                    ) && before_rows(ci, ri, cj, rj, j as int, 0, 0, 0) {
                        solid_color(c)
                    } else {
                        rgb0[cell_byte(ci, ri, cj, rj, c)]
                    },
        {
            for kj in 0..RAT_PLOT
                invariant
                    0 <= j < NJ_M,
                    bound.wf(),
                    rgb@.len() == N_RGB,
                    forall|ci: int, ri: int, cj: int, rj: int, c: int|
                        in_cells(ci, ri, cj, rj, c) ==> #[trigger] rgb@[cell_byte(ci, ri, cj, rj, c)] == if dead_at(
                            bound.cell@,
                            cj,
                            ci,
                        ) && before_rows(ci, ri, cj, rj, j as int, kj as int, 0, 0) {
                            solid_color(c)
                        } else {
                            rgb0[cell_byte(ci, ri, cj, rj, c)]
                        },
            {
                for i in 0..NI_M
                    invariant
                        0 <= j < NJ_M,
                        0 <= kj < RAT_PLOT,
                        bound.wf(),
                        rgb@.len() == N_RGB,
                        forall|ci: int, ri: int, cj: int, rj: int, c: int|
                            in_cells(ci, ri, cj, rj, c) ==> #[trigger] rgb@[cell_byte(ci, ri, cj, rj, c)] == if dead_at(
                                bound.cell@,
                                cj,
                                ci,
                            ) && before_rows(ci, ri, cj, rj, j as int, kj as int, i as int, 0) {
                                solid_color(c)
                            } else {
                                rgb0[cell_byte(ci, ri, cj, rj, c)]
                            },
                {
                    for ki in 0..RAT_PLOT
                        invariant
                            0 <= j < NJ_M,
                            0 <= kj < RAT_PLOT,
                            0 <= i < NI_M,
                            bound.wf(),
                            rgb@.len() == N_RGB,
                            forall|ci: int, ri: int, cj: int, rj: int, c: int|
                                in_cells(ci, ri, cj, rj, c) ==> #[trigger] rgb@[cell_byte(ci, ri, cj, rj, c)] == if dead_at(
                                    bound.cell@,
                                    cj,
                                    ci,
                                ) && before_rows(ci, ri, cj, rj, j as int, kj as int, i as int, ki as int) {
                                    solid_color(c)
                                } else {
                                    rgb0[cell_byte(ci, ri, cj, rj, c)]
                                },
                    {
                        proof {
                            lemma_sizes();
                            lemma_node(NI_M as int, NJ_M as int, j as int, i as int);
                            lemma_cell_byte(i as int, ki as int, j as int, kj as int, 0);
                            lemma_cell_byte(i as int, ki as int, j as int, kj as int, 2);
                        }
                        if bound.cell[j * NI_M + i] == Cell::Dead {
                            let ghost prev = rgb@;
                            self.set_color(i * RAT_PLOT + ki, j * RAT_PLOT + kj, 71, 181, 255, rgb);
                            proof {
                                lemma_paint_pixel(prev, rgb@, i as int, ki as int, j as int, kj as int, 71, 181, 255);
                            }
                        }
                    }
                }
            }
        }
    }
}

} // verus!
