//! Streaming step: every distribution function moves one node along its velocity.
use vstd::prelude::*;
use crate::parameters::NC;
use crate::grid::{at, node, in_grid, lemma_at, lemma_at_inj, lemma_node};
use crate::lattice::{inv, spec_cx, spec_cy, spec_inv, lemma_inv_involution, lemma_inv_reverses_velocity};
use crate::cells::{Boundary, Cell};

verus! {

/// Value of direction `k` at node (j, i) after streaming `f_str` into `f_old`:
/// the post-collision value of the upstream node when that node exists,
/// otherwise the value that was there before.
pub open spec fn streamed<T>(
    ni: int,
    nj: int,
    cx: Seq<i32>,
    cy: Seq<i32>,
    f_str: Seq<T>,
    f_old: Seq<T>,
    j: int,
    i: int,
    k: int,
) -> T {
    let sj = j - cy[k];
    let si = i - cx[k];
    if in_grid(ni, nj, sj, si) {
        f_str[at(ni, sj, si, k)]
    } else {
        f_old[at(ni, j, i, k)]
    }
}

/// Whether the loop step (a, b, c) comes before step (j, i, k) in row-major order.
pub open spec fn before(a: int, b: int, c: int, j: int, i: int, k: int) -> bool {
    a < j || (a == j && (b < i || (b == i && c < k)))
}

/// State of the array after the streaming loop has handled every step before (j, i, k).
pub open spec fn streamed_upto<T>(
    ni: int,
    nj: int,
    cx: Seq<i32>,
    cy: Seq<i32>,
    f_str: Seq<T>,
    f_old: Seq<T>,
    yj: int,
    yi: int,
    d: int,
    j: int,
    i: int,
    k: int,
) -> T {
    let sj = yj - cy[d];
    let si = yi - cx[d];
    if in_grid(ni, nj, sj, si) && before(sj, si, d, j, i, k) {
        f_str[at(ni, sj, si, d)]
    } else {
        f_old[at(ni, yj, yi, d)]
    }
}

/// A grid whose flat arrays fit in memory has rows shorter than 2^61 nodes.
proof fn lemma_row_small(ni: int, nj: int, j: int, i: int)
    requires
        0 <= j < nj,
        0 <= i < ni,
        ni * nj * 9 <= usize::MAX,
    ensures
        ni * 9 <= usize::MAX,
        ni < 0x2000_0000_0000_0000,
        nj < 0x2000_0000_0000_0000,
{
    assert(ni * 9 <= ni * nj * 9) by (nonlinear_arith)
        requires
            0 <= ni,
            1 <= nj,
    ;
    assert(nj * 9 <= ni * nj * 9) by (nonlinear_arith)
        requires
            1 <= ni,
            1 <= nj,
    ;
}

/// Streams the post-collision distribution `f_str` of an `ni` by `nj` block into `f`:
/// each value of direction k at node (j, i) goes to node (j + cy[k], i + cx[k]),
/// and is dropped when that node lies outside the block.
pub fn calc_advection<T: Copy>(
    ni: usize,
    nj: usize,
    f_str: &Vec<T>,
    cx: &[i32; NC],
    cy: &[i32; NC],
    f: &mut Vec<T>,
)
    requires
        f_str@.len() == ni * nj * 9,
        old(f)@.len() == ni * nj * 9,
    ensures
        final(f)@.len() == old(f)@.len(),
        forall|j: int, i: int, k: int|
            in_grid(ni as int, nj as int, j, i) && 0 <= k < 9 ==> #[trigger] final(f)@[at(
                ni as int,
                j,
                i,
                k,
            )] == streamed(ni as int, nj as int, cx@, cy@, f_str@, old(f)@, j, i, k),
{
    let total = f.len();
    let ghost f0 = f@;
    let ghost n = ni as int;
    let ghost m = nj as int;
    for j in 0..nj
        invariant
            f_str@.len() == ni * nj * 9,
            f@.len() == ni * nj * 9,
            f0.len() == ni * nj * 9,
            total == ni * nj * 9,
            n == ni,
            m == nj,
            forall|yj: int, yi: int, d: int|
                in_grid(n, m, yj, yi) && 0 <= d < 9 ==> #[trigger] f@[at(n, yj, yi, d)]
                    == streamed_upto(n, m, cx@, cy@, f_str@, f0, yj, yi, d, j as int, 0, 0),
    {
        for i in 0..ni
            invariant
                0 <= j < nj,
                total == ni * nj * 9,
                f_str@.len() == ni * nj * 9,
                f@.len() == ni * nj * 9,
                f0.len() == ni * nj * 9,
                n == ni,
                m == nj,
                forall|yj: int, yi: int, d: int|
                    in_grid(n, m, yj, yi) && 0 <= d < 9 ==> #[trigger] f@[at(n, yj, yi, d)]
                        == streamed_upto(n, m, cx@, cy@, f_str@, f0, yj, yi, d, j as int, i as int, 0),
        {
            proof {
                lemma_row_small(n, m, j as int, i as int);
            }
            for k in 0..NC
                invariant
                    0 <= j < nj,
                    0 <= i < ni,
                    ni < 0x2000_0000_0000_0000,
                    nj < 0x2000_0000_0000_0000,
                    f_str@.len() == ni * nj * 9,
                    f@.len() == ni * nj * 9,
                    f0.len() == ni * nj * 9,
                    total == ni * nj * 9,
                    n == ni,
                    m == nj,
                    forall|yj: int, yi: int, d: int|
                        in_grid(n, m, yj, yi) && 0 <= d < 9 ==> #[trigger] f@[at(n, yj, yi, d)]
                            == streamed_upto(n, m, cx@, cy@, f_str@, f0, yj, yi, d, j as int, i as int, k as int),
            {
                let i_new: i64 = i as i64 + cx[k] as i64;
                let j_new: i64 = j as i64 + cy[k] as i64;
                let i_new_is_ob = i_new < 0 || i_new >= ni as i64;
                let j_new_is_ob = j_new < 0 || j_new >= nj as i64;
                if i_new_is_ob || j_new_is_ob {
                } else {
                    let iu: usize = i_new as usize;
                    let ju: usize = j_new as usize;
                    proof {
                        lemma_at(ni as int, nj as int, j as int, i as int, k as int);
                        lemma_at(ni as int, nj as int, ju as int, iu as int, k as int);
                    }
                    let src = (j * ni + i) * NC + k;
                    let dst = (ju * ni + iu) * NC + k;
                    let ghost prev = f@;
                    f.set(dst, f_str[src]);
                    proof {
                        assert forall|yj: int, yi: int, d: int|
                            in_grid(n, m, yj, yi) && 0 <= d < 9 implies #[trigger] f@[at(
                                n,
                                yj,
                                yi,
                                d,
                            )] == streamed_upto(
                                n,
                                m,
                                cx@,
                                cy@,
                                f_str@,
                                f0,
                                yj,
                                yi,
                                d,
                                j as int,
                                i as int,
                                k + 1,
                            ) by {
                            lemma_at(n, m, yj, yi, d);
                            if !(yj == ju && yi == iu && d == k) {
                                if at(n, yj, yi, d) == at(n, ju as int, iu as int, k as int) {
                                    lemma_at_inj(n, yj, yi, d, ju as int, iu as int, k as int);
                                }
                                assert(f@[at(n, yj, yi, d)] == prev[at(n, yj, yi, d)]);
                            }
                        }
                    }
                }
            }
        }
    }
}


/// Whether node (j, i) of the map `cells` is fluid.
pub open spec fn alive_at(cells: Seq<Cell>, ni: int, j: int, i: int) -> bool {
    cells[node(ni, j, i)] == Cell::Alive
}

/// Value of direction `k` at node (j, i) after streaming with half-way bounce-back:
/// at a fluid node whose upstream node exists, the upstream post-collision value
/// when the upstream node is fluid, and the node's own post-collision value of the
/// opposite direction when the upstream node is solid; anywhere else the old value.
pub open spec fn bounced<T>(
    ni: int,
    nj: int,
    cells: Seq<Cell>,
    f_str: Seq<T>,
    f_old: Seq<T>,
    j: int,
    i: int,
    k: int,
) -> T {
    let sj = j - spec_cy(k);
    let si = i - spec_cx(k);
    if alive_at(cells, ni, j, i) && in_grid(ni, nj, sj, si) {
        if alive_at(cells, ni, sj, si) {
            f_str[at(ni, sj, si, k)]
        } else {
            f_str[at(ni, j, i, spec_inv(k))]
        }
    } else {
        f_old[at(ni, j, i, k)]
    }
}

/// State of the array after the bounce-back loop has handled every step before (j, i, k).
pub open spec fn bounced_upto<T>(
    ni: int,
    nj: int,
    cells: Seq<Cell>,
    f_str: Seq<T>,
    f_old: Seq<T>,
    yj: int,
    yi: int,
    d: int,
    j: int,
    i: int,
    k: int,
) -> T {
    let sj = yj - spec_cy(d);
    let si = yi - spec_cx(d);
    if alive_at(cells, ni, yj, yi) && in_grid(ni, nj, sj, si) {
        if alive_at(cells, ni, sj, si) {
            if before(sj, si, d, j, i, k) {
                f_str[at(ni, sj, si, d)]
            } else {
                f_old[at(ni, yj, yi, d)]
            }
        } else {
            if before(yj, yi, spec_inv(d), j, i, k) {
                f_str[at(ni, yj, yi, spec_inv(d))]
            } else {
                f_old[at(ni, yj, yi, d)]
            }
        }
    } else {
        f_old[at(ni, yj, yi, d)]
    }
}

/// Streams the post-collision distribution `f_str` of the main block into `f`,
/// with half-way bounce-back at solid nodes: only fluid nodes emit; a value whose
/// target is solid returns to its node in the opposite direction; a value whose
/// target lies outside the block is dropped. `cx` and `cy` are the D2Q9 velocities.
pub fn calc_advection_with_phys_bc<T: Copy>(
    ni: usize,
    nj: usize,
    bound: &Boundary,
    f_str: &Vec<T>,
    cx: &[i32; NC],
    cy: &[i32; NC],
    f: &mut Vec<T>,
)
    requires
        bound.cell@.len() == ni * nj,
        f_str@.len() == ni * nj * 9,
        old(f)@.len() == ni * nj * 9,
        forall|k: int| 0 <= k < 9 ==> cx@[k] == spec_cx(k) && cy@[k] == spec_cy(k),
    ensures
        final(f)@.len() == old(f)@.len(),
        forall|j: int, i: int, k: int|
            in_grid(ni as int, nj as int, j, i) && 0 <= k < 9 ==> #[trigger] final(f)@[at(
                ni as int,
                j,
                i,
                k,
            )] == bounced(ni as int, nj as int, bound.cell@, f_str@, old(f)@, j, i, k),
{
    let total = f.len();
    let ghost f0 = f@;
    let ghost n = ni as int;
    let ghost m = nj as int;
    let ghost cells = bound.cell@;
    for j in 0..nj
        invariant
            cells == bound.cell@,
            cells.len() == ni * nj,
            forall|k: int| 0 <= k < 9 ==> cx@[k] == spec_cx(k) && cy@[k] == spec_cy(k),
            f_str@.len() == ni * nj * 9,
            f@.len() == ni * nj * 9,
            f0.len() == ni * nj * 9,
            total == ni * nj * 9,
            n == ni,
            m == nj,
            forall|yj: int, yi: int, d: int|
                in_grid(n, m, yj, yi) && 0 <= d < 9 ==> #[trigger] f@[at(n, yj, yi, d)]
                    == bounced_upto(n, m, cells, f_str@, f0, yj, yi, d, j as int, 0, 0),
    {
        for i in 0..ni
            invariant
                0 <= j < nj,
                cells == bound.cell@,
                cells.len() == ni * nj,
                forall|k: int| 0 <= k < 9 ==> cx@[k] == spec_cx(k) && cy@[k] == spec_cy(k),
                f_str@.len() == ni * nj * 9,
                f@.len() == ni * nj * 9,
                f0.len() == ni * nj * 9,
                total == ni * nj * 9,
                n == ni,
                m == nj,
                forall|yj: int, yi: int, d: int|
                    in_grid(n, m, yj, yi) && 0 <= d < 9 ==> #[trigger] f@[at(n, yj, yi, d)]
                        == bounced_upto(n, m, cells, f_str@, f0, yj, yi, d, j as int, i as int, 0),
        {
            proof {
                lemma_row_small(n, m, j as int, i as int);
                lemma_at(n, m, j as int, i as int, 0);
            }
            if bound.cell[j * ni + i] == Cell::Alive {
                for k in 0..NC
                    invariant
                        0 <= j < nj,
                        0 <= i < ni,
                        alive_at(cells, n, j as int, i as int),
                        ni < 0x2000_0000_0000_0000,
                        nj < 0x2000_0000_0000_0000,
                        cells == bound.cell@,
                        cells.len() == ni * nj,
                        forall|k: int| 0 <= k < 9 ==> cx@[k] == spec_cx(k) && cy@[k] == spec_cy(k),
                        f_str@.len() == ni * nj * 9,
                        f@.len() == ni * nj * 9,
                        f0.len() == ni * nj * 9,
                        total == ni * nj * 9,
                        n == ni,
                        m == nj,
                        forall|yj: int, yi: int, d: int|
                            in_grid(n, m, yj, yi) && 0 <= d < 9 ==> #[trigger] f@[at(n, yj, yi, d)]
                                == bounced_upto(n, m, cells, f_str@, f0, yj, yi, d, j as int, i as int, k as int),
                {
                    let i_new: i64 = i as i64 + cx[k] as i64;
                    let j_new: i64 = j as i64 + cy[k] as i64;
                    let i_new_is_ob = i_new < 0 || i_new >= ni as i64;
                    let j_new_is_ob = j_new < 0 || j_new >= nj as i64;
                    proof {
                        lemma_at(n, m, j as int, i as int, k as int);
                        lemma_inv_involution(k as int);
                        lemma_inv_reverses_velocity(k as int);
                    }
                    let src = (j * ni + i) * NC + k;
                    if i_new_is_ob || j_new_is_ob {
                        proof {
                            assert forall|yj: int, yi: int, d: int|
                                in_grid(n, m, yj, yi) && 0 <= d < 9 implies #[trigger] f@[at(n, yj, yi, d)]
                                    == bounced_upto(n, m, cells, f_str@, f0, yj, yi, d, j as int, i as int, k + 1) by {
                                lemma_inv_involution(d);
                                lemma_inv_reverses_velocity(d);
                            }
                        }
                    } else {
                        let iu: usize = i_new as usize;
                        let ju: usize = j_new as usize;
                        proof {
                            lemma_at(n, m, ju as int, iu as int, k as int);
                        }
                        let ghost prev = f@;
                        if bound.cell[ju * ni + iu] == Cell::Dead {
                            let kr = inv(k);
                            proof {
                                lemma_at(n, m, j as int, i as int, kr as int);
                            }
                            let dst = (j * ni + i) * NC + kr;
                            f.set(dst, f_str[src]);
                            proof {
                                assert forall|yj: int, yi: int, d: int|
                                    in_grid(n, m, yj, yi) && 0 <= d < 9 implies #[trigger] f@[at(
                                        n,
                                        yj,
                                        yi,
                                        d,
                                    )] == bounced_upto(
                                        n,
                                        m,
                                        cells,
                                        f_str@,
                                        f0,
                                        yj,
                                        yi,
                                        d,
                                        j as int,
                                        i as int,
                                        k + 1,
                                    ) by {
                                    lemma_at(n, m, yj, yi, d);
                                    lemma_inv_involution(d);
                                    lemma_inv_reverses_velocity(d);
                                    if !(yj == j && yi == i && d == kr) {
                                        if at(n, yj, yi, d) == at(n, j as int, i as int, kr as int) {
                                            lemma_at_inj(n, yj, yi, d, j as int, i as int, kr as int);
                                        }
                                        assert(f@[at(n, yj, yi, d)] == prev[at(n, yj, yi, d)]);
                                    }
                                }
                            }
                        } else {
                            let dst = (ju * ni + iu) * NC + k;
                            f.set(dst, f_str[src]);
                            proof {
                                assert forall|yj: int, yi: int, d: int|
                                    in_grid(n, m, yj, yi) && 0 <= d < 9 implies #[trigger] f@[at(
                                        n,
                                        yj,
                                        yi,
                                        d,
                                    )] == bounced_upto(
                                        n,
                                        m,
                                        cells,
                                        f_str@,
                                        f0,
                                        yj,
                                        yi,
                                        d,
                                        j as int,
                                        i as int,
                                        k + 1,
                                    ) by {
                                    lemma_at(n, m, yj, yi, d);
                                    if !(yj == ju && yi == iu && d == k) {
                                        if at(n, yj, yi, d) == at(n, ju as int, iu as int, k as int) {
                                            lemma_at_inj(n, yj, yi, d, ju as int, iu as int, k as int);
                                        }
                                        assert(f@[at(n, yj, yi, d)] == prev[at(n, yj, yi, d)]);
                                    }
                                }
                            }
                        }
                    }
                }
            }
        }
    }
}

/// Without solid nodes, streaming with bounce-back is plain streaming along the
/// D2Q9 velocities.
pub proof fn lemma_all_fluid_is_plain_streaming<T>(
    ni: int,
    nj: int,
    cells: Seq<Cell>,
    cx: Seq<i32>,
    cy: Seq<i32>,
    f_str: Seq<T>,
    f_old: Seq<T>,
    j: int,
    i: int,
    k: int,
)
    requires
        cells.len() == ni * nj,
        forall|p: int| 0 <= p < ni * nj ==> #[trigger] cells[p] == Cell::Alive,
        forall|d: int| 0 <= d < 9 ==> cx[d] == spec_cx(d) && cy[d] == spec_cy(d),
        in_grid(ni, nj, j, i),
        0 <= k < 9,
    ensures
        bounced(ni, nj, cells, f_str, f_old, j, i, k) == streamed(ni, nj, cx, cy, f_str, f_old, j, i, k),
{
    lemma_node(ni, nj, j, i);
    let sj = j - spec_cy(k);
    let si = i - spec_cx(k);
    if in_grid(ni, nj, sj, si) {
        lemma_node(ni, nj, sj, si);
    }
}

} // verus!
