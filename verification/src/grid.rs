//! Row-major flat layout of node grids and of the distribution functions on them.
use vstd::prelude::*;

verus! {

/// Position of node (j, i) in a grid of `ni` nodes per row.
pub open spec fn node(ni: int, j: int, i: int) -> int {
    j * ni + i
}

/// Position of the k-th distribution function of node (j, i).
pub open spec fn at(ni: int, j: int, i: int, k: int) -> int {
    (j * ni + i) * 9 + k
}

/// Whether (j, i) is a node of an `ni` by `nj` grid.
pub open spec fn in_grid(ni: int, nj: int, j: int, i: int) -> bool {
    0 <= j < nj && 0 <= i < ni
}

/// Node positions lie inside the grid.
pub proof fn lemma_node(ni: int, nj: int, j: int, i: int)
    requires
        in_grid(ni, nj, j, i),
    ensures
        0 <= j * ni <= node(ni, j, i) < ni * nj,
{
    assert(0 <= j * ni && j * ni + i < ni * nj) by (nonlinear_arith)
        requires
            0 <= j < nj,
            0 <= i < ni,
    ;
}

/// Node positions determine the node.
pub proof fn lemma_node_inj(ni: int, j: int, i: int, j2: int, i2: int)
    requires
        0 <= i < ni,
        0 <= i2 < ni,
        0 <= j,
        0 <= j2,
        node(ni, j, i) == node(ni, j2, i2),
    ensures
        j == j2,
        i == i2,
{
    assert(j == j2 && i == i2) by (nonlinear_arith)
        requires
            0 <= i < ni,
            0 <= i2 < ni,
            0 <= j,
            0 <= j2,
            j * ni + i == j2 * ni + i2,
    ;
}

/// Distribution positions lie inside the flat array.
pub proof fn lemma_at(ni: int, nj: int, j: int, i: int, k: int)
    requires
        in_grid(ni, nj, j, i),
        0 <= k < 9,
    ensures
        0 <= j * ni <= node(ni, j, i) < ni * nj,
        0 <= at(ni, j, i, k) < ni * nj * 9,
        at(ni, j, i, k) == node(ni, j, i) * 9 + k,
{
    lemma_node(ni, nj, j, i);
}

/// Distribution positions determine node and direction.
pub proof fn lemma_at_inj(ni: int, j: int, i: int, k: int, j2: int, i2: int, k2: int)
    requires
        0 <= i < ni,
        0 <= i2 < ni,
        0 <= j,
        0 <= j2,
        0 <= k < 9,
        0 <= k2 < 9,
        at(ni, j, i, k) == at(ni, j2, i2, k2),
    ensures
        j == j2,
        i == i2,
        k == k2,
{
    let n1 = node(ni, j, i);
    let n2 = node(ni, j2, i2);
    assert(n1 == n2 && k == k2) by (nonlinear_arith)
        requires
            0 <= k < 9,
            0 <= k2 < 9,
            n1 * 9 + k == n2 * 9 + k2,
    ;
    lemma_node_inj(ni, j, i, j2, i2);
}

} // verus!
