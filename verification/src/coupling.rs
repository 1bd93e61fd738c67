//! Data exchange between the blocks: copies of node columns between blocks and
//! sampling of every RAT_M-th node of the fine main block.
use vstd::prelude::*;
use crate::parameters::{NC, RAT_M, NI_T, NJ_T, NI_B, NJ_B, NI_L, NJ_L, NI_R, NJ_R, NJ_M_C, lemma_sizes};
use crate::grid::{at, in_grid, lemma_at, lemma_at_inj};

verus! {

/// Value at node (j, i), direction k, of a block after node column `d_i`, rows
/// `d_j0 .. d_j0 + count`, has received column `s_i`, rows `s_j0 ..`, of `src`.
pub open spec fn column_copied<T>(
    src: Seq<T>,
    s_ni: int,
    s_i: int,
    s_j0: int,
    dst_old: Seq<T>,
    d_ni: int,
    d_i: int,
    d_j0: int,
    count: int,
    j: int,
    i: int,
    k: int,
) -> T {
    if i == d_i && d_j0 <= j < d_j0 + count {
        src[at(s_ni, s_j0 + (j - d_j0), s_i, k)]
    } else {
        dst_old[at(d_ni, j, i, k)]
    }
}

/// Copies `count` nodes (all nine directions) of column `s_i` of block `src`,
/// from row `s_j0` up, into column `d_i` of block `dst`, from row `d_j0` up.
pub fn copy_column<T: Copy>(
    src: &Vec<T>,
    s_ni: usize,
    s_nj: usize,
    s_i: usize,
    s_j0: usize,
    dst: &mut Vec<T>,
    d_ni: usize,
    d_nj: usize,
    d_i: usize,
    d_j0: usize,
    count: usize,
)
    requires
        src@.len() == s_ni * s_nj * 9,
        old(dst)@.len() == d_ni * d_nj * 9,
        s_i < s_ni,
        d_i < d_ni,
        s_j0 + count <= s_nj,
        d_j0 + count <= d_nj,
    ensures
        final(dst)@.len() == old(dst)@.len(),
        forall|j: int, i: int, k: int|
            in_grid(d_ni as int, d_nj as int, j, i) && 0 <= k < 9 ==> #[trigger] final(dst)@[at(
                d_ni as int,
                j,
                i,
                k,
            )] == column_copied(
                src@,
                s_ni as int,
                s_i as int,
                s_j0 as int,
                old(dst)@,
                d_ni as int,
                d_i as int,
                d_j0 as int,
                count as int,
                j,
                i,
                k,
            ),
{
    let s_total = src.len();
    let d_total = dst.len();
    let ghost dst0 = dst@;
    let ghost sn = s_ni as int;
    let ghost sm = s_nj as int;
    let ghost dn = d_ni as int;
    let ghost dm = d_nj as int;
    for n in 0..count
        invariant
            src@.len() == s_ni * s_nj * 9,
            dst@.len() == d_ni * d_nj * 9,
            s_total == s_ni * s_nj * 9,
            d_total == d_ni * d_nj * 9,
            dst0.len() == d_ni * d_nj * 9,
            sn == s_ni,
            sm == s_nj,
            dn == d_ni,
            dm == d_nj,
            s_i < s_ni,
            d_i < d_ni,
            s_j0 + count <= s_nj,
            d_j0 + count <= d_nj,
            forall|j: int, i: int, k: int|
                in_grid(dn, dm, j, i) && 0 <= k < 9 ==> #[trigger] dst@[at(dn, j, i, k)] == column_copied(
                    src@,
                    sn,
                    s_i as int,
                    s_j0 as int,
                    dst0,
                    dn,
                    d_i as int,
                    d_j0 as int,
                    n as int,
                    j,
                    i,
                    k,
                ),
    {
        for k in 0..NC
            invariant
                0 <= n < count,
                src@.len() == s_ni * s_nj * 9,
                dst@.len() == d_ni * d_nj * 9,
                s_total == s_ni * s_nj * 9,
                d_total == d_ni * d_nj * 9,
                dst0.len() == d_ni * d_nj * 9,
                sn == s_ni,
                sm == s_nj,
                dn == d_ni,
                dm == d_nj,
                s_i < s_ni,
                d_i < d_ni,
                s_j0 + count <= s_nj,
                d_j0 + count <= d_nj,
                forall|j: int, i: int, kk: int|
                    in_grid(dn, dm, j, i) && 0 <= kk < 9 ==> #[trigger] dst@[at(dn, j, i, kk)] == if i == d_i
                        && j == d_j0 + n && kk < k {
                        src@[at(sn, s_j0 + n, s_i as int, kk)]
                    } else {
                        column_copied(
                            src@,
                            sn,
                            s_i as int,
                            s_j0 as int,
                            dst0,
                            dn,
                            d_i as int,
                            d_j0 as int,
                            n as int,
                            j,
                            i,
                            kk,
                        )
                    },
        {
            proof {
                lemma_at(s_ni as int, s_nj as int, (s_j0 + n) as int, s_i as int, k as int);
                lemma_at(d_ni as int, d_nj as int, (d_j0 + n) as int, d_i as int, k as int);
            }
            let sp = ((s_j0 + n) * s_ni + s_i) * NC + k;
            let dp = ((d_j0 + n) * d_ni + d_i) * NC + k;
            let ghost prev = dst@;
            dst.set(dp, src[sp]);
            proof {
                assert forall|j: int, i: int, kk: int|
                    in_grid(dn, dm, j, i) && 0 <= kk < 9 implies #[trigger] dst@[at(dn, j, i, kk)] == if i
                        == d_i && j == d_j0 + n && kk < k + 1 {
                        src@[at(sn, s_j0 + n, s_i as int, kk)]
                    } else {
                        column_copied(
                            src@,
                            sn,
                            s_i as int,
                            s_j0 as int,
                            dst0,
                            dn,
                            d_i as int,
                            d_j0 as int,
                            n as int,
                            j,
                            i,
                            kk,
                        )
                    } by {
                    lemma_at(dn, dm, j, i, kk);
                    if !(i == d_i && j == d_j0 + n && kk == k) {
                        if at(dn, j, i, kk) == at(dn, (d_j0 + n) as int, d_i as int, k as int) {
                            lemma_at_inj(dn, j, i, kk, (d_j0 + n) as int, d_i as int, k as int);
                        }
                        assert(dst@[at(dn, j, i, kk)] == prev[at(dn, j, i, kk)]);
                    }
                }
            }
        }
    }
}

/// Takes every RAT_M-th node of row `s_j` of block `src`, `count` nodes from the
/// left edge, as a line of nodes (a block one node wide).
pub fn sample_row<T: Copy>(src: &Vec<T>, s_ni: usize, s_nj: usize, s_j: usize, count: usize) -> (out: Vec<T>)
    requires
        src@.len() == s_ni * s_nj * 9,
        s_j < s_nj,
        count == 0 || (count - 1) * RAT_M < s_ni,
    ensures
        out@.len() == count * 9,
        forall|n: int, k: int|
            0 <= n < count && 0 <= k < 9 ==> #[trigger] out@[at(1, n, 0, k)] == src@[at(
                s_ni as int,
                s_j as int,
                n * RAT_M,
                k,
            )],
{
    proof {
        lemma_sizes();
    }
    let s_total = src.len();
    let mut out: Vec<T> = Vec::new();
    for n in 0..count
        invariant
            src@.len() == s_ni * s_nj * 9,
            s_total == s_ni * s_nj * 9,
            s_j < s_nj,
            count == 0 || (count - 1) * RAT_M < s_ni,
            RAT_M == 2,
            out@.len() == n * 9,
            forall|m: int, kk: int|
                0 <= m < n && 0 <= kk < 9 ==> #[trigger] out@[at(1, m, 0, kk)] == src@[at(
                    s_ni as int,
                    s_j as int,
                    m * RAT_M,
                    kk,
                )],
    {
        for k in 0..NC
            invariant
                0 <= n < count,
                src@.len() == s_ni * s_nj * 9,
                s_total == s_ni * s_nj * 9,
                s_j < s_nj,
                (count - 1) * RAT_M < s_ni,
                RAT_M == 2,
                out@.len() == n * 9 + k,
                forall|m: int, kk: int|
                    (0 <= m < n && 0 <= kk < 9) || (m == n && 0 <= kk < k) ==> #[trigger] out@[at(
                        1,
                        m,
                        0,
                        kk,
                    )] == src@[at(s_ni as int, s_j as int, m * RAT_M, kk)],
        {
            proof {
                lemma_at(s_ni as int, s_nj as int, s_j as int, n * 2, k as int);
            }
            let sp = (s_j * s_ni + n * RAT_M) * NC + k;
            out.push(src[sp]);
        }
    }
    out
}

/// Takes every RAT_M-th node of column `s_i` of block `src`, `count` nodes from
/// the bottom edge, as a line of nodes (a block one node wide).
pub fn sample_column<T: Copy>(src: &Vec<T>, s_ni: usize, s_nj: usize, s_i: usize, count: usize) -> (out: Vec<T>)
    requires
        src@.len() == s_ni * s_nj * 9,
        s_i < s_ni,
        count == 0 || (count - 1) * RAT_M < s_nj,
    ensures
        out@.len() == count * 9,
        forall|n: int, k: int|
            0 <= n < count && 0 <= k < 9 ==> #[trigger] out@[at(1, n, 0, k)] == src@[at(
                s_ni as int,
                n * RAT_M,
                s_i as int,
                k,
            )],
{
    proof {
        lemma_sizes();
    }
    let s_total = src.len();
    let mut out: Vec<T> = Vec::new();
    for n in 0..count
        invariant
            src@.len() == s_ni * s_nj * 9,
            s_total == s_ni * s_nj * 9,
            s_i < s_ni,
            count == 0 || (count - 1) * RAT_M < s_nj,
            RAT_M == 2,
            out@.len() == n * 9,
            forall|m: int, kk: int|
                0 <= m < n && 0 <= kk < 9 ==> #[trigger] out@[at(1, m, 0, kk)] == src@[at(
                    s_ni as int,
                    m * RAT_M,
                    s_i as int,
                    kk,
                )],
    {
        for k in 0..NC
            invariant
                0 <= n < count,
                src@.len() == s_ni * s_nj * 9,
                s_total == s_ni * s_nj * 9,
                s_i < s_ni,
                (count - 1) * RAT_M < s_nj,
                RAT_M == 2,
                out@.len() == n * 9 + k,
                forall|m: int, kk: int|
                    (0 <= m < n && 0 <= kk < 9) || (m == n && 0 <= kk < k) ==> #[trigger] out@[at(
                        1,
                        m,
                        0,
                        kk,
                    )] == src@[at(s_ni as int, m * RAT_M, s_i as int, kk)],
        {
            proof {
                lemma_at(s_ni as int, s_nj as int, n * 2, s_i as int, k as int);
            }
            let sp = ((n * RAT_M) * s_ni + s_i) * NC + k;
            out.push(src[sp]);
        }
    }
    out
}

/// First row of the left and right blocks that lies next to the top block.
pub open spec fn top_row_in_side() -> int {
    NJ_B as int + NJ_M_C as int - 4
}

/// Fills the left and right edge columns of the top block from the left block
/// (column NI_L - 2) and the right block (column 1), whose rows overlap the top
/// block from row `top_row_in_side()` on.
pub fn link_top<T: Copy>(f_top: &mut Vec<T>, f_l: &Vec<T>, f_r: &Vec<T>)
    requires
        old(f_top)@.len() == NI_T * NJ_T * 9,
        f_l@.len() == NI_L * NJ_L * 9,
        f_r@.len() == NI_R * NJ_R * 9,
    ensures
        final(f_top)@.len() == old(f_top)@.len(),
        forall|j: int, i: int, k: int|
            in_grid(NI_T as int, NJ_T as int, j, i) && 0 <= k < 9 ==> #[trigger] final(f_top)@[at(
                NI_T as int,
                j,
                i,
                k,
            )] == if i == 0 {
                f_l@[at(NI_L as int, j + top_row_in_side(), NI_L - 2, k)]
            } else if i == NI_T - 1 {
                f_r@[at(NI_R as int, j + top_row_in_side(), 1, k)]
            } else {
                old(f_top)@[at(NI_T as int, j, i, k)]
            },
{
    proof {
        lemma_sizes();
    }
    copy_column(f_l, NI_L, NJ_L, NI_L - 2, NJ_B + NJ_M_C - 4, f_top, NI_T, NJ_T, 0, 0, NJ_T);
    copy_column(f_r, NI_R, NJ_R, 1, NJ_B + NJ_M_C - 4, f_top, NI_T, NJ_T, NI_T - 1, 0, NJ_T);
}

/// Fills the left and right edge columns of the bottom block from the left block
/// (column NI_L - 2) and the right block (column 1), whose lowest rows overlap it.
pub fn link_bottom<T: Copy>(f_bot: &mut Vec<T>, f_l: &Vec<T>, f_r: &Vec<T>)
    requires
        old(f_bot)@.len() == NI_B * NJ_B * 9,
        f_l@.len() == NI_L * NJ_L * 9,
        f_r@.len() == NI_R * NJ_R * 9,
    ensures
        final(f_bot)@.len() == old(f_bot)@.len(),
        forall|j: int, i: int, k: int|
            in_grid(NI_B as int, NJ_B as int, j, i) && 0 <= k < 9 ==> #[trigger] final(f_bot)@[at(
                NI_B as int,
                j,
                i,
                k,
            )] == if i == 0 {
                f_l@[at(NI_L as int, j, NI_L - 2, k)]
            } else if i == NI_B - 1 {
                f_r@[at(NI_R as int, j, 1, k)]
            } else {
                old(f_bot)@[at(NI_B as int, j, i, k)]
            },
{
    proof {
        lemma_sizes();
    }
    copy_column(f_l, NI_L, NJ_L, NI_L - 2, 0, f_bot, NI_B, NJ_B, 0, 0, NJ_B);
    copy_column(f_r, NI_R, NJ_R, 1, 0, f_bot, NI_B, NJ_B, NI_B - 1, 0, NJ_B);
}

/// Fills the right edge column of the left block next to the bottom block (rows
/// below NJ_B - 1, from column 1 of the bottom block) and next to the top block
/// (rows above `top_row_in_side()`, from column 1 of the top block).
pub fn link_left<T: Copy>(f_l: &mut Vec<T>, f_bot: &Vec<T>, f_top: &Vec<T>)
    requires
        old(f_l)@.len() == NI_L * NJ_L * 9,
        f_bot@.len() == NI_B * NJ_B * 9,
        f_top@.len() == NI_T * NJ_T * 9,
    ensures
        final(f_l)@.len() == old(f_l)@.len(),
        forall|j: int, i: int, k: int|
            in_grid(NI_L as int, NJ_L as int, j, i) && 0 <= k < 9 ==> #[trigger] final(f_l)@[at(
                NI_L as int,
                j,
                i,
                k,
            )] == if i == NI_L - 1 && j < NJ_B - 1 {
                f_bot@[at(NI_B as int, j, 1, k)]
            } else if i == NI_L - 1 && top_row_in_side() < j {
                f_top@[at(NI_T as int, j - top_row_in_side(), 1, k)]
            } else {
                old(f_l)@[at(NI_L as int, j, i, k)]
            },
{
    proof {
        lemma_sizes();
    }
    copy_column(f_bot, NI_B, NJ_B, 1, 0, f_l, NI_L, NJ_L, NI_L - 1, 0, NJ_B - 1);
    copy_column(f_top, NI_T, NJ_T, 1, 1, f_l, NI_L, NJ_L, NI_L - 1, 1 + NJ_B + NJ_M_C - 4, NJ_T - 1);
}

/// Fills the left edge column of the right block next to the bottom block (rows
/// below NJ_B - 1, from column NI_B - 2 of the bottom block) and next to the top
/// block (rows above `top_row_in_side()`, from column NI_T - 2 of the top block).
pub fn link_right<T: Copy>(f_r: &mut Vec<T>, f_bot: &Vec<T>, f_top: &Vec<T>)
    requires
        old(f_r)@.len() == NI_R * NJ_R * 9,
        f_bot@.len() == NI_B * NJ_B * 9,
        f_top@.len() == NI_T * NJ_T * 9,
    ensures
        final(f_r)@.len() == old(f_r)@.len(),
        forall|j: int, i: int, k: int|
            in_grid(NI_R as int, NJ_R as int, j, i) && 0 <= k < 9 ==> #[trigger] final(f_r)@[at(
                NI_R as int,
                j,
                i,
                k,
            )] == if i == 0 && j < NJ_B - 1 {
                f_bot@[at(NI_B as int, j, NI_B - 2, k)]
            } else if i == 0 && top_row_in_side() < j {
                f_top@[at(NI_T as int, j - top_row_in_side(), NI_T - 2, k)]
            } else {
                old(f_r)@[at(NI_R as int, j, i, k)]
            },
{
    proof {
        lemma_sizes();
    }
    copy_column(f_bot, NI_B, NJ_B, NI_B - 2, 0, f_r, NI_R, NJ_R, 0, 0, NJ_B - 1);
    copy_column(f_top, NI_T, NJ_T, NI_T - 2, 1, f_r, NI_R, NJ_R, 0, 1 + NJ_B + NJ_M_C - 4, NJ_T - 1);
}

} // verus!
