use fluid_sim::coupling::{copy_column, sample_row, sample_column, link_top, link_bottom, link_left, link_right};
use fluid_sim::parameters::{NI_T, NJ_T, NI_B, NJ_B, NI_L, NJ_L, NI_R, NJ_R, NI_M, NJ_M, NJ_M_C, RAT_M};

fn at(ni: usize, j: usize, i: usize, k: usize) -> usize {
    (j * ni + i) * 9 + k
}

fn block(ni: usize, nj: usize, tag: u32) -> Vec<u32> {
    (0..(ni * nj * 9) as u32).map(|p| tag * 1_000_000 + p).collect()
}

#[test]
fn copy_column_exact() {
    let src = block(4, 5, 1);
    let mut dst = block(3, 6, 2);
    let before = dst.clone();
    copy_column(&src, 4, 5, 2, 1, &mut dst, 3, 6, 0, 3, 3);
    for j in 0..6 {
        for i in 0..3 {
            for k in 0..9 {
                let expected = if i == 0 && j >= 3 && j < 6 {
                    src[at(4, 1 + (j - 3), 2, k)]
                } else {
                    before[at(3, j, i, k)]
                };
                assert_eq!(dst[at(3, j, i, k)], expected);
            }
        }
    }
}

#[test]
fn copy_column_nothing() {
    let src = block(2, 2, 1);
    let mut dst = block(2, 2, 2);
    let before = dst.clone();
    copy_column(&src, 2, 2, 1, 2, &mut dst, 2, 2, 1, 2, 0);
    assert_eq!(dst, before);
}

#[test]
fn sample_row_takes_every_second_node() {
    let src = block(NI_M, NJ_M, 3);
    let line = sample_row(&src, NI_M, NJ_M, NJ_M - 1 - RAT_M, NI_T);
    assert_eq!(line.len(), NI_T * 9);
    for n in 0..NI_T {
        for k in 0..9 {
            assert_eq!(line[n * 9 + k], src[at(NI_M, NJ_M - 1 - RAT_M, 2 * n, k)]);
        }
    }
    // the last sample is the right edge node of the main block
    assert_eq!(line[(NI_T - 1) * 9], src[at(NI_M, NJ_M - 1 - RAT_M, NI_M - 1, 0)]);
}

#[test]
fn sample_column_takes_every_second_node() {
    let src = block(NI_M, NJ_M, 4);
    let line = sample_column(&src, NI_M, NJ_M, RAT_M, NJ_M_C);
    assert_eq!(line.len(), NJ_M_C * 9);
    for n in 0..NJ_M_C {
        for k in 0..9 {
            assert_eq!(line[n * 9 + k], src[at(NI_M, 2 * n, RAT_M, k)]);
        }
    }
    assert_eq!(line[(NJ_M_C - 1) * 9 + 8], src[at(NI_M, NJ_M - 1, RAT_M, 8)]);
    assert!(sample_column(&src, NI_M, NJ_M, 0, 0).is_empty());
}

#[test]
fn link_top_exact() {
    let mut top = block(NI_T, NJ_T, 5);
    let before = top.clone();
    let left = block(NI_L, NJ_L, 6);
    let right = block(NI_R, NJ_R, 7);
    link_top(&mut top, &left, &right);
    let off = NJ_B + NJ_M_C - 4;
    assert_eq!(off, 131);
    for j in 0..NJ_T {
        for i in 0..NI_T {
            for k in 0..9 {
                let expected = if i == 0 {
                    left[at(NI_L, j + off, NI_L - 2, k)]
                } else if i == NI_T - 1 {
                    right[at(NI_R, j + off, 1, k)]
                } else {
                    before[at(NI_T, j, i, k)]
                };
                assert_eq!(top[at(NI_T, j, i, k)], expected);
            }
        }
    }
}

#[test]
fn link_bottom_exact() {
    let mut bot = block(NI_B, NJ_B, 5);
    let before = bot.clone();
    let left = block(NI_L, NJ_L, 6);
    let right = block(NI_R, NJ_R, 7);
    link_bottom(&mut bot, &left, &right);
    for j in 0..NJ_B {
        for i in 0..NI_B {
            let expected = if i == 0 {
                left[at(NI_L, j, NI_L - 2, 4)]
            } else if i == NI_B - 1 {
                right[at(NI_R, j, 1, 4)]
            } else {
                before[at(NI_B, j, i, 4)]
            };
            assert_eq!(bot[at(NI_B, j, i, 4)], expected);
        }
    }
}

#[test]
fn link_left_and_right_exact() {
    let bot = block(NI_B, NJ_B, 8);
    let top = block(NI_T, NJ_T, 9);
    let mut left = block(NI_L, NJ_L, 10);
    let mut right = block(NI_R, NJ_R, 11);
    let left0 = left.clone();
    let right0 = right.clone();
    link_left(&mut left, &bot, &top);
    link_right(&mut right, &bot, &top);
    let off = NJ_B + NJ_M_C - 4;
    for j in 0..NJ_L {
        for k in 0..9 {
            let exp_l = if j < NJ_B - 1 {
                bot[at(NI_B, j, 1, k)]
            } else if j > off {
                top[at(NI_T, j - off, 1, k)]
            } else {
                left0[at(NI_L, j, NI_L - 1, k)]
            };
            assert_eq!(left[at(NI_L, j, NI_L - 1, k)], exp_l);
            let exp_r = if j < NJ_B - 1 {
                bot[at(NI_B, j, NI_B - 2, k)]
            } else if j > off {
                top[at(NI_T, j - off, NI_T - 2, k)]
            } else {
                right0[at(NI_R, j, 0, k)]
            };
            assert_eq!(right[at(NI_R, j, 0, k)], exp_r);
            // other columns untouched
            assert_eq!(left[at(NI_L, j, 0, k)], left0[at(NI_L, j, 0, k)]);
            assert_eq!(right[at(NI_R, j, 1, k)], right0[at(NI_R, j, 1, k)]);
        }
    }
    // the rows next to the main block keep their values
    assert_eq!(left[at(NI_L, NJ_B, NI_L - 1, 0)], left0[at(NI_L, NJ_B, NI_L - 1, 0)]);
}
