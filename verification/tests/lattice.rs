use fluid_sim::lattice::inv;
use fluid_sim::interpolation::swap_ord;

const CX: [i32; 9] = [0, 1, 0, -1, 0, 1, -1, -1, 1];
const CY: [i32; 9] = [0, 0, 1, 0, -1, 1, 1, -1, -1];

#[test]
fn inv_table() {
    let expected = [0usize, 3, 4, 1, 2, 7, 8, 5, 6];
    for k in 0..9 {
        assert_eq!(inv(k), expected[k]);
    }
}

#[test]
fn inv_is_an_involution() {
    for k in 0..9 {
        assert_eq!(inv(inv(k)), k);
    }
}

#[test]
fn inv_reverses_velocity() {
    for k in 0..9 {
        assert_eq!(CX[inv(k)], -CX[k]);
        assert_eq!(CY[inv(k)], -CY[k]);
    }
}

#[test]
fn inv_fixes_only_rest_direction() {
    for k in 0..9 {
        assert_eq!(inv(k) == k, k == 0);
    }
}

#[test]
fn swap_ord_rotates() {
    let mut ord = [0usize, 1, 2];
    swap_ord(&mut ord);
    assert_eq!(ord, [2, 0, 1]);
    swap_ord(&mut ord);
    assert_eq!(ord, [1, 2, 0]);
    swap_ord(&mut ord);
    assert_eq!(ord, [0, 1, 2]);
}

#[test]
fn swap_ord_keeps_permutation() {
    let mut ord = [1usize, 0, 2];
    for _ in 0..5 {
        swap_ord(&mut ord);
        let mut seen = [false; 3];
        for m in 0..3 {
            assert!(ord[m] < 3);
            seen[ord[m]] = true;
        }
        assert!(seen.iter().all(|s| *s));
    }
}

#[test]
fn swap_ord_newest_slot_was_oldest() {
    let mut ord = [4usize, 5, 6];
    swap_ord(&mut ord);
    assert_eq!(ord[0], 6);
    assert_eq!(ord[1], 4);
    assert_eq!(ord[2], 5);
}
