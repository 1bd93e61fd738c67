use fluid_sim::advection::{calc_advection, calc_advection_with_phys_bc};
use fluid_sim::cells::{Boundary, Cell};
use fluid_sim::lattice::inv;

const CX: [i32; 9] = [0, 1, 0, -1, 0, 1, -1, -1, 1];
const CY: [i32; 9] = [0, 0, 1, 0, -1, 1, 1, -1, -1];

fn at(ni: usize, j: usize, i: usize, k: usize) -> usize {
    (j * ni + i) * 9 + k
}

fn reference_stream(ni: usize, nj: usize, f_str: &Vec<u32>, f_old: &Vec<u32>) -> Vec<u32> {
    let mut out = f_old.clone();
    for j in 0..nj {
        for i in 0..ni {
            for k in 0..9 {
                let sj = j as i64 - CY[k] as i64;
                let si = i as i64 - CX[k] as i64;
                if sj >= 0 && sj < nj as i64 && si >= 0 && si < ni as i64 {
                    out[at(ni, j, i, k)] = f_str[at(ni, sj as usize, si as usize, k)];
                }
            }
        }
    }
    out
}

fn reference_bounce(ni: usize, nj: usize, cells: &Vec<Cell>, f_str: &Vec<u32>, f_old: &Vec<u32>) -> Vec<u32> {
    let mut out = f_old.clone();
    for j in 0..nj {
        for i in 0..ni {
            if cells[j * ni + i] != Cell::Alive {
                continue;
            }
            for k in 0..9 {
                let sj = j as i64 - CY[k] as i64;
                let si = i as i64 - CX[k] as i64;
                if sj >= 0 && sj < nj as i64 && si >= 0 && si < ni as i64 {
                    let (sj, si) = (sj as usize, si as usize);
                    out[at(ni, j, i, k)] = if cells[sj * ni + si] == Cell::Alive {
                        f_str[at(ni, sj, si, k)]
                    } else {
                        f_str[at(ni, j, i, inv(k))]
                    };
                }
            }
        }
    }
    out
}

#[test]
fn advection_matches_pull_formula() {
    let (ni, nj) = (4usize, 3usize);
    let n = ni * nj * 9;
    let f_str: Vec<u32> = (0..n as u32).map(|p| 1000 + p).collect();
    let mut f: Vec<u32> = (0..n as u32).collect();
    let expected = reference_stream(ni, nj, &f_str, &f);
    calc_advection(ni, nj, &f_str, &CX, &CY, &mut f);
    assert_eq!(f, expected);
}

#[test]
fn advection_exact_values() {
    let (ni, nj) = (3usize, 3usize);
    let n = ni * nj * 9;
    let f_str: Vec<u32> = (0..n as u32).map(|p| 1000 + p).collect();
    let mut f: Vec<u32> = vec![7; n];
    calc_advection(ni, nj, &f_str, &CX, &CY, &mut f);
    // direction 1 (+x) at node (1, 1) comes from node (1, 0)
    assert_eq!(f[at(3, 1, 1, 1)], 1000 + at(3, 1, 0, 1) as u32);
    // direction 1 at the left edge has no upstream node: unchanged
    assert_eq!(f[at(3, 1, 0, 1)], 7);
    // direction 5 (+x, +y) at node (2, 2) comes from node (1, 1)
    assert_eq!(f[at(3, 2, 2, 5)], 1000 + at(3, 1, 1, 5) as u32);
    // the rest direction stays on its node
    assert_eq!(f[at(3, 0, 0, 0)], 1000 + at(3, 0, 0, 0) as u32);
    // direction 7 (-x, -y) at the top-right corner has no upstream node
    assert_eq!(f[at(3, 2, 2, 7)], 7);
}

#[test]
fn advection_with_floats() {
    let (ni, nj) = (2usize, 2usize);
    let n = ni * nj * 9;
    let f_str: Vec<f64> = (0..n).map(|p| p as f64 * 0.5).collect();
    let mut f: Vec<f64> = vec![-1.0; n];
    calc_advection(ni, nj, &f_str, &CX, &CY, &mut f);
    assert_eq!(f[at(2, 0, 1, 1)], f_str[at(2, 0, 0, 1)]);
    assert_eq!(f[at(2, 0, 0, 1)], -1.0);
}

#[test]
fn advection_empty_grid() {
    let f_str: Vec<u32> = Vec::new();
    let mut f: Vec<u32> = Vec::new();
    calc_advection(0, 5, &f_str, &CX, &CY, &mut f);
    assert!(f.is_empty());
}

#[test]
fn bounce_back_matches_pull_formula() {
    let (ni, nj) = (5usize, 4usize);
    let n = ni * nj * 9;
    let mut cells = vec![Cell::Alive; ni * nj];
    cells[1 * ni + 2] = Cell::Dead;
    cells[2 * ni + 2] = Cell::Dead;
    cells[3 * ni + 4] = Cell::Dead;
    let bound = Boundary { cell: cells.clone() };
    let f_str: Vec<u32> = (0..n as u32).map(|p| 5000 + p).collect();
    let mut f: Vec<u32> = (0..n as u32).collect();
    let expected = reference_bounce(ni, nj, &cells, &f_str, &f);
    calc_advection_with_phys_bc(ni, nj, &bound, &f_str, &CX, &CY, &mut f);
    assert_eq!(f, expected);
}

#[test]
fn bounce_back_exact_values() {
    let (ni, nj) = (3usize, 1usize);
    let n = ni * nj * 9;
    let bound = Boundary { cell: vec![Cell::Alive, Cell::Dead, Cell::Alive] };
    let f_str: Vec<u32> = (0..n as u32).map(|p| 100 + p).collect();
    let mut f: Vec<u32> = vec![0; n];
    calc_advection_with_phys_bc(ni, nj, &bound, &f_str, &CX, &CY, &mut f);
    // node 0 sends +x into the solid node 1: it comes back as -x at node 0
    assert_eq!(f[at(3, 0, 0, 3)], 100 + at(3, 0, 0, 1) as u32);
    // node 2 sends -x into the solid node 1: it comes back as +x at node 2
    assert_eq!(f[at(3, 0, 2, 1)], 100 + at(3, 0, 2, 3) as u32);
    // the solid node receives nothing
    for k in 0..9 {
        assert_eq!(f[at(3, 0, 1, k)], 0);
    }
    // rest direction of fluid nodes streams in place
    assert_eq!(f[at(3, 0, 0, 0)], 100);
}

#[test]
fn bounce_back_without_solids_is_plain_streaming() {
    let (ni, nj) = (4usize, 4usize);
    let n = ni * nj * 9;
    let bound = Boundary { cell: vec![Cell::Alive; ni * nj] };
    let f_str: Vec<u32> = (0..n as u32).map(|p| 3 * p + 1).collect();
    let mut f1: Vec<u32> = vec![9; n];
    let mut f2: Vec<u32> = vec![9; n];
    calc_advection(ni, nj, &f_str, &CX, &CY, &mut f1);
    calc_advection_with_phys_bc(ni, nj, &bound, &f_str, &CX, &CY, &mut f2);
    assert_eq!(f1, f2);
}
