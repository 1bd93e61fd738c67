use fluid_sim::cells::{Boundary, Cell, Index};
use fluid_sim::fluid::Fluid;
use fluid_sim::parameters::{NI_M, NJ_M, NI_PLOT, NJ_PLOT, N_RGB, RAT_PLOT};
use fluid_sim::plot::CMap;

fn grey_cmap() -> CMap {
    CMap {
        r: (0..256u32).map(|v| v as u8).collect(),
        g: (0..256u32).map(|v| (255 - v) as u8).collect(),
        b: (0..256u32).map(|v| (v / 2) as u8).collect(),
    }
}

fn pixel(rgb: &Vec<u8>, pi: usize, pj: usize) -> (u8, u8, u8) {
    let idx = pj * NI_PLOT * 3 + pi * 3;
    (rgb[idx], rgb[idx + 1], rgb[idx + 2])
}

#[test]
fn sizes() {
    assert_eq!(NI_M, 179);
    assert_eq!(NJ_M, 89);
    assert_eq!(NI_PLOT, 358);
    assert_eq!(NJ_PLOT, 178);
    assert_eq!(N_RGB, 191172);
    let fl = Fluid::new(grey_cmap());
    assert_eq!(fl.get_ni_cells(), 179);
    assert_eq!(fl.get_nj_cells(), 89);
    assert_eq!(fl.get_ni(), 358);
    assert_eq!(fl.get_nj(), 178);
    assert_eq!(fl.get_rate_plot(), 2);
}

#[test]
fn new_fluid_is_empty() {
    let fl = Fluid::new(grey_cmap());
    assert_eq!(fl.rgb.len(), N_RGB);
    assert!(fl.rgb.iter().all(|b| *b == 0));
    assert!(fl.bound.cell.iter().all(|c| *c == Cell::Alive));
    assert!(fl.bound_up.is_empty() && fl.bound_down.is_empty());
    assert!(fl.bound_left.is_empty() && fl.bound_right.is_empty());
}

#[test]
fn cylinder_shape() {
    let mut b = Boundary::new();
    b.set_cylinder();
    let count = b.cell.iter().filter(|c| **c == Cell::Dead).count();
    let mut expected = 0;
    for j in 0..NJ_M {
        for i in 0..NI_M {
            let d2 = (i as i64 - 44).pow(2) + (j as i64 - 44).pow(2);
            let inside = (d2 as f64) < (NJ_M as f64 / 8.0) * (NJ_M as f64 / 8.0);
            assert_eq!(b.cell[j * NI_M + i] == Cell::Dead, inside);
            if inside {
                expected += 1;
            }
        }
    }
    assert_eq!(count, expected);
    // centre solid, a node 11 away solid, a node 12 away fluid
    assert_eq!(b.cell[44 * NI_M + 44], Cell::Dead);
    assert_eq!(b.cell[44 * NI_M + 55], Cell::Dead);
    assert_eq!(b.cell[44 * NI_M + 56], Cell::Alive);
    assert_eq!(b.cell[44 * NI_M + 32], Cell::Alive);
}

#[test]
fn mask_sets_solid_where_zero() {
    let mut fl = Fluid::new(grey_cmap());
    let mut mask = vec![1u8; NI_M * NJ_M];
    mask[0] = 0;
    mask[NI_M * NJ_M - 1] = 0;
    mask[10 * NI_M + 20] = 0;
    fl.set_airfoil(&mask);
    assert_eq!(fl.bound.cell.iter().filter(|c| **c == Cell::Dead).count(), 3);
    assert_eq!(fl.bound.cell[10 * NI_M + 20], Cell::Dead);
    let mut mask2 = vec![0u8; NI_M * NJ_M];
    mask2[5] = 7;
    fl.set_na(&mask2);
    assert_eq!(fl.bound.cell.iter().filter(|c| **c == Cell::Alive).count(), 1);
    assert_eq!(fl.bound.cell[5], Cell::Alive);
    fl.init_cells();
    assert!(fl.bound.cell.iter().all(|c| *c == Cell::Alive));
}

#[test]
fn single_solid_node_faces() {
    let mut fl = Fluid::new(grey_cmap());
    fl.bound.cell[10 * NI_M + 20] = Cell::Dead;
    fl.find_physical_boundary();
    assert_eq!(fl.bound_up, vec![Index { i: 20, j: 11 }]);
    assert_eq!(fl.bound_down, vec![Index { i: 20, j: 9 }]);
    assert_eq!(fl.bound_right, vec![Index { i: 21, j: 10 }]);
    assert_eq!(fl.bound_left, vec![Index { i: 19, j: 10 }]);
}

#[test]
fn faces_at_block_edges_and_order() {
    let mut fl = Fluid::new(grey_cmap());
    // corner node: only the inner neighbours exist
    fl.bound.cell[0] = Cell::Dead;
    // two horizontally adjacent solid nodes share no face between them
    fl.bound.cell[5 * NI_M + 7] = Cell::Dead;
    fl.bound.cell[5 * NI_M + 8] = Cell::Dead;
    fl.find_physical_boundary();
    assert_eq!(
        fl.bound_up,
        vec![Index { i: 0, j: 1 }, Index { i: 7, j: 6 }, Index { i: 8, j: 6 }]
    );
    assert_eq!(fl.bound_down, vec![Index { i: 7, j: 4 }, Index { i: 8, j: 4 }]);
    assert_eq!(fl.bound_right, vec![Index { i: 1, j: 0 }, Index { i: 9, j: 5 }]);
    assert_eq!(fl.bound_left, vec![Index { i: 6, j: 5 }]);
}

#[test]
fn faces_replace_previous_lists() {
    let mut fl = Fluid::new(grey_cmap());
    fl.bound.cell[10 * NI_M + 20] = Cell::Dead;
    fl.find_physical_boundary();
    fl.init_cells();
    fl.find_physical_boundary();
    assert!(fl.bound_up.is_empty());
    assert!(fl.bound_down.is_empty());
    assert!(fl.bound_left.is_empty());
    assert!(fl.bound_right.is_empty());
}

#[test]
fn cylinder_faces_are_exact_and_unique() {
    let mut fl = Fluid::new(grey_cmap());
    fl.set_cylinder();
    fl.find_physical_boundary();
    let cells = fl.bound.cell.clone();
    let dead = |j: i64, i: i64| {
        j >= 0 && j < NJ_M as i64 && i >= 0 && i < NI_M as i64 && cells[j as usize * NI_M + i as usize] == Cell::Dead
    };
    let lists = [
        (&fl.bound_up, 1i64, 0i64),
        (&fl.bound_down, -1, 0),
        (&fl.bound_right, 0, 1),
        (&fl.bound_left, 0, -1),
    ];
    for (list, dj, di) in lists.iter() {
        assert!(!list.is_empty());
        for (a, x) in list.iter().enumerate() {
            assert_eq!(cells[x.j * NI_M + x.i], Cell::Alive);
            assert!(dead(x.j as i64 - dj, x.i as i64 - di));
            for y in list.iter().skip(a + 1) {
                assert_ne!(x, y);
            }
        }
        let mut count = 0;
        for j in 0..NJ_M as i64 {
            for i in 0..NI_M as i64 {
                if !dead(j, i) && dead(j - dj, i - di) {
                    count += 1;
                }
            }
        }
        assert_eq!(list.len(), count);
    }
}

#[test]
fn update_one_cell_draws_and_erases() {
    let mut fl = Fluid::new(grey_cmap());
    fl.update_one_cell(3, 4, 0);
    assert_eq!(fl.bound.cell[4 * NI_M + 3], Cell::Dead);
    for kj in 0..RAT_PLOT {
        for ki in 0..RAT_PLOT {
            assert_eq!(pixel(&fl.rgb, 3 * RAT_PLOT + ki, 4 * RAT_PLOT + kj), (71, 181, 255));
        }
    }
    assert_eq!(pixel(&fl.rgb, 3 * RAT_PLOT + 2, 4 * RAT_PLOT), (0, 0, 0));
    let painted = fl.rgb.iter().filter(|b| **b != 0).count();
    assert_eq!(painted, 12);
    fl.update_one_cell(3, 4, 1);
    assert_eq!(fl.bound.cell[4 * NI_M + 3], Cell::Alive);
    assert_eq!(pixel(&fl.rgb, 3 * RAT_PLOT + 1, 4 * RAT_PLOT + 1), (6, 40, 61));
    fl.update_one_cell(0, 0, 5);
    assert_eq!(pixel(&fl.rgb, 0, 0), (6, 40, 61));
}

#[test]
fn plot_cells_paints_everything() {
    let mut fl = Fluid::new(grey_cmap());
    fl.bound.cell[2 * NI_M + 1] = Cell::Dead;
    fl.plot_cells();
    assert_eq!(pixel(&fl.rgb, 2, 4), (71, 181, 255));
    assert_eq!(pixel(&fl.rgb, 3, 5), (71, 181, 255));
    assert_eq!(pixel(&fl.rgb, 4, 4), (6, 40, 61));
    assert_eq!(pixel(&fl.rgb, NI_PLOT - 1, NJ_PLOT - 1), (6, 40, 61));
    let solid = (0..NI_PLOT * NJ_PLOT)
        .filter(|p| pixel(&fl.rgb, p % NI_PLOT, p / NI_PLOT) == (71, 181, 255))
        .count();
    assert_eq!(solid, RAT_PLOT * RAT_PLOT);
}

#[test]
fn boundary_overlay_keeps_fluid_pixels() {
    let mut fl = Fluid::new(grey_cmap());
    for b in fl.rgb.iter_mut() {
        *b = 9;
    }
    fl.bound.cell[NJ_M * NI_M - 1] = Cell::Dead;
    fl.plotter.boundary(&fl.bound, &mut fl.rgb);
    assert_eq!(pixel(&fl.rgb, NI_PLOT - 1, NJ_PLOT - 1), (71, 181, 255));
    assert_eq!(pixel(&fl.rgb, NI_PLOT - 2, NJ_PLOT - 2), (71, 181, 255));
    assert_eq!(pixel(&fl.rgb, NI_PLOT - 3, NJ_PLOT - 1), (9, 9, 9));
    assert_eq!(pixel(&fl.rgb, 0, 0), (9, 9, 9));
}

#[test]
fn value_paints_levels_and_black() {
    let mut fl = Fluid::new(grey_cmap());
    let mut levels: Vec<Option<u8>> = vec![Some(10); NI_M * NJ_M];
    levels[1] = None;
    levels[2] = Some(255);
    fl.plotter.value(&levels, &mut fl.rgb);
    assert_eq!(pixel(&fl.rgb, 0, 0), (10, 245, 5));
    assert_eq!(pixel(&fl.rgb, 1, 1), (10, 245, 5));
    assert_eq!(pixel(&fl.rgb, 2, 0), (0, 0, 0));
    assert_eq!(pixel(&fl.rgb, 3, 1), (0, 0, 0));
    assert_eq!(pixel(&fl.rgb, 4, 0), (255, 0, 127));
    assert_eq!(pixel(&fl.rgb, NI_PLOT - 1, NJ_PLOT - 1), (10, 245, 5));
}

#[test]
fn set_color_and_cmap_write_one_pixel() {
    let fl = Fluid::new(grey_cmap());
    let mut rgb = vec![0u8; N_RGB];
    fl.plotter.set_color(5, 7, 1, 2, 3, &mut rgb);
    assert_eq!(pixel(&rgb, 5, 7), (1, 2, 3));
    assert_eq!(rgb.iter().filter(|b| **b != 0).count(), 3);
    fl.plotter.set_cmap(NI_PLOT - 1, NJ_PLOT - 1, 200, &mut rgb);
    assert_eq!(pixel(&rgb, NI_PLOT - 1, NJ_PLOT - 1), (200, 55, 100));
    assert_eq!(rgb[N_RGB - 1], 100);
}
