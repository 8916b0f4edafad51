use escape_render::grid::{Grid, GridError, GridStrip};

fn strips(g: &Grid, h: u32) -> Vec<(u32, u32)> {
    g.iter_strips(h).iter().map(|s| (s.start, s.height)).collect()
}

#[test]
fn grid_new_rejects_zero_dimensions() {
    assert_eq!(Grid::new(0, 5), Err(GridError::ZeroSize));
    assert_eq!(Grid::new(5, 0), Err(GridError::ZeroSize));
    assert_eq!(Grid::new(3, 2), Ok(Grid { cells_x: 3, cells_y: 2 }));
}

#[test]
fn grid_counts_and_row_start() {
    let g = Grid::new(3, 5).unwrap();
    assert_eq!(g.num_cells(), 15);
    assert_eq!(g.cells_wide(), 3);
    assert_eq!(g.cells_high(), 5);
    assert_eq!(g.row_start(0), 0);
    assert_eq!(g.row_start(4), 12);
    assert_eq!(g.num_cells_in_strip(&GridStrip::new(1, 2)), 6);
}

#[test]
fn grid_cell_position_range() {
    let g = Grid::new(3, 2).unwrap();
    assert_eq!(g.cell_position(2, 1), Some((2, 1)));
    assert_eq!(g.cell_position(3, 0), None);
    assert_eq!(g.cell_position(0, 2), None);
}

#[test]
fn grid_iter_is_row_major() {
    let g = Grid::new(3, 2).unwrap();
    assert_eq!(g.iter(), vec![(0, 0), (1, 0), (2, 0), (0, 1), (1, 1), (2, 1)]);
}

#[test]
fn strips_of_height_one() {
    let g = Grid::new(2, 4).unwrap();
    assert_eq!(strips(&g, 1), vec![(0, 1), (1, 1), (2, 1), (3, 1)]);
}

#[test]
fn strips_with_short_last_strip() {
    let g = Grid::new(1, 10).unwrap();
    assert_eq!(strips(&g, 4), vec![(0, 4), (4, 4), (8, 2)]);
}

#[test]
fn strips_absorb_single_leftover_row() {
    let g = Grid::new(1, 9).unwrap();
    assert_eq!(strips(&g, 4), vec![(0, 4), (4, 5)]);
}

#[test]
fn strips_even_division() {
    let g = Grid::new(1, 8).unwrap();
    assert_eq!(strips(&g, 4), vec![(0, 4), (4, 4)]);
}

#[test]
fn strips_taller_than_grid() {
    let g = Grid::new(1, 1).unwrap();
    assert_eq!(strips(&g, 3), vec![(0, 1)]);
    let g = Grid::new(1, 2).unwrap();
    assert_eq!(strips(&g, 7), vec![(0, 2)]);
}

#[test]
fn strips_height_zero_is_clamped() {
    let g = Grid::new(1, 3).unwrap();
    assert_eq!(strips(&g, 0), vec![(0, 1), (1, 1), (2, 1)]);
}

#[test]
fn strips_partition_rows_for_many_heights() {
    for rows in 1u32..40 {
        let g = Grid::new(2, rows).unwrap();
        for h in 0u32..45 {
            let s = strips(&g, h);
            let mut next = 0;
            for (start, height) in &s {
                assert_eq!(*start, next);
                assert!(*height > 0);
                next = start + height;
            }
            assert_eq!(next, rows);
        }
    }
}

#[test]
fn strip_iter_replays_rows() {
    let g = Grid::new(2, 3).unwrap();
    let s = GridStrip::new(1, 2);
    assert_eq!(s.iter(&g), vec![(0, 1), (1, 1), (0, 2), (1, 2)]);
}

#[test]
fn iterate_equals_concatenated_strips() {
    let g = Grid::new(5, 7).unwrap();
    let all = g.iter();
    assert_eq!(all.len(), 35);
    let mut joined = Vec::new();
    for s in g.iter_strips(1) {
        joined.extend(s.iter(&g));
    }
    assert_eq!(all, joined);
}
