use battleship_heatmap::cell_grid::{
    diagonal_offsets, orthogonal_offsets, CellGrid, GRID_SIZE,
};

#[test]
fn new_grid_is_filled_with_the_value() {
    let g: CellGrid<u8> = CellGrid::new(7);
    assert_eq!(g.cells.len(), GRID_SIZE);
    for row in &g.cells {
        assert_eq!(row.len(), GRID_SIZE);
        for v in row {
            assert_eq!(*v, 7);
        }
    }
}

#[test]
fn is_inside_tracks_the_board_not_the_padding() {
    let g: CellGrid<u8> = CellGrid::new(0);
    assert!(g.is_inside(0, 0));
    assert!(g.is_inside(9, 9));
    assert!(!g.is_inside(10, 0));
    assert!(!g.is_inside(0, 10));
    assert!(!g.is_inside(15, 15));
}

#[test]
fn get_and_set_round_trip() {
    let mut g: CellGrid<u32> = CellGrid::new(0);
    g.set(3, 4, 99);
    assert_eq!(g.get(3, 4), 99);
    assert_eq!(g.get(4, 3), 0);
}

#[test]
fn iter_offset_cords_filters_the_border() {
    let cords = CellGrid::<u8>::iter_offset_cords(0, 0, orthogonal_offsets());
    assert_eq!(cords, vec![(1, 0), (0, 1)]);
    let cords = CellGrid::<u8>::iter_offset_cords(5, 5, diagonal_offsets());
    assert_eq!(cords, vec![(4, 4), (6, 4), (4, 6), (6, 6)]);
    let cords = CellGrid::<u8>::iter_offset_cords(9, 9, diagonal_offsets());
    assert_eq!(cords, vec![(8, 8)]);
}

#[test]
fn foreach_orthogonal_neighbors_touches_exactly_the_neighbors() {
    let mut g: CellGrid<u32> = CellGrid::new(1);
    g.foreach_orthogonal_neighbors(5, 5, |v| v + 10);
    for y in 0..GRID_SIZE {
        for x in 0..GRID_SIZE {
            let expect = if (x, y) == (4, 5) || (x, y) == (6, 5) || (x, y) == (5, 4) || (x, y) == (5, 6) {
                11
            } else {
                1
            };
            assert_eq!(g.get(x, y), expect, "at ({x},{y})");
        }
    }
}

#[test]
fn foreach_diagonal_neighbors_clips_at_the_corner() {
    let mut g: CellGrid<u32> = CellGrid::new(0);
    g.foreach_diagonal_neighbors(9, 9, |v| v + 1);
    let mut touched = 0;
    for y in 0..GRID_SIZE {
        for x in 0..GRID_SIZE {
            touched += g.get(x, y);
        }
    }
    assert_eq!(touched, 1);
    assert_eq!(g.get(8, 8), 1);
}
