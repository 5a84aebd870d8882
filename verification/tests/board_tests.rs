use battleship_heatmap::board::{set_protecet_at_offsets, Board, Cell, Direction};
use battleship_heatmap::ship::Ship;

fn cell(b: &Board, x: usize, y: usize) -> Cell {
    b.cells[x + y * 10]
}

#[test]
fn new_board_is_all_water() {
    let b = Board::new();
    assert_eq!(b.cells.len(), 128);
    for c in &b.cells {
        assert_eq!(*c, Cell::Water);
    }
}

#[test]
fn cell_index_is_row_major() {
    assert_eq!(Board::cell_index(0, 0), 0);
    assert_eq!(Board::cell_index(9, 0), 9);
    assert_eq!(Board::cell_index(0, 1), 10);
    assert_eq!(Board::cell_index(3, 7), 73);
}

#[test]
fn saturating_cell_index_clamps() {
    assert_eq!(Board::saturating_cell_index(3, 4), 43);
    assert_eq!(Board::saturating_cell_index(12, 4), 49);
    assert_eq!(Board::saturating_cell_index(3, 11), 93);
    assert_eq!(Board::saturating_cell_index(100, 100), 99);
}

#[test]
fn const_place_ship_corner_horizontal() {
    let mut b = Board::new();
    b.const_place_ship(0, 0, Direction::Horizontal, Ship::new(4, 0));
    // the ship itself
    for x in 0..4 {
        assert_eq!(cell(&b, x, 0), Cell::Ship);
    }
    // the buffer ring, clipped at the top-left corner
    for x in 0..5 {
        assert_eq!(cell(&b, x, 1), Cell::Protected);
    }
    assert_eq!(cell(&b, 4, 0), Cell::Protected);
    // everything else untouched
    for y in 2..10 {
        for x in 0..10 {
            assert_eq!(cell(&b, x, y), Cell::Water);
        }
    }
    for x in 5..10 {
        assert_eq!(cell(&b, x, 0), Cell::Water);
        assert_eq!(cell(&b, x, 1), Cell::Water);
    }
}

#[test]
fn const_place_ship_middle_vertical() {
    let mut b = Board::new();
    b.const_place_ship(5, 5, Direction::Vetrical, Ship::new(2, 2));
    for y in 5..7 {
        assert_eq!(cell(&b, 5, y), Cell::Ship);
    }
    for y in 4..8 {
        for x in 4..7 {
            if x == 5 && (y == 5 || y == 6) {
                continue;
            }
            assert_eq!(cell(&b, x, y), Cell::Protected, "at ({x},{y})");
        }
    }
    assert_eq!(cell(&b, 3, 5), Cell::Water);
    assert_eq!(cell(&b, 5, 8), Cell::Water);
}

#[test]
fn place_rejects_occupied_cells_without_mutation() {
    let mut b = Board::new();
    assert!(b.place(2, 2, Direction::Horizontal, Ship::new(3, 1)));
    let snapshot = b.cells.clone();
    // overlapping the ship's own cells
    assert!(!b.place(2, 2, Direction::Horizontal, Ship::new(3, 1)));
    assert_eq!(b.cells, snapshot);
    // overlapping only the buffer ring
    assert!(!b.place(5, 2, Direction::Vetrical, Ship::new(2, 2)));
    assert_eq!(b.cells, snapshot);
    // far away is fine
    assert!(b.place(7, 7, Direction::Vetrical, Ship::new(2, 2)));
    assert_eq!(cell(&b, 7, 7), Cell::Ship);
    assert_eq!(cell(&b, 7, 8), Cell::Ship);
}

#[test]
fn place_rejects_off_board_placements() {
    let mut b = Board::new();
    assert!(!b.place(8, 0, Direction::Horizontal, Ship::new(4, 0)));
    assert!(!b.place(0, 9, Direction::Vetrical, Ship::new(2, 2)));
    for c in &b.cells {
        assert_eq!(*c, Cell::Water);
    }
}

#[test]
fn set_protecet_at_offsets_upgrades_only_water() {
    let mut b = Board::new();
    b.cells[Board::cell_index(4, 5)] = Cell::Ship;
    let offsets = [(-1, 0), (1, 0), (0, -1), (0, 1)];
    set_protecet_at_offsets(5, 5, &mut b, offsets);
    assert_eq!(cell(&b, 4, 5), Cell::Ship); // occupied cell kept
    assert_eq!(cell(&b, 6, 5), Cell::Protected);
    assert_eq!(cell(&b, 5, 4), Cell::Protected);
    assert_eq!(cell(&b, 5, 6), Cell::Protected);
    assert_eq!(cell(&b, 5, 5), Cell::Water); // the centre is not an offset target
}

#[test]
fn set_protecet_at_offsets_skips_outside() {
    let mut b = Board::new();
    let offsets = [(-1, -1), (1, -1), (-1, 1), (1, 1)];
    set_protecet_at_offsets(0, 0, &mut b, offsets);
    assert_eq!(cell(&b, 1, 1), Cell::Protected);
    let protected = b.cells.iter().filter(|c| **c == Cell::Protected).count();
    assert_eq!(protected, 1);
}
