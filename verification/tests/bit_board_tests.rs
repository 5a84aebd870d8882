use battleship_heatmap::bit_board::{nth_set_bit_u64x2, popcount64, BitBoard, PlacementTable};
use battleship_heatmap::board::{Board, Cell, Direction};
use battleship_heatmap::ship::Ship;

#[test]
fn map_index_to_bit_index_splits_at_row_four() {
    assert_eq!(BitBoard::map_index_to_bit_index(0), 0);
    assert_eq!(BitBoard::map_index_to_bit_index(39), 39);
    assert_eq!(BitBoard::map_index_to_bit_index(40), 64);
    assert_eq!(BitBoard::map_index_to_bit_index(99), 123);
}

#[test]
fn popcount64_counts_bits() {
    assert_eq!(popcount64(0), 0);
    assert_eq!(popcount64(u64::MAX), 64);
    assert_eq!(popcount64(0b1011_0001), 4);
}

#[test]
fn nth_set_bit_walks_both_words() {
    // bits 1 and 5 of the low word, bits 0 and 3 of the high word
    let pair = (0b10_0010u64, 0b1001u64);
    assert_eq!(nth_set_bit_u64x2(pair, 0), 1);
    assert_eq!(nth_set_bit_u64x2(pair, 1), 5);
    assert_eq!(nth_set_bit_u64x2(pair, 2), 64);
    assert_eq!(nth_set_bit_u64x2(pair, 3), 67);
}

#[test]
fn encode_round_trip_reproduces_the_board() {
    let mut board = Board::new();
    assert!(board.place(1, 1, Direction::Horizontal, Ship::new(3, 1)));
    assert!(board.place(6, 4, Direction::Vetrical, Ship::new(4, 0)));
    assert!(board.place(0, 8, Direction::Horizontal, Ship::new(1, 3)));
    let bb = BitBoard::new(board.clone());
    // decode by bit testing
    for c in 0..100 {
        let expect_ship = board.cells[c] == Cell::Ship;
        let expect_protected = board.cells[c] == Cell::Ship || board.cells[c] == Cell::Protected;
        assert_eq!(bb.has_ship_at(c), expect_ship, "ship bit at {c}");
        assert_eq!(bb.is_protected_at(c), expect_protected, "protected bit at {c}");
    }
    // and through the decoder
    let back = bb.decode();
    for c in 0..100 {
        assert_eq!(back.cells[c], board.cells[c], "cell {c}");
    }
}

#[test]
fn encode_marks_hits_as_ships() {
    let mut board = Board::new();
    board.cells[Board::cell_index(3, 3)] = Cell::ShipHit;
    let bb = BitBoard::new(board);
    assert!(bb.has_ship_at(33));
    assert!(bb.is_protected_at(33));
    assert!(!bb.has_ship_at(34));
}

#[test]
fn count_placements_on_empty_board() {
    let board = BitBoard::new(Board::new());
    // a ship of length L has 11 - L anchors per row, per orientation
    assert_eq!(board.count_placements(Ship::new(4, 0)), 140);
    assert_eq!(board.count_placements(Ship::new(3, 1)), 160);
    assert_eq!(board.count_placements(Ship::new(2, 2)), 180);
    assert_eq!(board.count_placements(Ship::new(1, 3)), 200);
}

#[test]
fn placement_masks_exclude_row_crossing_anchors() {
    let board = BitBoard::new(Board::new());
    let masks = board.allowable_ship_placements(Ship::new(4, 0));
    // anchor 6 is the last legal horizontal start in row 0; 7, 8, 9 are not
    assert_eq!((masks.x_low >> 6) & 1, 1);
    assert_eq!((masks.x_low >> 7) & 1, 0);
    assert_eq!((masks.x_low >> 9) & 1, 0);
    // vertical anchors exist in every low-word row
    assert_eq!((masks.y_low >> 0) & 1, 1);
    assert_eq!((masks.y_low >> 39) & 1, 1);
    // vertical anchors vanish below row 6: cell 70 is bit 30 of the high word
    assert_eq!((masks.y_high >> 20) & 1, 1);
    assert_eq!((masks.y_high >> 30) & 1, 0);
}

#[test]
fn forced_draw_takes_first_legal_anchor() {
    // the end-to-end scenario: empty board, one ship of length 4, draw 0
    let table = PlacementTable::new();
    let mut board = BitBoard::new(Board::new());
    board.random_place_ship(&table, Ship::new(4, 0), 0);
    let mut ship_cells: Vec<usize> = Vec::new();
    let mut protected_cells: Vec<usize> = Vec::new();
    for c in 0..100 {
        if board.has_ship_at(c) {
            ship_cells.push(c);
        }
        if board.is_protected_at(c) {
            protected_cells.push(c);
        }
    }
    // horizontally at the lexicographically-first anchor: row 0, columns 0..4
    assert_eq!(ship_cells, vec![0, 1, 2, 3]);
    // the buffer ring: rows 0 and 1, columns 0..=4, clipped at the edges
    assert_eq!(protected_cells, vec![0, 1, 2, 3, 4, 10, 11, 12, 13, 14]);
}

#[test]
fn placed_ship_excludes_overlapping_anchors() {
    // place a ship of length 2 at the top-left corner, horizontally
    let table = PlacementTable::new();
    let mut board = BitBoard::new(Board::new());
    board.random_place_ship(&table, Ship::new(2, 2), 0);
    assert!(board.has_ship_at(0) && board.has_ship_at(1));
    let masks = board.allowable_ship_placements(Ship::new(2, 2));
    // every anchor whose footprint meets the protected block (0..=2, 0..=1)
    // is gone: columns 0..=2 of rows 0 and 1 cannot start anything
    for anchor in [0u64, 1, 2, 10, 11, 12] {
        assert_eq!((masks.x_low >> anchor) & 1, 0, "x anchor {anchor}");
        assert_eq!((masks.y_low >> anchor) & 1, 0, "y anchor {anchor}");
    }
    // placing the same ship again at the same anchor stays illegal
    assert_eq!((masks.x_low >> 0) & 1, 0);
    // a clear anchor survives
    assert_eq!((masks.x_low >> 4) & 1, 1);
}

#[test]
fn draw_sweep_visits_every_placement_once() {
    // popcount/selection consistency: as the draw sweeps [0, total), each
    // legal placement appears exactly once
    let table = PlacementTable::new();
    let base = BitBoard::new(Board::new());
    let ship = Ship::new(4, 0);
    let total = base.count_placements(ship);
    assert_eq!(total, 140);
    let mut seen: Vec<(u64, u64)> = Vec::new();
    for rv in 0..total {
        let mut b = base;
        b.random_place_ship(&table, ship, rv);
        let footprint = b.ship();
        assert!(
            !seen.contains(&footprint),
            "draw {rv} repeated a placement"
        );
        seen.push(footprint);
    }
    assert_eq!(seen.len(), 140);
}

#[test]
fn draw_wraps_modulo_total() {
    let table = PlacementTable::new();
    let ship = Ship::new(3, 1);
    let base = BitBoard::new(Board::new());
    let total = base.count_placements(ship);
    let mut a = base;
    let mut b = base;
    a.random_place_ship(&table, ship, 5);
    b.random_place_ship(&table, ship, 5 + total);
    assert_eq!(a.ship(), b.ship());
    assert_eq!(a.protected(), b.protected());
}
