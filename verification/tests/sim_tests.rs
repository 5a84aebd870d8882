use battleship_heatmap::bit_board::{BitBoard, PlacementTable};
use battleship_heatmap::board::{Board, Cell, Direction};
use battleship_heatmap::ship::Ship;
use battleship_heatmap::ship_counts::ShipCounts;
use battleship_heatmap::sim::{inner_loop, standard_fleet, step};

fn lcg_draws(seed: u64, n: usize) -> Vec<u32> {
    let mut state = seed;
    let mut out = Vec::with_capacity(n);
    for _ in 0..n {
        state = state
            .wrapping_mul(6364136223846793005)
            .wrapping_add(1442695040888963407);
        out.push((state >> 32) as u32);
    }
    out
}

#[test]
fn standard_fleet_has_the_ten_ships() {
    let fleet = standard_fleet();
    let lengths: Vec<usize> = fleet.iter().map(|s| s.length()).collect();
    assert_eq!(lengths, vec![4, 3, 3, 2, 2, 2, 1, 1, 1, 1]);
    let indices: Vec<usize> = fleet.iter().map(|s| s.index).collect();
    assert_eq!(indices, vec![0, 1, 1, 2, 2, 2, 3, 3, 3, 3]);
}

#[test]
fn ship_length_round_trips() {
    for len in 1..=4 {
        assert_eq!(Ship::new(len, 7).length(), len);
    }
}

#[test]
fn step_tallies_twenty_ship_cells() {
    let table = PlacementTable::new();
    let fleet = standard_fleet();
    let board = BitBoard::new(Board::new());
    let mut counts = ShipCounts::new();
    let draws = lcg_draws(42, fleet.len());
    let ok = step(&table, board, &mut counts, &fleet, &draws);
    assert!(ok);
    assert_eq!(counts.board_count, 1);
    let total: u64 = counts.counts.iter().sum();
    // the whole fleet covers 4 + 3 + 3 + 2 + 2 + 2 + 1 + 1 + 1 + 1 cells
    assert_eq!(total, 20);
}

#[test]
fn counts_never_exceed_board_count() {
    let table = PlacementTable::new();
    let fleet = standard_fleet();
    let board = BitBoard::new(Board::new());
    let draws = lcg_draws(7, fleet.len() * 50);
    let counts = inner_loop(&fleet, &draws, board, &table);
    assert_eq!(counts.board_count, 50);
    for c in &counts.counts {
        assert!(*c <= counts.board_count);
    }
}

#[test]
fn merge_of_batches_matches_single_pass() {
    // merge associativity/commutativity: any partition of the draws into
    // batches merges to the tally of one pass over all of them
    let table = PlacementTable::new();
    let fleet = standard_fleet();
    let board = BitBoard::new(Board::new());
    let draws = lcg_draws(99, fleet.len() * 30);
    let whole = inner_loop(&fleet, &draws, board, &table);

    let (a, rest) = draws.split_at(fleet.len() * 9);
    let (b, c) = rest.split_at(fleet.len() * 13);
    let ta = inner_loop(&fleet, &a.to_vec(), board, &table);
    let tb = inner_loop(&fleet, &b.to_vec(), board, &table);
    let tc = inner_loop(&fleet, &c.to_vec(), board, &table);

    // merge in one order
    let mut left = ta.clone();
    left.add_other_count(tb.clone());
    left.add_other_count(tc.clone());
    // and in another pairing
    let mut right = tc;
    right.add_other_count(ta);
    right.add_other_count(tb);

    assert_eq!(left.board_count, whole.board_count);
    assert_eq!(right.board_count, whole.board_count);
    assert_eq!(left.counts, whole.counts);
    assert_eq!(right.counts, whole.counts);
}

#[test]
fn add_board_counts_only_unhit_ship_cells() {
    let mut board = Board::new();
    assert!(board.place(0, 0, Direction::Horizontal, Ship::new(3, 1)));
    board.cells[1] = Cell::ShipHit;
    let mut counts = ShipCounts::new();
    counts.add_board(board.clone());
    counts.add_board(board);
    assert_eq!(counts.board_count, 2);
    assert_eq!(counts.counts[0], 2);
    assert_eq!(counts.counts[1], 0); // a hit cell is no longer tallied
    assert_eq!(counts.counts[2], 2);
    assert_eq!(counts.counts[3], 0); // buffer ring
}

#[test]
fn empty_draws_tally_nothing() {
    let table = PlacementTable::new();
    let fleet = standard_fleet();
    let board = BitBoard::new(Board::new());
    let counts = inner_loop(&fleet, &Vec::new(), board, &table);
    assert_eq!(counts.board_count, 0);
    assert!(counts.counts.iter().all(|c| *c == 0));
}

#[test]
fn max_water_index_picks_highest_tally() {
    let mut board = Board::new();
    let table = PlacementTable::new();
    let fleet = standard_fleet();
    let bb = BitBoard::new(board.clone());
    let draws = lcg_draws(1, fleet.len() * 20);
    let counts = inner_loop(&fleet, &draws, bb, &table);
    let best = counts.max_water_index(&board);
    for i in 0..128 {
        if board.cells[i] == Cell::Water {
            assert!(counts.counts[i] <= counts.counts[best]);
        }
    }
    // a non-water cell is never suggested
    board.cells[best] = Cell::ShipHit;
    let next = counts.max_water_index(&board);
    assert_ne!(next, best);
}

#[test]
fn heatmap_is_roughly_rotation_symmetric() {
    // the fleet is symmetric under a quarter turn, the board is square and
    // empty, so the estimated probabilities should be too, within noise
    let table = PlacementTable::new();
    let fleet = standard_fleet();
    let board = BitBoard::new(Board::new());
    let trials = 4000;
    let draws = lcg_draws(2024, fleet.len() * trials);
    let counts = inner_loop(&fleet, &draws, board, &table);
    assert!(counts.board_count > (trials as u64) * 9 / 10);
    let n = counts.board_count as f64;
    for y in 0..10usize {
        for x in 0..10usize {
            let p = counts.counts[x + 10 * y] as f64 / n;
            // (x, y) rotated a quarter turn: (y, 9 - x)
            let (rx, ry) = (y, 9 - x);
            let q = counts.counts[rx + 10 * ry] as f64 / n;
            assert!(
                (p - q).abs() < 0.05,
                "asymmetry at ({x},{y}): {p} vs {q}"
            );
        }
    }
}
