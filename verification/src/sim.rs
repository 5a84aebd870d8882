//! Driving one simulated trial (placing the whole fleet with supplied random
//! draws) and folding many trials into an aggregator.

use vstd::prelude::*;

verus! {

use crate::BOARD_SIZE;
use crate::bit_board::BitBoard;
use crate::bit_board::PlacementTable;
use crate::bit_board::place_chosen;
use crate::bit_board::placed_spec;
use crate::bit_board::lemma_place_result_unique;
use crate::ship::Ship;
use crate::ship_counts::ShipCounts;
use crate::ship_counts::merge_model;

/// The fixed fleet: one ship of length 4, two of length 3, three of length 2
/// and four of length 1, each family sharing one slot index.
pub fn standard_fleet() -> (s: Vec<Ship>)
    ensures
        s@.len() == 10,
        forall|i: int| 0 <= i < 10 ==> (#[trigger] s@[i].len()) == fleet_len(i),
        forall|i: int| 0 <= i < 10 ==> (#[trigger] s@[i].index) == fleet_index(i),
{
    let mut s: Vec<Ship> = Vec::new();
    s.push(Ship::new(4, 0));
    s.push(Ship::new(3, 1));
    s.push(Ship::new(3, 1));
    s.push(Ship::new(2, 2));
    s.push(Ship::new(2, 2));
    s.push(Ship::new(2, 2));
    s.push(Ship::new(1, 3));
    s.push(Ship::new(1, 3));
    s.push(Ship::new(1, 3));
    s.push(Ship::new(1, 3));
    s
}

/// Length of the `i`-th ship of the fixed fleet.
pub open spec fn fleet_len(i: int) -> int {
    if i == 0 {
        4
    } else if i <= 2 {
        3
    } else if i <= 5 {
        2
    } else {
        1
    }
}

/// Slot index of the `i`-th ship of the fixed fleet: ships of one length
/// share a slot.
pub open spec fn fleet_index(i: int) -> int {
    if i == 0 {
        0
    } else if i <= 2 {
        1
    } else if i <= 5 {
        2
    } else {
        3
    }
}

/// The board that one trial produces: each ship in order takes the placement
/// its draw selects; `None` when some ship has no legal placement left.
pub open spec fn run_trial(bb: BitBoard, ships: Seq<Ship>, rvs: Seq<u32>) -> Option<BitBoard>
    decreases ships.len(),
{
    if ships.len() == 0 {
        Some(bb)
    } else if bb.total_legal(ships[0].len()) > 0 {
        run_trial(place_chosen(bb, ships[0], rvs[0]), ships.skip(1), rvs.skip(1))
    } else {
        None
    }
}

/// Runs one trial: places every ship of `ships` on a copy of `bit_board`
/// using one random draw per ship, and tallies the resulting board.  Returns
/// false, tallying nothing, if some ship had no legal placement left — the
/// puzzle state was unsatisfiable for that draw sequence.
pub fn step(
    table: &PlacementTable,
    bit_board: BitBoard,
    ship_counts: &mut ShipCounts,
    ships: &Vec<Ship>,
    random_values: &Vec<u32>,
) -> (ok: bool)
    requires
        table.wf(),
        bit_board.wf(),
        old(ship_counts).wf(),
        ships.len() == random_values.len(),
        old(ship_counts).board_count < u64::MAX,
    ensures
        final(ship_counts).wf(),
        ok == run_trial(bit_board, ships@, random_values@) is Some,
        ok ==> final(ship_counts).board_count == old(ship_counts).board_count + 1,
        ok ==> forall|c: int|
            0 <= c < 100 ==> final(ship_counts).counts[c] == old(ship_counts).counts[c] + (
            if run_trial(bit_board, ships@, random_values@).unwrap().ship_at(c) {
                1int
            } else {
                0int
            }),
        ok ==> forall|c: int|
            100 <= c < BOARD_SIZE ==> final(ship_counts).counts[c] == old(ship_counts).counts[c],
        !ok ==> *final(ship_counts) == *old(ship_counts),
{
    let mut board = bit_board;
    let mut i: usize = 0;
    proof {
        assert(ships@.skip(0) =~= ships@);
        assert(random_values@.skip(0) =~= random_values@);
    }
    while i < ships.len()
        invariant
            table.wf(),
            board.wf(),
            i <= ships.len(),
            ships.len() == random_values.len(),
            *ship_counts == *old(ship_counts),
            ship_counts.wf(),
            ship_counts.board_count < u64::MAX,
            run_trial(bit_board, ships@, random_values@) == run_trial(
                board,
                ships@.skip(i as int),
                random_values@.skip(i as int),
            ),
        decreases ships.len() - i,
    {
        let ship = ships[i];
        let n = board.count_placements(ship);
        proof {
            assert(ships@.skip(i as int)[0] == ships@[i as int]);
            assert(random_values@.skip(i as int)[0] == random_values@[i as int]);
            assert(ships@.skip(i as int).len() > 0);
        }
        if n == 0 {
            proof {
                assert(run_trial(board, ships@.skip(i as int), random_values@.skip(i as int))
                    is None);
            }
            return false;
        }
        let ghost pre = board;
        board.random_place_ship(table, ship, random_values[i]);
        proof {
            let glen = ship.len();
            let rv = random_values@[i as int];
            let dir = pre.chosen_direction(glen, rv);
            let a = pre.chosen_anchor(glen, rv);
            assert(placed_spec(pre, glen, dir, a, board));
            lemma_place_result_unique(pre, glen, dir, a, board);
            assert(board == place_chosen(pre, ship, rv));
            assert(ships@.skip(i as int).skip(1) =~= ships@.skip(i + 1));
            assert(random_values@.skip(i as int).skip(1) =~= random_values@.skip(i + 1));
        }
        i += 1;
    }
    proof {
        assert(ships@.skip(i as int).len() == 0);
        assert(run_trial(board, ships@.skip(i as int), random_values@.skip(i as int)) == Some(
            board,
        ));
    }
    ship_counts.add_bit_board(board);
    true
}

/// Adds one board's ship bits onto a counters model.
pub open spec fn add_ship_bits(s: Seq<int>, b: BitBoard) -> Seq<int> {
    Seq::new(
        s.len(),
        |i: int|
            s[i] + if 0 <= i < 100 && b.ship_at(i) {
                1int
            } else {
                0int
            },
    )
}

/// The counters and successful-trial count that a sequence of draws
/// produces: the draws are consumed fleet-by-fleet from the front, each full
/// chunk running one trial; a dead-ended trial tallies nothing.
pub open spec fn tally_all(bb: BitBoard, ships: Seq<Ship>, rvs: Seq<u32>) -> (Seq<int>, int)
    decreases rvs.len(),
{
    if ships.len() == 0 || rvs.len() < ships.len() {
        (Seq::new(BOARD_SIZE as nat, |i: int| 0int), 0int)
    } else {
        let rest = tally_all(bb, ships, rvs.skip(ships.len() as int));
        match run_trial(bb, ships, rvs.take(ships.len() as int)) {
            Some(b) => (add_ship_bits(rest.0, b), rest.1 + 1),
            None => rest,
        }
    }
}

/// Folds `random_values` chunk by chunk into a fresh aggregator: one trial
/// per `ships.len()` draws, all started from `bit_board`.
pub fn inner_loop(
    ships: &Vec<Ship>,
    random_values: &Vec<u32>,
    bit_board: BitBoard,
    table: &PlacementTable,
) -> (sc: ShipCounts)
    requires
        table.wf(),
        bit_board.wf(),
        ships.len() > 0,
        random_values.len() % ships.len() == 0,
        random_values.len() < u64::MAX,
    ensures
        sc.wf(),
        sc.board_count == tally_all(bit_board, ships@, random_values@).1,
        forall|c: int|
            0 <= c < BOARD_SIZE ==> sc.counts[c] == tally_all(bit_board, ships@, random_values@).0[c],
{
    let mut sc = ShipCounts::new();
    let k = ships.len();
    let mut pos: usize = 0;
    proof {
        lemma_tally_bounds(bit_board, ships@, random_values@);
        let n = random_values.len() as int;
        let ki = k as int;
        assert(n / ki <= n) by (nonlinear_arith)
            requires
                ki >= 1,
                n >= 0,
        ;
        assert(random_values@.skip(0) =~= random_values@);
    }
    while pos < random_values.len()
        invariant
            table.wf(),
            bit_board.wf(),
            sc.wf(),
            k == ships.len(),
            k > 0,
            pos <= random_values.len(),
            pos % k == 0,
            random_values.len() % k == 0,
            random_values.len() < u64::MAX,
            tally_all(bit_board, ships@, random_values@).1 <= random_values.len(),
            sc.board_count + tally_all(bit_board, ships@, random_values@.skip(pos as int)).1
                == tally_all(bit_board, ships@, random_values@).1,
            forall|c: int|
                0 <= c < BOARD_SIZE ==> sc.counts[c] + tally_all(
                    bit_board,
                    ships@,
                    random_values@.skip(pos as int),
                ).0[c] == tally_all(bit_board, ships@, random_values@).0[c],
        decreases random_values.len() - pos,
    {
        proof {
            lemma_chunk_bounds(random_values.len() as int, pos as int, k as int);
            lemma_tally_bounds(bit_board, ships@, random_values@.skip(pos as int));
        }
        let mut chunk: Vec<u32> = Vec::new();
        let mut j: usize = 0;
        while j < k
            invariant
                j <= k,
                pos + k <= random_values.len(),
                chunk.len() == j,
                chunk@ =~= random_values@.subrange(pos as int, pos as int + j as int),
            decreases k - j,
        {
            chunk.push(random_values[pos + j]);
            proof {
                assert(chunk@ =~= random_values@.subrange(pos as int, pos as int + j + 1));
            }
            j += 1;
        }
        let ghost pre = sc;
        let ghost rest = random_values@.skip(pos as int);
        proof {
            assert(chunk@ =~= rest.take(k as int));
            assert(rest.skip(k as int) =~= random_values@.skip(pos as int + k as int));
            lemma_tally_bounds(bit_board, ships@, rest.skip(k as int));
        }
        let ok = step(table, bit_board, &mut sc, ships, &chunk);
        proof {
            let full = tally_all(bit_board, ships@, rest);
            let after = tally_all(bit_board, ships@, rest.skip(k as int));
            assert(full == (match run_trial(bit_board, ships@, rest.take(k as int)) {
                Some(b) => (add_ship_bits(after.0, b), after.1 + 1),
                None => after,
            }));
            if ok {
                let b = run_trial(bit_board, ships@, chunk@).unwrap();
                assert forall|c: int| 0 <= c < BOARD_SIZE implies sc.counts[c] + after.0[c]
                    == tally_all(bit_board, ships@, random_values@).0[c] by {
                    assert(full.0[c] == after.0[c] + (if 0 <= c < 100 && b.ship_at(c) {
                        1int
                    } else {
                        0int
                    }));
                    assert(pre.counts[c] + full.0[c] == tally_all(
                        bit_board,
                        ships@,
                        random_values@,
                    ).0[c]);
                };
            }
        }
        proof {
            vstd::arithmetic::div_mod::lemma_mod_multiples_vanish(1, pos as int, k as int);
        }
        pos += k;
    }
    proof {
        assert(random_values@.skip(pos as int).len() == 0);
        assert(random_values@.skip(pos as int).len() < ships@.len() || ships@.len() == 0);
        let empty_tally = tally_all(bit_board, ships@, random_values@.skip(pos as int));
        assert(empty_tally.1 == 0);
        assert forall|c: int| 0 <= c < BOARD_SIZE implies sc.counts[c] == tally_all(
            bit_board,
            ships@,
            random_values@,
        ).0[c] by {
            assert(empty_tally.0[c] == 0);
        };
    }
    sc
}


/// A positive multiple of `k` below another multiple leaves at least one
/// whole chunk.
proof fn lemma_chunk_bounds(n: int, p: int, k: int)
    requires
        0 < k,
        0 <= p < n,
        n % k == 0,
        p % k == 0,
    ensures
        p + k <= n,
{
    vstd::arithmetic::div_mod::lemma_fundamental_div_mod(n, k);
    vstd::arithmetic::div_mod::lemma_fundamental_div_mod(p, k);
    assert(n - p == k * (n / k - p / k)) by (nonlinear_arith)
        requires
            n == k * (n / k) + n % k,
            p == k * (p / k) + p % k,
            n % k == 0,
            p % k == 0,
    ;
    assert(n - p >= k) by (nonlinear_arith)
        requires
            n - p == k * (n / k - p / k),
            n - p > 0,
            k > 0,
    ;
}

/// A tally never counts more successful trials than it was handed chunks.
pub proof fn lemma_tally_bounds(bb: BitBoard, ships: Seq<Ship>, rvs: Seq<u32>)
    ensures
        ships.len() > 0 ==> tally_all(bb, ships, rvs).1 <= rvs.len() as int / ships.len() as int,
        tally_all(bb, ships, rvs).1 >= 0,
        tally_all(bb, ships, rvs).0.len() == BOARD_SIZE,
    decreases rvs.len(),
{
    if ships.len() == 0 || rvs.len() < ships.len() {
        if ships.len() > 0 {
            assert(rvs.len() as int / ships.len() as int >= 0) by (nonlinear_arith)
                requires
                    ships.len() > 0,
            ;
        }
    } else {
        lemma_tally_bounds(bb, ships, rvs.skip(ships.len() as int));
        let k = ships.len() as int;
        let n = rvs.len() as int;
        assert((n - k) / k == n / k - 1) by (nonlinear_arith)
            requires
                k > 0,
                n >= k,
        ;
        assert(tally_all(bb, ships, rvs).0.len() == BOARD_SIZE);
    }
}

/// Splitting the draws into two batches and merging their tallies gives the
/// same counters and trial count as one pass over all of them.
pub proof fn lemma_tally_split(bb: BitBoard, ships: Seq<Ship>, rvs1: Seq<u32>, rvs2: Seq<u32>)
    requires
        ships.len() > 0,
        rvs1.len() as int % ships.len() as int == 0,
    ensures
        tally_all(bb, ships, rvs1 + rvs2) == merge_model(
            tally_all(bb, ships, rvs1),
            tally_all(bb, ships, rvs2),
        ),
    decreases rvs1.len(),
{
    let k = ships.len() as int;
    let t1 = tally_all(bb, ships, rvs1);
    let t2 = tally_all(bb, ships, rvs2);
    lemma_tally_bounds(bb, ships, rvs1);
    lemma_tally_bounds(bb, ships, rvs2);
    if rvs1.len() == 0 {
        assert(rvs1 + rvs2 =~= rvs2);
        assert(t1.1 == 0);
        assert(merge_model(t1, t2).0 =~= t2.0);
    } else {
        assert(rvs1.len() >= k) by {
            let n = rvs1.len() as int;
            vstd::arithmetic::div_mod::lemma_fundamental_div_mod(n, k);
            assert(n >= k) by (nonlinear_arith)
                requires
                    n == k * (n / k),
                    n > 0,
                    k > 0,
            ;
        }
        let rest1 = rvs1.skip(k);
        vstd::arithmetic::div_mod::lemma_mod_sub_multiples_vanish(rvs1.len() as int, k);
        assert(rest1.len() as int % k == 0);
        lemma_tally_split(bb, ships, rest1, rvs2);
        assert((rvs1 + rvs2).skip(k) =~= rest1 + rvs2);
        assert((rvs1 + rvs2).take(k) =~= rvs1.take(k));
        let tr1 = tally_all(bb, ships, rest1);
        let trc = tally_all(bb, ships, rest1 + rvs2);
        assert(trc == merge_model(tr1, t2));
        match run_trial(bb, ships, rvs1.take(k)) {
            Some(b) => {
                assert(tally_all(bb, ships, rvs1 + rvs2) == (add_ship_bits(trc.0, b), trc.1 + 1));
                assert(t1 == (add_ship_bits(tr1.0, b), tr1.1 + 1));
                assert(add_ship_bits(trc.0, b) =~= merge_model(
                    (add_ship_bits(tr1.0, b), tr1.1 + 1),
                    t2,
                ).0);
            },
            None => {
                assert(tally_all(bb, ships, rvs1 + rvs2) == trc);
                assert(t1 == tr1);
            },
        }
    }
}

} // verus!
