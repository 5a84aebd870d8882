//! The aggregator: per-cell occupancy counters and a trial counter, merged
//! across workers by elementwise addition.

use vstd::prelude::*;

verus! {

use crate::BOARD_SIZE;
use crate::bit_board::BitBoard;
use crate::board::Board;
use crate::board::Cell;

/// Per-cell ship-occupancy tallies over a number of simulated boards.  Every
/// counter is bounded by the number of boards tallied, so merging two
/// aggregators can never overflow before the trial counter does.
#[derive(Debug, Clone)]
pub struct ShipCounts {
    pub counts: Vec<u64>,
    pub board_count: u64,
}

/// The mathematical content of an aggregator: its counters and its trial
/// count, as unbounded integers.
pub open spec fn model_of(counts: Seq<u64>, board_count: u64) -> (Seq<int>, int) {
    (counts.map_values(|v: u64| v as int), board_count as int)
}

/// Elementwise merge of two aggregator models.
pub open spec fn merge_model(a: (Seq<int>, int), b: (Seq<int>, int)) -> (Seq<int>, int) {
    (Seq::new(a.0.len(), |i: int| a.0[i] + b.0[i]), a.1 + b.1)
}

impl ShipCounts {
    pub open spec fn wf(self) -> bool {
        &&& self.counts.len() == BOARD_SIZE
        &&& forall|i: int| 0 <= i < BOARD_SIZE ==> #[trigger] self.counts[i] <= self.board_count
    }

    /// This aggregator's model.
    pub open spec fn model(self) -> (Seq<int>, int) {
        model_of(self.counts@, self.board_count)
    }

    /// A fresh aggregator: all counters zero, no boards tallied.
    pub fn new() -> (s: ShipCounts)
        ensures
            s.wf(),
            s.board_count == 0,
            forall|i: int| 0 <= i < BOARD_SIZE ==> #[trigger] s.counts[i] == 0,
    {
        let mut counts: Vec<u64> = Vec::new();
        let mut i: usize = 0;
        while i < BOARD_SIZE
            invariant
                counts.len() == i,
                i <= BOARD_SIZE,
                forall|j: int| 0 <= j < i ==> #[trigger] counts[j] == 0,
            decreases BOARD_SIZE - i,
        {
            counts.push(0);
            i += 1;
        }
        ShipCounts { counts, board_count: 0 }
    }

    /// Tallies one cell-level board: each cell holding an (unhit) ship adds
    /// one to its counter.
    pub fn add_board(&mut self, board: Board)
        requires
            old(self).wf(),
            board.wf(),
            old(self).board_count < u64::MAX,
        ensures
            final(self).wf(),
            final(self).board_count == old(self).board_count + 1,
            forall|c: int|
                0 <= c < BOARD_SIZE ==> final(self).counts[c] == old(self).counts[c] + (if board.cell(
                    c,
                ) == Cell::Ship {
                    1int
                } else {
                    0int
                }),
    {
        let ghost orig = *self;
        let mut c: usize = 0;
        while c < BOARD_SIZE
            invariant
                self.counts.len() == BOARD_SIZE,
                board.wf(),
                c <= BOARD_SIZE,
                self.board_count == orig.board_count,
                orig.wf(),
                orig.board_count < u64::MAX,
                forall|i: int|
                    0 <= i < c ==> #[trigger] self.counts[i] == orig.counts[i] + (if board.cell(i)
                        == Cell::Ship {
                        1int
                    } else {
                        0int
                    }),
                forall|i: int| c <= i < BOARD_SIZE ==> #[trigger] self.counts[i] == orig.counts[i],
            decreases BOARD_SIZE - c,
        {
            if matches!(board.cells[c], Cell::Ship) {
                self.counts[c] = self.counts[c] + 1;
            }
            c += 1;
        }
        self.board_count = self.board_count + 1;
    }

    /// Tallies one bit board: each set ship bit adds one to the counter of
    /// its cell; the padding counters stay untouched.
    pub fn add_bit_board(&mut self, board: BitBoard)
        requires
            old(self).wf(),
            board.wf(),
            old(self).board_count < u64::MAX,
        ensures
            final(self).wf(),
            final(self).board_count == old(self).board_count + 1,
            forall|c: int|
                0 <= c < 100 ==> final(self).counts[c] == old(self).counts[c] + (if board.ship_at(c) {
                    1int
                } else {
                    0int
                }),
            forall|c: int| 100 <= c < BOARD_SIZE ==> final(self).counts[c] == old(self).counts[c],
    {
        let ghost orig = *self;
        let mut c: usize = 0;
        while c < 100
            invariant
                self.counts.len() == BOARD_SIZE,
                board.wf(),
                c <= 100,
                self.board_count == orig.board_count,
                orig.wf(),
                orig.board_count < u64::MAX,
                forall|i: int|
                    0 <= i < c ==> #[trigger] self.counts[i] == orig.counts[i] + (if board.ship_at(
                        i,
                    ) {
                        1int
                    } else {
                        0int
                    }),
                forall|i: int| c <= i < BOARD_SIZE ==> #[trigger] self.counts[i] == orig.counts[i],
            decreases 100 - c,
        {
            if board.has_ship_at(c) {
                self.counts[c] = self.counts[c] + 1;
            }
            c += 1;
        }
        self.board_count = self.board_count + 1;
    }

    /// Merges another aggregator into this one by elementwise addition.  The
    /// operation is associative and commutative on the models, so any
    /// reduction order over workers gives the same sums.
    pub fn add_other_count(&mut self, other: Self)
        requires
            old(self).wf(),
            other.wf(),
            old(self).board_count + other.board_count <= u64::MAX,
        ensures
            final(self).wf(),
            final(self).model() == merge_model(old(self).model(), other.model()),
            final(self).board_count == old(self).board_count + other.board_count,
            forall|c: int|
                0 <= c < BOARD_SIZE ==> final(self).counts[c] == old(self).counts[c]
                    + other.counts[c],
    {
        let ghost orig = *self;
        let mut c: usize = 0;
        while c < BOARD_SIZE
            invariant
                self.counts.len() == BOARD_SIZE,
                other.wf(),
                c <= BOARD_SIZE,
                self.board_count == orig.board_count,
                orig.wf(),
                orig.board_count + other.board_count <= u64::MAX,
                forall|i: int|
                    0 <= i < c ==> #[trigger] self.counts[i] == orig.counts[i] + other.counts[i],
                forall|i: int| c <= i < BOARD_SIZE ==> #[trigger] self.counts[i] == orig.counts[i],
            decreases BOARD_SIZE - c,
        {
            self.counts[c] = self.counts[c] + other.counts[c];
            c += 1;
        }
        self.board_count = self.board_count + other.board_count;
        proof {
            assert(self.model().0 =~= merge_model(orig.model(), other.model()).0);
        }
    }

    /// The index of the best next guess: among the still-unexplored (water)
    /// cells of `board`, the last one with the highest tally.
    pub fn max_water_index(&self, board: &Board) -> (r: usize)
        requires
            self.wf(),
            board.wf(),
            exists|i: int| 0 <= i < BOARD_SIZE && board.cell(i) == Cell::Water,
        ensures
            r < BOARD_SIZE,
            board.cell(r as int) == Cell::Water,
            forall|i: int|
                0 <= i < BOARD_SIZE && board.cell(i) == Cell::Water ==> #[trigger] self.counts[i]
                    <= self.counts[r as int],
            forall|i: int|
                r < i < BOARD_SIZE && board.cell(i) == Cell::Water ==> #[trigger] self.counts[i]
                    < self.counts[r as int],
    {
        let mut best: usize = 0;
        let mut found = false;
        let mut i: usize = 0;
        while i < BOARD_SIZE
            invariant
                self.wf(),
                board.wf(),
                i <= BOARD_SIZE,
                found ==> best < i && board.cell(best as int) == Cell::Water,
                !found ==> forall|j: int| 0 <= j < i ==> board.cell(j) != Cell::Water,
                found ==> forall|j: int|
                    0 <= j < i && board.cell(j) == Cell::Water ==> #[trigger] self.counts[j]
                        <= self.counts[best as int],
                found ==> forall|j: int|
                    best < j < i && board.cell(j) == Cell::Water ==> #[trigger] self.counts[j]
                        < self.counts[best as int],
            decreases BOARD_SIZE - i,
        {
            if matches!(board.cells[i], Cell::Water) {
                if !found || self.counts[i] >= self.counts[best] {
                    best = i;
                    found = true;
                }
            }
            i += 1;
        }
        best
    }
}

/// Merging aggregator models is commutative.
pub proof fn lemma_merge_comm(a: (Seq<int>, int), b: (Seq<int>, int))
    requires
        a.0.len() == b.0.len(),
    ensures
        merge_model(a, b) == merge_model(b, a),
{
    assert(merge_model(a, b).0 =~= merge_model(b, a).0);
}

/// Merging aggregator models is associative.
pub proof fn lemma_merge_assoc(a: (Seq<int>, int), b: (Seq<int>, int), c: (Seq<int>, int))
    requires
        a.0.len() == b.0.len(),
        b.0.len() == c.0.len(),
    ensures
        merge_model(merge_model(a, b), c) == merge_model(a, merge_model(b, c)),
{
    assert(merge_model(merge_model(a, b), c).0 =~= merge_model(a, merge_model(b, c)).0);
}

} // verus!
