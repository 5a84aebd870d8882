//! The compact runtime board: one bit per cell in two 64-bit words per
//! bit-vector.  Cells 0..40 (rows 0..4) sit in bits 0..40 of the low word;
//! cells 40..100 (rows 4..10) sit in bits 0..60 of the high word, which is
//! bit position 64..124 of the combined 128-bit lane space.  Bits 40..64 of
//! the low word and 60..64 of the high word are padding and always zero.

use vstd::prelude::*;

verus! {

use crate::bits::HIGH_MASK;
use crate::bits::LOW_MASK;
use crate::bits::bit64;
use crate::bits::pop64;
use crate::bits::rank64;
use crate::bits::lemma_bit_and;
use crate::bits::lemma_bit_not;
use crate::bits::lemma_bit_one;
use crate::bits::lemma_bit_or;
use crate::bits::lemma_bit_shl;
use crate::bits::lemma_bit_shr;
use crate::bits::lemma_lane_masks;
use crate::bits::lemma_masked_word;
use crate::board::Board;
use crate::board::Cell;
use crate::board::Direction;
use crate::board::fits;
use crate::board::in_footprint_cell;
use crate::board::in_rect_cell;
use crate::ship::Ship;

/// Bit position of cell `c` in the 128-bit lane space.
pub open spec fn bitpos(c: int) -> int {
    if c < 40 {
        c
    } else {
        c + 24
    }
}

/// The cell whose bit position is `p`.
pub open spec fn cell_of_bitpos(p: int) -> int {
    if p < 40 {
        p
    } else {
        p - 24
    }
}

/// Whether the bit of cell `c` is set in the word pair (low, high).
pub open spec fn cell_bit(low: u64, high: u64, c: int) -> bool {
    if 0 <= c < 40 {
        bit64(low, c as u64)
    } else if 40 <= c < 100 {
        bit64(high, (c - 40) as u64)
    } else {
        false
    }
}

/// Whether a word pair carries bits only in the lanes that stand for cells.
pub open spec fn pair_wf(low: u64, high: u64) -> bool {
    low & LOW_MASK == low && high & HIGH_MASK == high
}

/// A well-formed pair has no bits outside the cell lanes.
pub proof fn lemma_pair_wf_bits(low: u64, high: u64)
    requires
        pair_wf(low, high),
    ensures
        forall|i: u64| 40 <= i < 64 ==> !bit64(low, i),
        forall|i: u64| 60 <= i < 64 ==> !bit64(high, i),
{
    lemma_lane_masks();
    lemma_masked_word();
    assert forall|i: u64| 40 <= i < 64 implies !bit64(low, i) by {
        assert(!bit64(LOW_MASK, i));
    };
    assert forall|i: u64| 60 <= i < 64 implies !bit64(high, i) by {
        assert(!bit64(HIGH_MASK, i));
    };
}

/// The bit-packed board: a "protected" bit-vector and a "ship" bit-vector,
/// each as a (low, high) word pair.  Every ship cell is also protected.
#[derive(Clone, Copy, Debug, PartialEq, Eq, Structural)]
pub struct BitBoard {
    pub protected_low: u64,
    pub protected_high: u64,
    pub ship_low: u64,
    pub ship_high: u64,
}

impl BitBoard {
    /// Whether cell `c` is protected (occupied or buffered).
    pub open spec fn prot_at(self, c: int) -> bool {
        cell_bit(self.protected_low, self.protected_high, c)
    }

    /// Whether cell `c` is occupied by a ship.
    pub open spec fn ship_at(self, c: int) -> bool {
        cell_bit(self.ship_low, self.ship_high, c)
    }

    pub open spec fn wf(self) -> bool {
        &&& pair_wf(self.protected_low, self.protected_high)
        &&& pair_wf(self.ship_low, self.ship_high)
        &&& forall|c: int| 0 <= c < 100 && self.ship_at(c) ==> self.prot_at(c)
    }

    /// The protected bit-vector as a (low, high) word pair.
    pub fn protected(&self) -> (r: (u64, u64))
        ensures
            r.0 == self.protected_low,
            r.1 == self.protected_high,
    {
        (self.protected_low, self.protected_high)
    }

    /// The ship bit-vector as a (low, high) word pair.
    pub fn ship(&self) -> (r: (u64, u64))
        ensures
            r.0 == self.ship_low,
            r.1 == self.ship_high,
    {
        (self.ship_low, self.ship_high)
    }

    /// Bit position of cell index `index`: cells from row 4 up move to the
    /// next word, so that a row-window shift never straddles a word boundary.
    pub fn map_index_to_bit_index(index: usize) -> (p: usize)
        requires
            index < 100,
        ensures
            p == bitpos(index as int),
    {
        if index < 40 {
            index
        } else {
            (index - 40) + 64
        }
    }

    /// Whether the ship bit of cell `index` is set.
    pub fn has_ship_at(&self, index: usize) -> (r: bool)
        requires
            index < 100,
        ensures
            r == self.ship_at(index as int),
    {
        if index < 40 {
            (self.ship_low >> (index as u64)) & 1u64 == 1u64
        } else {
            (self.ship_high >> ((index - 40) as u64)) & 1u64 == 1u64
        }
    }

    /// Whether the protected bit of cell `index` is set.
    pub fn is_protected_at(&self, index: usize) -> (r: bool)
        requires
            index < 100,
        ensures
            r == self.prot_at(index as int),
    {
        if index < 40 {
            (self.protected_low >> (index as u64)) & 1u64 == 1u64
        } else {
            (self.protected_high >> ((index - 40) as u64)) & 1u64 == 1u64
        }
    }

    /// Encodes a cell-level board: protected and ship cells set their
    /// protected bit, ship cells (hit or not) also their ship bit.
    pub fn new(board: Board) -> (bb: BitBoard)
        requires
            board.wf(),
        ensures
            bb.wf(),
            forall|c: int|
                0 <= c < 100 ==> bb.ship_at(c) == (board.cell(c) == Cell::Ship || board.cell(c)
                    == Cell::ShipHit),
            forall|c: int|
                0 <= c < 100 ==> bb.prot_at(c) == (board.cell(c) == Cell::Protected || board.cell(c)
                    == Cell::Ship || board.cell(c) == Cell::ShipHit),
    {
        let mut bb = BitBoard { protected_low: 0, protected_high: 0, ship_low: 0, ship_high: 0 };
        proof {
            lemma_lane_masks();
            assert(0u64 & LOW_MASK == 0u64) by (bit_vector);
            assert(0u64 & HIGH_MASK == 0u64) by (bit_vector);
            assert(forall|i: u64| i < 64 ==> !bit64(0u64, i)) by (bit_vector);
        }
        let mut i: usize = 0;
        while i < 100
            invariant
                i <= 100,
                board.wf(),
                bb.wf(),
                forall|c: int|
                    0 <= c < i ==> bb.ship_at(c) == (board.cell(c) == Cell::Ship || board.cell(c)
                        == Cell::ShipHit),
                forall|c: int|
                    0 <= c < i ==> bb.prot_at(c) == (board.cell(c) == Cell::Protected
                        || board.cell(c) == Cell::Ship || board.cell(c) == Cell::ShipHit),
                forall|c: int| i <= c < 100 ==> !bb.ship_at(c) && !bb.prot_at(c),
            decreases 100 - i,
        {
            let ghost prev = bb;
            let cell = board.cells[i];
            let set_prot = matches!(cell, Cell::Protected | Cell::Ship | Cell::ShipHit);
            let set_ship = matches!(cell, Cell::Ship | Cell::ShipHit);
            if set_prot {
                if i < 40 {
                    bb.protected_low = bb.protected_low | (1u64 << (i as u64));
                    if set_ship {
                        bb.ship_low = bb.ship_low | (1u64 << (i as u64));
                    }
                } else {
                    bb.protected_high = bb.protected_high | (1u64 << ((i - 40) as u64));
                    if set_ship {
                        bb.ship_high = bb.ship_high | (1u64 << ((i - 40) as u64));
                    }
                }
            }
            proof {
                lemma_bit_or();
                lemma_bit_one();
                lemma_lane_masks();
                lemma_masked_word();
                assert forall|c: int| 0 <= c < 100 implies {
                    &&& bb.ship_at(c) == (prev.ship_at(c) || (c == i && set_ship))
                    &&& bb.prot_at(c) == (prev.prot_at(c) || (c == i && set_prot))
                } by {
                    assert(prev.wf());
                };
            }
            i += 1;
        }
        bb
    }
}


/// Whether bit position `p` of the 128-bit lane space is set.
pub open spec fn pair_bit(low: u64, high: u64, p: int) -> bool {
    if 0 <= p < 64 {
        bit64(low, p as u64)
    } else if 64 <= p < 128 {
        bit64(high, (p - 64) as u64)
    } else {
        false
    }
}

/// Number of set bits at lane positions below `p`.
pub open spec fn pair_rank(low: u64, high: u64, p: int) -> nat {
    if p <= 64 {
        rank64(low, p)
    } else {
        pop64(low) + rank64(high, p - 64)
    }
}

/// Number of set bits of the pair.
pub open spec fn pair_pop(low: u64, high: u64) -> nat {
    pop64(low) + pop64(high)
}

/// Number of cells `c < n` whose bit is set in the pair.
pub open spec fn count_cells(low: u64, high: u64, n: int) -> nat
    decreases n,
{
    if n <= 0 {
        0
    } else {
        count_cells(low, high, n - 1) + if cell_bit(low, high, n - 1) {
            1nat
        } else {
            0nat
        }
    }
}

/// On a well-formed pair, the lane rank at a cell's bit position equals the
/// count of set cells below it.
pub proof fn lemma_count_cells_rank(low: u64, high: u64, n: int)
    requires
        pair_wf(low, high),
        0 <= n <= 100,
    ensures
        pair_rank(low, high, bitpos(n)) == count_cells(low, high, n),
    decreases n,
{
    lemma_pair_wf_bits(low, high);
    if n == 0 {
        assert(count_cells(low, high, 0) == 0);
        assert(rank64(low, 0) == 0);
    } else if n <= 39 {
        lemma_count_cells_rank(low, high, n - 1);
        assert(rank64(low, n) == rank64(low, n - 1) + if bit64(low, (n - 1) as u64) {
            1nat
        } else {
            0nat
        });
        assert(count_cells(low, high, n) == count_cells(low, high, n - 1) + if cell_bit(
            low,
            high,
            n - 1,
        ) {
            1nat
        } else {
            0nat
        });
    } else if n == 40 {
        lemma_count_cells_rank(low, high, 39);
        crate::bits::lemma_rank_stable(low, 40, 64);
        assert(rank64(low, 40) == rank64(low, 39) + if bit64(low, 39u64) {
            1nat
        } else {
            0nat
        });
        assert(count_cells(low, high, 40) == count_cells(low, high, 39) + if cell_bit(
            low,
            high,
            39,
        ) {
            1nat
        } else {
            0nat
        });
        assert(pair_rank(low, high, bitpos(40)) == rank64(low, 64));
    } else {
        lemma_count_cells_rank(low, high, n - 1);
        assert(rank64(high, n - 40) == rank64(high, n - 41) + if bit64(high, (n - 41) as u64) {
            1nat
        } else {
            0nat
        });
        assert(count_cells(low, high, n) == count_cells(low, high, n - 1) + if cell_bit(
            low,
            high,
            n - 1,
        ) {
            1nat
        } else {
            0nat
        });
        if n == 41 {
            assert(pair_rank(low, high, bitpos(40)) == rank64(low, 64));
            crate::bits::lemma_rank_stable(low, 40, 64);
        }
    }
}

/// On a well-formed pair, the total population equals the count of set cells.
pub proof fn lemma_pair_pop_cells(low: u64, high: u64)
    requires
        pair_wf(low, high),
    ensures
        pair_pop(low, high) == count_cells(low, high, 100),
{
    lemma_pair_wf_bits(low, high);
    lemma_count_cells_rank(low, high, 100);
    crate::bits::lemma_rank_stable(high, 60, 64);
}

/// Cell counts are monotone, and strictly so across a set cell.
pub proof fn lemma_count_cells_mono(low: u64, high: u64, m: int, n: int)
    requires
        m <= n,
    ensures
        count_cells(low, high, m) <= count_cells(low, high, n),
    decreases n - m,
{
    if m < n {
        lemma_count_cells_mono(low, high, m, n - 1);
    }
}

/// Two distinct set cells have distinct counts below them.
pub proof fn lemma_count_cells_unique(low: u64, high: u64, c1: int, c2: int)
    requires
        c1 < c2,
        cell_bit(low, high, c1),
    ensures
        count_cells(low, high, c1) < count_cells(low, high, c2),
    decreases c2 - c1,
{
    if c2 - 1 > c1 {
        lemma_count_cells_unique(low, high, c1, c2 - 1);
    }
}

/// Counts the set bits of a word.
pub fn popcount64(w: u64) -> (r: u32)
    ensures
        r == pop64(w),
        r <= 64,
{
    let mut r: u32 = 0;
    let mut i: u32 = 0;
    while i < 64
        invariant
            i <= 64,
            r == rank64(w, i as int),
            r <= i,
        decreases 64 - i,
    {
        if (w >> (i as u64)) & 1u64 == 1u64 {
            r += 1;
        }
        i += 1;
    }
    r
}

/// Index of the set bit of `bit_field` with exactly `n` set bits below it.
pub fn nth_set_bit_index_u64(bit_field: u64, n: u32) -> (r: u32)
    requires
        n < pop64(bit_field),
    ensures
        r < 64,
        bit64(bit_field, r as u64),
        rank64(bit_field, r as int) == n,
{
    let mut i: u32 = 0;
    let mut k: u32 = 0;
    while i < 64
        invariant
            i <= 64,
            k == rank64(bit_field, i as int),
            k <= n,
            n < pop64(bit_field),
        decreases 64 - i,
    {
        if (bit_field >> (i as u64)) & 1u64 == 1u64 {
            if k == n {
                return i;
            }
            k += 1;
        }
        i += 1;
    }
    proof {
        assert(false);
    }
    0
}

/// Lane position of the set bit of the pair with exactly `valid_ship_index`
/// set bits below it: the low word's bits come first.
pub fn nth_set_bit_u64x2(set_bits: (u64, u64), valid_ship_index: u32) -> (r: u32)
    requires
        valid_ship_index < pair_pop(set_bits.0, set_bits.1),
    ensures
        r < 128,
        pair_bit(set_bits.0, set_bits.1, r as int),
        pair_rank(set_bits.0, set_bits.1, r as int) == valid_ship_index,
{
    let low_set_bits = popcount64(set_bits.0);
    if valid_ship_index < low_set_bits {
        nth_set_bit_index_u64(set_bits.0, valid_ship_index)
    } else {
        let r = nth_set_bit_index_u64(set_bits.1, valid_ship_index - low_set_bits);
        r + 64
    }
}


/// The two legal-anchor masks for one ship on one board, one per orientation.
#[derive(Clone, Copy, Debug, PartialEq, Eq, Structural)]
pub struct PlacementMasks {
    pub x_low: u64,
    pub x_high: u64,
    pub y_low: u64,
    pub y_high: u64,
}

impl BitBoard {
    /// A horizontal run of `k` cells from `c` stays on the board and is
    /// entirely unprotected.
    pub open spec fn free_run_h(self, c: int, k: int) -> bool {
        forall|t: int| #![trigger self.prot_at(t)] c <= t < c + k ==> t < 100 && !self.prot_at(t)
    }

    /// A vertical run of `k` cells from `c`, one row apart each.
    pub open spec fn free_run_v(self, c: int, k: int) -> bool {
        forall|t: int|
            #![trigger self.prot_at(t)]
            c <= t < c + 10 * k && (t - c) % 10 == 0 ==> t < 100 && !self.prot_at(t)
    }

    /// Anchor `c` is a legal horizontal placement for a ship of length `len`.
    pub open spec fn legal_h(self, len: int, c: int) -> bool {
        0 <= c < 100 && c % 10 + len <= 10 && forall|t: int|
            c <= t < c + len ==> !#[trigger] self.prot_at(t)
    }

    /// Anchor `c` is a legal vertical placement for a ship of length `len`.
    pub open spec fn legal_v(self, len: int, c: int) -> bool {
        0 <= c < 100 && c / 10 + len <= 10 && forall|t: int|
            c <= t < c + 10 * len && (t - c) % 10 == 0 ==> !#[trigger] self.prot_at(t)
    }
}

/// Shifts the cell bits of a pair down by `s` cells: bit `c` of the result is
/// bit `c + s` of the input, across the word boundary.
fn shift_down(low: u64, high: u64, s: u64) -> (r: (u64, u64))
    requires
        pair_wf(low, high),
        1 <= s <= 30,
    ensures
        pair_wf(r.0, r.1),
        forall|c: int|
            0 <= c < 100 ==> #[trigger] cell_bit(r.0, r.1, c) == (c + s < 100 && cell_bit(
                low,
                high,
                c + s,
            )),
{
    let m = 40 - s;
    let r0 = ((low >> s) | (high << m)) & LOW_MASK;
    let r1 = high >> s;
    proof {
        lemma_bit_or();
        lemma_bit_and();
        lemma_bit_shr();
        lemma_bit_shl();
        lemma_lane_masks();
        lemma_masked_word();
        lemma_pair_wf_bits(low, high);
        assert((((low >> s) | (high << m)) & LOW_MASK) & LOW_MASK == ((low >> s) | (high << m))
            & LOW_MASK) by (bit_vector);
        assert((high >> s) & HIGH_MASK == high >> s) by (bit_vector)
            requires
                high & HIGH_MASK == high,
                1 <= s <= 30,
        ;
        let t = (low >> s) | (high << m);
        assert forall|c: int|
            0 <= c < 100 implies #[trigger] cell_bit(r0, r1, c) == (c + s < 100 && cell_bit(
            low,
            high,
            c + s,
        )) by {
            if c < 40 {
                let cu = c as u64;
                assert(bit64(r0, cu) == (bit64(t, cu) && bit64(LOW_MASK, cu)));
                assert(bit64(t, cu) == (bit64(low >> s, cu) || bit64(high << m, cu)));
                assert(bit64(low >> s, cu) == (cu + s < 64 && bit64(low, (cu + s) as u64)));
                assert(bit64(high << m, cu) == (cu >= m && bit64(high, (cu - m) as u64)));
                if c + s < 40 {
                    assert(cell_bit(r0, r1, c) == bit64(low, (c + s) as u64));
                } else {
                    assert(!bit64(low, (cu + s) as u64));
                    assert(cell_bit(r0, r1, c) == bit64(high, (c + s - 40) as u64));
                }
            } else {
                let hu = (c - 40) as u64;
                assert(bit64(r1, hu) == (hu + s < 64 && bit64(high, (hu + s) as u64)));
                if c + s < 100 {
                    assert(cell_bit(r0, r1, c) == bit64(high, (c + s - 40) as u64));
                } else {
                    if hu + s < 64 {
                        assert(!bit64(high, (hu + s) as u64));
                    }
                }
            }
        };
    }
    (r0, r1)
}

/// Horizontal-anchor row masks for ships of each length, bit by bit: a ship
/// of length L cannot start within L - 1 columns of a row's right edge.
proof fn lemma_row_masks_1()
    by (bit_vector)
    ensures
        forall|i: u64| i < 64 ==> #[trigger] bit64(0xffffffffffu64, i) == (i < 40 && i % 10 + 1 <= 10),
        forall|i: u64| i < 64 ==> #[trigger] bit64(0xfffffffffffffffu64, i) == (i < 60 && i % 10 + 1 <= 10),
        forall|i: u64| i < 64 ==> bit64(0xfffffffffffffffu64, i) == (i < 60 && i / 10 + 1 <= 6),
        0xffffffffffu64 & LOW_MASK == 0xffffffffffu64,
        0xfffffffffffffffu64 & HIGH_MASK == 0xfffffffffffffffu64,
{
}

proof fn lemma_row_masks_2()
    by (bit_vector)
    ensures
        forall|i: u64| i < 64 ==> #[trigger] bit64(0x7fdff7fdffu64, i) == (i < 40 && i % 10 + 2 <= 10),
        forall|i: u64| i < 64 ==> #[trigger] bit64(0x7fdff7fdff7fdffu64, i) == (i < 60 && i % 10 + 2 <= 10),
        forall|i: u64| i < 64 ==> #[trigger] bit64(0x3ffffffffffffu64, i) == (i < 60 && i / 10 + 2 <= 6),
        0x7fdff7fdffu64 & LOW_MASK == 0x7fdff7fdffu64,
        0x7fdff7fdff7fdffu64 & HIGH_MASK == 0x7fdff7fdff7fdffu64,
        0x3ffffffffffffu64 & HIGH_MASK == 0x3ffffffffffffu64,
{
}

proof fn lemma_row_masks_3()
    by (bit_vector)
    ensures
        forall|i: u64| i < 64 ==> #[trigger] bit64(0x3fcff3fcffu64, i) == (i < 40 && i % 10 + 3 <= 10),
        forall|i: u64| i < 64 ==> #[trigger] bit64(0x3fcff3fcff3fcffu64, i) == (i < 60 && i % 10 + 3 <= 10),
        forall|i: u64| i < 64 ==> #[trigger] bit64(0xffffffffffu64, i) == (i < 60 && i / 10 + 3 <= 6),
        0x3fcff3fcffu64 & LOW_MASK == 0x3fcff3fcffu64,
        0x3fcff3fcff3fcffu64 & HIGH_MASK == 0x3fcff3fcff3fcffu64,
        0xffffffffffu64 & HIGH_MASK == 0xffffffffffu64,
{
}

proof fn lemma_row_masks_4()
    by (bit_vector)
    ensures
        forall|i: u64| i < 64 ==> #[trigger] bit64(0x1fc7f1fc7fu64, i) == (i < 40 && i % 10 + 4 <= 10),
        forall|i: u64| i < 64 ==> #[trigger] bit64(0x1fc7f1fc7f1fc7fu64, i) == (i < 60 && i % 10 + 4 <= 10),
        forall|i: u64| i < 64 ==> #[trigger] bit64(0x3fffffffu64, i) == (i < 60 && i / 10 + 4 <= 6),
        0x1fc7f1fc7fu64 & LOW_MASK == 0x1fc7f1fc7fu64,
        0x1fc7f1fc7f1fc7fu64 & HIGH_MASK == 0x1fc7f1fc7f1fc7fu64,
        0x3fffffffu64 & HIGH_MASK == 0x3fffffffu64,
{
}

/// The per-length anchor masks: horizontal low and high word, and the
/// vertical high word (every low-word row admits a vertical anchor).
fn row_masks(len: usize) -> (m: (u64, u64, u64))
    requires
        1 <= len <= 4,
    ensures
        forall|i: u64| i < 64 ==> #[trigger] bit64(m.0, i) == (i < 40 && i % 10 + len <= 10),
        forall|i: u64| i < 64 ==> #[trigger] bit64(m.1, i) == (i < 60 && i % 10 + len <= 10),
        forall|i: u64| i < 64 ==> #[trigger] bit64(m.2, i) == (i < 60 && i / 10 + len <= 6),
        m.0 & LOW_MASK == m.0,
        m.1 & HIGH_MASK == m.1,
        m.2 & HIGH_MASK == m.2,
{
    proof {
        lemma_lane_masks();
        lemma_row_masks_1();
        lemma_row_masks_2();
        lemma_row_masks_3();
        lemma_row_masks_4();
    }
    if len == 1 {
        (0xffffffffffu64, 0xfffffffffffffffu64, 0xfffffffffffffffu64)
    } else if len == 2 {
        (0x7fdff7fdffu64, 0x7fdff7fdff7fdffu64, 0x3ffffffffffffu64)
    } else if len == 3 {
        (0x3fcff3fcffu64, 0x3fcff3fcff3fcffu64, 0xffffffffffu64)
    } else {
        (0x1fc7f1fc7fu64, 0x1fc7f1fc7f1fc7fu64, 0x3fffffffu64)
    }
}

/// Row and column of a cell in the high word relate to the cell's own.
proof fn lemma_high_cell_coords(c: int)
    by (nonlinear_arith)
    requires
        40 <= c < 100,
    ensures
        (c - 40) % 10 == c % 10,
        (c - 40) / 10 == c / 10 - 4,
{
}

impl BitBoard {
    /// Computes the two legal-anchor masks for `ship` on this board: anchor
    /// `c` is set in the horizontal (vertical) mask exactly when the whole
    /// ship, started at `c`, stays in its row (column) and touches no
    /// protected cell.
    pub fn allowable_ship_placements(&self, ship: crate::ship::Ship) -> (m: PlacementMasks)
        requires
            self.wf(),
        ensures
            pair_wf(m.x_low, m.x_high),
            pair_wf(m.y_low, m.y_high),
            forall|c: int|
                0 <= c < 100 ==> #[trigger] cell_bit(m.x_low, m.x_high, c) == self.legal_h(
                    ship.len(),
                    c,
                ),
            forall|c: int|
                0 <= c < 100 ==> #[trigger] cell_bit(m.y_low, m.y_high, c) == self.legal_v(
                    ship.len(),
                    c,
                ),
    {
        let len = ship.length();
        let a_low = !self.protected_low & LOW_MASK;
        let a_high = !self.protected_high & HIGH_MASK;
        proof {
            lemma_bit_and();
            lemma_bit_not();
            lemma_lane_masks();
            lemma_masked_word();
            assert((!self.protected_low & LOW_MASK) & LOW_MASK == !self.protected_low & LOW_MASK);
            assert((!self.protected_high & HIGH_MASK) & HIGH_MASK == !self.protected_high
                & HIGH_MASK);
            assert forall|c: int| 0 <= c < 100 implies #[trigger] cell_bit(a_low, a_high, c)
                == !self.prot_at(c) by {
                if c < 40 {
                    assert(bit64(a_low, c as u64) == (bit64(!self.protected_low, c as u64) && bit64(
                        LOW_MASK,
                        c as u64,
                    )));
                } else {
                    assert(bit64(a_high, (c - 40) as u64) == (bit64(
                        !self.protected_high,
                        (c - 40) as u64,
                    ) && bit64(HIGH_MASK, (c - 40) as u64)));
                }
            };
        }

        proof {
            assert forall|c: int| 0 <= c < 100 implies #[trigger] cell_bit(a_low, a_high, c)
                == self.free_run_h(c, 1) && cell_bit(a_low, a_high, c) == self.free_run_v(c, 1) by {
                if cell_bit(a_low, a_high, c) {
                    assert(!self.prot_at(c));
                } else {
                    assert(self.free_run_h(c, 1) ==> c < 100 && !self.prot_at(c));
                    assert(self.free_run_v(c, 1) ==> c < 100 && !self.prot_at(c));
                }
            };
        }
        let mut hx_low = a_low;
        let mut hx_high = a_high;
        let mut k: usize = 1;
        while k < len
            invariant
                1 <= k <= len,
                len == ship.len(),
                self.wf(),
                pair_wf(a_low, a_high),
                pair_wf(hx_low, hx_high),
                forall|c: int|
                    0 <= c < 100 ==> #[trigger] cell_bit(a_low, a_high, c) == !self.prot_at(c),
                forall|c: int|
                    0 <= c < 100 ==> #[trigger] cell_bit(hx_low, hx_high, c) == self.free_run_h(
                        c,
                        k as int,
                    ),
            decreases len - k,
        {
            let (sl, sh) = shift_down(a_low, a_high, k as u64);
            let ghost pl = hx_low;
            let ghost ph = hx_high;
            hx_low = hx_low & sl;
            hx_high = hx_high & sh;
            proof {
                lemma_bit_and();
                lemma_masked_word();
                assert forall|c: int|
                    0 <= c < 100 implies #[trigger] cell_bit(hx_low, hx_high, c)
                    == self.free_run_h(c, k + 1) by {
                    if c < 40 {
                        assert(bit64(hx_low, c as u64) == (bit64(pl, c as u64) && bit64(
                            sl,
                            c as u64,
                        )));
                    } else {
                        assert(bit64(hx_high, (c - 40) as u64) == (bit64(ph, (c - 40) as u64)
                            && bit64(sh, (c - 40) as u64)));
                    }
                    assert(cell_bit(pl, ph, c) == self.free_run_h(c, k as int));
                    assert(cell_bit(sl, sh, c) == (c + k < 100 && cell_bit(a_low, a_high, c + k)));
                    if self.free_run_h(c, k as int) && c + k < 100 && !self.prot_at(c + k) {
                        assert forall|t: int| c <= t < c + k + 1 implies t < 100 && !self.prot_at(
                            t,
                        ) by {
                            if t < c + k {
                                assert(t < 100 && !self.prot_at(t));
                            } else {
                                assert(t == c + k);
                            }
                        };
                        assert(self.free_run_h(c, k + 1));
                    }
                    if self.free_run_h(c, k + 1) {
                        assert(!self.prot_at(c + k));
                        assert(c + k < 100);
                        assert(self.free_run_h(c, k as int));
                    }
                };
            }
            k += 1;
        }

        let mut hy_low = a_low;
        let mut hy_high = a_high;
        let mut k: usize = 1;
        while k < len
            invariant
                1 <= k <= len,
                len == ship.len(),
                self.wf(),
                pair_wf(a_low, a_high),
                pair_wf(hy_low, hy_high),
                forall|c: int|
                    0 <= c < 100 ==> #[trigger] cell_bit(a_low, a_high, c) == !self.prot_at(c),
                forall|c: int|
                    0 <= c < 100 ==> #[trigger] cell_bit(hy_low, hy_high, c) == self.free_run_v(
                        c,
                        k as int,
                    ),
            decreases len - k,
        {
            let (sl, sh) = shift_down(a_low, a_high, 10 * (k as u64));
            let ghost pl = hy_low;
            let ghost ph = hy_high;
            hy_low = hy_low & sl;
            hy_high = hy_high & sh;
            proof {
                lemma_bit_and();
                lemma_masked_word();
                assert forall|c: int|
                    0 <= c < 100 implies #[trigger] cell_bit(hy_low, hy_high, c)
                    == self.free_run_v(c, k + 1) by {
                    if c < 40 {
                        assert(bit64(hy_low, c as u64) == (bit64(pl, c as u64) && bit64(
                            sl,
                            c as u64,
                        )));
                    } else {
                        assert(bit64(hy_high, (c - 40) as u64) == (bit64(ph, (c - 40) as u64)
                            && bit64(sh, (c - 40) as u64)));
                    }
                    assert(cell_bit(pl, ph, c) == self.free_run_v(c, k as int));
                    assert(cell_bit(sl, sh, c) == (c + 10 * k < 100 && cell_bit(
                        a_low,
                        a_high,
                        c + 10 * k,
                    )));
                    if self.free_run_v(c, k as int) && c + 10 * k < 100 && !self.prot_at(
                        c + 10 * k,
                    ) {
                        assert forall|t: int|
                            c <= t < c + 10 * (k + 1) && (t - c) % 10 == 0 implies t < 100
                            && !self.prot_at(t) by {
                            if t < c + 10 * k {
                                assert(t < 100 && !self.prot_at(t));
                            } else {
                                let d = t - c;
                                vstd::arithmetic::div_mod::lemma_fundamental_div_mod(d, 10);
                                assert(d == 10 * (d / 10));
                                assert(10 * k <= 10 * (d / 10) < 10 * k + 10);
                                assert(d / 10 == k as int);
                                assert(t == c + 10 * k);
                            }
                        };
                        assert(self.free_run_v(c, k + 1));
                    }
                    if self.free_run_v(c, k + 1) {
                        assert((c + 10 * k - c) % 10 == 0) by (nonlinear_arith);
                        assert(!self.prot_at(c + 10 * k));
                        assert(c + 10 * k < 100);
                        assert(self.free_run_v(c, k as int));
                    }
                };
            }
            k += 1;
        }

        let (mx_low, mx_high, mv_high) = row_masks(len);
        let x_low = hx_low & mx_low;
        let x_high = hx_high & mx_high;
        let y_low = hy_low & LOW_MASK;
        let y_high = hy_high & mv_high;
        proof {
            lemma_bit_and();
            lemma_lane_masks();
            lemma_masked_word();
            let glen = ship.len();
            assert forall|c: int| 0 <= c < 100 implies #[trigger] cell_bit(x_low, x_high, c)
                == self.legal_h(glen, c) by {
                vstd::arithmetic::div_mod::lemma_fundamental_div_mod(c, 10);
                if c < 40 {
                    assert(bit64(x_low, c as u64) == (bit64(hx_low, c as u64) && bit64(
                        mx_low,
                        c as u64,
                    )));
                    assert(bit64(mx_low, c as u64) == (c % 10 + glen <= 10));
                } else {
                    lemma_high_cell_coords(c);
                    assert(bit64(x_high, (c - 40) as u64) == (bit64(hx_high, (c - 40) as u64)
                        && bit64(mx_high, (c - 40) as u64)));
                    assert(bit64(mx_high, (c - 40) as u64) == ((c - 40) % 10 + glen <= 10));
                }
                assert(cell_bit(hx_low, hx_high, c) == self.free_run_h(c, glen));
                assert(c == 10 * (c / 10) + c % 10);
                assert(c / 10 <= 9);
                if self.free_run_h(c, glen) && c % 10 + glen <= 10 {
                    assert(self.legal_h(glen, c));
                }
                if self.legal_h(glen, c) {
                    assert forall|t: int| c <= t < c + glen implies t < 100 && !self.prot_at(
                        t,
                    ) by {
                        assert(!self.prot_at(t));
                        assert(t < 100);
                    };
                    assert(self.free_run_h(c, glen));
                }
            };
            assert forall|c: int| 0 <= c < 100 implies #[trigger] cell_bit(y_low, y_high, c)
                == self.legal_v(glen, c) by {
                vstd::arithmetic::div_mod::lemma_fundamental_div_mod(c, 10);
                if c < 40 {
                    assert(bit64(y_low, c as u64) == (bit64(hy_low, c as u64) && bit64(
                        LOW_MASK,
                        c as u64,
                    )));
                    assert(c / 10 < 4) by (nonlinear_arith)
                        requires
                            0 <= c < 40,
                    ;
                    assert(c / 10 + glen <= 10);
                } else {
                    lemma_high_cell_coords(c);
                    assert(bit64(y_high, (c - 40) as u64) == (bit64(hy_high, (c - 40) as u64)
                        && bit64(mv_high, (c - 40) as u64)));
                    assert(bit64(mv_high, (c - 40) as u64) == ((c - 40) / 10 + glen <= 6));
                }
                assert(cell_bit(hy_low, hy_high, c) == self.free_run_v(c, glen));
                assert(c == 10 * (c / 10) + c % 10);
                if self.free_run_v(c, glen) && c / 10 + glen <= 10 {
                    assert(self.legal_v(glen, c));
                }
                if self.legal_v(glen, c) {
                    assert forall|t: int|
                        c <= t < c + 10 * glen && (t - c) % 10 == 0 implies t < 100
                        && !self.prot_at(t) by {
                        assert(!self.prot_at(t));
                        let d = t - c;
                        vstd::arithmetic::div_mod::lemma_fundamental_div_mod(d, 10);
                        assert(d == 10 * (d / 10));
                        assert(d / 10 < glen) by (nonlinear_arith)
                            requires
                                d == 10 * (d / 10),
                                0 <= d < 10 * glen,
                        ;
                        assert(t == 10 * (c / 10 + d / 10) + c % 10) by (nonlinear_arith)
                            requires
                                t == c + d,
                                c == 10 * (c / 10) + c % 10,
                                d == 10 * (d / 10),
                        ;
                        assert(c / 10 + d / 10 <= 9);
                        assert(t < 100);
                    };
                    assert(self.free_run_v(c, glen));
                }
            };
        }
        PlacementMasks { x_low, x_high, y_low, y_high }
    }
}



impl BitBoard {
    /// Number of legal horizontal anchors below cell `n`.
    pub open spec fn count_legal_h(self, len: int, n: int) -> nat
        decreases n,
    {
        if n <= 0 {
            0
        } else {
            self.count_legal_h(len, n - 1) + if self.legal_h(len, n - 1) {
                1nat
            } else {
                0nat
            }
        }
    }

    /// Number of legal vertical anchors below cell `n`.
    pub open spec fn count_legal_v(self, len: int, n: int) -> nat
        decreases n,
    {
        if n <= 0 {
            0
        } else {
            self.count_legal_v(len, n - 1) + if self.legal_v(len, n - 1) {
                1nat
            } else {
                0nat
            }
        }
    }

    /// Total number of legal placements for a ship of length `len`.
    pub open spec fn total_legal(self, len: int) -> nat {
        self.count_legal_h(len, 100) + self.count_legal_v(len, 100)
    }

    /// The legal horizontal anchor with exactly `n` legal anchors before it.
    pub open spec fn nth_legal_h(self, len: int, n: int) -> int {
        choose|c: int| self.legal_h(len, c) && self.count_legal_h(len, c) == n
    }

    /// The legal vertical anchor with exactly `n` legal anchors before it.
    pub open spec fn nth_legal_v(self, len: int, n: int) -> int {
        choose|c: int| self.legal_v(len, c) && self.count_legal_v(len, c) == n
    }

    /// The draw taken from a random value: its remainder among the legal
    /// placements.
    pub open spec fn pick_of(self, len: int, rv: u32) -> int {
        (rv as int) % (self.total_legal(len) as int)
    }

    /// Horizontal placements come first in the pick order.
    pub open spec fn chooses_horizontal(self, len: int, rv: u32) -> bool {
        self.pick_of(len, rv) < self.count_legal_h(len, 100)
    }

    /// The direction that the draw `rv` selects.
    pub open spec fn chosen_direction(self, len: int, rv: u32) -> Direction {
        if self.chooses_horizontal(len, rv) {
            Direction::Horizontal
        } else {
            Direction::Vetrical
        }
    }

    /// The anchor cell that the draw `rv` selects.
    pub open spec fn chosen_anchor(self, len: int, rv: u32) -> int {
        if self.chooses_horizontal(len, rv) {
            self.nth_legal_h(len, self.pick_of(len, rv))
        } else {
            self.nth_legal_v(len, self.pick_of(len, rv) - self.count_legal_h(len, 100))
        }
    }
}

/// A mask pair whose cell bits agree with `legal_h` counts legal horizontal
/// anchors.
pub proof fn lemma_count_cells_legal_h(ml: u64, mh: u64, bb: BitBoard, len: int, n: int)
    requires
        forall|c: int| 0 <= c < 100 ==> #[trigger] cell_bit(ml, mh, c) == bb.legal_h(len, c),
        0 <= n <= 100,
    ensures
        count_cells(ml, mh, n) == bb.count_legal_h(len, n),
    decreases n,
{
    if n > 0 {
        lemma_count_cells_legal_h(ml, mh, bb, len, n - 1);
    }
}

/// A mask pair whose cell bits agree with `legal_v` counts legal vertical
/// anchors.
pub proof fn lemma_count_cells_legal_v(ml: u64, mh: u64, bb: BitBoard, len: int, n: int)
    requires
        forall|c: int| 0 <= c < 100 ==> #[trigger] cell_bit(ml, mh, c) == bb.legal_v(len, c),
        0 <= n <= 100,
    ensures
        count_cells(ml, mh, n) == bb.count_legal_v(len, n),
    decreases n,
{
    if n > 0 {
        lemma_count_cells_legal_v(ml, mh, bb, len, n - 1);
    }
}

/// Which direction an index into the placement table stands for.
pub open spec fn dir_of_index(d: int) -> Direction {
    if d == 0 {
        Direction::Horizontal
    } else {
        Direction::Vetrical
    }
}

/// What a placement-table entry must hold for a ship of length `len` in
/// direction `dir` anchored at cell `c`: the footprint as ship bits and the
/// buffer rectangle as protected bits where the placement fits, and nothing
/// anywhere otherwise.
pub open spec fn entry_ok(e: BitBoard, len: int, dir: int, c: int) -> bool {
    let d = dir_of_index(dir);
    let x = c % 10;
    let y = c / 10;
    &&& e.wf()
    &&& if fits(d, len, x, y) {
        forall|t: int|
            0 <= t < 100 ==> (#[trigger] e.ship_at(t) == in_footprint_cell(d, len, x, y, t)
                && e.prot_at(t) == in_rect_cell(d, len, x, y, t))
    } else {
        forall|t: int| 0 <= t < 100 ==> !#[trigger] e.ship_at(t) && !e.prot_at(t)
    }
}

/// Splits a flat table index back into length, direction and anchor.
proof fn lemma_entry_index_decomp(len: int, dir: int, c: int)
    by (nonlinear_arith)
    requires
        1 <= len <= 4,
        0 <= dir < 2,
        0 <= c < 100,
    ensures
        ((len - 1) * 200 + dir * 100 + c) / 200 == len - 1,
        (((len - 1) * 200 + dir * 100 + c) % 200) / 100 == dir,
        ((len - 1) * 200 + dir * 100 + c) % 100 == c,
        0 <= (len - 1) * 200 + dir * 100 + c < 800,
{
}

/// The precomputed placement masks: for every ship length, direction and
/// anchor cell, the bit board that placing that ship there would set.
/// Placing a ship is then a single bitwise OR with one entry.
pub struct PlacementTable {
    pub entries: Vec<BitBoard>,
}

impl PlacementTable {
    pub open spec fn wf(self) -> bool {
        &&& self.entries.len() == 800
        &&& forall|i: int|
            0 <= i < 800 ==> entry_ok(#[trigger] self.entries[i], i / 200 + 1, (i % 200) / 100, i % 100)
    }

    /// The entry for a ship of length `len` in direction `dir` at anchor `c`.
    pub open spec fn entry_at(self, len: int, dir: int, c: int) -> BitBoard {
        self.entries[(len - 1) * 200 + dir * 100 + c]
    }

    /// A well-formed table's entries are what `entry_ok` asks.
    pub proof fn lemma_entry_at(self, len: int, dir: int, c: int)
        requires
            self.wf(),
            1 <= len <= 4,
            0 <= dir < 2,
            0 <= c < 100,
        ensures
            entry_ok(self.entry_at(len, dir, c), len, dir, c),
    {
        lemma_entry_index_decomp(len, dir, c);
    }

    /// Builds the table by placing every ship length at every anchor, in both
    /// directions, on an empty cell-level board and encoding the result.
    pub fn new() -> (t: PlacementTable)
        ensures
            t.wf(),
    {
        let mut entries: Vec<BitBoard> = Vec::new();
        let mut len: usize = 1;
        while len <= 4
            invariant
                1 <= len <= 5,
                entries.len() == (len - 1) * 200,
                forall|i: int|
                    0 <= i < entries.len() ==> entry_ok(
                        #[trigger] entries[i],
                        i / 200 + 1,
                        (i % 200) / 100,
                        i % 100,
                    ),
            decreases 5 - len,
        {
            let mut dir_i: usize = 0;
            while dir_i < 2
                invariant
                    1 <= len <= 4,
                    dir_i <= 2,
                    entries.len() == (len - 1) * 200 + dir_i * 100,
                    forall|i: int|
                        0 <= i < entries.len() ==> entry_ok(
                            #[trigger] entries[i],
                            i / 200 + 1,
                            (i % 200) / 100,
                            i % 100,
                        ),
                decreases 2 - dir_i,
            {
                let direction = if dir_i == 0 {
                    Direction::Horizontal
                } else {
                    Direction::Vetrical
                };
                let mut c: usize = 0;
                while c < 100
                    invariant
                        1 <= len <= 4,
                        dir_i < 2,
                        c <= 100,
                        direction == dir_of_index(dir_i as int),
                        entries.len() == (len - 1) * 200 + dir_i * 100 + c,
                        forall|i: int|
                            0 <= i < entries.len() ==> entry_ok(
                                #[trigger] entries[i],
                                i / 200 + 1,
                                (i % 200) / 100,
                                i % 100,
                            ),
                    decreases 100 - c,
                {
                    let x = c % 10;
                    let y = c / 10;
                    let ship = crate::ship::Ship::new(len, 0);
                    let does_fit = match direction {
                        Direction::Horizontal => len <= 10 - x,
                        Direction::Vetrical => len <= 10 - y,
                    };
                    let e = if does_fit {
                        let mut board = Board::new();
                        board.const_place_ship(x, y, direction, ship);
                        BitBoard::new(board)
                    } else {
                        BitBoard { protected_low: 0, protected_high: 0, ship_low: 0, ship_high: 0 }
                    };
                    proof {
                        vstd::arithmetic::div_mod::lemma_fundamental_div_mod(c as int, 10);
                        assert(x < 10 && y < 10);
                        assert(does_fit == fits(direction, len as int, x as int, y as int));
                        if !does_fit {
                            lemma_lane_masks();
                            assert(0u64 & LOW_MASK == 0u64) by (bit_vector);
                            assert(0u64 & HIGH_MASK == 0u64) by (bit_vector);
                            assert(forall|i: u64| i < 64 ==> !bit64(0u64, i)) by (bit_vector);
                        }
                        assert forall|t: int|
                            in_footprint_cell(direction, len as int, x as int, y as int, t)
                                implies in_rect_cell(
                            direction,
                            len as int,
                            x as int,
                            y as int,
                            t,
                        ) by {}
                        assert(entry_ok(e, len as int, dir_i as int, c as int));
                        lemma_entry_index_decomp(len as int, dir_i as int, c as int);
                    }
                    entries.push(e);
                    c += 1;
                }
                dir_i += 1;
            }
            len += 1;
        }
        PlacementTable { entries }
    }
}

impl BitBoard {
    /// ORs the precomputed mask for `ship` at table `index` into the board:
    /// `index` combines direction (high bit, by 128) and the anchor's bit
    /// position.
    pub fn place_ship(&mut self, table: &PlacementTable, index: usize, ship: Ship)
        requires
            old(self).wf(),
            table.wf(),
            index < 256,
            index % 128 < 40 || 64 <= index % 128 < 124,
        ensures
            final(self).wf(),
            forall|t: int|
                0 <= t < 100 ==> final(self).ship_at(t) == (old(self).ship_at(t)
                    || table.entry_at(
                    ship.len(),
                    index as int / 128,
                    cell_of_bitpos(index as int % 128),
                ).ship_at(t)),
            forall|t: int|
                0 <= t < 100 ==> final(self).prot_at(t) == (old(self).prot_at(t)
                    || table.entry_at(
                    ship.len(),
                    index as int / 128,
                    cell_of_bitpos(index as int % 128),
                ).prot_at(t)),
    {
        let dir_i = index / 128;
        let p = index % 128;
        let c = if p < 40 {
            p
        } else {
            p - 24
        };
        let len = ship.length();
        let e_idx = (len - 1) * 200 + dir_i * 100 + c;
        proof {
            lemma_entry_index_decomp(len as int, dir_i as int, c as int);
            table.lemma_entry_at(len as int, dir_i as int, c as int);
        }
        let e = table.entries[e_idx];
        let ghost prev = *self;
        self.protected_low = self.protected_low | e.protected_low;
        self.protected_high = self.protected_high | e.protected_high;
        self.ship_low = self.ship_low | e.ship_low;
        self.ship_high = self.ship_high | e.ship_high;
        proof {
            lemma_bit_or();
            lemma_masked_word();
            assert forall|t: int| 0 <= t < 100 implies self.ship_at(t) == (prev.ship_at(t)
                || e.ship_at(t)) && self.prot_at(t) == (prev.prot_at(t) || e.prot_at(t)) by {}
            assert(pair_wf(self.protected_low, self.protected_high));
            assert(pair_wf(self.ship_low, self.ship_high));
            assert forall|t: int| 0 <= t < 100 && self.ship_at(t) implies self.prot_at(t) by {
                assert(prev.ship_at(t) ==> prev.prot_at(t));
                assert(e.ship_at(t) ==> e.prot_at(t));
            };
        }
    }
}


impl BitBoard {
    /// Samples one legal placement for `ship` uniformly from the current
    /// board and applies it.  The draw is `random_value` reduced modulo the
    /// number of legal placements; horizontal anchors come first in cell
    /// order, then vertical anchors in cell order, so the placement taken is
    /// a function of the board, the ship length and the draw alone.
    #[verifier::rlimit(100)]
    #[verifier::spinoff_prover]
    pub fn random_place_ship(&mut self, table: &PlacementTable, ship: Ship, random_value: u32)
        requires
            old(self).wf(),
            table.wf(),
            old(self).total_legal(ship.len()) > 0,
        ensures
            final(self).wf(),
            ({
                let len = ship.len();
                let dir = old(self).chosen_direction(len, random_value);
                let a = old(self).chosen_anchor(len, random_value);
                &&& (dir.is_horizontal() ==> old(self).legal_h(len, a))
                &&& (!dir.is_horizontal() ==> old(self).legal_v(len, a))
                &&& forall|t: int|
                    0 <= t < 100 ==> final(self).ship_at(t) == (old(self).ship_at(t)
                        || in_footprint_cell(dir, len, a % 10, a / 10, t))
                &&& forall|t: int|
                    0 <= t < 100 ==> final(self).prot_at(t) == (old(self).prot_at(t)
                        || in_rect_cell(dir, len, a % 10, a / 10, t))
            }),
    {
        let masks = self.allowable_ship_placements(ship);
        let x_count = popcount64(masks.x_low) + popcount64(masks.x_high);
        let y_count = popcount64(masks.y_low) + popcount64(masks.y_high);
        let ghost glen = ship.len();
        proof {
            lemma_pair_pop_cells(masks.x_low, masks.x_high);
            lemma_pair_pop_cells(masks.y_low, masks.y_high);
            lemma_count_cells_legal_h(masks.x_low, masks.x_high, *self, glen, 100);
            lemma_count_cells_legal_v(masks.y_low, masks.y_high, *self, glen, 100);
            assert(x_count == self.count_legal_h(glen, 100));
            assert(y_count == self.count_legal_v(glen, 100));
        }
        let total = x_count + y_count;
        let pick = random_value % total;
        proof {
            assert(pick == self.pick_of(glen, random_value));
        }
        if pick < x_count {
            let r = nth_set_bit_u64x2((masks.x_low, masks.x_high), pick);
            proof {
                let ri = r as int;
                lemma_pair_wf_bits(masks.x_low, masks.x_high);
                assert(ri < 40 || 64 <= ri < 124);
                let c = cell_of_bitpos(ri);
                assert(bitpos(c) == ri);
                assert(cell_bit(masks.x_low, masks.x_high, c));
                assert(self.legal_h(glen, c));
                assert(0 <= c < 100);
                lemma_count_cells_rank(masks.x_low, masks.x_high, c);
                lemma_count_cells_legal_h(masks.x_low, masks.x_high, *self, glen, c);
                assert(self.count_legal_h(glen, c) == pick);
                let cc = self.nth_legal_h(glen, pick as int);
                assert(self.legal_h(glen, cc) && self.count_legal_h(glen, cc) == pick) by {
                    assert(self.legal_h(glen, c) && self.count_legal_h(glen, c) == pick);
                }
                if cc != c {
                    lemma_count_cells_legal_h(masks.x_low, masks.x_high, *self, glen, cc);
                    if cc < c {
                        lemma_count_cells_unique(masks.x_low, masks.x_high, cc, c);
                    } else {
                        lemma_count_cells_unique(masks.x_low, masks.x_high, c, cc);
                    }
                }
                assert(cc == c);
                assert(self.chooses_horizontal(glen, random_value));
                assert(self.chosen_anchor(glen, random_value) == c);
                vstd::arithmetic::div_mod::lemma_fundamental_div_mod(c, 10);
                assert(c / 10 <= 9);
                assert(fits(Direction::Horizontal, glen, c % 10, c / 10));
                table.lemma_entry_at(glen, 0, c);
                assert(r as int % 128 == ri && r as int / 128 == 0);
            }
            self.place_ship(table, r as usize, ship);
        } else {
            let r = nth_set_bit_u64x2((masks.y_low, masks.y_high), pick - x_count);
            proof {
                let ri = r as int;
                lemma_pair_wf_bits(masks.y_low, masks.y_high);
                assert(ri < 40 || 64 <= ri < 124);
                let c = cell_of_bitpos(ri);
                assert(bitpos(c) == ri);
                assert(cell_bit(masks.y_low, masks.y_high, c));
                assert(self.legal_v(glen, c));
                assert(0 <= c < 100);
                lemma_count_cells_rank(masks.y_low, masks.y_high, c);
                lemma_count_cells_legal_v(masks.y_low, masks.y_high, *self, glen, c);
                assert(self.count_legal_v(glen, c) == pick - x_count);
                let cc = self.nth_legal_v(glen, pick as int - x_count as int);
                assert(self.legal_v(glen, cc) && self.count_legal_v(glen, cc) == pick - x_count)
                    by {
                    assert(self.legal_v(glen, c) && self.count_legal_v(glen, c) == pick - x_count);
                }
                if cc != c {
                    lemma_count_cells_legal_v(masks.y_low, masks.y_high, *self, glen, cc);
                    if cc < c {
                        lemma_count_cells_unique(masks.y_low, masks.y_high, cc, c);
                    } else {
                        lemma_count_cells_unique(masks.y_low, masks.y_high, c, cc);
                    }
                }
                assert(cc == c);
                assert(!self.chooses_horizontal(glen, random_value));
                assert(self.chosen_anchor(glen, random_value) == c);
                vstd::arithmetic::div_mod::lemma_fundamental_div_mod(c, 10);
                assert(c % 10 <= 9);
                assert(fits(Direction::Vetrical, glen, c % 10, c / 10));
                table.lemma_entry_at(glen, 1, c);
                assert((r + 128) as int % 128 == ri && (r + 128) as int / 128 == 1);
            }
            self.place_ship(table, (r + 128) as usize, ship);
        }
    }
}


/// Two well-formed bit boards with the same cell bits are equal.
pub proof fn lemma_bitboard_ext(a: BitBoard, b: BitBoard)
    requires
        a.wf(),
        b.wf(),
        forall|c: int| 0 <= c < 100 ==> a.ship_at(c) == b.ship_at(c),
        forall|c: int| 0 <= c < 100 ==> a.prot_at(c) == b.prot_at(c),
    ensures
        a == b,
{
    lemma_pair_wf_bits(a.protected_low, a.protected_high);
    lemma_pair_wf_bits(a.ship_low, a.ship_high);
    lemma_pair_wf_bits(b.protected_low, b.protected_high);
    lemma_pair_wf_bits(b.ship_low, b.ship_high);
    assert forall|i: u64| i < 64 implies bit64(a.ship_low, i) == bit64(b.ship_low, i) by {
        if i < 40 {
            assert(a.ship_at(i as int) == b.ship_at(i as int));
        }
    };
    assert forall|i: u64| i < 64 implies bit64(a.ship_high, i) == bit64(b.ship_high, i) by {
        if i < 60 {
            assert(a.ship_at(i + 40) == b.ship_at(i + 40));
        }
    };
    assert forall|i: u64| i < 64 implies bit64(a.protected_low, i) == bit64(
        b.protected_low,
        i,
    ) by {
        if i < 40 {
            assert(a.prot_at(i as int) == b.prot_at(i as int));
        }
    };
    assert forall|i: u64| i < 64 implies bit64(a.protected_high, i) == bit64(
        b.protected_high,
        i,
    ) by {
        if i < 60 {
            assert(a.prot_at(i + 40) == b.prot_at(i + 40));
        }
    };
    crate::bits::lemma_word_ext(a.ship_low, b.ship_low);
    crate::bits::lemma_word_ext(a.ship_high, b.ship_high);
    crate::bits::lemma_word_ext(a.protected_low, b.protected_low);
    crate::bits::lemma_word_ext(a.protected_high, b.protected_high);
}

/// What the board must look like after a ship of length `len` is placed in
/// direction `dir` at anchor `a` on `bb`.
pub open spec fn placed_spec(bb: BitBoard, len: int, dir: Direction, a: int, r: BitBoard) -> bool {
    &&& r.wf()
    &&& forall|t: int|
        0 <= t < 100 ==> #[trigger] r.ship_at(t) == (bb.ship_at(t) || in_footprint_cell(
            dir,
            len,
            a % 10,
            a / 10,
            t,
        ))
    &&& forall|t: int|
        0 <= t < 100 ==> #[trigger] r.prot_at(t) == (bb.prot_at(t) || in_rect_cell(
            dir,
            len,
            a % 10,
            a / 10,
            t,
        ))
}

/// The board after such a placement; well-defined because two well-formed
/// boards with the same bits are equal.
pub open spec fn place_result(bb: BitBoard, len: int, dir: Direction, a: int) -> BitBoard {
    choose|r: BitBoard| placed_spec(bb, len, dir, a, r)
}

/// Any board satisfying `placed_spec` is the `place_result`.
pub proof fn lemma_place_result_unique(bb: BitBoard, len: int, dir: Direction, a: int, r: BitBoard)
    requires
        placed_spec(bb, len, dir, a, r),
    ensures
        place_result(bb, len, dir, a) == r,
{
    let r2 = choose|r2: BitBoard| placed_spec(bb, len, dir, a, r2);
    assert(placed_spec(bb, len, dir, a, r2));
    lemma_bitboard_ext(r2, r);
}

/// The board after the placement that the draw `rv` selects for `ship`.
pub open spec fn place_chosen(bb: BitBoard, ship: Ship, rv: u32) -> BitBoard {
    place_result(
        bb,
        ship.len(),
        bb.chosen_direction(ship.len(), rv),
        bb.chosen_anchor(ship.len(), rv),
    )
}

impl BitBoard {
    /// Counts the legal placements of `ship` on this board over both
    /// orientations.
    pub fn count_placements(&self, ship: Ship) -> (n: u32)
        requires
            self.wf(),
        ensures
            n == self.total_legal(ship.len()),
    {
        let masks = self.allowable_ship_placements(ship);
        proof {
            lemma_pair_pop_cells(masks.x_low, masks.x_high);
            lemma_pair_pop_cells(masks.y_low, masks.y_high);
            lemma_count_cells_legal_h(masks.x_low, masks.x_high, *self, ship.len(), 100);
            lemma_count_cells_legal_v(masks.y_low, masks.y_high, *self, ship.len(), 100);
        }
        popcount64(masks.x_low) + popcount64(masks.x_high) + popcount64(masks.y_low) + popcount64(
            masks.y_high,
        )
    }
}


/// What a bit board says a cell is: a ship cell, a merely protected cell, or
/// water.
pub open spec fn decode_cell(bb: BitBoard, c: int) -> Cell {
    if bb.ship_at(c) {
        Cell::Ship
    } else if bb.prot_at(c) {
        Cell::Protected
    } else {
        Cell::Water
    }
}

impl BitBoard {
    /// Reads the bit board back into a cell-level board by bit testing.
    pub fn decode(&self) -> (b: Board)
        ensures
            b.wf(),
            forall|c: int| 0 <= c < 100 ==> b.cell(c) == decode_cell(*self, c),
            forall|c: int| 100 <= c < 128 ==> b.cell(c) == Cell::Water,
    {
        let mut cells: Vec<Cell> = Vec::new();
        let mut i: usize = 0;
        while i < 100
            invariant
                cells.len() == i,
                i <= 100,
                forall|c: int| 0 <= c < i ==> cells[c] == decode_cell(*self, c),
            decreases 100 - i,
        {
            let cell = if self.has_ship_at(i) {
                Cell::Ship
            } else if self.is_protected_at(i) {
                Cell::Protected
            } else {
                Cell::Water
            };
            cells.push(cell);
            i += 1;
        }
        while i < 128
            invariant
                cells.len() == i,
                100 <= i <= 128,
                forall|c: int| 0 <= c < 100 ==> cells[c] == decode_cell(*self, c),
                forall|c: int| 100 <= c < i ==> cells[c] == Cell::Water,
            decreases 128 - i,
        {
            cells.push(Cell::Water);
            i += 1;
        }
        Board { cells }
    }
}

/// Encoding then decoding reproduces a board that holds only water,
/// protected and (unhit) ship cells.
pub proof fn lemma_encode_round_trip(board: Board, bb: BitBoard)
    requires
        board.wf(),
        forall|c: int| 0 <= c < 100 ==> board.cell(c) != Cell::ShipHit,
        forall|c: int|
            0 <= c < 100 ==> bb.ship_at(c) == (board.cell(c) == Cell::Ship || board.cell(c)
                == Cell::ShipHit),
        forall|c: int|
            0 <= c < 100 ==> bb.prot_at(c) == (board.cell(c) == Cell::Protected || board.cell(c)
                == Cell::Ship || board.cell(c) == Cell::ShipHit),
    ensures
        forall|c: int| 0 <= c < 100 ==> decode_cell(bb, c) == board.cell(c),
{
}

/// A protected cell under a ship's footprint makes its anchor illegal.
pub proof fn lemma_protected_excludes(bb: BitBoard, len: int, c: int, dir: Direction, t: int)
    requires
        0 <= c < 100,
        1 <= len,
        0 <= t < 100,
        in_footprint_cell(dir, len, c % 10, c / 10, t),
        bb.prot_at(t),
    ensures
        dir.is_horizontal() ==> !bb.legal_h(len, c),
        !dir.is_horizontal() ==> !bb.legal_v(len, c),
{
    vstd::arithmetic::div_mod::lemma_fundamental_div_mod(c, 10);
    vstd::arithmetic::div_mod::lemma_fundamental_div_mod(t, 10);
    if dir.is_horizontal() {
        assert(c <= t < c + len);
        if bb.legal_h(len, c) {
            assert(!bb.prot_at(t));
        }
    } else {
        assert(t % 10 == c % 10 && c / 10 <= t / 10 < c / 10 + len);
        assert(t - c == 10 * (t / 10 - c / 10));
        assert(c <= t < c + 10 * len);
        assert((t - c) % 10 == 0) by {
            vstd::arithmetic::div_mod::lemma_mod_multiples_vanish(t / 10 - c / 10, 0, 10);
        }
        if bb.legal_v(len, c) {
            assert(!bb.prot_at(t));
        }
    }
}

/// After one ship is placed, any placement whose footprint meets the placed
/// ship's protected rectangle is illegal on the new board; in particular the
/// same placement cannot be taken twice.
pub proof fn lemma_place_mutual_exclusion(
    bb: BitBoard,
    len1: int,
    dir1: Direction,
    a1: int,
    r: BitBoard,
    len2: int,
    dir2: Direction,
    a2: int,
    t: int,
)
    requires
        placed_spec(bb, len1, dir1, a1, r),
        0 <= a2 < 100,
        1 <= len2,
        0 <= t < 100,
        in_footprint_cell(dir2, len2, a2 % 10, a2 / 10, t),
        in_rect_cell(dir1, len1, a1 % 10, a1 / 10, t),
    ensures
        dir2.is_horizontal() ==> !r.legal_h(len2, a2),
        !dir2.is_horizontal() ==> !r.legal_v(len2, a2),
{
    assert(r.prot_at(t));
    lemma_protected_excludes(r, len2, a2, dir2, t);
}

impl BitBoard {
    /// Legal-anchor counts are bounded by the cells scanned.
    pub proof fn lemma_count_legal_le(self, len: int, m: int)
        requires
            0 <= m,
        ensures
            self.count_legal_h(len, m) <= m,
            self.count_legal_v(len, m) <= m,
        decreases m,
    {
        if m > 0 {
            self.lemma_count_legal_le(len, m - 1);
        }
    }

    /// The count strictly grows past a legal anchor.
    pub proof fn lemma_count_legal_h_lt(self, len: int, c: int, m: int)
        requires
            self.legal_h(len, c),
            c < m <= 100,
        ensures
            self.count_legal_h(len, c) < self.count_legal_h(len, m),
        decreases m,
    {
        if m - 1 > c {
            self.lemma_count_legal_h_lt(len, c, m - 1);
        }
    }

    /// The count strictly grows past a legal anchor.
    pub proof fn lemma_count_legal_v_lt(self, len: int, c: int, m: int)
        requires
            self.legal_v(len, c),
            c < m <= 100,
        ensures
            self.count_legal_v(len, c) < self.count_legal_v(len, m),
        decreases m,
    {
        if m - 1 > c {
            self.lemma_count_legal_v_lt(len, c, m - 1);
        }
    }

    /// Every rank below the count is taken by some legal anchor.
    pub proof fn lemma_nth_exists_h(self, len: int, m: int, n: int)
        requires
            0 <= m <= 100,
            0 <= n < self.count_legal_h(len, m),
        ensures
            exists|c: int|
                0 <= c < m && #[trigger] self.legal_h(len, c) && self.count_legal_h(len, c) == n,
        decreases m,
    {
        if self.legal_h(len, m - 1) && self.count_legal_h(len, m - 1) == n {
            assert(0 <= m - 1 < m && self.legal_h(len, m - 1) && self.count_legal_h(len, m - 1)
                == n);
        } else {
            self.lemma_nth_exists_h(len, m - 1, n);
        }
    }

    /// Every rank below the count is taken by some legal anchor.
    pub proof fn lemma_nth_exists_v(self, len: int, m: int, n: int)
        requires
            0 <= m <= 100,
            0 <= n < self.count_legal_v(len, m),
        ensures
            exists|c: int|
                0 <= c < m && #[trigger] self.legal_v(len, c) && self.count_legal_v(len, c) == n,
        decreases m,
    {
        if self.legal_v(len, m - 1) && self.count_legal_v(len, m - 1) == n {
            assert(0 <= m - 1 < m && self.legal_v(len, m - 1) && self.count_legal_v(len, m - 1)
                == n);
        } else {
            self.lemma_nth_exists_v(len, m - 1, n);
        }
    }

    /// As the draw sweeps `0 .. total_legal`, the selected placements visit
    /// every legal (direction, anchor) pair exactly once: the selection is a
    /// bijection between draws and legal placements, and each selected
    /// placement is legal.
    pub proof fn lemma_selection_bijection(self, len: int)
        ensures
            forall|rv: u32|
                rv < self.total_legal(len) ==> {
                    let dir = #[trigger] self.chosen_direction(len, rv);
                    let a = self.chosen_anchor(len, rv);
                    &&& (dir.is_horizontal() ==> self.legal_h(len, a))
                    &&& (!dir.is_horizontal() ==> self.legal_v(len, a))
                },
            forall|r1: u32, r2: u32|
                #![trigger self.chosen_anchor(len, r1), self.chosen_anchor(len, r2)]
                r1 < self.total_legal(len) && r2 < self.total_legal(len) && self.chosen_direction(
                    len,
                    r1,
                ) == self.chosen_direction(len, r2) && self.chosen_anchor(len, r1)
                    == self.chosen_anchor(len, r2) ==> r1 == r2,
            forall|c: int|
                #[trigger] self.legal_h(len, c) ==> exists|rv: u32|
                    rv < self.total_legal(len) && (#[trigger] self.chosen_direction(len, rv))
                        == Direction::Horizontal && self.chosen_anchor(len, rv) == c,
            forall|c: int|
                #[trigger] self.legal_v(len, c) ==> exists|rv: u32|
                    rv < self.total_legal(len) && (#[trigger] self.chosen_direction(len, rv))
                        == Direction::Vetrical && self.chosen_anchor(len, rv) == c,
    {
        let xc = self.count_legal_h(len, 100) as int;
        let yc = self.count_legal_v(len, 100) as int;
        let total = self.total_legal(len) as int;
        self.lemma_count_legal_le(len, 100);

        assert forall|rv: u32| rv < self.total_legal(len) implies {
            let dir = #[trigger] self.chosen_direction(len, rv);
            let a = self.chosen_anchor(len, rv);
            &&& (dir.is_horizontal() ==> self.legal_h(len, a))
            &&& (!dir.is_horizontal() ==> self.legal_v(len, a))
        } by {
            vstd::arithmetic::div_mod::lemma_small_mod(rv as nat, self.total_legal(len));
            let pick = self.pick_of(len, rv);
            assert(pick == rv);
            if pick < xc {
                self.lemma_nth_exists_h(len, 100, pick);
                let a = self.nth_legal_h(len, pick);
                assert(self.legal_h(len, a) && self.count_legal_h(len, a) == pick);
            } else {
                self.lemma_nth_exists_v(len, 100, pick - xc);
                let a = self.nth_legal_v(len, pick - xc);
                assert(self.legal_v(len, a) && self.count_legal_v(len, a) == pick - xc);
            }
        };

        assert forall|r1: u32, r2: u32|
            #![trigger self.chosen_anchor(len, r1), self.chosen_anchor(len, r2)]
            r1 < self.total_legal(len) && r2 < self.total_legal(len) && self.chosen_direction(
                len,
                r1,
            ) == self.chosen_direction(len, r2) && self.chosen_anchor(len, r1)
                == self.chosen_anchor(len, r2) implies r1 == r2 by {
            vstd::arithmetic::div_mod::lemma_small_mod(r1 as nat, self.total_legal(len));
            vstd::arithmetic::div_mod::lemma_small_mod(r2 as nat, self.total_legal(len));
            if r1 < xc && r2 < xc {
                self.lemma_nth_exists_h(len, 100, r1 as int);
                self.lemma_nth_exists_h(len, 100, r2 as int);
                let a1 = self.nth_legal_h(len, r1 as int);
                let a2 = self.nth_legal_h(len, r2 as int);
                assert(self.legal_h(len, a1) && self.count_legal_h(len, a1) == r1);
                assert(self.legal_h(len, a2) && self.count_legal_h(len, a2) == r2);
            } else if r1 >= xc && r2 >= xc {
                self.lemma_nth_exists_v(len, 100, r1 - xc);
                self.lemma_nth_exists_v(len, 100, r2 - xc);
                let a1 = self.nth_legal_v(len, r1 - xc);
                let a2 = self.nth_legal_v(len, r2 - xc);
                assert(self.legal_v(len, a1) && self.count_legal_v(len, a1) == r1 - xc);
                assert(self.legal_v(len, a2) && self.count_legal_v(len, a2) == r2 - xc);
            }
        };

        assert forall|c: int| #[trigger] self.legal_h(len, c) implies exists|rv: u32|
            rv < self.total_legal(len) && (#[trigger] self.chosen_direction(len, rv))
                == Direction::Horizontal && self.chosen_anchor(len, rv) == c by {
            self.lemma_count_legal_h_lt(len, c, 100);
            self.lemma_count_legal_le(len, c);
            let n = self.count_legal_h(len, c);
            let rv = n as u32;
            vstd::arithmetic::div_mod::lemma_small_mod(n, self.total_legal(len));
            assert(self.pick_of(len, rv) == n);
            assert(self.chooses_horizontal(len, rv));
            let cc = self.nth_legal_h(len, n as int);
            assert(self.legal_h(len, cc) && self.count_legal_h(len, cc) == n) by {
                assert(self.legal_h(len, c) && self.count_legal_h(len, c) == n);
            }
            if cc != c {
                if cc < c {
                    self.lemma_count_legal_h_lt(len, cc, c);
                } else {
                    self.lemma_count_legal_h_lt(len, c, cc);
                }
            }
            assert(rv < self.total_legal(len) && self.chosen_direction(len, rv)
                == Direction::Horizontal && self.chosen_anchor(len, rv) == c);
        };

        assert forall|c: int| #[trigger] self.legal_v(len, c) implies exists|rv: u32|
            rv < self.total_legal(len) && (#[trigger] self.chosen_direction(len, rv))
                == Direction::Vetrical && self.chosen_anchor(len, rv) == c by {
            self.lemma_count_legal_v_lt(len, c, 100);
            self.lemma_count_legal_le(len, c);
            let n = self.count_legal_v(len, c);
            let rv = (xc + n) as u32;
            vstd::arithmetic::div_mod::lemma_small_mod((xc + n) as nat, self.total_legal(len));
            assert(self.pick_of(len, rv) == xc + n);
            assert(!self.chooses_horizontal(len, rv));
            let cc = self.nth_legal_v(len, n as int);
            assert(self.legal_v(len, cc) && self.count_legal_v(len, cc) == n) by {
                assert(self.legal_v(len, c) && self.count_legal_v(len, c) == n);
            }
            if cc != c {
                if cc < c {
                    self.lemma_count_legal_v_lt(len, cc, c);
                } else {
                    self.lemma_count_legal_v_lt(len, c, cc);
                }
            }
            assert(rv < self.total_legal(len) && self.chosen_direction(len, rv)
                == Direction::Vetrical && self.chosen_anchor(len, rv) == c);
        };
    }
}

} // verus!






