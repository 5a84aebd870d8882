//! The readable cell-level board and the placement rule: a placed ship marks
//! its own cells and a one-cell buffer rectangle around them as protected.

use vstd::prelude::*;

verus! {

use crate::BOARD_SIZE;
use crate::SIZE;
use crate::ship::Ship;

/// Orientation of a ship placement.
#[derive(Clone, Copy, Debug, PartialEq, Eq, Structural)]
pub enum Direction {
    Horizontal,
    Vetrical,
}

/// Per-cell state, ordered: merging two candidate values for one position
/// takes the maximum, so a ship cell is never downgraded.
#[derive(Clone, Copy, Debug, PartialEq, Eq, Structural)]
pub enum Cell {
    Water,
    Protected,
    ShipHit,
    Ship,
}

/// Coordinates and the linear index determine each other.
proof fn lemma_divmod10(x: int, y: int)
    by (nonlinear_arith)
    requires
        0 <= x < 10,
        0 <= y,
    ensures
        (x + 10 * y) % 10 == x,
        (x + 10 * y) / 10 == y,
{
}

impl Direction {
    pub open spec fn is_horizontal(self) -> bool {
        self == Direction::Horizontal
    }
}

/// Width in cells of the footprint of a ship of length `len` placed in
/// direction `dir`.
pub open spec fn dir_w(dir: Direction, len: int) -> int {
    if dir.is_horizontal() {
        len
    } else {
        1
    }
}

/// Height in cells of the footprint.
pub open spec fn dir_h(dir: Direction, len: int) -> int {
    if dir.is_horizontal() {
        1
    } else {
        len
    }
}

/// Whether a ship of length `len` placed at anchor (x, y) in direction `dir`
/// lies entirely on the board.
pub open spec fn fits(dir: Direction, len: int, x: int, y: int) -> bool {
    0 <= x && 0 <= y && x + dir_w(dir, len) <= SIZE && y + dir_h(dir, len) <= SIZE
}

/// Whether cell (cx, cy) is one of the cells the ship itself occupies.
pub open spec fn in_footprint(dir: Direction, len: int, x: int, y: int, cx: int, cy: int) -> bool {
    x <= cx < x + dir_w(dir, len) && y <= cy < y + dir_h(dir, len)
}

/// Whether cell (cx, cy) lies in the protection rectangle: the footprint
/// widened by one cell on every side, clipped to the board.
pub open spec fn in_rect(dir: Direction, len: int, x: int, y: int, cx: int, cy: int) -> bool {
    0 <= cx < SIZE && 0 <= cy < SIZE && x - 1 <= cx <= x + dir_w(dir, len) && y - 1 <= cy <= y
        + dir_h(dir, len)
}

/// `in_footprint`, by linear cell index.
pub open spec fn in_footprint_cell(dir: Direction, len: int, x: int, y: int, c: int) -> bool {
    0 <= c < 100 && in_footprint(dir, len, x, y, c % 10, c / 10)
}

/// `in_rect`, by linear cell index.
pub open spec fn in_rect_cell(dir: Direction, len: int, x: int, y: int, c: int) -> bool {
    0 <= c < 100 && in_rect(dir, len, x, y, c % 10, c / 10)
}

/// The ground-truth board: one `Cell` per position, padded to `BOARD_SIZE`
/// entries; only the first 100 are addressable through coordinates.
#[derive(Clone, Debug)]
pub struct Board {
    pub cells: Vec<Cell>,
}

impl Board {
    pub open spec fn wf(self) -> bool {
        self.cells.len() == BOARD_SIZE
    }

    /// The cell at linear index `c`.
    pub open spec fn cell(self, c: int) -> Cell {
        self.cells[c]
    }

    /// An all-water board.
    pub fn new() -> (b: Board)
        ensures
            b.wf(),
            forall|c: int| 0 <= c < BOARD_SIZE ==> b.cell(c) == Cell::Water,
    {
        let mut cells: Vec<Cell> = Vec::new();
        let mut i: usize = 0;
        while i < BOARD_SIZE
            invariant
                cells.len() == i,
                i <= BOARD_SIZE,
                forall|c: int| 0 <= c < i ==> cells[c] == Cell::Water,
            decreases BOARD_SIZE - i,
        {
            cells.push(Cell::Water);
            i += 1;
        }
        Board { cells }
    }

    /// Linear index of coordinate (x, y).
    pub fn cell_index(x: usize, y: usize) -> (c: usize)
        requires
            x < SIZE,
            y < SIZE,
        ensures
            c == x + y * 10,
            c < 100,
    {
        x + y * SIZE
    }

    /// Linear index of (x, y) with each coordinate clamped onto the board.
    pub fn saturating_cell_index(x: usize, y: usize) -> (c: usize)
        ensures
            c == (if x < 10 {
                x as int
            } else {
                9
            }) + 10 * (if y < 10 {
                y as int
            } else {
                9
            }),
            c < 100,
    {
        let x = if x >= SIZE {
            SIZE - 1
        } else {
            x
        };
        let y = if y >= SIZE {
            SIZE - 1
        } else {
            y
        };
        Self::cell_index(x, y)
    }

    /// Places a ship unconditionally: every cell of the buffer rectangle is
    /// overwritten with `Protected`, then the footprint with `Ship`.  Used to
    /// build the placement table, where the board starts empty; on a general
    /// board it overwrites whatever was there.
    pub fn const_place_ship(&mut self, x: usize, y: usize, direction: Direction, ship: Ship)
        requires
            old(self).wf(),
            fits(direction, ship.len(), x as int, y as int),
        ensures
            final(self).wf(),
            forall|c: int|
                0 <= c < BOARD_SIZE ==> final(self).cell(c) == (if in_footprint_cell(
                    direction,
                    ship.len(),
                    x as int,
                    y as int,
                    c,
                ) {
                    Cell::Ship
                } else if in_rect_cell(direction, ship.len(), x as int, y as int, c) {
                    Cell::Protected
                } else {
                    old(self).cell(c)
                }),
    {
        let len = ship.length();
        let (w, h): (usize, usize) = match direction {
            Direction::Horizontal => (len, 1),
            Direction::Vetrical => (1, len),
        };
        let low_x = if x == 0 {
            0
        } else {
            x - 1
        };
        let low_y = if y == 0 {
            0
        } else {
            y - 1
        };
        let high_x = if x + w + 1 < SIZE {
            x + w + 1
        } else {
            SIZE
        };
        let high_y = if y + h + 1 < SIZE {
            y + h + 1
        } else {
            SIZE
        };

        let ghost gx = x as int;
        let ghost gy = y as int;
        let ghost glen = ship.len();
        let ghost orig = *self;
        proof {
            assert(1 <= glen <= 4);
            assert(w == dir_w(direction, glen));
            assert(h == dir_h(direction, glen));
        }

        let mut i_y = low_y;
        while i_y < high_y
            invariant
                self.wf(),
                low_x == if gx == 0 {
                    0
                } else {
                    gx - 1
                },
                low_y == if gy == 0 {
                    0
                } else {
                    gy - 1
                },
                high_x == if gx + dir_w(direction, glen) + 1 < 10 {
                    gx + dir_w(direction, glen) + 1
                } else {
                    10
                },
                high_y == if gy + dir_h(direction, glen) + 1 < 10 {
                    gy + dir_h(direction, glen) + 1
                } else {
                    10
                },
                low_y <= i_y <= high_y,
                high_x <= 10,
                high_y <= 10,
                1 <= glen <= 4,
                fits(direction, glen, gx, gy),
                forall|c: int|
                    0 <= c < BOARD_SIZE ==> self.cell(c) == (if in_rect_cell(
                        direction,
                        glen,
                        gx,
                        gy,
                        c,
                    ) && c / 10 < i_y {
                        Cell::Protected
                    } else {
                        orig.cell(c)
                    }),
            decreases high_y - i_y,
        {
            let mut i_x = low_x;
            while i_x < high_x
                invariant
                    self.wf(),
                    low_x == if gx == 0 {
                        0
                    } else {
                        gx - 1
                    },
                    high_x == if gx + dir_w(direction, glen) + 1 < 10 {
                        gx + dir_w(direction, glen) + 1
                    } else {
                        10
                    },
                    low_x <= i_x <= high_x,
                    high_x <= 10,
                    i_y < 10,
                    low_y <= i_y,
                    1 <= glen <= 4,
                    fits(direction, glen, gx, gy),
                    low_y == if gy == 0 {
                        0
                    } else {
                        gy - 1
                    },
                    high_y == if gy + dir_h(direction, glen) + 1 < 10 {
                        gy + dir_h(direction, glen) + 1
                    } else {
                        10
                    },
                    i_y < high_y,
                    forall|c: int|
                        0 <= c < BOARD_SIZE ==> self.cell(c) == (if in_rect_cell(
                            direction,
                            glen,
                            gx,
                            gy,
                            c,
                        ) && (c / 10 < i_y || (c / 10 == i_y && c % 10 < i_x)) {
                            Cell::Protected
                        } else {
                            orig.cell(c)
                        }),
                decreases high_x - i_x,
            {
                let idx = Self::cell_index(i_x, i_y);
                let ghost pre = *self;
                let ghost snap = self.cells@;
                self.cells[idx] = Cell::Protected;
                proof {
                    lemma_divmod10(i_x as int, i_y as int);
                    assert forall|c: int| 0 <= c < BOARD_SIZE implies self.cell(c) == (if in_rect_cell(
                        direction,
                        glen,
                        gx,
                        gy,
                        c,
                    ) && (c / 10 < i_y || (c / 10 == i_y && c % 10 < i_x + 1)) {
                        Cell::Protected
                    } else {
                        orig.cell(c)
                    }) by {
                        vstd::arithmetic::div_mod::lemma_fundamental_div_mod(c, 10);
                        assert(pre.cell(c) == snap[c]);
                        if c == idx as int {
                            assert(c % 10 == i_x as int);
                            assert(c / 10 == i_y as int);
                            assert(in_rect_cell(direction, glen, gx, gy, c));
                            assert(self.cell(c) == Cell::Protected);
                        } else {
                            assert(self.cell(c) == snap[c]);
                            assert(snap[c] == (if in_rect_cell(
                                direction,
                                glen,
                                gx,
                                gy,
                                c,
                            ) && (c / 10 < i_y || (c / 10 == i_y && c % 10 < i_x)) {
                                Cell::Protected
                            } else {
                                orig.cell(c)
                            }));
                            assert(!(c / 10 == i_y && c % 10 == i_x));
                        }
                    };
                }
                i_x += 1;
            }
            i_y += 1;
        }

        let mut cx = x;
        let mut cy = y;
        let mut i: usize = 0;
        while i < len
            invariant
                self.wf(),
                len == glen,
                i <= len,
                1 <= glen <= 4,
                fits(direction, glen, gx, gy),
                cx == if direction.is_horizontal() {
                    gx + i
                } else {
                    gx
                },
                cy == if direction.is_horizontal() {
                    gy
                } else {
                    gy + i
                },
                forall|c: int|
                    0 <= c < BOARD_SIZE ==> self.cell(c) == (if in_footprint_cell(
                        direction,
                        glen,
                        gx,
                        gy,
                        c,
                    ) && (if direction.is_horizontal() {
                        c % 10 < gx + i
                    } else {
                        c / 10 < gy + i
                    }) {
                        Cell::Ship
                    } else if in_rect_cell(direction, glen, gx, gy, c) {
                        Cell::Protected
                    } else {
                        orig.cell(c)
                    }),
            decreases len - i,
        {
            let idx = Self::cell_index(cx, cy);
            let ghost pre = *self;
            let ghost snap = self.cells@;
            self.cells[idx] = Cell::Ship;
            proof {
                lemma_divmod10(cx as int, cy as int);
                assert forall|c: int| 0 <= c < BOARD_SIZE implies self.cell(c) == (if in_footprint_cell(
                    direction,
                    glen,
                    gx,
                    gy,
                    c,
                ) && (if direction.is_horizontal() {
                    c % 10 < gx + i + 1
                } else {
                    c / 10 < gy + i + 1
                }) {
                    Cell::Ship
                } else if in_rect_cell(direction, glen, gx, gy, c) {
                    Cell::Protected
                } else {
                    orig.cell(c)
                }) by {
                    vstd::arithmetic::div_mod::lemma_fundamental_div_mod(c, 10);
                    assert(pre.cell(c) == snap[c]);
                    if c == idx as int {
                        assert(c % 10 == cx as int);
                        assert(c / 10 == cy as int);
                        assert(in_footprint_cell(direction, glen, gx, gy, c));
                    } else {
                        assert(self.cell(c) == snap[c]);
                    }
                };
            }
            match direction {
                Direction::Horizontal => cx += 1,
                Direction::Vetrical => cy += 1,
            }
            i += 1;
        }
    }

    /// Places a ship only if every footprint cell is still water and the
    /// placement lies on the board; on failure the board is untouched.
    pub fn place(&mut self, x: usize, y: usize, direction: Direction, ship: Ship) -> (ok: bool)
        requires
            old(self).wf(),
            x < SIZE,
            y < SIZE,
        ensures
            final(self).wf(),
            ok == can_place(*old(self), direction, ship.len(), x as int, y as int),
            ok ==> forall|c: int|
                0 <= c < BOARD_SIZE ==> final(self).cell(c) == (if in_footprint_cell(
                    direction,
                    ship.len(),
                    x as int,
                    y as int,
                    c,
                ) {
                    Cell::Ship
                } else if in_rect_cell(direction, ship.len(), x as int, y as int, c) {
                    Cell::Protected
                } else {
                    old(self).cell(c)
                }),
            !ok ==> *final(self) == *old(self),
    {
        let len = ship.length();
        let ghost gx = x as int;
        let ghost gy = y as int;
        let ghost glen = ship.len();
        let fits_ok = match direction {
            Direction::Horizontal => len <= SIZE - x,
            Direction::Vetrical => len <= SIZE - y,
        };
        if !fits_ok {
            return false;
        }
        let mut i: usize = 0;
        while i < len
            invariant
                self == old(self),
                self.wf(),
                x < SIZE,
                y < SIZE,
                i <= len,
                len == glen,
                glen == ship.len(),
                gx == x,
                gy == y,
                1 <= glen <= 4,
                fits(direction, glen, gx, gy),
                forall|j: int|
                    0 <= j < i ==> self.cell(#[trigger] footprint_step(direction, gx, gy, j))
                        == Cell::Water,
            decreases len - i,
        {
            let (cx, cy) = match direction {
                Direction::Horizontal => (x + i, y),
                Direction::Vetrical => (x, y + i),
            };
            let idx = Self::cell_index(cx, cy);
            if !matches!(self.cells[idx], Cell::Water) {
                proof {
                    lemma_divmod10(cx as int, cy as int);
                    assert(idx as int == footprint_step(direction, gx, gy, i as int));
                    assert(in_footprint_cell(direction, glen, gx, gy, idx as int));
                    assert(!can_place(*old(self), direction, glen, gx, gy));
                }
                return false;
            }
            i += 1;
        }
        proof {
            assert forall|c: int|
                in_footprint_cell(direction, glen, gx, gy, c) implies self.cell(c)
                == Cell::Water by {
                vstd::arithmetic::div_mod::lemma_fundamental_div_mod(c, 10);
                if direction.is_horizontal() {
                    let j = c % 10 - gx;
                    assert(c == footprint_step(direction, gx, gy, j));
                } else {
                    let j = c / 10 - gy;
                    assert(c == footprint_step(direction, gx, gy, j));
                }
            };
            assert(can_place(*old(self), direction, glen, gx, gy));
        }
        self.const_place_ship(x, y, direction, ship);
        true
    }
}

/// Linear index of the `j`-th cell of a ship footprint anchored at (x, y).
pub open spec fn footprint_step(dir: Direction, x: int, y: int, j: int) -> int {
    if dir.is_horizontal() {
        x + j + 10 * y
    } else {
        x + 10 * (y + j)
    }
}

/// Whether a ship of length `len` at (x, y) in direction `dir` may be placed
/// on `b`: it fits on the board and its own cells are all still water.
pub open spec fn can_place(b: Board, dir: Direction, len: int, x: int, y: int) -> bool {
    fits(dir, len, x, y) && forall|c: int|
        in_footprint_cell(dir, len, x, y, c) ==> b.cell(c) == Cell::Water
}

/// Marks each in-bounds cell at (x, y) plus one of the four `offsets` as
/// `Protected` if it is still water; occupied or already-protected cells are
/// left alone.
pub fn set_protecet_at_offsets(x: usize, y: usize, start_board: &mut Board, offsets: [(i32, i32); 4])
    requires
        old(start_board).wf(),
        x < SIZE,
        y < SIZE,
    ensures
        final(start_board).wf(),
        forall|c: int|
            0 <= c < BOARD_SIZE ==> final(start_board).cell(c) == (if offset_target(
                x as int,
                y as int,
                offsets,
                c,
            ) && old(start_board).cell(c) == Cell::Water {
                Cell::Protected
            } else {
                old(start_board).cell(c)
            }),
{
    let mut k: usize = 0;
    while k < 4
        invariant
            start_board.wf(),
            x < SIZE,
            y < SIZE,
            k <= 4,
            forall|c: int|
                0 <= c < BOARD_SIZE ==> start_board.cell(c) == (if offset_target_upto(
                    x as int,
                    y as int,
                    offsets,
                    c,
                    k as int,
                ) && old(start_board).cell(c) == Cell::Water {
                    Cell::Protected
                } else {
                    old(start_board).cell(c)
                }),
        decreases 4 - k,
    {
        let (x_off, y_off) = offsets[k];
        let corner_x = x as i64 + x_off as i64;
        let corner_y = y as i64 + y_off as i64;
        if 0 <= corner_x && corner_x < SIZE as i64 && 0 <= corner_y && corner_y < SIZE as i64 {
            let idx = Board::cell_index(corner_x as usize, corner_y as usize);
            if matches!(start_board.cells[idx], Cell::Water) {
                start_board.cells[idx] = Cell::Protected;
            }
        }
        k += 1;
    }
}

/// Whether cell `c` is reached from (x, y) by one of the four offsets without
/// leaving the board.
pub open spec fn offset_target(x: int, y: int, offsets: [(i32, i32); 4], c: int) -> bool {
    offset_target_upto(x, y, offsets, c, 4)
}

/// As `offset_target`, considering only the first `k` offsets.
pub open spec fn offset_target_upto(x: int, y: int, offsets: [(i32, i32); 4], c: int, k: int) -> bool {
    exists|j: int|
        #![trigger offsets[j]]
        0 <= j < k && {
            let cx = x + offsets[j].0;
            let cy = y + offsets[j].1;
            0 <= cx < SIZE && 0 <= cy < SIZE && c == cx + 10 * cy
        }
}

} // verus!
