//! A generic fixed-size 2D grid of per-cell values, with neighbour
//! traversal.  The storage is padded to a power-of-two side length; only the
//! board's own coordinates are addressable.

use vstd::prelude::*;

verus! {

use crate::SIZE;

/// Storage side length: the board side rounded up to a power of two.
pub const GRID_SIZE: usize = 16;

/// A `GRID_SIZE` by `GRID_SIZE` grid of values, indexed row by row.
#[derive(Debug, Clone)]
pub struct CellGrid<T> {
    pub cells: Vec<Vec<T>>,
}

/// The four diagonal neighbour offsets.
pub fn diagonal_offsets() -> (r: [(i32, i32); 4])
    ensures
        r@ == seq![(-1i32, -1i32), (1i32, -1i32), (-1i32, 1i32), (1i32, 1i32)],
{
    [(-1, -1), (1, -1), (-1, 1), (1, 1)]
}

/// The four orthogonal neighbour offsets.
pub fn orthogonal_offsets() -> (r: [(i32, i32); 4])
    ensures
        r@ == seq![(-1i32, 0i32), (1i32, 0i32), (0i32, -1i32), (0i32, 1i32)],
{
    [(-1, 0), (1, 0), (0, -1), (0, 1)]
}

/// Whether (cx, cy) is reached from (x, y) by one of the first `k` offsets
/// without leaving the board.
pub open spec fn offset_neighbor_upto(
    x: int,
    y: int,
    offsets: [(i32, i32); 4],
    cx: int,
    cy: int,
    k: int,
) -> bool {
    exists|j: int|
        #![trigger offsets[j]]
        0 <= j < k && cx == x + offsets[j].0 && cy == y + offsets[j].1 && 0 <= cx < SIZE && 0 <= cy
            < SIZE
}

/// Whether (cx, cy) is an in-bounds neighbour of (x, y) under `offsets`.
pub open spec fn offset_neighbor(x: int, y: int, offsets: [(i32, i32); 4], cx: int, cy: int) -> bool {
    offset_neighbor_upto(x, y, offsets, cx, cy, 4)
}

/// The in-bounds cells reached from (x, y) by the first `k` offsets, in
/// offset order.
pub open spec fn offset_cords_spec(x: int, y: int, offsets: [(i32, i32); 4], k: int) -> Seq<
    (usize, usize),
>
    decreases k,
{
    if k <= 0 {
        Seq::empty()
    } else {
        let prefix = offset_cords_spec(x, y, offsets, k - 1);
        let cx = x + offsets[k - 1].0;
        let cy = y + offsets[k - 1].1;
        if 0 <= cx < SIZE && 0 <= cy < SIZE {
            prefix.push((cx as usize, cy as usize))
        } else {
            prefix
        }
    }
}

/// No two offsets name the same cell.
pub open spec fn distinct_offsets(offsets: [(i32, i32); 4]) -> bool {
    forall|j1: int, j2: int|
        #![trigger offsets[j1], offsets[j2]]
        0 <= j1 < j2 < 4 ==> offsets[j1] != offsets[j2]
}

impl<T: Copy> CellGrid<T> {
    pub open spec fn wf(self) -> bool {
        &&& self.cells.len() == GRID_SIZE
        &&& forall|r: int| 0 <= r < GRID_SIZE ==> (#[trigger] self.cells[r]).len() == GRID_SIZE
    }

    /// The value at column `x`, row `y`.
    pub open spec fn at(self, x: int, y: int) -> T {
        self.cells[y][x]
    }

    /// A grid holding `value` everywhere.
    pub fn new(value: T) -> (g: CellGrid<T>)
        ensures
            g.wf(),
            forall|cx: int, cy: int|
                0 <= cx < GRID_SIZE && 0 <= cy < GRID_SIZE ==> #[trigger] g.at(cx, cy) == value,
    {
        let mut cells: Vec<Vec<T>> = Vec::new();
        let mut r: usize = 0;
        while r < GRID_SIZE
            invariant
                cells.len() == r,
                r <= GRID_SIZE,
                forall|i: int| 0 <= i < r ==> (#[trigger] cells[i]).len() == GRID_SIZE,
                forall|i: int, j: int|
                    0 <= i < r && 0 <= j < GRID_SIZE ==> #[trigger] cells[i][j] == value,
            decreases GRID_SIZE - r,
        {
            let mut row: Vec<T> = Vec::new();
            let mut c: usize = 0;
            while c < GRID_SIZE
                invariant
                    row.len() == c,
                    c <= GRID_SIZE,
                    forall|j: int| 0 <= j < c ==> #[trigger] row[j] == value,
                decreases GRID_SIZE - c,
            {
                row.push(value);
                c += 1;
            }
            cells.push(row);
            r += 1;
        }
        CellGrid { cells }
    }

    /// Whether (x, y) lies on the board proper, not in the padding.
    pub fn is_inside(&self, x: usize, y: usize) -> (r: bool)
        ensures
            r == (x < SIZE && y < SIZE),
    {
        x < SIZE && y < SIZE
    }

    /// The value at column `x`, row `y`.
    pub fn get(&self, x: usize, y: usize) -> (v: T)
        requires
            self.wf(),
            x < GRID_SIZE,
            y < GRID_SIZE,
        ensures
            v == self.at(x as int, y as int),
    {
        self.cells[y][x]
    }

    /// Replaces the value at column `x`, row `y`.
    pub fn set(&mut self, x: usize, y: usize, value: T)
        requires
            old(self).wf(),
            x < GRID_SIZE,
            y < GRID_SIZE,
        ensures
            final(self).wf(),
            final(self).at(x as int, y as int) == value,
            forall|cx: int, cy: int|
                0 <= cx < GRID_SIZE && 0 <= cy < GRID_SIZE && !(cx == x && cy == y)
                    ==> #[trigger] final(self).at(cx, cy) == old(self).at(cx, cy),
    {
        self.cells[y][x] = value;
    }

    /// The coordinates reached from (x, y) by the offsets, in offset order,
    /// keeping only those on the board.
    pub fn iter_offset_cords(x: usize, y: usize, offsets: [(i32, i32); 4]) -> (r: Vec<
        (usize, usize),
    >)
        requires
            x < SIZE,
            y < SIZE,
        ensures
            r@ == offset_cords_spec(x as int, y as int, offsets, 4),
    {
        let mut r: Vec<(usize, usize)> = Vec::new();
        let mut k: usize = 0;
        while k < 4
            invariant
                x < SIZE,
                y < SIZE,
                k <= 4,
                r@ == offset_cords_spec(x as int, y as int, offsets, k as int),
            decreases 4 - k,
        {
            let (x_off, y_off) = offsets[k];
            let new_x = x as i64 + x_off as i64;
            let new_y = y as i64 + y_off as i64;
            if 0 <= new_x && new_x < SIZE as i64 && 0 <= new_y && new_y < SIZE as i64 {
                r.push((new_x as usize, new_y as usize));
            }
            k += 1;
        }
        r
    }

    /// Applies `f` to every in-bounds orthogonal neighbour of (x, y).
    pub fn foreach_orthogonal_neighbors<F: Fn(T) -> T>(&mut self, x: usize, y: usize, f: F)
        requires
            old(self).wf(),
            x < SIZE,
            y < SIZE,
            forall|v: T| #[trigger] f.requires((v,)),
        ensures
            final(self).wf(),
            forall|cx: int, cy: int|
                0 <= cx < GRID_SIZE && 0 <= cy < GRID_SIZE ==> (if offset_neighbor(
                    x as int,
                    y as int,
                    [(-1i32, 0i32), (1i32, 0i32), (0i32, -1i32), (0i32, 1i32)],
                    cx,
                    cy,
                ) {
                    f.ensures((old(self).at(cx, cy),), #[trigger] final(self).at(cx, cy))
                } else {
                    final(self).at(cx, cy) == old(self).at(cx, cy)
                }),
    {
        let offsets = orthogonal_offsets();
        proof {
            assert(distinct_offsets(offsets));
        }
        self.foreach_offset_neighbors(x, y, offsets, f);
    }

    /// Applies `f` to every in-bounds diagonal neighbour of (x, y).
    pub fn foreach_diagonal_neighbors<F: Fn(T) -> T>(&mut self, x: usize, y: usize, f: F)
        requires
            old(self).wf(),
            x < SIZE,
            y < SIZE,
            forall|v: T| #[trigger] f.requires((v,)),
        ensures
            final(self).wf(),
            forall|cx: int, cy: int|
                0 <= cx < GRID_SIZE && 0 <= cy < GRID_SIZE ==> (if offset_neighbor(
                    x as int,
                    y as int,
                    [(-1i32, -1i32), (1i32, -1i32), (-1i32, 1i32), (1i32, 1i32)],
                    cx,
                    cy,
                ) {
                    f.ensures((old(self).at(cx, cy),), #[trigger] final(self).at(cx, cy))
                } else {
                    final(self).at(cx, cy) == old(self).at(cx, cy)
                }),
    {
        let offsets = diagonal_offsets();
        proof {
            assert(distinct_offsets(offsets));
        }
        self.foreach_offset_neighbors(x, y, offsets, f);
    }

    /// Applies `f` once to every in-bounds cell reached by one of the
    /// pairwise-distinct offsets.
    pub fn foreach_offset_neighbors<F: Fn(T) -> T>(
        &mut self,
        x: usize,
        y: usize,
        offsets: [(i32, i32); 4],
        f: F,
    )
        requires
            old(self).wf(),
            x < SIZE,
            y < SIZE,
            distinct_offsets(offsets),
            forall|v: T| #[trigger] f.requires((v,)),
        ensures
            final(self).wf(),
            forall|cx: int, cy: int|
                0 <= cx < GRID_SIZE && 0 <= cy < GRID_SIZE ==> (if offset_neighbor(
                    x as int,
                    y as int,
                    offsets,
                    cx,
                    cy,
                ) {
                    f.ensures((old(self).at(cx, cy),), #[trigger] final(self).at(cx, cy))
                } else {
                    final(self).at(cx, cy) == old(self).at(cx, cy)
                }),
    {
        let ghost orig = *self;
        let mut k: usize = 0;
        while k < 4
            invariant
                self.wf(),
                x < SIZE,
                y < SIZE,
                k <= 4,
                distinct_offsets(offsets),
                forall|v: T| #[trigger] f.requires((v,)),
                forall|cx: int, cy: int|
                    0 <= cx < GRID_SIZE && 0 <= cy < GRID_SIZE ==> (if offset_neighbor_upto(
                        x as int,
                        y as int,
                        offsets,
                        cx,
                        cy,
                        k as int,
                    ) {
                        f.ensures((orig.at(cx, cy),), #[trigger] self.at(cx, cy))
                    } else {
                        self.at(cx, cy) == orig.at(cx, cy)
                    }),
            decreases 4 - k,
        {
            let (x_off, y_off) = offsets[k];
            let new_x = x as i64 + x_off as i64;
            let new_y = y as i64 + y_off as i64;
            if 0 <= new_x && new_x < SIZE as i64 && 0 <= new_y && new_y < SIZE as i64 {
                let cx = new_x as usize;
                let cy = new_y as usize;
                let ghost pre = *self;
                let old_v = self.cells[cy][cx];
                let new_v = f(old_v);
                self.cells[cy][cx] = new_v;
                proof {
                    assert forall|qx: int, qy: int|
                        0 <= qx < GRID_SIZE && 0 <= qy < GRID_SIZE implies (
                    if offset_neighbor_upto(x as int, y as int, offsets, qx, qy, k + 1) {
                        f.ensures((orig.at(qx, qy),), self.at(qx, qy))
                    } else {
                        self.at(qx, qy) == orig.at(qx, qy)
                    }) by {
                        if qx == cx && qy == cy {
                            assert(!offset_neighbor_upto(
                                x as int,
                                y as int,
                                offsets,
                                qx,
                                qy,
                                k as int,
                            ));
                            assert(pre.at(qx, qy) == orig.at(qx, qy));
                            assert(offset_neighbor_upto(x as int, y as int, offsets, qx, qy, k + 1));
                        } else {
                            assert(self.at(qx, qy) == pre.at(qx, qy));
                        }
                    };
                }
            } else {
                proof {
                    assert forall|qx: int, qy: int|
                        0 <= qx < GRID_SIZE && 0 <= qy < GRID_SIZE implies (
                    if offset_neighbor_upto(x as int, y as int, offsets, qx, qy, k + 1) {
                        f.ensures((orig.at(qx, qy),), self.at(qx, qy))
                    } else {
                        self.at(qx, qy) == orig.at(qx, qy)
                    }) by {};
                }
            }
            k += 1;
        }
    }
}

} // verus!
