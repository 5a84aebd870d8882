//! Ship values: a length in 1..=4 and a slot index into the fleet.

use vstd::prelude::*;

verus! {

/// The supported ship lengths.  Length 5 is not supported by the bit-packed
/// legality computation, so no constructor produces it.
#[derive(Clone, Copy, Debug, PartialEq, Eq, Structural)]
pub enum ShipLength {
    _1,
    _2,
    _3,
    _4,
}

impl ShipLength {
    /// The number of cells a ship of this length occupies.
    pub open spec fn as_int(self) -> int {
        match self {
            ShipLength::_1 => 1,
            ShipLength::_2 => 2,
            ShipLength::_3 => 3,
            ShipLength::_4 => 4,
        }
    }
}

/// An immutable ship value.  `length` says how many cells it covers; `index`
/// identifies the family of equal-length ships in the fleet and selects the
/// matching family of precomputed placement masks.
#[derive(Clone, Copy, Debug, PartialEq, Eq, Structural)]
pub struct Ship {
    pub length: ShipLength,
    pub index: usize,
}

impl Ship {
    /// The ship's length as a mathematical integer.
    pub open spec fn len(self) -> int {
        self.length.as_int()
    }

    /// Builds a ship.  Lengths outside 1..=4 are malformed and rejected at
    /// construction time, so they are excluded here.
    pub fn new(length: usize, index: usize) -> (s: Ship)
        requires
            1 <= length <= 4,
        ensures
            s.len() == length,
            s.index == index,
    {
        let length = if length == 1 {
            ShipLength::_1
        } else if length == 2 {
            ShipLength::_2
        } else if length == 3 {
            ShipLength::_3
        } else {
            ShipLength::_4
        };
        Ship { length, index }
    }

    /// The ship's length in cells.
    pub fn length(&self) -> (n: usize)
        ensures
            n == self.len(),
    {
        match self.length {
            ShipLength::_1 => 1,
            ShipLength::_2 => 2,
            ShipLength::_3 => 3,
            ShipLength::_4 => 4,
        }
    }
}

} // verus!
