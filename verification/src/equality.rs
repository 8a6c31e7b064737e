//! When two boards are equal, and whether a board is well formed.

use vstd::prelude::*;
use crate::board::Board;

verus! {

/// Allow for the comparison of boards
impl PartialEq for Board {
    fn eq(&self, other: &Board) -> (equal: bool) {
        if self.squares.len() != other.squares.len() {
            return false;
        }
        let mut index: usize = 0;
        while index < self.squares.len()
            invariant
                self.squares@.len() == other.squares@.len(),
                index <= self.squares@.len(),
                forall|i: int| 0 <= i < index ==> self.squares@[i] == other.squares@[i],
            decreases self.squares@.len() - index,
        {
            if self.squares[index] != other.squares[index] {
                return false;
            }
            index += 1;
        }
        assert(self.squares@ =~= other.squares@);
        true
    }
}

impl vstd::std_specs::cmp::PartialEqSpecImpl for Board {
    open spec fn obeys_eq_spec() -> bool {
        true
    }

    /// Two boards are equal when they have the same cells.
    open spec fn eq_spec(&self, other: &Board) -> bool {
        self.squares@ == other.squares@
    }
}

impl Board {
    /// Whether the fields of the board agree with each other and every
    /// value lies in the board's range.
    pub fn is_well_formed(&self) -> (ok: bool)
        ensures
            ok == self.wf(),
    {
        let side = match self.base_num.checked_mul(self.base_num) {
            Some(side) => side,
            None => {
                return false;
            },
        };
        if side != self.side_length {
            return false;
        }
        let size = match side.checked_mul(side) {
            Some(size) => size,
            None => {
                return false;
            },
        };
        if size != self.num_squares || self.squares.len() != self.num_squares || self.min_value != 1
            || self.max_value < 0 || self.max_value as usize != side {
            return false;
        }
        let mut index: usize = 0;
        while index < self.squares.len()
            invariant
                self.base_num * self.base_num == self.side_length,
                self.side_length * self.side_length == self.num_squares,
                self.squares@.len() == self.num_squares,
                self.min_value == 1,
                self.max_value == self.side_length,
                index <= self.squares@.len(),
                forall|i: int| 0 <= i < index ==> self@.value_ok(#[trigger] self@.cells[i]),
            decreases self.squares@.len() - index,
        {
            match self.squares[index] {
                Some(v) => {
                    if v < 1 || v > self.max_value {
                        assert(!self@.value_ok(self@.cells[index as int]));
                        return false;
                    }
                },
                None => {},
            }
            index += 1;
        }
        true
    }
}

} // verus!
