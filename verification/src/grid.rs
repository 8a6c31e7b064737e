//! The mathematical model of a board: its block size and the sequence of its
//! cells in row-major order.

use vstd::prelude::*;
use crate::geometry::{House, house_cell, house_of, slot_of};

verus! {

/// What a board is, mathematically.
pub struct Grid {
    /// Side of one block; the grid has `base * base` rows and columns.
    pub base: int,
    /// The cells, row-major; `None` is an empty cell.
    pub cells: Seq<Option<i32>>,
}

/// How many of `cells` are empty.
pub open spec fn count_empty(cells: Seq<Option<i32>>) -> nat
    decreases cells.len(),
{
    if cells.len() == 0 {
        0
    } else {
        count_empty(cells.drop_last()) + if cells.last().is_none() {
            1nat
        } else {
            0nat
        }
    }
}

impl Grid {
    /// Number of rows, of columns, of blocks, and the largest value.
    pub open spec fn side(self) -> int {
        self.base * self.base
    }

    /// Number of cells.
    pub open spec fn size(self) -> int {
        self.side() * self.side()
    }

    /// `c` is empty or holds a value of the grid's range.
    pub open spec fn value_ok(self, c: Option<i32>) -> bool {
        c matches Some(v) ==> 1 <= v <= self.side()
    }

    /// The grid has `base` to the fourth cells, each empty or within range, and
    /// its side is a value that a cell can hold.
    pub open spec fn wf(self) -> bool {
        &&& self.base >= 0
        &&& self.side() <= i32::MAX
        &&& self.cells.len() == self.size()
        &&& forall|i: int| 0 <= i < self.cells.len() ==> self.value_ok(#[trigger] self.cells[i])
    }

    /// The grid with cell `i` replaced by `c`.
    pub open spec fn set(self, i: int, c: Option<i32>) -> Grid {
        Grid { base: self.base, cells: self.cells.update(i, c) }
    }

    /// The cells of house `n` of kind `h`, in order.
    pub open spec fn house_values(self, h: House, n: int) -> Seq<Option<i32>> {
        Seq::new(self.side() as nat, |k: int| self.cells[house_cell(self.base, h, n, k)])
    }

    /// The grid with the cells of house `n` of kind `h` replaced by `vals`, in order.
    pub open spec fn with_house(self, h: House, n: int, vals: Seq<Option<i32>>) -> Grid {
        Grid {
            base: self.base,
            cells: Seq::new(
                self.cells.len(),
                |i: int|
                    if house_of(self.base, h, i) == n {
                        vals[slot_of(self.base, h, i)]
                    } else {
                        self.cells[i]
                    },
            ),
        }
    }

    /// Number of empty cells.
    pub open spec fn remaining(self) -> nat {
        count_empty(self.cells)
    }

    /// `other` keeps every filled cell of `self`.
    pub open spec fn extended_by(self, other: Grid) -> bool {
        &&& other.base == self.base
        &&& other.cells.len() == self.cells.len()
        &&& forall|i: int|
            0 <= i < self.cells.len() && self.cells[i].is_some() ==> #[trigger] other.cells[i]
                == self.cells[i]
    }
}

/// There are never more empty cells than cells.
pub proof fn lemma_count_empty_bound(cells: Seq<Option<i32>>)
    ensures
        count_empty(cells) <= cells.len(),
    decreases cells.len(),
{
    if cells.len() > 0 {
        lemma_count_empty_bound(cells.drop_last());
    }
}

/// No empty cell is counted exactly when every cell is filled.
pub proof fn lemma_count_empty_zero(cells: Seq<Option<i32>>)
    ensures
        count_empty(cells) == 0 <==> forall|i: int| 0 <= i < cells.len() ==> cells[i].is_some(),
    decreases cells.len(),
{
    if cells.len() > 0 {
        let front = cells.drop_last();
        lemma_count_empty_zero(front);
        if count_empty(cells) == 0 {
            assert forall|i: int| 0 <= i < cells.len() implies cells[i].is_some() by {
                if i < cells.len() - 1 {
                    assert(front[i] == cells[i]);
                }
            }
        }
        if forall|i: int| 0 <= i < cells.len() ==> cells[i].is_some() {
            assert forall|i: int| 0 <= i < front.len() implies front[i].is_some() by {
                assert(front[i] == cells[i]);
            }
        }
    }
}

/// Replacing one cell changes the count of empty cells by what that cell adds or removes.
pub proof fn lemma_count_empty_update(cells: Seq<Option<i32>>, i: int, c: Option<i32>)
    requires
        0 <= i < cells.len(),
    ensures
        count_empty(cells.update(i, c)) + (if cells[i].is_none() {
            1nat
        } else {
            0nat
        }) == count_empty(cells) + (if c.is_none() {
            1nat
        } else {
            0nat
        }),
    decreases cells.len(),
{
    let after = cells.update(i, c);
    if i == cells.len() - 1 {
        assert(after.drop_last() =~= cells.drop_last());
    } else {
        assert(after.drop_last() =~= cells.drop_last().update(i, c));
        lemma_count_empty_update(cells.drop_last(), i, c);
    }
}

/// A grid that fills cells of another, cell by cell, has no more empty cells.
pub proof fn lemma_count_empty_monotone(a: Seq<Option<i32>>, b: Seq<Option<i32>>)
    requires
        a.len() == b.len(),
        forall|i: int| 0 <= i < a.len() && a[i].is_some() ==> b[i].is_some(),
    ensures
        count_empty(b) <= count_empty(a),
        count_empty(b) == count_empty(a) ==> forall|i: int|
            0 <= i < a.len() ==> (a[i].is_some() <==> b[i].is_some()),
    decreases a.len(),
{
    if a.len() > 0 {
        let fa = a.drop_last();
        let fb = b.drop_last();
        assert forall|i: int| 0 <= i < fa.len() && fa[i].is_some() implies fb[i].is_some() by {
            assert(fa[i] == a[i]);
            assert(fb[i] == b[i]);
        }
        lemma_count_empty_monotone(fa, fb);
        if count_empty(b) == count_empty(a) {
            assert forall|i: int| 0 <= i < a.len() implies (a[i].is_some() <==> b[i].is_some()) by {
                if i < a.len() - 1 {
                    assert(fa[i] == a[i]);
                    assert(fb[i] == b[i]);
                }
            }
        }
    }
}

} // verus!
