//! Classifying a board and filling in what its rows, columns and blocks
//! force, up to the point where nothing more is forced.

use vstd::prelude::*;
use std::collections::HashMap;
use crate::board::{Board, Pos, SquareType};
use crate::geometry::{House, as_ints, house_cell, house_cells, house_of, lemma_house_of};
use crate::grid::{Grid, lemma_count_empty_monotone};
use crate::hintmap::{HintMap, Hints, free_of, has_entry, value_range};
use crate::pool::sweep_on_pool;

verus! {

broadcast use vstd::std_specs::hash::group_hash_axioms;

/// Status from running checking/solving algorithms on `Board`
#[derive(Debug, Clone, Copy, PartialEq, Eq, Structural)]
pub enum BoardStatus {
    Solved,
    Valid,
    Invalid,
}

impl BoardStatus {
    /// Board is Valid or Solved
    pub open spec fn valid(self) -> bool {
        self != BoardStatus::Invalid
    }

    /// Board is Solved
    pub open spec fn solved(self) -> bool {
        self == BoardStatus::Solved
    }

    /// Board is Solved or Invalid - no further action needed on it
    pub open spec fn finished(self) -> bool {
        self != BoardStatus::Valid
    }

    /// Board is Valid or Solved
    pub fn is_valid(&self) -> (yes: bool)
        ensures
            yes == self.valid(),
    {
        match *self {
            BoardStatus::Valid | BoardStatus::Solved => true,
            BoardStatus::Invalid => false,
        }
    }

    /// Board is Solved
    pub fn is_solved(&self) -> (yes: bool)
        ensures
            yes == self.solved(),
    {
        match *self {
            BoardStatus::Solved => true,
            _ => false,
        }
    }

    /// Board is Solved or Invalid - no further action needed on it
    pub fn is_finished(&self) -> (yes: bool)
        ensures
            yes == self.finished(),
    {
        match *self {
            BoardStatus::Solved | BoardStatus::Invalid => true,
            _ => false,
        }
    }
}

/// Two different places of `values` hold the same value.
pub open spec fn has_repeat(values: Seq<Option<i32>>) -> bool {
    exists|p: int, q: int|
        #![trigger values[p], values[q]]
        0 <= p < values.len() && 0 <= q < values.len() && p != q && values[p].is_some()
            && values[p] == values[q]
}

impl Grid {
    /// Some row, column or block holds a value twice.
    pub open spec fn has_clash(self) -> bool {
        exists|h: House, n: int| 0 <= n < self.side() && has_repeat(#[trigger] self.house_values(h, n))
    }

    /// Some empty cell has no candidate left.
    pub open spec fn is_stuck(self) -> bool {
        exists|i: int|
            0 <= i < self.cells.len() && self.cells[i].is_none() && (#[trigger] self.candidates(
                i,
            )).len() == 0
    }

    /// The classification of the grid: `Invalid` where a house holds a value
    /// twice; else `Solved` where no cell is empty; else `Invalid` where an
    /// empty cell has no candidate; else `Valid`.
    pub open spec fn status(self) -> BoardStatus {
        if self.has_clash() {
            BoardStatus::Invalid
        } else if self.remaining() == 0 {
            BoardStatus::Solved
        } else if self.is_stuck() {
            BoardStatus::Invalid
        } else {
            BoardStatus::Valid
        }
    }
}

/// Whether two different places of `values` hold the same value.
pub fn repeats(values: &Vec<Option<SquareType>>) -> (found: bool)
    ensures
        found == has_repeat(values@),
{
    let mut i: usize = 0;
    while i < values.len()
        invariant
            i <= values@.len(),
            forall|p: int, q: int|
                #![trigger values@[p], values@[q]]
                0 <= q < p < i ==> !(values@[p].is_some() && values@[p] == values@[q]),
        decreases values@.len() - i,
    {
        let mut j: usize = 0;
        while j < i
            invariant
                i < values@.len(),
                j <= i,
                forall|p: int, q: int|
                    #![trigger values@[p], values@[q]]
                    0 <= q < p < i ==> !(values@[p].is_some() && values@[p] == values@[q]),
                forall|q: int| 0 <= q < j ==> !(values@[i as int].is_some() && values@[i as int] == #[trigger] values@[q]),
            decreases i - j,
        {
            if values[i].is_some() && values[i] == values[j] {
                return true;
            }
            j += 1;
        }
        i += 1;
    }
    proof {
        if has_repeat(values@) {
            let (p, q) = choose|p: int, q: int|
                #![trigger values@[p], values@[q]]
                0 <= p < values@.len() && 0 <= q < values@.len() && p != q && values@[p].is_some()
                    && values@[p] == values@[q];
            if q < p {
                assert(!(values@[p].is_some() && values@[p] == values@[q]));
            } else {
                assert(!(values@[q].is_some() && values@[q] == values@[p]));
            }
        }
    }
    false
}

/// Helpers
impl Board {
    /// Classifies the board: `Invalid` where a row, column or block holds a
    /// value twice; else `Solved` where no cell is empty; else `Invalid`
    /// where an empty cell has no candidate left; else `Valid`.
    pub fn check_status(&self) -> (status: BoardStatus)
        requires
            self.wf(),
        ensures
            status == self@.status(),
    {
        let num_groups = self.side_length;
        let ghost grid = self@;

        let mut group_num: usize = 0;
        while group_num < num_groups
            invariant
                self.wf(),
                grid == self@,
                num_groups == self.side_length,
                group_num <= num_groups,
                forall|n: int|
                    0 <= n < group_num ==> !has_repeat(
                        #[trigger] grid.house_values(House::Row, n),
                    ),
                forall|n: int|
                    0 <= n < group_num ==> !has_repeat(
                        #[trigger] grid.house_values(House::Column, n),
                    ),
                forall|n: int|
                    0 <= n < group_num ==> !has_repeat(
                        #[trigger] grid.house_values(House::Block, n),
                    ),
            decreases num_groups - group_num,
        {
            proof {
                self.lemma_base_positive();
            }
            let row = self.get_row_values(group_num);
            let col = self.get_col_values(group_num);
            let grid_values = self.get_grid_values(group_num);
            if repeats(&row) || repeats(&col) || repeats(&grid_values) {
                return BoardStatus::Invalid;
            }
            group_num += 1;
        }
        proof {
            if self.side_length > 0 {
                self.lemma_base_positive();
            } else {
                assert(self.base_num == 0) by (nonlinear_arith)
                    requires
                        self.base_num * self.base_num == 0,
                ;
            }
            assert(grid.side() == self.side_length);
            if grid.has_clash() {
                let (h, n) = choose|h: House, n: int|
                    0 <= n < grid.side() && has_repeat(#[trigger] grid.house_values(h, n));
                match h {
                    House::Row => {
                        assert(!has_repeat(grid.house_values(House::Row, n)));
                    },
                    House::Column => {
                        assert(!has_repeat(grid.house_values(House::Column, n)));
                    },
                    House::Block => {
                        assert(!has_repeat(grid.house_values(House::Block, n)));
                    },
                }
            }
        }

        // If the above tests passed and there are no
        // squares remaining, then the board is solved.
        if self.num_remaining() == 0 {
            return BoardStatus::Solved;
        }
        // If a HintMap has no hints for any square, that means that the board is invalid.

        let hmap = HintMap::from_board(self);
        let mut index: usize = 0;
        while index < self.num_squares
            invariant
                self.wf(),
                grid == self@,
                hmap@ == grid.hints(),
                !grid.has_clash(),
                grid.remaining() != 0,
                index <= self.num_squares,
                forall|i: int|
                    0 <= i < index && grid.cells[i].is_none() ==> (#[trigger] grid.candidates(
                        i,
                    )).len() != 0,
            decreases self.num_squares - index,
        {
            if self.squares[index].is_none() {
                let hints = hmap.get_hints(index);
                if hints.len() == 0 {
                    assert(grid.candidates(index as int).len() == 0);
                    return BoardStatus::Invalid;
                }
            }
            index += 1;
        }

        // If all above passes without returning, the board is Valid
        BoardStatus::Valid
    }
}

/// What a cell holds after one sweep: an empty cell for which `hints` force
/// a value takes it, every other cell stays.
pub open spec fn filled_in(cell: Option<i32>, hints: Hints, i: int) -> Option<i32> {
    if cell.is_none() && hints.answer(i).is_some() {
        hints.answer(i)
    } else {
        cell
    }
}

/// Puts into `cell`, if it is empty, the value that `hmap` forces on the cell
/// at `index`; a filled cell and a cell on which nothing is forced stay.
pub fn fill_square(cell: &mut Option<SquareType>, hmap: &HintMap, index: usize)
    requires
        hmap.wf(),
    ensures
        *final(cell) == filled_in(*old(cell), hmap@, index as int),
{
    if cell.is_some() {
        return;
    }
    if let Some(new_val) = hmap.find_square_answer(index) {
        *cell = Some(new_val);
    }
}

impl Grid {
    /// The value that the grid's own hints force on cell `i`.
    pub open spec fn deduce(self, i: int) -> Option<i32> {
        self.hints().answer(i)
    }

    /// One sweep: every empty cell on which the hints of this grid force a
    /// value takes that value, all from the same hints.
    pub open spec fn sweep(self) -> Grid {
        Grid {
            base: self.base,
            cells: Seq::new(self.cells.len(), |i: int| filled_in(self.cells[i], self.hints(), i)),
        }
    }

    /// Sweeps repeated until the grid is finished or a sweep fills nothing.
    pub open spec fn sweep_to_end(self) -> Grid
        decreases self.remaining(),
    {
        let next = self.sweep();
        if !next.status().finished() && next.remaining() < self.remaining() {
            next.sweep_to_end()
        } else {
            next
        }
    }

    /// What sweeping makes of the grid: a finished grid stays as it is, any
    /// other is swept to the end.
    pub open spec fn solve_standard(self) -> Grid {
        if self.status().finished() {
            self
        } else {
            self.sweep_to_end()
        }
    }
}

/// A filtered list holds exactly the members of the list that pass the test.
pub proof fn lemma_filter_members<A>(s: Seq<A>, test: spec_fn(A) -> bool, x: A)
    ensures
        s.filter(test).contains(x) <==> s.contains(x) && test(x),
{
    if s.filter(test).contains(x) {
        s.lemma_filter_contains_rev(test, x);
        let k = choose|k: int| 0 <= k < s.filter(test).len() && s.filter(test)[k] == x;
        s.lemma_filter_pred(test, k);
    }
    if s.contains(x) && test(x) {
        let k = choose|k: int| 0 <= k < s.len() && s[k] == x;
        s.lemma_filter_contains(test, k);
    }
}

/// The values of the range are those from 1 to `side`.
pub proof fn lemma_value_range(side: int, v: i32)
    requires
        0 <= side <= i32::MAX,
    ensures
        value_range(side).contains(v) <==> 1 <= v <= side,
{
    if 1 <= v <= side {
        assert(value_range(side)[v - 1] == v);
    }
}

impl Grid {
    /// The test that decides whether a value is a candidate of cell `i`.
    pub open spec fn open_at(self, i: int) -> spec_fn(i32) -> bool {
        free_of(
            self.house_values(House::Row, crate::geometry::house_of(self.base, House::Row, i)),
            self.house_values(
                House::Column,
                crate::geometry::house_of(self.base, House::Column, i),
            ),
            self.house_values(House::Block, crate::geometry::house_of(self.base, House::Block, i)),
        )
    }

    /// The candidates of a cell are the values of the range that its row,
    /// column and block do not hold.
    pub proof fn lemma_candidates(self, i: int, v: i32)
        requires
            self.wf(),
        ensures
            self.candidates(i).contains(v) <==> 1 <= v <= self.side() && (self.open_at(i))(v),
    {
        assert(0 <= self.side()) by (nonlinear_arith)
            requires
                self.side() == self.base * self.base,
        ;
        lemma_filter_members(value_range(self.side()), self.open_at(i), v);
        lemma_value_range(self.side(), v);
    }

    /// A value that the hints force on a cell is a candidate of that cell,
    /// which is empty.
    pub proof fn lemma_deduced_is_candidate(self, i: int)
        requires
            self.wf(),
            self.deduce(i).is_some(),
        ensures
            0 <= i < self.cells.len(),
            self.cells[i].is_none(),
            self.candidates(i).contains(self.deduce(i).unwrap()),
            1 <= self.deduce(i).unwrap() <= self.side(),
    {
        let hints = self.hints();
        let own = hints.at(i);
        let v = self.deduce(i).unwrap();
        assert(own.len() > 0);
        assert(hints.lists.contains_key(i));
        if own.len() == 1 {
            assert(own[0] == v);
        } else {
            let h = if hints.hidden_single(House::Row, i).is_some() {
                House::Row
            } else if hints.hidden_single(House::Column, i).is_some() {
                House::Column
            } else {
                House::Block
            };
            let rest = hints.unshared(h, i);
            assert(rest[0] == v);
            assert(rest.contains(v));
            own.lemma_filter_contains_rev(
                hints.only_here(
                    crate::geometry::house_cells(
                        hints.base,
                        h,
                        crate::geometry::house_of(hints.base, h, i),
                    ),
                    i,
                ),
                v,
            );
        }
        self.lemma_candidates(i, v);
    }

    /// A sweep keeps the grid well formed, keeps every filled cell, and
    /// leaves no more cells empty than before.
    pub proof fn lemma_sweep(self)
        requires
            self.wf(),
        ensures
            self.sweep().wf(),
            self.extended_by(self.sweep()),
            self.sweep().remaining() <= self.remaining(),
    {
        let next = self.sweep();
        assert forall|i: int| 0 <= i < next.cells.len() implies next.value_ok(
            #[trigger] next.cells[i],
        ) by {
            if self.cells[i].is_none() && self.deduce(i).is_some() {
                self.lemma_deduced_is_candidate(i);
            } else {
                assert(self.value_ok(self.cells[i]));
            }
        }
        lemma_count_empty_monotone(self.cells, next.cells);
    }
}

impl Board {
    /// Solve the board with known techniques: sweep over the empty cells,
    /// filling each one on which the hints force a value, until the board is
    /// solved or invalid or a sweep fills nothing.
    pub fn solve_standard(&mut self) -> (status: BoardStatus)
        requires
            old(self).wf(),
        ensures
            final(self).wf(),
            final(self)@ == old(self)@.solve_standard(),
            status == final(self)@.status(),
    {
        //Check the status of the board first - saves us from trying to solve an already finished board
        let board_status = self.check_status();
        if board_status.is_finished() {
            return board_status;
        }
        loop
            invariant
                self.wf(),
                old(self)@.solve_standard() == self@.sweep_to_end(),
            decreases self@.remaining(),
        {
            let remaining_before = self.num_remaining();
            let hmap = HintMap::from_board(self);
            let ghost start = self@;
            proof {
                start.lemma_sweep();
            }

            let mut index: usize = 0;
            while index < self.squares.len()
                invariant
                    start.wf(),
                    self.wf(),
                    hmap.wf(),
                    hmap@ == start.hints(),
                    self@.base == start.base,
                    self@.cells.len() == start.cells.len(),
                    index <= self.squares@.len(),
                    forall|i: int|
                        0 <= i < index ==> #[trigger] self@.cells[i] == start.sweep().cells[i],
                    forall|i: int|
                        index <= i < start.cells.len() ==> #[trigger] self@.cells[i]
                            == start.cells[i],
                decreases self.squares@.len() - index,
            {
                if self.squares[index].is_none() {
                    if let Some(new_val) = hmap.find_square_answer(index) {
                        proof {
                            start.lemma_deduced_is_candidate(index as int);
                        }
                        self.squares.set(index, Some(new_val));
                    }
                }
                index += 1;
            }
            assert(self@.cells =~= start.sweep().cells);

            let has_changed = self.num_remaining() != remaining_before;
            let board_status = self.check_status();
            if board_status.is_finished() || !has_changed {
                return board_status;
            }
        }
    }
}


impl Board {
    /// Indicates whether the board, in its current state, can be solved by
    /// sweeping alone. The board itself is left as it is.
    pub fn is_solvable(&self) -> (yes: bool)
        requires
            self.wf(),
        ensures
            yes == self@.solve_standard().status().solved(),
    {
        let mut copy = self.clone();
        copy.solve_parallel().is_solved()
    }

    /// The parallel solving algorithm: `solve_standard` with the cells of
    /// each sweep shared out among as many worker threads as the block size.
    /// Every worker reads the same hints and writes its own cell only, so the
    /// outcome is that of `solve_standard`.
    pub fn solve_parallel(&mut self) -> (status: BoardStatus)
        requires
            old(self).wf(),
        ensures
            final(self).wf(),
            final(self)@ == old(self)@.solve_standard(),
            status == final(self)@.status(),
    {
        // Check the Board Status - if invalid or solved, don't bother performing this algorithm
        let board_status = self.check_status();
        if board_status.is_finished() {
            return board_status;
        }
        proof {
            crate::grid::lemma_count_empty_bound(self@.cells);
            self.lemma_base_positive();
            assert(self.base_num <= self.base_num * self.base_num) by (nonlinear_arith)
                requires
                    self.base_num >= 1,
            ;
        }

        // Create a thread pool with the board's base_num as the number of workers
        let mut pool = scoped_threadpool::Pool::new(self.base_num as u32);

        loop
            invariant
                self.wf(),
                old(self)@.solve_standard() == self@.sweep_to_end(),
            decreases self@.remaining(),
        {
            let num_before = self.num_filled();
            let hmap = HintMap::from_board(self);
            let ghost start = self@;
            proof {
                start.lemma_sweep();
            }
            sweep_on_pool(&mut pool, &mut self.squares, &hmap);
            assert(self@.cells =~= start.sweep().cells);

            let has_changed = num_before < self.num_filled();
            let status = self.check_status();
            if !(status == BoardStatus::Valid && has_changed) {
                return status;
            }
        }
    }
}


impl Hints {
    /// The hidden single of cell `i`, looked for in its column, then in its
    /// row, then in its block.
    pub open spec fn ordered_answer(self, i: int) -> Option<i32> {
        if self.hidden_single(House::Column, i).is_some() {
            self.hidden_single(House::Column, i)
        } else if self.hidden_single(House::Row, i).is_some() {
            self.hidden_single(House::Row, i)
        } else {
            self.hidden_single(House::Block, i)
        }
    }

    /// Cell `i` is the first, in the order of `before`, among the cells with
    /// a candidate that have a hidden single.
    pub open spec fn leads(self, i: int) -> bool {
        &&& self.at(i).len() > 0
        &&& self.ordered_answer(i).is_some()
        &&& forall|j: int|
            self.at(j).len() > 0 && self.before(j, i) ==> (#[trigger] self.ordered_answer(
                j,
            )).is_none()
    }

    /// At most one cell leads.
    pub proof fn lemma_leader_unique(self, i: int, j: int)
        requires
            self.leads(i),
            self.leads(j),
        ensures
            i == j,
    {
        if i != j {
            if self.before(i, j) {
                assert(self.ordered_answer(i).is_none());
            } else {
                assert(self.before(j, i));
                assert(self.ordered_answer(j).is_none());
            }
        }
    }
}

/// Cell `i` has an entry among the first `p` entries of `list`.
pub open spec fn entry_before(list: Seq<(Pos, Vec<SquareType>)>, p: int, i: int) -> bool {
    exists|q: int| 0 <= q < p && q < list.len() && (#[trigger] list[q]).0 == i
}

impl Grid {
    /// Some cell has exactly one candidate.
    pub open spec fn has_single(self) -> bool {
        exists|i: int| (#[trigger] self.hints().at(i)).len() == 1
    }

    /// Some cell has more than one candidate.
    pub open spec fn has_choice(self) -> bool {
        exists|i: int| (#[trigger] self.hints().at(i)).len() > 1
    }

    /// The grid with every cell that has exactly one candidate filled with it.
    pub open spec fn fill_singles(self) -> Grid {
        Grid {
            base: self.base,
            cells: Seq::new(
                self.cells.len(),
                |i: int|
                    if self.hints().at(i).len() == 1 {
                        Some(self.hints().at(i)[0])
                    } else {
                        self.cells[i]
                    },
            ),
        }
    }

    /// One scan of the ordered solver, and whether another scan is due.
    /// Where cells have a single candidate, all of them are filled, and
    /// another scan is due if a cell with a choice is left. Otherwise the
    /// first cell with a hidden single, fewest candidates first, is filled
    /// and another scan is due; where there is none, nothing changes.
    pub open spec fn ordered_step(self) -> (Grid, bool) {
        let hints = self.hints();
        if self.has_single() {
            (self.fill_singles(), self.has_choice())
        } else if exists|i: int| hints.leads(i) {
            let i = choose|i: int| hints.leads(i);
            (self.set(i, hints.ordered_answer(i)), true)
        } else {
            (self, false)
        }
    }

    /// Scans repeated until none is due.
    pub open spec fn ordered_to_end(self) -> Grid
        decreases self.remaining(),
    {
        let (next, again) = self.ordered_step();
        if again && next.remaining() < self.remaining() {
            next.ordered_to_end()
        } else {
            next
        }
    }

    /// What the ordered solver makes of the grid: a finished grid stays as it
    /// is, any other is scanned to the end.
    pub open spec fn solve_ordered(self) -> Grid {
        if self.status().finished() {
            self
        } else {
            self.ordered_to_end()
        }
    }

    /// A cell with a candidate is an empty cell of the grid, and its
    /// candidates are values of the grid's range.
    pub proof fn lemma_hinted_cell(self, i: int)
        requires
            self.wf(),
            self.hints().at(i).len() > 0,
        ensures
            0 <= i < self.cells.len(),
            self.cells[i].is_none(),
            self.hints().at(i) == self.candidates(i),
            forall|k: int|
                0 <= k < self.candidates(i).len() ==> 1 <= #[trigger] self.candidates(i)[k]
                    <= self.side(),
    {
        assert(self.hints().lists.contains_key(i));
        assert forall|k: int| 0 <= k < self.candidates(i).len() implies 1
            <= #[trigger] self.candidates(i)[k] <= self.side() by {
            assert(self.candidates(i).contains(self.candidates(i)[k]));
            self.lemma_candidates(i, self.candidates(i)[k]);
        }
    }

    /// A hidden single of a cell is one of its candidates.
    pub proof fn lemma_hidden_single_is_candidate(self, h: House, i: int)
        requires
            self.wf(),
            self.hints().hidden_single(h, i).is_some(),
        ensures
            0 <= i < self.cells.len(),
            self.cells[i].is_none(),
            1 <= self.hints().hidden_single(h, i).unwrap() <= self.side(),
    {
        let hints = self.hints();
        let own = hints.at(i);
        let rest = hints.unshared(h, i);
        let v = rest[0];
        assert(rest.contains(v));
        own.lemma_filter_contains_rev(
            hints.only_here(
                crate::geometry::house_cells(
                    hints.base,
                    h,
                    crate::geometry::house_of(hints.base, h, i),
                ),
                i,
            ),
            v,
        );
        self.lemma_hinted_cell(i);
        self.lemma_candidates(i, v);
    }

    /// Filling an empty cell leaves one empty cell fewer.
    pub proof fn lemma_set_fills(self, i: int, v: i32)
        requires
            0 <= i < self.cells.len(),
            self.cells[i].is_none(),
        ensures
            self.set(i, Some(v)).remaining() + 1 == self.remaining(),
    {
        crate::grid::lemma_count_empty_update(self.cells, i, Some(v));
    }
}

/// `cells` are the empty cells of house `n` of kind `h` of `grid`: empty
/// cells of that house all, and every empty cell of the house among them.
pub open spec fn neighbours_of(cells: Seq<Pos>, grid: Grid, h: House, n: int) -> bool {
    &&& forall|k: int|
        0 <= k < cells.len() ==> house_cells(grid.base, h, n).contains((#[trigger] cells[k]) as int)
    &&& forall|k: int|
        0 <= k < grid.side() && grid.cells[#[trigger] house_cell(grid.base, h, n, k)].is_none()
            ==> as_ints(cells).contains(house_cell(grid.base, h, n, k))
}

/// Every list that `cache` holds for a house of kind `h` is the list of
/// the empty cells of that house of `grid`.
pub open spec fn cache_of(cache: Map<usize, Vec<Pos>>, grid: Grid, h: House) -> bool {
    forall|n: usize| #[trigger]
        cache.contains_key(n) ==> n < grid.side() && neighbours_of(cache[n]@, grid, h, n as int)
}

impl Hints {
    /// Among the cells of a house, those without a candidate make no
    /// difference to what is left over for a cell.
    pub proof fn lemma_left_over_of_listed(self, some: Seq<int>, all: Seq<int>, own: int)
        requires
            forall|k: int| 0 <= k < some.len() ==> all.contains(#[trigger] some[k]),
            forall|k: int|
                0 <= k < all.len() && self.at(#[trigger] all[k]).len() > 0 ==> some.contains(all[k]),
        ensures
            self.left_over(some, own) == self.left_over(all, own),
    {
        assert forall|v: i32| self.listed_among(some, own, v) == self.listed_among(
            all,
            own,
            v,
        ) by {
            if self.listed_among(some, own, v) {
                let k = choose|k: int|
                    0 <= k < some.len() && #[trigger] some[k] != own && self.at(some[k]).contains(
                        v,
                    );
                let m = choose|m: int| 0 <= m < all.len() && all[m] == some[k];
                assert(all[m] != own && self.at(all[m]).contains(v));
            }
            if self.listed_among(all, own, v) {
                let k = choose|k: int|
                    0 <= k < all.len() && #[trigger] all[k] != own && self.at(all[k]).contains(v);
                let m = choose|m: int| 0 <= m < some.len() && some[m] == all[k];
                assert(some[m] != own && self.at(some[m]).contains(v));
            }
        }
        assert(self.only_here(some, own) =~= self.only_here(all, own));
    }
}

impl Board {
    /// The empty cells of house `n` of kind `h`, in the order of the house.
    pub fn empty_cells(&self, h: House, n: usize) -> (cells: Vec<Pos>)
        requires
            self.wf(),
            n < self.side_length,
        ensures
            neighbours_of(cells@, self@, h, n as int),
    {
        let all = self.house_indices(h, n);
        let ghost base = self.base_num as int;
        let ghost house = house_cells(base, h, n as int);
        proof {
            self.lemma_base_positive();
        }
        let mut cells: Vec<Pos> = Vec::new();
        let mut k: usize = 0;
        while k < all.len()
            invariant
                self.wf(),
                base == self.base_num,
                self@.side() == self.side_length,
                house == house_cells(base, h, n as int),
                all@.len() == self.side_length,
                forall|j: int|
                    0 <= j < self.side_length ==> #[trigger] all@[j] == house_cell(base, h, n as int, j),
                forall|j: int| 0 <= j < self.side_length ==> #[trigger] all@[j] < self.num_squares,
                k <= all@.len(),
                forall|j: int| 0 <= j < cells@.len() ==> house.contains((#[trigger] cells@[j]) as int),
                forall|j: int|
                    0 <= j < k && self@.cells[#[trigger] house_cell(base, h, n as int, j)].is_none()
                        ==> as_ints(cells@).contains(house_cell(base, h, n as int, j)),
            decreases all@.len() - k,
        {
            let cell = all[k];
            if self.squares[cell].is_none() {
                let ghost earlier = cells@;
                cells.push(cell);
                proof {
                    let last = earlier.len() as int;
                    assert(house[k as int] == cell);
                    assert(as_ints(cells@)[last] == cell);
                    assert forall|j: int| 0 <= j < cells@.len() implies house.contains(
                        (#[trigger] cells@[j]) as int,
                    ) by {
                        if j < last {
                            assert(cells@[j] == earlier[j]);
                        }
                    }
                    assert forall|j: int|
                        0 <= j < k + 1 && self@.cells[#[trigger] house_cell(
                            base,
                            h,
                            n as int,
                            j,
                        )].is_none() implies as_ints(cells@).contains(
                        house_cell(base, h, n as int, j),
                    ) by {
                        if j < k {
                            let x = house_cell(base, h, n as int, j);
                            assert(as_ints(earlier).contains(x));
                            let m = choose|m: int|
                                0 <= m < as_ints(earlier).len() && as_ints(earlier)[m] == x;
                            assert(as_ints(cells@)[m] == x);
                        }
                    }
                }
            }
            k += 1;
        }
        cells
    }

    /// The hidden single of the empty cell `ind` in its house of kind `h`,
    /// looked for among the empty cells of that house. Their list is taken
    /// from `cache`, where it is put when the house comes up first.
    pub fn hidden_single_cached(
        &self,
        hmap: &HintMap,
        cache: &mut HashMap<usize, Vec<Pos>>,
        h: House,
        ind: Pos,
    ) -> (single: Option<SquareType>)
        requires
            self.wf(),
            hmap@ == self@.hints(),
            ind < self.num_squares,
            cache_of(old(cache)@, self@, h),
        ensures
            cache_of(final(cache)@, self@, h),
            single == hmap@.hidden_single(h, ind as int),
    {
        let ghost base = self.base_num as int;
        proof {
            self.lemma_base_positive();
            lemma_house_of(base, h, ind as int);
        }
        let house_num = match h {
            House::Row => self.get_row_num(ind),
            House::Column => self.get_col_num(ind),
            House::Block => self.get_grid_num(ind),
        };
        assert(house_num == house_of(base, h, ind as int));
        // If the indices are not in the cache already, add them to the cache
        if !cache.contains_key(&house_num) {
            cache.insert(house_num, self.empty_cells(h, house_num));
        }
        let rest = match cache.get(&house_num) {
            Some(neighbours) => {
                proof {
                    let some = as_ints(neighbours@);
                    let all = house_cells(base, h, house_num as int);
                    assert forall|k: int| 0 <= k < some.len() implies all.contains(
                        #[trigger] some[k],
                    ) by {
                        assert(all.contains(neighbours@[k] as int));
                    }
                    assert forall|k: int|
                        0 <= k < all.len() && hmap@.at(#[trigger] all[k]).len()
                            > 0 implies some.contains(all[k]) by {
                        assert(hmap@.lists.contains_key(all[k]));
                        assert(all[k] == house_cell(base, h, house_num as int, k));
                    }
                    hmap@.lemma_left_over_of_listed(some, all, ind as int);
                }
                hmap.left_over(neighbours, ind)
            },
            None => Vec::new(),
        };
        if rest.len() == 1 {
            Some(rest[0])
        } else {
            None
        }
    }
}

impl Board {
    /// One scan of the ordered solver over the cells that have a candidate,
    /// fewest candidates first. Tells whether another scan is due.
    pub fn ordered_scan(&mut self) -> (again: bool)
        requires
            old(self).wf(),
        ensures
            final(self).wf(),
            (final(self)@, again) == old(self)@.ordered_step(),
            again ==> final(self)@.remaining() < old(self)@.remaining(),
    {
        let hmap = HintMap::from_board(self);
        let ordered = hmap.get_ordered();
        let ghost start = self@;
        let ghost hints = hmap@;
        let mut start_again = false;

        //Store the computed values in order to save time
        let mut rows: HashMap<usize, Vec<Pos>> = HashMap::new();
        let mut cols: HashMap<usize, Vec<Pos>> = HashMap::new();
        let mut grids: HashMap<usize, Vec<Pos>> = HashMap::new();

        let mut p: usize = 0;
        while p < ordered.len()
            invariant
                start == old(self)@,
                cache_of(rows@, start, House::Row),
                cache_of(cols@, start, House::Column),
                cache_of(grids@, start, House::Block),
                start.wf(),
                self.wf(),
                hmap.wf(),
                hints == hmap@,
                hints == start.hints(),
                self@.base == start.base,
                self@.cells.len() == start.cells.len(),
                p <= ordered@.len(),
                forall|q: int|
                    0 <= q < ordered@.len() ==> hints.lists.contains_key(
                        (#[trigger] ordered@[q]).0 as int,
                    ) && ordered@[q].1@ == hints.at(ordered@[q].0 as int) && ordered@[q].1@.len()
                        > 0,
                forall|i: int| hints.at(i).len() > 0 ==> has_entry(ordered@, i),
                forall|q: int, r: int|
                    0 <= q < r < ordered@.len() ==> hints.before(
                        (#[trigger] ordered@[q]).0 as int,
                        (#[trigger] ordered@[r]).0 as int,
                    ),
                start_again <==> p > 0 && ordered@[0].1@.len() == 1,
                start_again ==> forall|q: int| 0 <= q < p ==> (#[trigger] ordered@[q]).1@.len() == 1,
                !start_again ==> forall|q: int|
                    0 <= q < p ==> hints.ordered_answer((#[trigger] ordered@[q]).0 as int).is_none(),
                forall|i: int|
                    0 <= i < start.cells.len() ==> #[trigger] self@.cells[i] == if hints.at(
                        i,
                    ).len() == 1 && entry_before(ordered@, p as int, i) {
                        Some(hints.at(i)[0])
                    } else {
                        start.cells[i]
                    },
            decreases ordered@.len() - p,
        {
            let ind = ordered[p].0;
            let ghost before_cells = self@.cells;
            proof {
                assert(hints.lists.contains_key(ordered@[p as int].0 as int));
                start.lemma_hinted_cell(ind as int);
                if p > 0 {
                    assert(hints.before(ordered@[0].0 as int, ordered@[p as int].0 as int));
                }
            }
            if ordered[p].1.len() == 1 {
                let value = ordered[p].1[0];
                self.squares.set(ind, Some(value));
                start_again = true;
                proof {
                    assert forall|i: int| 0 <= i < start.cells.len() implies #[trigger] self@.cells[i]
                        == if hints.at(i).len() == 1 && entry_before(ordered@, p + 1, i) {
                        Some(hints.at(i)[0])
                    } else {
                        start.cells[i]
                    } by {
                        if i == ind {
                            assert(ordered@[p as int].0 == i);
                        } else {
                            if entry_before(ordered@, p + 1, i) {
                                let q = choose|q: int|
                                    0 <= q < p + 1 && q < ordered@.len() && (
                                    #[trigger] ordered@[q]).0 == i;
                                assert(q < p);
                            }
                            assert(self@.cells[i] == before_cells[i]);
                        }
                    }
                }
            } else if start_again {
                proof {
                    self.lemma_singles_filled(start, ordered@, p as int);
                    assert(hints.at(ind as int).len() > 1);
                }
                return true;
            } else {
                proof {
                    assert(self@.cells =~= start.cells);
                    start.lemma_no_single(ordered@);
                }
                let mut found = self.hidden_single_cached(&hmap, &mut cols, House::Column, ind);
                if found.is_none() {
                    found = self.hidden_single_cached(&hmap, &mut rows, House::Row, ind);
                }
                if found.is_none() {
                    found = self.hidden_single_cached(&hmap, &mut grids, House::Block, ind);
                }
                assert(found == hints.ordered_answer(ind as int));
                if found.is_some() {
                    proof {
                        if hints.hidden_single(House::Column, ind as int).is_some() {
                            start.lemma_hidden_single_is_candidate(House::Column, ind as int);
                        } else if hints.hidden_single(House::Row, ind as int).is_some() {
                            start.lemma_hidden_single_is_candidate(House::Row, ind as int);
                        } else {
                            start.lemma_hidden_single_is_candidate(House::Block, ind as int);
                        }
                        start.lemma_leader_found(ordered@, p as int);
                        start.lemma_set_fills(ind as int, found.unwrap());
                    }
                    self.squares.set(ind, found);
                    return true;
                }
            }
            p += 1;
        }
        proof {
            if start_again {
                self.lemma_singles_filled(start, ordered@, p as int);
                if start.has_choice() {
                    let i = choose|i: int| (#[trigger] start.hints().at(i)).len() > 1;
                    assert(has_entry(ordered@, i));
                }
            } else {
                assert(self@.cells =~= start.cells);
                start.lemma_no_single(ordered@);
                assert forall|i: int| !hints.leads(i) by {
                    if hints.at(i).len() > 0 {
                        assert(has_entry(ordered@, i));
                    }
                }
            }
        }
        false
    }

    /// Once the scan has passed every cell with a single candidate, the
    /// board is the starting grid with those cells filled, and has fewer
    /// empty cells.
    proof fn lemma_singles_filled(
        &self,
        start: Grid,
        ordered: Seq<(Pos, Vec<SquareType>)>,
        p: int,
    )
        requires
            start.wf(),
            self@.base == start.base,
            self@.cells.len() == start.cells.len(),
            0 < p <= ordered.len(),
            forall|q: int|
                0 <= q < ordered.len() ==> start.hints().lists.contains_key(
                    (#[trigger] ordered[q]).0 as int,
                ) && ordered[q].1@ == start.hints().at(ordered[q].0 as int) && ordered[q].1@.len()
                    > 0,
            forall|i: int| start.hints().at(i).len() > 0 ==> has_entry(ordered, i),
            forall|q: int, r: int|
                0 <= q < r < ordered.len() ==> start.hints().before(
                    (#[trigger] ordered[q]).0 as int,
                    (#[trigger] ordered[r]).0 as int,
                ),
            forall|q: int| 0 <= q < p ==> (#[trigger] ordered[q]).1@.len() == 1,
            p < ordered.len() ==> ordered[p].1@.len() != 1,
            forall|i: int|
                0 <= i < start.cells.len() ==> #[trigger] self@.cells[i] == if start.hints().at(
                    i,
                ).len() == 1 && entry_before(ordered, p, i) {
                    Some(start.hints().at(i)[0])
                } else {
                    start.cells[i]
                },
        ensures
            self@ == start.fill_singles(),
            start.has_single(),
            self@.remaining() < start.remaining(),
            p == ordered.len() ==> !start.has_choice(),
    {
        let hints = start.hints();
        assert forall|i: int| 0 <= i < start.cells.len() implies self@.cells[i]
            == start.fill_singles().cells[i] by {
            if hints.at(i).len() == 1 {
                assert(has_entry(ordered, i));
                let q = choose|q: int| 0 <= q < ordered.len() && (#[trigger] ordered[q]).0 == i;
                if q >= p {
                    if q > p {
                        assert(hints.before(ordered[p].0 as int, ordered[q].0 as int));
                    }
                    assert(false);
                }
                assert(entry_before(ordered, p, i));
            }
        }
        assert(self@.cells =~= start.fill_singles().cells);
        let first = ordered[0].0 as int;
        assert(hints.at(first).len() == 1);
        start.lemma_hinted_cell(first);
        assert(entry_before(ordered, p, first));
        assert(self@.cells[first].is_some());
        assert forall|i: int| 0 <= i < start.cells.len() && start.cells[i].is_some() implies self@.cells[i].is_some() by {}
        lemma_count_empty_monotone(start.cells, self@.cells);
        if p == ordered.len() && start.has_choice() {
            let i = choose|i: int| (#[trigger] start.hints().at(i)).len() > 1;
            assert(has_entry(ordered, i));
        }
    }
}

impl Grid {
    /// Where the list of cells in order starts with a cell of several
    /// candidates, or is empty, no cell has a single candidate.
    pub proof fn lemma_no_single(self, ordered: Seq<(Pos, Vec<SquareType>)>)
        requires
            forall|q: int|
                0 <= q < ordered.len() ==> self.hints().lists.contains_key(
                    (#[trigger] ordered[q]).0 as int,
                ) && ordered[q].1@ == self.hints().at(ordered[q].0 as int) && ordered[q].1@.len()
                    > 0,
            forall|i: int| self.hints().at(i).len() > 0 ==> has_entry(ordered, i),
            forall|q: int, r: int|
                0 <= q < r < ordered.len() ==> self.hints().before(
                    (#[trigger] ordered[q]).0 as int,
                    (#[trigger] ordered[r]).0 as int,
                ),
            ordered.len() > 0 ==> ordered[0].1@.len() != 1,
        ensures
            !self.has_single(),
    {
        if self.has_single() {
            let i = choose|i: int| (#[trigger] self.hints().at(i)).len() == 1;
            assert(has_entry(ordered, i));
            let q = choose|q: int| 0 <= q < ordered.len() && (#[trigger] ordered[q]).0 == i;
            if q > 0 {
                assert(self.hints().before(ordered[0].0 as int, ordered[q].0 as int));
            }
        }
    }

    /// The cell at place `p` of the list of cells in order leads, if it has
    /// a hidden single and no cell before it has one; it is then the cell
    /// that the step fills.
    pub proof fn lemma_leader_found(self, ordered: Seq<(Pos, Vec<SquareType>)>, p: int)
        requires
            0 <= p < ordered.len(),
            forall|q: int|
                0 <= q < ordered.len() ==> self.hints().lists.contains_key(
                    (#[trigger] ordered[q]).0 as int,
                ) && ordered[q].1@ == self.hints().at(ordered[q].0 as int) && ordered[q].1@.len()
                    > 0,
            forall|i: int| self.hints().at(i).len() > 0 ==> has_entry(ordered, i),
            forall|q: int, r: int|
                0 <= q < r < ordered.len() ==> self.hints().before(
                    (#[trigger] ordered[q]).0 as int,
                    (#[trigger] ordered[r]).0 as int,
                ),
            forall|q: int|
                0 <= q < p ==> self.hints().ordered_answer((#[trigger] ordered[q]).0 as int).is_none(),
            self.hints().ordered_answer(ordered[p].0 as int).is_some(),
        ensures
            self.hints().leads(ordered[p].0 as int),
            (choose|i: int| self.hints().leads(i)) == ordered[p].0 as int,
    {
        let hints = self.hints();
        let ind = ordered[p].0 as int;
        assert forall|j: int| hints.at(j).len() > 0 && hints.before(j, ind) implies (
        #[trigger] hints.ordered_answer(j)).is_none() by {
            assert(has_entry(ordered, j));
            let q = choose|q: int| 0 <= q < ordered.len() && (#[trigger] ordered[q]).0 == j;
            if q > p {
                assert(hints.before(ordered[p].0 as int, ordered[q].0 as int));
            }
            assert(q < p);
        }
        assert(hints.leads(ind));
        let chosen = choose|i: int| hints.leads(i);
        hints.lemma_leader_unique(chosen, ind);
    }
}

impl Board {
    /// An alternative to `solve_standard()`. Applies similar solving techniques, but repetetively focuses on
    /// squares with the minimum number of hints first, in order to avoid more expensive computations.
    pub fn solve_ordered(&mut self) -> (status: BoardStatus)
        requires
            old(self).wf(),
        ensures
            final(self).wf(),
            final(self)@ == old(self)@.solve_ordered(),
            status == final(self)@.status(),
    {
        let board_status = self.check_status();
        if board_status.is_finished() {
            return board_status;
        }
        loop
            invariant
                self.wf(),
                old(self)@.solve_ordered() == self@.ordered_to_end(),
            decreases self@.remaining(),
        {
            let again = self.ordered_scan();
            if !again {
                return self.check_status();
            }
        }
    }
}

} // verus!
