//! Candidate values: for every empty cell of a board, the values that its
//! row, column and block still leave open, and the deductions that follow
//! from them.

use vstd::prelude::*;
use std::collections::HashMap;
use crate::board::{Board, Pos, Position, SquareType};
use crate::board::{get_col_indices, get_grid_indices, get_row_indices};
use crate::geometry::{
    House,
    as_ints,
    floor_sqrt,
    house_cells,
    house_of,
    lemma_floor_sqrt_of_square,
    lemma_house_of,
};
use crate::grid::Grid;

verus! {

broadcast use vstd::std_specs::hash::group_hash_axioms;

/// What a hint map is, mathematically: the block size of the grid it speaks
/// of and, for each cell it has an entry for, the list of that cell's
/// candidates.
pub struct Hints {
    /// Side of one block of the grid.
    pub base: int,
    /// The candidates of each cell that has an entry.
    pub lists: Map<int, Seq<i32>>,
}

/// The values 1 to `side`, ascending.
pub open spec fn value_range(side: int) -> Seq<i32> {
    Seq::new(side as nat, |k: int| (k + 1) as i32)
}

/// The test that a value occurs in none of the three lists of cells.
pub open spec fn free_of(
    row: Seq<Option<i32>>,
    col: Seq<Option<i32>>,
    block: Seq<Option<i32>>,
) -> spec_fn(i32) -> bool {
    |v: i32| !row.contains(Some(v)) && !col.contains(Some(v)) && !block.contains(Some(v))
}

impl Grid {
    /// The values that cell `i` may still take: the full range without every
    /// value present in the cell's row, column or block, ascending.
    pub open spec fn candidates(self, i: int) -> Seq<i32> {
        value_range(self.side()).filter(
            free_of(
                self.house_values(House::Row, house_of(self.base, House::Row, i)),
                self.house_values(House::Column, house_of(self.base, House::Column, i)),
                self.house_values(House::Block, house_of(self.base, House::Block, i)),
            ),
        )
    }

    /// The hint map of this grid: the candidates of each empty cell.
    pub open spec fn hints(self) -> Hints {
        Hints {
            base: self.base,
            lists: Map::new(
                |i: int| 0 <= i < self.cells.len() && self.cells[i].is_none(),
                |i: int| self.candidates(i),
            ),
        }
    }
}

impl Hints {
    /// Number of rows of the grid.
    pub open spec fn side(self) -> int {
        self.base * self.base
    }

    /// The candidates listed for cell `i`; none where the cell has no entry.
    pub open spec fn at(self, i: int) -> Seq<i32> {
        if self.lists.contains_key(i) {
            self.lists[i]
        } else {
            Seq::empty()
        }
    }

    /// Some cell of `others` that is not `own` lists `v`.
    pub open spec fn listed_among(self, others: Seq<int>, own: int, v: i32) -> bool {
        exists|k: int|
            0 <= k < others.len() && #[trigger] others[k] != own && self.at(others[k]).contains(v)
    }

    /// The test that no cell of `others` but `own` lists a value.
    pub open spec fn only_here(self, others: Seq<int>, own: int) -> spec_fn(i32) -> bool {
        |v: i32| !self.listed_among(others, own, v)
    }

    /// The candidates of `own` that no other cell of `others` lists.
    pub open spec fn left_over(self, others: Seq<int>, own: int) -> Seq<i32> {
        self.at(own).filter(self.only_here(others, own))
    }

    /// The candidates of cell `i` that no other cell of its house of kind `h` lists.
    pub open spec fn unshared(self, h: House, i: int) -> Seq<i32> {
        self.left_over(house_cells(self.base, h, house_of(self.base, h, i)), i)
    }

    /// The hidden single of cell `i` in its house of kind `h`: the one
    /// candidate of the cell that no other cell of the house lists, if there
    /// is exactly one.
    pub open spec fn hidden_single(self, h: House, i: int) -> Option<i32> {
        let rest = self.unshared(h, i);
        if rest.len() == 1 {
            Some(rest[0])
        } else {
            None
        }
    }

    /// The value forced on cell `i`: its only candidate, or else its hidden
    /// single in its row, or else in its column, or else in its block.
    pub open spec fn answer(self, i: int) -> Option<i32> {
        let own = self.at(i);
        if own.len() == 0 {
            None
        } else if own.len() == 1 {
            Some(own[0])
        } else if self.hidden_single(House::Row, i).is_some() {
            self.hidden_single(House::Row, i)
        } else if self.hidden_single(House::Column, i).is_some() {
            self.hidden_single(House::Column, i)
        } else {
            self.hidden_single(House::Block, i)
        }
    }

    /// Cell `i` comes before cell `j` when it lists fewer candidates, or as
    /// many and has the lower index.
    pub open spec fn before(self, i: int, j: int) -> bool {
        self.at(i).len() < self.at(j).len() || (self.at(i).len() == self.at(j).len() && i < j)
    }
}

/// Cell `i` has an entry in `list`.
pub open spec fn has_entry(list: Seq<(Pos, Vec<SquareType>)>, i: int) -> bool {
    exists|p: int| 0 <= p < list.len() && #[trigger] list[p].0 == i
}

/// The candidates of every empty cell of one board, as they were when the
/// map was built.
pub struct HintMap {
    /// For each empty cell, by its index, its candidates in ascending order.
    pub hints: HashMap<usize, Vec<SquareType>>,
    /// The side length of the board.
    pub side_length: usize,
}

impl View for HintMap {
    type V = Hints;

    open spec fn view(&self) -> Hints {
        Hints {
            base: floor_sqrt(self.side_length as int),
            lists: Map::new(
                |i: int| 0 <= i <= usize::MAX && self.hints@.contains_key(i as usize),
                |i: int| self.hints@[i as usize]@,
            ),
        }
    }
}

/// Whether `v` occurs among `values`.
pub fn holds_value(values: &Vec<Option<SquareType>>, v: SquareType) -> (found: bool)
    ensures
        found == values@.contains(Some(v)),
{
    let mut k: usize = 0;
    while k < values.len()
        invariant
            k <= values@.len(),
            forall|j: int| 0 <= j < k ==> values@[j] != Some(v),
        decreases values@.len() - k,
    {
        if values[k] == Some(v) {
            return true;
        }
        k += 1;
    }
    false
}

/// A copy of `values`.
pub fn copy_values(values: &Vec<SquareType>) -> (copy: Vec<SquareType>)
    ensures
        copy@ == values@,
{
    let mut copy: Vec<SquareType> = Vec::new();
    let mut i: usize = 0;
    while i < values.len()
        invariant
            i <= values@.len(),
            copy@ == values@.take(i as int),
        decreases values@.len() - i,
    {
        copy.push(values[i]);
        i += 1;
        assert(copy@ =~= values@.take(i as int));
    }
    assert(values@.take(values@.len() as int) =~= values@);
    copy
}

/// The values from 1 to `max_value` that occur in none of the three lists,
/// ascending.
pub fn free_values(
    max_value: SquareType,
    row: &Vec<Option<SquareType>>,
    col: &Vec<Option<SquareType>>,
    block: &Vec<Option<SquareType>>,
) -> (free: Vec<SquareType>)
    requires
        max_value >= 0,
    ensures
        free@ == value_range(max_value as int).filter(free_of(row@, col@, block@)),
{
    let ghost range = value_range(max_value as int);
    let ghost open = free_of(row@, col@, block@);
    let mut free: Vec<SquareType> = Vec::new();
    let mut done: SquareType = 0;
    proof {
        reveal(Seq::filter);
        assert(range.take(0) =~= Seq::<i32>::empty());
    }
    while done < max_value
        invariant
            0 <= done <= max_value,
            range == value_range(max_value as int),
            open == free_of(row@, col@, block@),
            free@ == range.take(done as int).filter(open),
        decreases max_value - done,
    {
        let v = done + 1;
        proof {
            reveal(Seq::filter);
            assert(range.take(done + 1).drop_last() =~= range.take(done as int));
            assert(range.take(done + 1).last() == v);
        }
        if !holds_value(row, v) && !holds_value(col, v) && !holds_value(block, v) {
            free.push(v);
        }
        done = v;
    }
    assert(range.take(max_value as int) =~= range);
    free
}

impl HintMap {
    /// The map speaks of a square grid whose side is a perfect square, and of
    /// no cell beyond it.
    pub open spec fn wf(&self) -> bool {
        &&& self@.base * self@.base == self.side_length
        &&& self.side_length * self.side_length <= usize::MAX
        &&& forall|k: usize| #[trigger]
            self.hints@.contains_key(k) ==> k < self.side_length * self.side_length
    }

    /// The hint map of `board`: for each empty cell, in ascending order, the
    /// values found in neither its row, its column nor its block.
    pub fn from_board(board: &Board) -> (hmap: HintMap)
        requires
            board.wf(),
        ensures
            hmap.wf(),
            hmap.side_length == board.side_length,
            hmap@ == board@.hints(),
    {
        let mut hints: HashMap<usize, Vec<SquareType>> = HashMap::new();

        //Store the computed values in order to save time
        let mut rows: HashMap<usize, Vec<Option<SquareType>>> = HashMap::new();
        let mut cols: HashMap<usize, Vec<Option<SquareType>>> = HashMap::new();
        let mut grids: HashMap<usize, Vec<Option<SquareType>>> = HashMap::new();

        let ghost grid = board@;
        let ghost base = board.base_num as int;
        let mut pt: usize = 0;
        while pt < board.squares.len()
            invariant
                board.wf(),
                grid == board@,
                base == board.base_num,
                pt <= board.squares@.len(),
                forall|k: usize| #[trigger]
                    rows@.contains_key(k) ==> k < board.side_length && rows@[k]@
                        == grid.house_values(House::Row, k as int),
                forall|k: usize| #[trigger]
                    cols@.contains_key(k) ==> k < board.side_length && cols@[k]@
                        == grid.house_values(House::Column, k as int),
                forall|k: usize| #[trigger]
                    grids@.contains_key(k) ==> k < board.side_length && grids@[k]@
                        == grid.house_values(House::Block, k as int),
                forall|k: usize| #[trigger]
                    hints@.contains_key(k) <==> k < pt && grid.cells[k as int].is_none(),
                forall|k: usize| #[trigger]
                    hints@.contains_key(k) ==> hints@[k]@ == grid.candidates(k as int),
            decreases board.squares@.len() - pt,
        {
            if board.squares[pt].is_none() {
                proof {
                    board.lemma_base_positive();
                    lemma_house_of(base, House::Row, pt as int);
                    lemma_house_of(base, House::Column, pt as int);
                    lemma_house_of(base, House::Block, pt as int);
                }
                let row_num = board.get_row_num(pt);
                let col_num = board.get_col_num(pt);
                let grid_num = board.get_grid_num(pt);

                if !rows.contains_key(&row_num) {
                    rows.insert(row_num, board.get_row_values(row_num));
                }
                if !cols.contains_key(&col_num) {
                    cols.insert(col_num, board.get_col_values(col_num));
                }
                if !grids.contains_key(&grid_num) {
                    grids.insert(grid_num, board.get_grid_values(grid_num));
                }
                let row_vals = rows.get(&row_num).unwrap();
                let col_vals = cols.get(&col_num).unwrap();
                let grid_vals = grids.get(&grid_num).unwrap();

                let vals = free_values(board.max_value, row_vals, col_vals, grid_vals);
                hints.insert(pt, vals);
            }
            pt += 1;
        }
        let hmap = HintMap { hints, side_length: board.side_length };
        proof {
            lemma_floor_sqrt_of_square(base);
            assert(hmap@.lists =~= grid.hints().lists);
        }
        hmap
    }

    /// The candidates listed for the cell at `pt`; none where the map has no
    /// entry for it.
    pub fn get_hints<T: Position>(&self, pt: T) -> (list: Vec<SquareType>)
        requires
            pt.spec_pos(self.side_length as int) <= usize::MAX,
        ensures
            list@ == self@.at(pt.spec_pos(self.side_length as int)),
    {
        let pt = pt.into_pos(self.side_length);  //Make sure is index, not coords
        match self.hints.get(&pt) {
            Some(hints) => copy_values(hints),
            None => Vec::new(),
        }
    }
}


/// Whether `v` occurs in `list`.
pub fn lists_value(list: &Vec<SquareType>, v: SquareType) -> (found: bool)
    ensures
        found == list@.contains(v),
{
    let mut k: usize = 0;
    while k < list.len()
        invariant
            k <= list@.len(),
            forall|j: int| 0 <= j < k ==> list@[j] != v,
        decreases list@.len() - k,
    {
        if list[k] == v {
            return true;
        }
        k += 1;
    }
    false
}

impl HintMap {
    /// Whether some cell of `others` that is not `own` lists `v`.
    pub fn listed_among(&self, others: &Vec<Pos>, own: Pos, v: SquareType) -> (found: bool)
        ensures
            found == self@.listed_among(as_ints(others@), own as int, v),
    {
        let ghost cells = as_ints(others@);
        let mut k: usize = 0;
        while k < others.len()
            invariant
                k <= others@.len(),
                cells == as_ints(others@),
                forall|j: int|
                    0 <= j < k ==> !(#[trigger] cells[j] != own && self@.at(cells[j]).contains(v)),
            decreases others@.len() - k,
        {
            let other = others[k];
            assert(cells[k as int] == other);
            if other != own {
                match self.hints.get(&other) {
                    Some(list) => {
                        if lists_value(list, v) {
                            return true;
                        }
                    },
                    None => {},
                }
            }
            k += 1;
        }
        false
    }

    /// The candidates of `own` that no other cell of `others` lists, in order.
    pub fn left_over(&self, others: &Vec<Pos>, own: Pos) -> (rest: Vec<SquareType>)
        ensures
            rest@ == self@.left_over(as_ints(others@), own as int),
    {
        let ghost test = self@.only_here(as_ints(others@), own as int);
        let mut rest: Vec<SquareType> = Vec::new();
        proof {
            reveal(Seq::filter);
        }
        match self.hints.get(&own) {
            Some(list) => {
                let mut k: usize = 0;
                assert(list@.take(0) =~= Seq::<i32>::empty());
                while k < list.len()
                    invariant
                        k <= list@.len(),
                        list@ == self@.at(own as int),
                        test == self@.only_here(as_ints(others@), own as int),
                        rest@ == list@.take(k as int).filter(test),
                    decreases list@.len() - k,
                {
                    let v = list[k];
                    proof {
                        reveal(Seq::filter);
                        assert(list@.take(k + 1).drop_last() =~= list@.take(k as int));
                        assert(list@.take(k + 1).last() == v);
                    }
                    if !self.listed_among(others, own, v) {
                        rest.push(v);
                    }
                    k += 1;
                }
                assert(list@.take(list@.len() as int) =~= list@);
            },
            None => {},
        }
        rest
    }

    /// The hidden single of the cell at `square_index` in its house of kind
    /// `h`, if it has one.
    pub fn hidden_single(&self, h: House, square_index: Pos) -> (single: Option<SquareType>)
        requires
            self.wf(),
            square_index < self.side_length * self.side_length,
        ensures
            single == self@.hidden_single(h, square_index as int),
    {
        let side_length = self.side_length;
        let ghost base = self@.base;
        proof {
            crate::geometry::lemma_floor_sqrt_exists(side_length as int);
            if base == 0 {
                assert(base * base == 0);
                assert(side_length * side_length == 0);
            }
            lemma_house_of(base, h, square_index as int);
        }
        proof {
            let n = house_of(base, h, square_index as int);
            crate::geometry::lemma_house_cell(base, House::Row, n, side_length - 1);
            crate::geometry::lemma_house_cell(base, House::Column, n, side_length - 1);
            crate::geometry::lemma_house_cell(base, House::Block, n, side_length - 1);
        }
        let others = match h {
            House::Row => get_row_indices(square_index.row_num(side_length), side_length),
            House::Column => get_col_indices(square_index.col_num(side_length), side_length),
            House::Block => {
                let base_num = crate::geometry::isqrt(side_length);
                get_grid_indices(square_index.grid_num(side_length, base_num), side_length)
            },
        };
        assert(as_ints(others@) =~= house_cells(base, h, house_of(base, h, square_index as int)));
        let rest = self.left_over(&others, square_index);
        if rest.len() == 1 {
            Some(rest[0])
        } else {
            None
        }
    }

    /// The value that the hints force on the cell at `square_index`: its
    /// only candidate, or its hidden single in its row, column or block, tried
    /// in that order. `None` where nothing is forced, where the cell has no
    /// entry and where it has no candidate left.
    pub fn find_square_answer(&self, square_index: Pos) -> (forced: Option<SquareType>)
        requires
            self.wf(),
        ensures
            forced == self@.answer(square_index as int),
    {
        let square_hints = match self.hints.get(&square_index) {
            Some(list) => list,
            None => {
                return None;
            },
        };

        // This would also indicate that the board is invalid
        if square_hints.len() == 0 {
            return None;
        }
        // There is a single hint - this is the only possible value

        if square_hints.len() == 1 {
            return Some(square_hints[0]);
        }
        // Solve Hidden Singles

        let in_row = self.hidden_single(House::Row, square_index);
        if in_row.is_some() {
            return in_row;
        }
        let in_col = self.hidden_single(House::Column, square_index);
        if in_col.is_some() {
            return in_col;
        }
        self.hidden_single(House::Block, square_index)
    }
}


impl HintMap {
    /// The length of the longest list of candidates.
    fn longest_list(&self) -> (longest: usize)
        requires
            self.wf(),
        ensures
            forall|i: int| self@.at(i).len() <= longest,
    {
        let num_squares = self.side_length * self.side_length;
        let mut longest: usize = 0;
        let mut index: usize = 0;
        while index < num_squares
            invariant
                self.wf(),
                num_squares == self.side_length * self.side_length,
                index <= num_squares,
                forall|i: int| 0 <= i < index ==> self@.at(i).len() <= longest,
            decreases num_squares - index,
        {
            match self.hints.get(&index) {
                Some(list) => {
                    if list.len() > longest {
                        longest = list.len();
                    }
                },
                None => {},
            }
            index += 1;
        }
        assert forall|i: int| self@.at(i).len() <= longest by {
            if self@.lists.contains_key(i) {
                assert(self.hints@.contains_key(i as usize));
            }
        }
        longest
    }

    /// The cells that have a candidate, each with its list: those with fewer
    /// candidates first and, among cells with equally many, the lower index
    /// first.
    pub fn get_ordered(&self) -> (ordered: Vec<(Pos, Vec<SquareType>)>)
        requires
            self.wf(),
        ensures
            forall|p: int|
                0 <= p < ordered@.len() ==> self@.lists.contains_key((#[trigger] ordered@[p]).0 as int)
                    && ordered@[p].1@ == self@.at(ordered@[p].0 as int) && ordered@[p].1@.len() > 0,
            forall|i: int| self@.at(i).len() > 0 ==> has_entry(ordered@, i),
            forall|p: int, q: int|
                0 <= p < q < ordered@.len() ==> self@.before(
                    (#[trigger] ordered@[p]).0 as int,
                    (#[trigger] ordered@[q]).0 as int,
                ),
    {
        let num_squares = self.side_length * self.side_length;
        let longest = self.longest_list();
        let mut ordered: Vec<(Pos, Vec<SquareType>)> = Vec::new();
        let mut shorter: usize = 0;
        while shorter < longest
            invariant
                self.wf(),
                num_squares == self.side_length * self.side_length,
                shorter <= longest,
                forall|i: int| self@.at(i).len() <= longest,
                forall|p: int|
                    0 <= p < ordered@.len() ==> self@.lists.contains_key(
                        (#[trigger] ordered@[p]).0 as int,
                    ) && ordered@[p].1@ == self@.at(ordered@[p].0 as int) && 0 < ordered@[p].1@.len()
                        <= shorter,
                forall|i: int| 0 < self@.at(i).len() <= shorter ==> has_entry(ordered@, i),
                forall|p: int, q: int|
                    0 <= p < q < ordered@.len() ==> self@.before(
                        (#[trigger] ordered@[p]).0 as int,
                        (#[trigger] ordered@[q]).0 as int,
                    ),
            decreases longest - shorter,
        {
            let count = shorter + 1;
            let mut index: usize = 0;
            while index < num_squares
                invariant
                    self.wf(),
                    num_squares == self.side_length * self.side_length,
                    count == shorter + 1,
                    index <= num_squares,
                    forall|p: int|
                        0 <= p < ordered@.len() ==> self@.lists.contains_key(
                            (#[trigger] ordered@[p]).0 as int,
                        ) && ordered@[p].1@ == self@.at(ordered@[p].0 as int) && 0
                            < ordered@[p].1@.len() && (ordered@[p].1@.len() <= shorter || (
                        ordered@[p].1@.len() == count && ordered@[p].0 < index)),
                    forall|i: int| 0 < self@.at(i).len() <= shorter ==> has_entry(ordered@, i),
                    forall|i: int|
                        0 <= i < index && self@.at(i).len() == count ==> has_entry(ordered@, i),
                    forall|p: int, q: int|
                        0 <= p < q < ordered@.len() ==> self@.before(
                            (#[trigger] ordered@[p]).0 as int,
                            (#[trigger] ordered@[q]).0 as int,
                        ),
                decreases num_squares - index,
            {
                let ghost earlier = ordered@;
                match self.hints.get(&index) {
                    Some(list) => {
                        if list.len() == count {
                            ordered.push((index, copy_values(list)));
                            proof {
                                let last = earlier.len() as int;
                                assert(ordered@[last].0 == index);
                                assert forall|i: int| has_entry(earlier, i) implies has_entry(
                                    ordered@,
                                    i,
                                ) by {
                                    let p = choose|p: int|
                                        0 <= p < earlier.len() && #[trigger] earlier[p].0 == i;
                                    assert(ordered@[p].0 == i);
                                }
                                assert forall|p: int, q: int|
                                    0 <= p < q < ordered@.len() implies self@.before(
                                    (#[trigger] ordered@[p]).0 as int,
                                    (#[trigger] ordered@[q]).0 as int,
                                ) by {
                                    if q < last {
                                        assert(ordered@[p] == earlier[p]);
                                        assert(ordered@[q] == earlier[q]);
                                    } else {
                                        assert(ordered@[p] == earlier[p]);
                                    }
                                }
                            }
                        }
                    },
                    None => {
                        assert(self@.at(index as int).len() == 0);
                    },
                }
                proof {
                    assert(forall|i: int| has_entry(earlier, i) ==> has_entry(ordered@, i));
                    assert forall|i: int| 0 < self@.at(i).len() <= shorter implies has_entry(
                        ordered@,
                        i,
                    ) by {
                        assert(has_entry(earlier, i));
                    }
                    assert forall|i: int|
                        0 <= i < index + 1 && self@.at(i).len() == count implies has_entry(
                        ordered@,
                        i,
                    ) by {
                        if i < index {
                            assert(has_entry(earlier, i));
                        }
                    }
                }
                index += 1;
            }
            proof {
                assert forall|i: int| 0 < self@.at(i).len() <= count implies has_entry(
                    ordered@,
                    i,
                ) by {
                    if self@.at(i).len() == count {
                        assert(self@.lists.contains_key(i));
                        assert(self.hints@.contains_key(i as usize));
                    }
                }
            }
            shorter = count;
        }
        ordered
    }
}

} // verus!
