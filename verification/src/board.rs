//! The board: a square grid of optional values, with index and coordinate
//! addressing and access to its rows, columns and blocks.

use vstd::prelude::*;
use crate::grid::{Grid, count_empty};
use crate::geometry::{
    House,
    block_index,
    floor_sqrt,
    house_cell,
    house_of,
    isqrt,
    lemma_floor_sqrt_of_square,
    lemma_house_cell,
    lemma_house_of,
    slot_of,
};

verus! {

/// Linear index of a cell, row-major.
pub type Pos = usize;

/// Coordinates of a cell: (column, row).
pub type Coord = (usize, usize);

/// The value held by a filled cell.
pub type SquareType = i32;

/// Why a board operation was refused.
#[derive(Clone, Copy, Debug, PartialEq, Eq, Structural)]
pub enum BoardError {
    /// The position resolves to an index outside the grid.
    IndexOutOfRange,
    /// The value lies outside the board's value range.
    InvalidValue,
    /// No solvable seeding was found for the block size.
    GenerationError,
}

impl BoardError {
    /// A short human-readable description of the error.
    pub fn message(&self) -> (text: &'static str)
        ensures
            text@ == match *self {
                BoardError::IndexOutOfRange => "Index out of range!"@,
                BoardError::InvalidValue => "Invalid value!"@,
                BoardError::GenerationError => "Error generating board"@,
            },
    {
        match self {
            BoardError::IndexOutOfRange => "Index out of range!",
            BoardError::InvalidValue => "Invalid value!",
            BoardError::GenerationError => "Error generating board",
        }
    }
}

/// A way to name a cell: by its linear index or by its (column, row) pair.
/// Either form converts to the other given the width of the grid.
pub trait Position: Sized {
    /// The position is a linear index, whose row and column are found by
    /// dividing by the width.
    spec fn is_index(self) -> bool;

    /// The linear index this position resolves to on a grid of `width` columns.
    spec fn spec_pos(self, width: int) -> int;

    /// The row this position lies in.
    spec fn spec_row(self, width: int) -> int;

    /// The column this position lies in.
    spec fn spec_col(self, width: int) -> int;

    /// The position as a (column, row) pair.
    fn into_coord(self, width: usize) -> (c: Coord)
        requires
            self.is_index() ==> width > 0,
        ensures
            c.0 == self.spec_col(width as int),
            c.1 == self.spec_row(width as int),
    ;

    /// The position as a linear index: `width * row + column`.
    fn into_pos(self, width: usize) -> (p: Pos)
        requires
            self.spec_pos(width as int) <= usize::MAX,
        ensures
            p == self.spec_pos(width as int),
    ;

    /// The row of the position.
    fn row_num(self, width: usize) -> (r: usize)
        requires
            self.is_index() ==> width > 0,
        ensures
            r == self.spec_row(width as int),
    ;

    /// The column of the position.
    fn col_num(self, width: usize) -> (c: usize)
        requires
            self.is_index() ==> width > 0,
        ensures
            c == self.spec_col(width as int),
    ;

    /// The block of the position, for blocks of side `base_num`:
    /// `base_num * (row / base_num) + column / base_num`.
    fn grid_num(self, width: usize, base_num: usize) -> (g: usize)
        requires
            self.is_index() ==> width > 0,
            base_num > 0,
            spec_grid_num(self.spec_col(width as int), self.spec_row(width as int), base_num as int)
                <= usize::MAX,
        ensures
            g == spec_grid_num(
                self.spec_col(width as int),
                self.spec_row(width as int),
                base_num as int,
            ),
    ;
}

/// The block that the cell at (`col`, `row`) lies in, for blocks of side `base`.
pub open spec fn spec_grid_num(col: int, row: int, base: int) -> int {
    base * (row / base) + col / base
}

impl Position for Pos {
    open spec fn is_index(self) -> bool {
        true
    }

    open spec fn spec_pos(self, width: int) -> int {
        self as int
    }

    open spec fn spec_row(self, width: int) -> int {
        self as int / width
    }

    open spec fn spec_col(self, width: int) -> int {
        self as int % width
    }

    fn into_coord(self, width: usize) -> (c: Coord) {
        let row_num = self.row_num(width);
        let col_num = self.col_num(width);
        (col_num, row_num)
    }

    fn into_pos(self, _width: usize) -> (p: Pos) {
        self
    }

    fn row_num(self, width: usize) -> (r: usize) {
        self / width
    }

    fn col_num(self, width: usize) -> (c: usize) {
        self % width
    }

    fn grid_num(self, width: usize, base_num: usize) -> (g: usize) {
        self.into_coord(width).grid_num(width, base_num)
    }
}

impl Position for Coord {
    open spec fn is_index(self) -> bool {
        false
    }

    open spec fn spec_pos(self, width: int) -> int {
        width * self.1 + self.0
    }

    open spec fn spec_row(self, width: int) -> int {
        self.1 as int
    }

    open spec fn spec_col(self, width: int) -> int {
        self.0 as int
    }

    fn into_coord(self, _width: usize) -> (c: Coord) {
        self
    }

    fn into_pos(self, width: usize) -> (p: Pos) {
        let (x, y) = self;
        assert(width * y <= width * y + x);
        assert(0 <= width * y) by (nonlinear_arith)
            requires
                width >= 0,
                y >= 0,
        ;
        (width * y) + x
    }

    fn row_num(self, _width: usize) -> (r: usize) {
        let (_, row_num) = self;
        row_num
    }

    fn col_num(self, _width: usize) -> (c: usize) {
        let (col_num, _) = self;
        col_num
    }

    fn grid_num(self, _width: usize, base_num: usize) -> (g: usize) {
        let (col_num, row_num) = self;
        proof {
            vstd::arithmetic::div_mod::lemma_div_pos_is_pos(col_num as int, base_num as int);
            vstd::arithmetic::div_mod::lemma_div_pos_is_pos(row_num as int, base_num as int);
            assert(0 <= base_num * (row_num as int / base_num as int)) by (nonlinear_arith)
                requires
                    base_num > 0,
                    row_num as int / base_num as int >= 0,
            ;
        }
        (base_num * (row_num / base_num)) + (col_num / base_num)
    }
}


/// The cells of row `row_num` on a grid of `width` columns, left to right.
pub fn get_row_indices(row_num: usize, width: usize) -> (cells: Vec<Pos>)
    requires
        width > 0 ==> width * row_num + (width - 1) <= usize::MAX,
    ensures
        cells@.len() == width,
        forall|k: int| 0 <= k < width ==> #[trigger] cells@[k] == width * row_num + k,
{
    let mut cells: Vec<Pos> = Vec::new();
    let mut col_num: usize = 0;
    while col_num < width
        invariant
            width > 0 ==> width * row_num + (width - 1) <= usize::MAX,
            col_num <= width,
            cells@.len() == col_num,
            forall|k: int| 0 <= k < col_num ==> #[trigger] cells@[k] == width * row_num + k,
        decreases width - col_num,
    {
        proof {
            assert(0 <= width * row_num) by (nonlinear_arith)
                requires
                    width >= 0,
                    row_num >= 0,
            ;
        }
        cells.push((col_num, row_num).into_pos(width));
        col_num += 1;
    }
    cells
}

/// The cells of column `col_num` on a grid of `width` columns and as many
/// rows, top to bottom.
pub fn get_col_indices(col_num: usize, width: usize) -> (cells: Vec<Pos>)
    requires
        width > 0 ==> width * (width - 1) + col_num <= usize::MAX,
    ensures
        cells@.len() == width,
        forall|k: int| 0 <= k < width ==> #[trigger] cells@[k] == width * k + col_num,
{
    let mut cells: Vec<Pos> = Vec::new();
    let mut row_num: usize = 0;
    while row_num < width
        invariant
            width > 0 ==> width * (width - 1) + col_num <= usize::MAX,
            row_num <= width,
            cells@.len() == row_num,
            forall|k: int| 0 <= k < row_num ==> #[trigger] cells@[k] == width * k + col_num,
        decreases width - row_num,
    {
        proof {
            assert(0 <= width * row_num <= width * (width - 1)) by (nonlinear_arith)
                requires
                    0 <= row_num <= width - 1,
                    width >= 1,
            ;
        }
        cells.push((col_num, row_num).into_pos(width));
        row_num += 1;
    }
    cells
}

/// The cells of block `grid_num` on a grid of `width` columns, whose blocks
/// have the square root of `width`, rounded down, as their side: row by row,
/// left to right.
pub fn get_grid_indices(grid_num: usize, width: usize) -> (cells: Vec<Pos>)
    requires
        width > 0,
        block_index(
            width as int,
            floor_sqrt(width as int),
            grid_num as int,
            floor_sqrt(width as int) * floor_sqrt(width as int) - 1,
        ) <= usize::MAX,
    ensures
        cells@.len() == floor_sqrt(width as int) * floor_sqrt(width as int),
        forall|k: int|
            0 <= k < cells@.len() ==> #[trigger] cells@[k] == block_index(
                width as int,
                floor_sqrt(width as int),
                grid_num as int,
                k,
            ),
{
    let base_num = isqrt(width);
    let ghost base = base_num as int;
    let ghost wide = width as int;
    let ghost n = grid_num as int;
    proof {
        if base == 0 {
            assert((base + 1) * (base + 1) == 1) by (nonlinear_arith)
                requires
                    base == 0,
            ;
        }
        crate::geometry::lemma_block_index_fits(wide, base, n, 0, 0, usize::MAX as int);
    }
    //Convert the grid num into coordinates
    let (grid_col, grid_row) = grid_num.into_coord(base_num);
    let start_col = grid_col * base_num;
    let start_row = grid_row * base_num;

    let mut cells: Vec<Pos> = Vec::new();
    let mut dr: usize = 0;
    while dr < base_num
        invariant
            base == base_num,
            base >= 1,
            wide == width,
            wide >= 1,
            n == grid_num,
            base * base <= wide,
            block_index(wide, base, n, base * base - 1) <= usize::MAX,
            grid_col == n % base,
            grid_row == n / base,
            start_col == base * grid_col,
            start_row == base * grid_row,
            dr <= base_num,
            cells@.len() == base * dr,
            forall|k: int| 0 <= k < base * dr ==> #[trigger] cells@[k] == block_index(wide, base, n, k),
        decreases base_num - dr,
    {
        let mut dc: usize = 0;
        while dc < base_num
            invariant
                base == base_num,
                base >= 1,
                wide == width,
                wide >= 1,
                n == grid_num,
                base * base <= wide,
                block_index(wide, base, n, base * base - 1) <= usize::MAX,
                grid_col == n % base,
                grid_row == n / base,
                start_col == base * grid_col,
                start_row == base * grid_row,
                dr < base_num,
                dc <= base_num,
                cells@.len() == base * dr + dc,
                forall|k: int|
                    0 <= k < base * dr + dc ==> #[trigger] cells@[k] == block_index(wide, base, n, k),
            decreases base_num - dc,
        {
            proof {
                crate::geometry::lemma_block_index_fits(
                    wide,
                    base,
                    n,
                    dr as int,
                    dc as int,
                    usize::MAX as int,
                );
            }
            let row = start_row + dr;
            let col = start_col + dc;
            cells.push((col, row).into_pos(width));
            dc += 1;
        }
        proof {
            assert(base * dr + base == base * (dr + 1)) by (nonlinear_arith);
        }
        dr += 1;
    }
    cells
}

/// On a grid of `width` columns, the cell in row `row` and column `col` has an
/// index below `width * width`.
pub proof fn lemma_cell_fits(width: int, row: int, col: int)
    requires
        0 <= row < width,
        0 <= col < width,
    ensures
        0 <= width * row + col < width * width,
{
    assert(width * row + col < width * width) by (nonlinear_arith)
        requires
            row + 1 <= width,
            col < width,
            width > 0,
    ;
    assert(0 <= width * row) by (nonlinear_arith)
        requires
            0 <= row,
            0 < width,
    ;
}


/// The largest value of a board of `num_squares` cells: the square root of
/// that number, rounded down, as far as a cell can hold it.
pub open spec fn max_value_for(num_squares: int) -> int {
    if floor_sqrt(num_squares) <= i32::MAX {
        floor_sqrt(num_squares)
    } else {
        i32::MAX as int
    }
}

/// A sample puzzle of side 9 that filling in forced values solves.
pub const UNSOLVED_PUZZLE_STR: &'static str =
    "8,2,7,1,0,4,0,0,6,0,6,5,3,2,7,1,4,8,0,4,1,6,0,0,7,5,0,5,0,3,4,6,0,0,7,1,0,7,2,5,1,0,6,0,9,6,1,8,0,0,0,4,0,5,7,0,6,0,3,5,0,0,0,0,5,4,7,0,6,0,2,3,2,3,0,8,4,1,5,0,7";

/// Block size of the board that `Default` gives.
pub const DEFAULT_BASE_NUM: usize = 3;

/// A Sudoku board of block size `base_num`: `side_length` rows and columns,
/// `num_squares` cells in row-major order, each empty or holding a value
/// between `min_value` and `max_value`.
#[derive(Debug)]
pub struct Board {
    /// The cells, row by row; `None` is an empty cell.
    pub squares: Vec<Option<SquareType>>,
    /// Number of cells.
    pub num_squares: usize,
    /// Number of rows, and of columns, and of blocks.
    pub side_length: usize,
    /// Smallest value of a cell: 1.
    pub min_value: SquareType,
    /// Largest value of a cell: the side length.
    pub max_value: SquareType,
    /// Side of one block.
    pub base_num: usize,
}

impl View for Board {
    type V = Grid;

    open spec fn view(&self) -> Grid {
        Grid { base: self.base_num as int, cells: self.squares@ }
    }
}

/// A copy of `cells`.
pub fn copy_cells(cells: &Vec<Option<SquareType>>) -> (copy: Vec<Option<SquareType>>)
    ensures
        copy@ == cells@,
{
    let mut copy: Vec<Option<SquareType>> = Vec::new();
    let mut i: usize = 0;
    while i < cells.len()
        invariant
            i <= cells.len(),
            copy@ == cells@.take(i as int),
        decreases cells.len() - i,
    {
        copy.push(cells[i]);
        i += 1;
        assert(copy@ =~= cells@.take(i as int));
    }
    assert(cells@.take(cells.len() as int) =~= cells@);
    copy
}

impl Clone for Board {
    fn clone(&self) -> (copy: Board)
        ensures
            copy.same_as(self),
    {
        Board {
            squares: copy_cells(&self.squares),
            num_squares: self.num_squares,
            side_length: self.side_length,
            min_value: self.min_value,
            max_value: self.max_value,
            base_num: self.base_num,
        }
    }
}

impl Default for Board {
    fn default() -> (board: Board)
        ensures
            board.wf(),
            board.base_num == DEFAULT_BASE_NUM,
            board.side_length == 9,
            board.num_squares == 81,
            forall|i: int| 0 <= i < board@.cells.len() ==> board@.cells[i].is_none(),
    {
        assert(DEFAULT_BASE_NUM * DEFAULT_BASE_NUM == 9) by (nonlinear_arith)
            requires
                DEFAULT_BASE_NUM == 3,
        ;
        assert((DEFAULT_BASE_NUM * DEFAULT_BASE_NUM) * (DEFAULT_BASE_NUM * DEFAULT_BASE_NUM) == 81)
            by (nonlinear_arith)
            requires
                DEFAULT_BASE_NUM == 3,
        ;
        Board::from_base_num(DEFAULT_BASE_NUM)
    }
}

impl Board {
    /// The fields agree with each other: the board is a grid of block size
    /// `base_num` whose values run from 1 to its side length.
    pub open spec fn wf(&self) -> bool {
        &&& self.base_num * self.base_num == self.side_length
        &&& self.side_length * self.side_length == self.num_squares
        &&& self.squares@.len() == self.num_squares
        &&& self.min_value == 1
        &&& self.max_value == self.side_length
        &&& self@.wf()
    }

    /// The side is the square of the block size and the number of cells the
    /// square of the side, which is a value that a cell can hold.
    pub open spec fn squared_up(&self) -> bool {
        &&& self.base_num * self.base_num == self.side_length
        &&& self.side_length * self.side_length == self.num_squares
        &&& self.side_length <= i32::MAX
    }

    /// The fields other than the cells are those of a board made for
    /// `num_squares` cells.
    pub open spec fn shaped_for(&self, num_squares: int) -> bool {
        &&& self.num_squares == num_squares
        &&& self.side_length == floor_sqrt(num_squares)
        &&& self.min_value == 1
        &&& self.max_value == max_value_for(num_squares)
        &&& self.base_num == floor_sqrt(self.max_value as int)
    }

    /// Every field of `self` but the cells equals that of `other`.
    pub open spec fn same_shape(&self, other: &Board) -> bool {
        &&& self.num_squares == other.num_squares
        &&& self.side_length == other.side_length
        &&& self.min_value == other.min_value
        &&& self.max_value == other.max_value
        &&& self.base_num == other.base_num
    }

    /// Every field of `self` equals that of `other`, the cells one by one.
    pub open spec fn same_as(&self, other: &Board) -> bool {
        self.squares@ == other.squares@ && self.same_shape(other)
    }

    /// An empty board of block size `base_num`.
    pub fn from_base_num(base_num: usize) -> (board: Board)
        requires
            base_num * base_num <= i32::MAX,
            (base_num * base_num) * (base_num * base_num) <= usize::MAX,
        ensures
            board.wf(),
            board.base_num == base_num,
            board.side_length == base_num * base_num,
            board.num_squares == (base_num * base_num) * (base_num * base_num),
            forall|i: int| 0 <= i < board@.cells.len() ==> board@.cells[i].is_none(),
    {
        assert(0 <= base_num * base_num) by (nonlinear_arith);
        let squared = base_num * base_num;
        proof {
            lemma_floor_sqrt_of_square(squared as int);
            lemma_floor_sqrt_of_square(base_num as int);
        }
        Board::from_size(squared * squared)
    }

    /// An empty board of `num_squares` cells. Its side is the square root of
    /// that number and its block size the square root of the side, both
    /// rounded down, so the board is well formed when `num_squares` is a
    /// fourth power.
    pub fn from_size(num_squares: Pos) -> (board: Board)
        ensures
            board.shaped_for(num_squares as int),
            board.squares@.len() == num_squares,
            forall|i: int| 0 <= i < num_squares ==> board.squares@[i].is_none(),
            board.squared_up() ==> board.wf(),
    {
        let side_length = isqrt(num_squares);
        let max_value: SquareType = if side_length <= i32::MAX as usize {
            side_length as SquareType
        } else {
            i32::MAX
        };
        let base_num = isqrt(max_value as usize);
        let mut squares: Vec<Option<SquareType>> = Vec::new();
        let mut i: usize = 0;
        while i < num_squares
            invariant
                i <= num_squares,
                squares@.len() == i,
                forall|k: int| 0 <= k < i ==> squares@[k].is_none(),
            decreases num_squares - i,
        {
            squares.push(None);
            i += 1;
        }
        Board { squares, side_length, num_squares, min_value: 1, max_value, base_num }
    }

    /// The row that `pt` lies in.
    pub fn get_row_num<T: Position>(&self, pt: T) -> (row: Pos)
        requires
            pt.is_index() ==> self.side_length > 0,
        ensures
            row == pt.spec_row(self.side_length as int),
    {
        pt.row_num(self.side_length)
    }

    /// The column that `pt` lies in.
    pub fn get_col_num<T: Position>(&self, pt: T) -> (col: Pos)
        requires
            pt.is_index() ==> self.side_length > 0,
        ensures
            col == pt.spec_col(self.side_length as int),
    {
        pt.col_num(self.side_length)
    }

    /// The block that `pt` lies in.
    pub fn get_grid_num<T: Position>(&self, pt: T) -> (block: Pos)
        requires
            pt.is_index() ==> self.side_length > 0,
            self.base_num > 0,
            spec_grid_num(
                pt.spec_col(self.side_length as int),
                pt.spec_row(self.side_length as int),
                self.base_num as int,
            ) <= usize::MAX,
        ensures
            block == spec_grid_num(
                pt.spec_col(self.side_length as int),
                pt.spec_row(self.side_length as int),
                self.base_num as int,
            ),
    {
        pt.grid_num(self.side_length, self.base_num)
    }

    /// The cell at `pos`, or `IndexOutOfRange` when `pos` resolves to an
    /// index that is not on the board.
    pub fn get_val<T: Position>(&self, pos: T) -> (found: Result<Option<SquareType>, BoardError>)
        requires
            self.num_squares <= self.squares@.len(),
            pos.spec_pos(self.side_length as int) <= usize::MAX,
        ensures
            found == if pos.spec_pos(self.side_length as int) < self.num_squares {
                Ok::<Option<SquareType>, BoardError>(
                    self@.cells[pos.spec_pos(self.side_length as int)],
                )
            } else {
                Err::<Option<SquareType>, BoardError>(BoardError::IndexOutOfRange)
            },
    {
        let index = pos.into_pos(self.side_length);
        if index < self.num_squares {
            Ok(self.squares[index])
        } else {
            Err(BoardError::IndexOutOfRange)
        }
    }

    /// Puts `val` at `pos`. Refused with `IndexOutOfRange` when `pos` is not
    /// on the board, else with `InvalidValue` when `val` holds a value outside
    /// the board's range; a refused call leaves the board as it was.
    pub fn set_val<T: Position>(&mut self, pos: T, val: Option<SquareType>) -> (done: Result<
        (),
        BoardError,
    >)
        requires
            old(self).num_squares <= old(self).squares@.len(),
            pos.spec_pos(old(self).side_length as int) <= usize::MAX,
        ensures
            old(self).wf() ==> final(self).wf(),
            done == old(self).spec_set_val(pos.spec_pos(old(self).side_length as int), val),
            final(self).same_shape(old(self)),
            done.is_ok() ==> final(self)@ == old(self)@.set(
                pos.spec_pos(old(self).side_length as int),
                val,
            ),
            done.is_err() ==> final(self).same_as(old(self)),
    {
        let index = pos.into_pos(self.side_length);
        if index < self.num_squares {
            match val {
                Some(v) => {
                    if v > self.max_value || v < self.min_value {
                        return Err(BoardError::InvalidValue);
                    }
                },
                None => {},
            }
            self.squares.set(index, val);
            Ok(())
        } else {
            Err(BoardError::IndexOutOfRange)
        }
    }

    /// What `set_val` answers for the resolved index `index` and `val`.
    pub open spec fn spec_set_val(&self, index: int, val: Option<SquareType>) -> Result<
        (),
        BoardError,
    > {
        if index >= self.num_squares {
            Err(BoardError::IndexOutOfRange)
        } else if val.is_some() && !(self.min_value <= val.unwrap() <= self.max_value) {
            Err(BoardError::InvalidValue)
        } else {
            Ok(())
        }
    }
}


impl Board {
    /// The cells of house `n` of kind `h`, in order.
    pub fn house_indices(&self, h: House, n: usize) -> (cells: Vec<Pos>)
        requires
            self.wf(),
            n < self.side_length,
        ensures
            cells@.len() == self.side_length,
            forall|k: int|
                0 <= k < self.side_length ==> #[trigger] cells@[k] == house_cell(
                    self.base_num as int,
                    h,
                    n as int,
                    k,
                ),
            forall|k: int| 0 <= k < self.side_length ==> #[trigger] cells@[k] < self.num_squares,
    {
        proof {
            lemma_floor_sqrt_of_square(self.base_num as int);
            self.lemma_base_positive();
            lemma_cell_fits(self.side_length as int, n as int, self.side_length - 1);
            lemma_cell_fits(self.side_length as int, self.side_length - 1, n as int);
            lemma_house_cell(
                self.base_num as int,
                House::Block,
                n as int,
                self.side_length - 1,
            );
        }
        let cells = match h {
            House::Row => get_row_indices(n, self.side_length),
            House::Column => get_col_indices(n, self.side_length),
            House::Block => get_grid_indices(n, self.side_length),
        };
        proof {
            assert forall|k: int| 0 <= k < self.side_length implies #[trigger] cells@[k]
                == house_cell(self.base_num as int, h, n as int, k) && cells@[k]
                < self.num_squares by {
                lemma_house_cell(self.base_num as int, h, n as int, k);
            }
        }
        cells
    }

    /// The values of house `n` of kind `h`, in order.
    pub fn house_values(&self, h: House, n: usize) -> (values: Vec<Option<SquareType>>)
        requires
            self.wf(),
            n < self.side_length,
        ensures
            values@ == self@.house_values(h, n as int),
    {
        let cells = self.house_indices(h, n);
        let mut values: Vec<Option<SquareType>> = Vec::new();
        let mut k: usize = 0;
        while k < cells.len()
            invariant
                self.wf(),
                k <= cells@.len(),
                cells@.len() == self.side_length,
                forall|j: int|
                    0 <= j < self.side_length ==> #[trigger] cells@[j] == house_cell(
                        self.base_num as int,
                        h,
                        n as int,
                        j,
                    ),
                forall|j: int| 0 <= j < self.side_length ==> #[trigger] cells@[j] < self.num_squares,
                values@.len() == k,
                forall|j: int|
                    0 <= j < k ==> #[trigger] values@[j] == self@.cells[house_cell(
                        self.base_num as int,
                        h,
                        n as int,
                        j,
                    )],
            decreases cells@.len() - k,
        {
            let cell = cells[k];
            values.push(self.squares[cell]);
            k += 1;
        }
        assert(values@ =~= self@.house_values(h, n as int));
        values
    }

    /// Puts `vals`, in order, into the cells of house `n` of kind `h`.
    pub fn set_house(&mut self, h: House, n: usize, vals: &Vec<Option<SquareType>>)
        requires
            old(self).wf(),
            n < old(self).side_length,
            vals@.len() >= old(self).side_length,
            forall|k: int| 0 <= k < old(self).side_length ==> old(self)@.value_ok(#[trigger] vals@[k]),
        ensures
            final(self).wf(),
            final(self)@ == old(self)@.with_house(h, n as int, vals@),
    {
        let ghost before = self@;
        let ghost base = self.base_num as int;
        let cells = self.house_indices(h, n);
        proof {
            self.lemma_base_positive();
        }
        let mut k: usize = 0;
        while k < cells.len()
            invariant
                self.wf(),
                base > 0,
                base == self.base_num,
                self@.base == before.base,
                self@.cells.len() == before.cells.len(),
                n < self.side_length,
                vals@.len() >= self.side_length,
                forall|j: int| 0 <= j < self.side_length ==> self@.value_ok(#[trigger] vals@[j]),
                k <= cells@.len(),
                cells@.len() == self.side_length,
                forall|j: int|
                    0 <= j < self.side_length ==> #[trigger] cells@[j] == house_cell(
                        base,
                        h,
                        n as int,
                        j,
                    ),
                forall|j: int| 0 <= j < self.side_length ==> #[trigger] cells@[j] < self.num_squares,
                forall|i: int|
                    0 <= i < before.cells.len() ==> #[trigger] self@.cells[i] == if house_of(
                        base,
                        h,
                        i,
                    ) == n && slot_of(base, h, i) < k {
                        vals@[slot_of(base, h, i)]
                    } else {
                        before.cells[i]
                    },
            decreases cells@.len() - k,
        {
            let cell = cells[k];
            let ghost prior = self@;
            proof {
                lemma_house_cell(base, h, n as int, k as int);
            }
            let _ = self.set_val(cell, vals[k]);
            proof {
                assert forall|i: int| 0 <= i < before.cells.len() implies #[trigger] self@.cells[i]
                    == if house_of(base, h, i) == n && slot_of(base, h, i) < k + 1 {
                    vals@[slot_of(base, h, i)]
                } else {
                    before.cells[i]
                } by {
                    lemma_house_of(base, h, i);
                    if i != cell {
                        assert(self@.cells[i] == prior.cells[i]);
                    }
                }
            }
            k += 1;
        }
        proof {
            assert forall|i: int| 0 <= i < before.cells.len() implies #[trigger] self@.cells[i]
                == before.with_house(h, n as int, vals@).cells[i] by {
                lemma_house_of(base, h, i);
            }
            assert(self@.cells =~= before.with_house(h, n as int, vals@).cells);
        }
    }

    /// A well-formed board with a cell has a positive block size.
    pub proof fn lemma_base_positive(&self)
        requires
            self.wf(),
            self.side_length > 0 || self.num_squares > 0,
        ensures
            self.base_num > 0,
            self.side_length > 0,
            self.num_squares > 0,
            self@.base == self.base_num,
            self@.side() == self.side_length,
            self@.size() == self.num_squares,
    {
        if self.base_num == 0 {
            assert(self.base_num * self.base_num == 0);
        }
        if self.side_length == 0 {
            assert(self.side_length * self.side_length == 0);
        }
        assert(self.side_length * self.side_length > 0) by (nonlinear_arith)
            requires
                self.side_length > 0,
        ;
    }

    /// Get all indicies of squares within a column
    pub fn get_col_indices(&self, col_num: usize) -> (cells: Vec<Pos>)
        requires
            self.side_length > 0 ==> self.side_length * (self.side_length - 1) + col_num
                <= usize::MAX,
        ensures
            cells@.len() == self.side_length,
            forall|k: int|
                0 <= k < self.side_length ==> #[trigger] cells@[k] == self.side_length * k
                    + col_num,
    {
        get_col_indices(col_num, self.side_length)
    }

    /// Gets all values in this column
    pub fn get_col_values(&self, col_num: usize) -> (values: Vec<Option<SquareType>>)
        requires
            self.wf(),
            col_num < self.side_length,
        ensures
            values@ == self@.house_values(House::Column, col_num as int),
    {
        self.house_values(House::Column, col_num)
    }

    /// Get all indicies of squares within a row
    pub fn get_row_indices(&self, row_num: usize) -> (cells: Vec<Pos>)
        requires
            self.side_length > 0 ==> self.side_length * row_num + (self.side_length - 1)
                <= usize::MAX,
        ensures
            cells@.len() == self.side_length,
            forall|k: int|
                0 <= k < self.side_length ==> #[trigger] cells@[k] == self.side_length * row_num
                    + k,
    {
        get_row_indices(row_num, self.side_length)
    }

    /// Gets all values in this row
    pub fn get_row_values(&self, row_num: usize) -> (values: Vec<Option<SquareType>>)
        requires
            self.wf(),
            row_num < self.side_length,
        ensures
            values@ == self@.house_values(House::Row, row_num as int),
    {
        self.house_values(House::Row, row_num)
    }

    /// Get all indicies of squares within a grid
    pub fn get_grid_indices(&self, grid_num: usize) -> (cells: Vec<Pos>)
        requires
            self.side_length > 0,
            block_index(
                self.side_length as int,
                floor_sqrt(self.side_length as int),
                grid_num as int,
                floor_sqrt(self.side_length as int) * floor_sqrt(self.side_length as int) - 1,
            ) <= usize::MAX,
        ensures
            cells@.len() == floor_sqrt(self.side_length as int) * floor_sqrt(
                self.side_length as int,
            ),
            forall|k: int|
                0 <= k < cells@.len() ==> #[trigger] cells@[k] == block_index(
                    self.side_length as int,
                    floor_sqrt(self.side_length as int),
                    grid_num as int,
                    k,
                ),
    {
        get_grid_indices(grid_num, self.side_length)
    }

    /// Gets all values in this grid
    pub fn get_grid_values(&self, grid_num: usize) -> (values: Vec<Option<SquareType>>)
        requires
            self.wf(),
            grid_num < self.side_length,
        ensures
            values@ == self@.house_values(House::Block, grid_num as int),
    {
        self.house_values(House::Block, grid_num)
    }

    /// Set all values within a row
    pub fn set_row(&mut self, row_num: usize, vals: Vec<Option<SquareType>>)
        requires
            old(self).wf(),
            row_num < old(self).side_length,
            vals@.len() >= old(self).side_length,
            forall|k: int| 0 <= k < old(self).side_length ==> old(self)@.value_ok(#[trigger] vals@[k]),
        ensures
            final(self).wf(),
            final(self)@ == old(self)@.with_house(House::Row, row_num as int, vals@),
    {
        self.set_house(House::Row, row_num, &vals);
    }

    /// Set all values within a column
    pub fn set_col(&mut self, col_num: usize, vals: Vec<Option<SquareType>>)
        requires
            old(self).wf(),
            col_num < old(self).side_length,
            vals@.len() >= old(self).side_length,
            forall|k: int| 0 <= k < old(self).side_length ==> old(self)@.value_ok(#[trigger] vals@[k]),
        ensures
            final(self).wf(),
            final(self)@ == old(self)@.with_house(House::Column, col_num as int, vals@),
    {
        self.set_house(House::Column, col_num, &vals);
    }

    /// Set all values within a grid
    pub fn set_grid(&mut self, grid_num: usize, vals: Vec<Option<SquareType>>)
        requires
            old(self).wf(),
            grid_num < old(self).side_length,
            vals@.len() >= old(self).side_length,
            forall|k: int| 0 <= k < old(self).side_length ==> old(self)@.value_ok(#[trigger] vals@[k]),
        ensures
            final(self).wf(),
            final(self)@ == old(self)@.with_house(House::Block, grid_num as int, vals@),
    {
        self.set_house(House::Block, grid_num, &vals);
    }

    /// Number of squares with values
    pub fn num_filled(&self) -> (filled: usize)
        ensures
            filled == self.squares@.len() - self@.remaining(),
    {
        let remaining = self.num_remaining();
        self.squares.len() - remaining
    }

    /// Number of squares without values
    pub fn num_remaining(&self) -> (remaining: usize)
        ensures
            remaining == self@.remaining(),
            remaining <= self.squares@.len(),
    {
        let mut remaining: usize = 0;
        let mut i: usize = 0;
        while i < self.squares.len()
            invariant
                i <= self.squares@.len(),
                remaining == count_empty(self.squares@.take(i as int)),
                remaining <= i,
            decreases self.squares@.len() - i,
        {
            proof {
                assert(self.squares@.take(i + 1).drop_last() =~= self.squares@.take(i as int));
            }
            if self.squares[i].is_none() {
                remaining += 1;
            }
            i += 1;
        }
        assert(self.squares@.take(self.squares@.len() as int) =~= self.squares@);
        remaining
    }
}


/// The coordinates of a cell lead back to its index: on a grid of `width`
/// columns, with any number of rows, the pair of the column and the row of
/// index `p` resolves to `p`.
pub proof fn lemma_coord_round_trip(p: Pos, width: usize)
    requires
        width > 0,
    ensures
        0 <= p.spec_col(width as int) < width,
        0 <= p.spec_row(width as int) <= p,
        (p.spec_col(width as int) as usize, p.spec_row(width as int) as usize).spec_pos(
            width as int,
        ) == p,
{
    vstd::arithmetic::div_mod::lemma_fundamental_div_mod(p as int, width as int);
    vstd::arithmetic::div_mod::lemma_mod_pos_bound(p as int, width as int);
    vstd::arithmetic::div_mod::lemma_div_pos_is_pos(p as int, width as int);
    vstd::arithmetic::div_mod::lemma_div_is_ordered_by_denominator(p as int, 1, width as int);
    vstd::arithmetic::div_mod::lemma_div_basics(p as int);
}

impl Board {
    /// A value outside the board's range is refused at every cell of the
    /// board, and an index off the board is refused whatever the value.
    pub proof fn lemma_refused(&self, index: int, val: SquareType)
        requires
            self.wf(),
            0 <= index,
        ensures
            index < self.num_squares && !(1 <= val <= self.side_length) ==> self.spec_set_val(
                index,
                Some(val),
            ) == Err::<(), BoardError>(BoardError::InvalidValue),
            index >= self.num_squares ==> self.spec_set_val(index, Some(val)) == Err::<
                (),
                BoardError,
            >(BoardError::IndexOutOfRange),
            index < self.num_squares ==> self.spec_set_val(index, None).is_ok(),
    {
    }
}

} // verus!
