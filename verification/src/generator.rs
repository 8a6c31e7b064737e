//! Making puzzles: random houses, a random solved board, and the removal of
//! values from it; and the symmetries of a board.

use vstd::prelude::*;
use crate::board::{Board, BoardError, Pos, Position, SquareType};
use crate::geometry::{House, house_cell, house_of, lemma_house_cell, lemma_house_of, slot_of};
use crate::hintmap::value_range;
use crate::grid::{Grid, count_empty};
use crate::random::random_below;

verus! {

/// `vals` holds each value from 1 to `side` exactly once.
pub open spec fn is_shuffle(vals: Seq<Option<i32>>, side: int) -> bool {
    &&& vals.len() == side
    &&& forall|k: int|
        0 <= k < vals.len() ==> (#[trigger] vals[k]).is_some() && 1 <= vals[k].unwrap() <= side
    &&& forall|i: int, j: int|
        0 <= i < vals.len() && 0 <= j < vals.len() && i != j ==> #[trigger] vals[i] != #[trigger] vals[j]
}

/// The cell that cell `t` changes places with when each row of a grid of
/// side `side` is reversed.
pub open spec fn mirrored_index(side: int, t: int) -> int {
    side * (t / side) + (side - 1 - t % side)
}

/// The cell that cell `t` changes places with when the rows and columns of a
/// grid of side `side` are exchanged.
pub open spec fn transposed_index(side: int, t: int) -> int {
    side * (t % side) + t / side
}

/// What comes of drawing from `vals` by `picks`: each pick takes the value
/// at its place, and the last value of the list moves into that place.
pub open spec fn draws(vals: Seq<i32>, picks: Seq<usize>) -> Seq<Option<i32>>
    decreases picks.len(),
{
    if picks.len() == 0 {
        Seq::empty()
    } else {
        let pick = picks[0] as int;
        seq![Some(vals[pick])] + draws(
            vals.update(pick, vals.last()).drop_last(),
            picks.drop_first(),
        )
    }
}

/// The number of the `j`-th block on the diagonal, for blocks of side `base`.
pub open spec fn diagonal_block(base: int, j: int) -> int {
    (base + 1) * j
}

/// Block `n` lies on the diagonal: it is as far down as it is to the right.
pub open spec fn on_diagonal(base: int, n: int) -> bool {
    n / base == n % base
}

/// The blocks on the diagonal are on the grid, and on its diagonal.
pub proof fn lemma_diagonal_block(base: int, j: int)
    requires
        base > 0,
        0 <= j < base,
    ensures
        0 <= diagonal_block(base, j) < base * base,
        diagonal_block(base, j) / base == j,
        diagonal_block(base, j) % base == j,
        on_diagonal(base, diagonal_block(base, j)),
{
    let n = diagonal_block(base, j);
    assert(n == j * base + j && 0 <= n && n < base * base) by (nonlinear_arith)
        requires
            n == (base + 1) * j,
            base > 0,
            0 <= j,
            j + 1 <= base,
    ;
    vstd::arithmetic::div_mod::lemma_fundamental_div_mod_converse(n, base, j, j);
}

impl Grid {
    /// The grid is a seed: each block on its diagonal holds every value of
    /// the range once, and every other cell is empty.
    pub open spec fn diagonal_seed(self) -> bool {
        &&& self.wf()
        &&& forall|j: int|
            0 <= j < self.base ==> is_shuffle(
                self.house_values(House::Block, #[trigger] diagonal_block(self.base, j)),
                self.side(),
            )
        &&& forall|i: int|
            0 <= i < self.cells.len() && (#[trigger] self.cells[i]).is_some() ==> on_diagonal(
                self.base,
                house_of(self.base, House::Block, i),
            )
    }

    /// A seed of block size 0 or 1 is a solved grid.
    pub proof fn lemma_small_seed(self)
        requires
            self.diagonal_seed(),
            self.base <= 1,
        ensures
            self.solved(),
            self.solvable(),
    {
        let base = self.base;
        assert(base == 0 || base == 1);
        assert(self.side() == base && self.size() == base) by (nonlinear_arith)
            requires
                base == 0 || base == 1,
                self.side() == base * base,
                self.size() == self.side() * self.side(),
        ;
        if base == 1 {
            assert(self.cells.len() == 1);
            let block = self.house_values(House::Block, diagonal_block(1, 0));
            assert(is_shuffle(block, 1));
            assert(block[0].is_some());
            assert(house_cell(1, House::Block, 0, 0) == 0);
            assert(self.cells[0].is_some());
            assert(count_empty(self.cells.drop_last()) == 0);
        } else {
            assert(self.cells.len() == 0);
        }
        assert(self.remaining() == 0);
        assert(!self.has_clash()) by {
            if self.has_clash() {
                let (h, n) = choose|h: House, n: int|
                    0 <= n < self.side() && crate::solver::has_repeat(
                        #[trigger] self.house_values(h, n),
                    );
                assert(self.house_values(h, n).len() == 1);
            }
        }
        assert(self.solution_of(self));
    }

    /// The grid with cell `i` emptied, if the cell is filled and the grid
    /// has a solution without it; else the grid as it is.
    pub open spec fn reduced_at(self, i: int) -> Grid {
        if self.cells[i].is_some() && self.set(i, None).solvable() {
            self.set(i, None)
        } else {
            self
        }
    }

    /// The grid with the houses `a` and `b` of kind `h` exchanged.
    pub open spec fn swap_houses(self, h: House, a: int, b: int) -> Grid {
        self.with_house(h, a, self.house_values(h, b)).with_house(h, b, self.house_values(h, a))
    }

    /// The grid with each row reversed.
    pub open spec fn mirrored(self) -> Grid {
        Grid {
            base: self.base,
            cells: Seq::new(
                self.cells.len(),
                |i: int| self.cells[mirrored_index(self.side(), i)],
            ),
        }
    }

    /// The grid with rows and columns exchanged.
    pub open spec fn transposed(self) -> Grid {
        Grid {
            base: self.base,
            cells: Seq::new(
                self.cells.len(),
                |i: int| self.cells[transposed_index(self.side(), i)],
            ),
        }
    }

    /// The values of a house of a well-formed grid can be put into any house.
    pub proof fn lemma_house_values_ok(self, h: House, n: int)
        requires
            self.wf(),
            0 <= n < self.side(),
        ensures
            self.house_values(h, n).len() == self.side(),
            forall|k: int| 0 <= k < self.side() ==> self.value_ok(#[trigger] self.house_values(h, n)[k]),
    {
        assert forall|k: int| 0 <= k < self.side() implies self.value_ok(
            #[trigger] self.house_values(h, n)[k],
        ) by {
            if self.base == 0 {
                assert(self.base * self.base == 0);
            }
            lemma_house_cell(self.base, h, n, k);
            assert(self.value_ok(self.cells[house_cell(self.base, h, n, k)]));
        }
    }
}

impl Board {
    /// The values of the board's range, drawn by `picks`: the values start
    /// in ascending order; each pick takes the value at its place, and the
    /// last value left moves into that place.
    pub fn shuffle_by(&self, picks: &Vec<usize>) -> (shuffled: Vec<Option<SquareType>>)
        requires
            self.wf(),
            picks@.len() == self.side_length,
            forall|j: int| 0 <= j < picks@.len() ==> #[trigger] picks@[j] < self.side_length - j,
        ensures
            shuffled@ == draws(value_range(self.side_length as int), picks@),
            is_shuffle(shuffled@, self.side_length as int),
    {
        let num_vals = self.side_length;
        let ghost goal = draws(value_range(num_vals as int), picks@);
        let mut retval: Vec<Option<SquareType>> = Vec::new();
        let mut vals: Vec<SquareType> = Vec::new();
        let mut k: usize = 0;
        while k < num_vals
            invariant
                self.wf(),
                num_vals == self.side_length,
                k <= num_vals,
                vals@.len() == k,
                forall|j: int| 0 <= j < vals@.len() ==> #[trigger] vals@[j] == j + 1,
            decreases num_vals - k,
        {
            vals.push((k + 1) as SquareType);
            k += 1;
        }
        let mut drawn: usize = 0;
        proof {
            assert(vals@ =~= value_range(num_vals as int));
            assert(picks@.skip(0) =~= picks@);
            assert(retval@ + goal =~= goal);
        }
        while drawn < num_vals
            invariant
                picks@.len() == num_vals,
                forall|j: int| 0 <= j < picks@.len() ==> #[trigger] picks@[j] < num_vals - j,
                retval@ + draws(vals@, picks@.skip(drawn as int)) == goal,
                num_vals == self.side_length,
                drawn <= num_vals,
                retval@.len() == drawn,
                vals@.len() + retval@.len() == num_vals,
                forall|k: int| 0 <= k < vals@.len() ==> 1 <= #[trigger] vals@[k] <= num_vals,
                forall|i: int, j: int|
                    0 <= i < vals@.len() && 0 <= j < vals@.len() && i != j ==> #[trigger] vals@[i]
                        != #[trigger] vals@[j],
                forall|k: int|
                    0 <= k < retval@.len() ==> (#[trigger] retval@[k]).is_some() && 1
                        <= retval@[k].unwrap() <= num_vals,
                forall|i: int, j: int|
                    0 <= i < retval@.len() && 0 <= j < retval@.len() && i
                        != j ==> #[trigger] retval@[i] != #[trigger] retval@[j],
                forall|i: int, j: int|
                    0 <= i < retval@.len() && 0 <= j < vals@.len() ==> #[trigger] retval@[i]
                        != Some(#[trigger] vals@[j]),
            decreases num_vals - drawn,
        {
            let chosen_ind = picks[drawn];
            let ghost before = vals@;
            let ghost given = retval@;
            let val = vals.swap_remove(chosen_ind);
            retval.push(Some(val));
            proof {
                let last = before.len() - 1;
                let left = picks@.skip(drawn as int);
                assert(left[0] == chosen_ind);
                assert(left.drop_first() =~= picks@.skip(drawn + 1));
                assert(retval@ + draws(vals@, picks@.skip(drawn + 1)) =~= given + draws(
                    before,
                    left,
                ));
                assert forall|k: int| 0 <= k < vals@.len() implies #[trigger] vals@[k] == before[if k
                    == chosen_ind {
                    last
                } else {
                    k
                }] by {}
                assert forall|k: int| 0 <= k < vals@.len() implies 1 <= #[trigger] vals@[k]
                    <= num_vals by {
                    let m = if k == chosen_ind {
                        last
                    } else {
                        k
                    };
                    assert(vals@[k] == before[m]);
                }
                assert forall|i: int, j: int|
                    0 <= i < vals@.len() && 0 <= j < vals@.len() && i != j implies #[trigger] vals@[i]
                    != #[trigger] vals@[j] by {
                    let mi = if i == chosen_ind {
                        last
                    } else {
                        i
                    };
                    let mj = if j == chosen_ind {
                        last
                    } else {
                        j
                    };
                    assert(vals@[i] == before[mi]);
                    assert(vals@[j] == before[mj]);
                    assert(before[mi] != before[mj]);
                }
                assert forall|i: int, j: int|
                    0 <= i < retval@.len() && 0 <= j < vals@.len() implies #[trigger] retval@[i]
                    != Some(#[trigger] vals@[j]) by {
                    let mj = if j == chosen_ind {
                        last
                    } else {
                        j
                    };
                    assert(vals@[j] == before[mj]);
                    if i < given.len() {
                        assert(retval@[i] == given[i]);
                        assert(given[i] != Some(before[mj]));
                    } else {
                        assert(before[chosen_ind as int] != before[mj]);
                    }
                }
                assert forall|i: int, j: int|
                    0 <= i < retval@.len() && 0 <= j < retval@.len() && i
                        != j implies #[trigger] retval@[i] != #[trigger] retval@[j] by {
                    if i < given.len() && j < given.len() {
                        assert(retval@[i] == given[i]);
                        assert(retval@[j] == given[j]);
                    } else if i < given.len() {
                        assert(retval@[i] == given[i]);
                        assert(given[i] != Some(before[chosen_ind as int]));
                    } else {
                        assert(retval@[j] == given[j]);
                        assert(given[j] != Some(before[chosen_ind as int]));
                    }
                }
                assert forall|k: int| 0 <= k < retval@.len() implies (#[trigger] retval@[k]).is_some()
                    && 1 <= retval@[k].unwrap() <= num_vals by {
                    if k < given.len() {
                        assert(retval@[k] == given[k]);
                    }
                }
            }
            drawn += 1;
        }
        proof {
            assert(picks@.skip(num_vals as int) =~= Seq::<usize>::empty());
            assert(retval@ + Seq::<Option<i32>>::empty() =~= retval@);
        }
        retval
    }

    /// The values of the board's range in random order: as many picks are
    /// drawn as there are values, each below the number of values left, and
    /// the values are drawn by them.
    pub fn rand_vals(&self) -> (shuffled: Vec<Option<SquareType>>)
        requires
            self.wf(),
        ensures
            is_shuffle(shuffled@, self.side_length as int),
    {
        let num_vals = self.side_length;
        let mut picks: Vec<usize> = Vec::new();
        let mut drawn: usize = 0;
        while drawn < num_vals
            invariant
                drawn <= num_vals,
                picks@.len() == drawn,
                forall|j: int| 0 <= j < picks@.len() ==> #[trigger] picks@[j] < num_vals - j,
            decreases num_vals - drawn,
        {
            let chosen_ind = random_below(num_vals - drawn);
            picks.push(chosen_ind);
            drawn += 1;
        }
        self.shuffle_by(&picks)
    }

    /// Fills house `n` of kind `h` with the values of the range in random order.
    pub fn set_house_rand(&mut self, h: House, n: usize)
        requires
            old(self).wf(),
            n < old(self).side_length,
        ensures
            final(self).wf(),
            final(self).base_num == old(self).base_num,
            exists|vals: Seq<Option<i32>>|
                is_shuffle(vals, old(self).side_length as int) && final(self)@ == old(self)@.with_house(
                    h,
                    n as int,
                    vals,
                ),
    {
        let rand_vals = self.rand_vals();
        self.set_house(h, n, &rand_vals);
    }

    /// Fills a row with the values of the range in random order.
    pub fn set_row_rand(&mut self, row_num: usize)
        requires
            old(self).wf(),
            row_num < old(self).side_length,
        ensures
            final(self).wf(),
            final(self).base_num == old(self).base_num,
            exists|vals: Seq<Option<i32>>|
                is_shuffle(vals, old(self).side_length as int) && final(self)@ == old(self)@.with_house(
                    House::Row,
                    row_num as int,
                    vals,
                ),
    {
        self.set_house_rand(House::Row, row_num);
    }

    /// Fills a column with the values of the range in random order.
    pub fn set_col_rand(&mut self, col_num: usize)
        requires
            old(self).wf(),
            col_num < old(self).side_length,
        ensures
            final(self).wf(),
            final(self).base_num == old(self).base_num,
            exists|vals: Seq<Option<i32>>|
                is_shuffle(vals, old(self).side_length as int) && final(self)@ == old(self)@.with_house(
                    House::Column,
                    col_num as int,
                    vals,
                ),
    {
        self.set_house_rand(House::Column, col_num);
    }

    /// Fills a block with the values of the range in random order.
    pub fn set_grid_rand(&mut self, grid_num: usize)
        requires
            old(self).wf(),
            grid_num < old(self).side_length,
        ensures
            final(self).wf(),
            final(self).base_num == old(self).base_num,
            exists|vals: Seq<Option<i32>>|
                is_shuffle(vals, old(self).side_length as int) && final(self)@ == old(self)@.with_house(
                    House::Block,
                    grid_num as int,
                    vals,
                ),
    {
        self.set_house_rand(House::Block, grid_num);
    }

    /// Empties the cell at `ind` if it is filled and the board has a
    /// solution without it; else leaves the board as it is.
    pub fn reduce_at(&mut self, ind: Pos)
        requires
            old(self).wf(),
            ind < old(self).num_squares,
        ensures
            final(self).wf(),
            final(self)@ == old(self)@.reduced_at(ind as int),
    {
        let old_val = self.squares[ind];
        if old_val.is_some() {
            let ghost before = self@;
            self.squares.set(ind, None);
            proof {
                assert forall|i: int| 0 <= i < self@.cells.len() implies self@.value_ok(
                    #[trigger] self@.cells[i],
                ) by {
                    if i != ind {
                        assert(before.value_ok(before.cells[i]));
                    }
                }
            }
            let mut trial = self.clone();
            if !trial.solve_search() {
                self.squares.set(ind, old_val);
                assert(self@.cells =~= before.cells);
            }
        }
    }

    /// Empties cells picked at random, as many picks as the board has
    /// cells: a picked cell is emptied if it is filled and the board has a
    /// solution without it. A solved board loses a cell at least.
    pub fn reduce(&mut self)
        requires
            old(self).wf(),
        ensures
            final(self).wf(),
            final(self)@.extended_by(old(self)@),
            old(self)@.solvable() ==> final(self)@.solvable(),
            old(self)@.solved() && old(self).num_squares > 0 ==> final(self)@.remaining() > 0,
    {
        let ghost origin = self@;
        let mut picks: usize = 0;
        while picks < self.squares.len()
            invariant
                self.wf(),
                self@.extended_by(origin),
                origin.solvable() ==> self@.solvable(),
                picks == 0 ==> self@ == origin,
                picks > 0 && origin.solved() ==> self@.remaining() > 0,
            decreases self.squares@.len() - picks,
        {
            let ind = random_below(self.squares.len());
            let ghost before = self@;
            self.reduce_at(ind);
            proof {
                assert forall|i: int|
                    0 <= i < self@.cells.len() && self@.cells[i].is_some() implies #[trigger] origin.cells[i]
                    == self@.cells[i] by {
                    assert(self@.cells[i] == before.cells[i]);
                }
                if origin.solved() {
                    crate::grid::lemma_count_empty_update(before.cells, ind as int, None);
                    if picks == 0 {
                        crate::grid::lemma_count_empty_zero(origin.cells);
                        assert(origin.set(ind as int, None).extended_by(origin));
                        assert(origin.solution_of(origin.set(ind as int, None)));
                    }
                }
            }
            picks += 1;
        }
    }

    /// A seed of block size `base_num`: on an empty board each block on the
    /// diagonal, which share no row and no column, is filled with the values
    /// of the range in random order.
    pub fn seed_diagonal(base_num: usize) -> (seed: Board)
        requires
            base_num * base_num <= i32::MAX,
            (base_num * base_num) * (base_num * base_num) <= usize::MAX,
        ensures
            seed.wf(),
            seed.base_num == base_num,
            seed@.diagonal_seed(),
    {
        let mut new_board = Board::from_base_num(base_num);
        let ghost base = base_num as int;
        let ghost mut j: int = 0;

        let mut i: usize = 0;

        // Randomise the diagonal grids, as they are not dependent on each other
        while i < new_board.side_length
            invariant
                new_board.wf(),
                base == base_num,
                new_board.base_num == base_num,
                new_board.side_length == base * base,
                new_board.num_squares == new_board.side_length * new_board.side_length,
                0 <= j <= base,
                i == base * j,
                forall|m: int|
                    0 <= m < j ==> is_shuffle(
                        new_board@.house_values(House::Block, #[trigger] diagonal_block(base, m)),
                        base * base,
                    ),
                forall|c: int|
                    0 <= c < new_board@.cells.len() && (#[trigger] new_board@.cells[c]).is_some()
                        ==> on_diagonal(base, house_of(base, House::Block, c)) && house_of(
                        base,
                        House::Block,
                        c,
                    ) / base < j,
            decreases
                    if i < new_board.side_length {
                        new_board.side_length - i
                    } else {
                        0
                    },
        {
            let ghost side = new_board.side_length as int;
            let ghost n = diagonal_block(base, j);
            proof {
                new_board.lemma_base_positive();
                assert(j < base) by (nonlinear_arith)
                    requires
                        base * j < base * base,
                        base > 0,
                        0 <= j,
                ;
                lemma_diagonal_block(base, j);
                lemma_house_cell(base, House::Row, i as int, i as int);
                lemma_house_of(base, House::Block, side * i + i);
                assert(base * j == j * base) by (nonlinear_arith);
                vstd::arithmetic::div_mod::lemma_fundamental_div_mod_converse(i as int, base, j, 0);
                assert(base * (i as int / base) + i as int / base == n) by (nonlinear_arith)
                    requires
                        i as int / base == j,
                        n == (base + 1) * j,
                ;
                assert(base <= base * base) by (nonlinear_arith)
                    requires
                        base >= 1,
                ;
            }
            let grid_num = new_board.get_grid_num((i, i));
            assert(grid_num == n);
            let ghost before = new_board@;
            new_board.set_grid_rand(grid_num);
            proof {
                let after = new_board@;
                let vals = choose|vals: Seq<Option<i32>>|
                    is_shuffle(vals, side) && after == before.with_house(House::Block, n, vals);
                assert forall|k: int| 0 <= k < side implies after.house_values(House::Block, n)[k]
                    == vals[k] by {
                    lemma_house_cell(base, House::Block, n, k);
                }
                assert(after.house_values(House::Block, n) =~= vals);
                assert forall|m: int| 0 <= m < j + 1 implies is_shuffle(
                    after.house_values(House::Block, #[trigger] diagonal_block(base, m)),
                    base * base,
                ) by {
                    if m < j {
                        let other = diagonal_block(base, m);
                        lemma_diagonal_block(base, m);
                        assert(other != n);
                        assert forall|k: int| 0 <= k < side implies after.house_values(
                            House::Block,
                            other,
                        )[k] == before.house_values(House::Block, other)[k] by {
                            lemma_house_cell(base, House::Block, other, k);
                        }
                        assert(after.house_values(House::Block, other) =~= before.house_values(
                            House::Block,
                            other,
                        ));
                    }
                }
                assert forall|c: int|
                    0 <= c < after.cells.len() && (#[trigger] after.cells[c]).is_some() implies on_diagonal(
                    base,
                    house_of(base, House::Block, c),
                ) && house_of(base, House::Block, c) / base < j + 1 by {
                    if house_of(base, House::Block, c) != n {
                        assert(after.cells[c] == before.cells[c]);
                    }
                }
                assert(base * (j + 1) == base * j + base) by (nonlinear_arith);
                j = j + 1;
            }
            i += base_num;
        }
        proof {
            if base > 0 {
                assert(j == base) by (nonlinear_arith)
                    requires
                        base * j >= base * base,
                        j <= base,
                        base > 0,
                ;
            }
        }
        new_board
    }

    /// The puzzle that comes of a seed: the seed is solved by search and
    /// cells of the solution are emptied by `reduce`. `GenerationError` is
    /// returned exactly when the seed has no solution.
    pub fn generate_from(seed: Board) -> (made: Result<Board, BoardError>)
        requires
            seed.wf(),
        ensures
            made.is_ok() == seed@.solvable(),
            match made {
                Ok(board) => board.wf() && board.base_num == seed.base_num && board@.solvable() && (
                exists|s: Grid| #[trigger] s.solution_of(seed@) && board@.extended_by(s)) && (
                seed.num_squares > 0 ==> board@.remaining() > 0),
                Err(e) => e == BoardError::GenerationError,
            },
    {
        let mut new_board = seed;
        let solve_result = new_board.solve_search_parallel();
        if !solve_result {
            return Err(BoardError::GenerationError);
        }
        let ghost full = new_board@;
        proof {
            assert(full.solution_of(full));
        }
        new_board.reduce();
        proof {
            assert(full.solution_of(seed@) && new_board@.extended_by(full));
        }
        Ok(new_board)
    }

    /// A new puzzle of block size `base_num`: the blocks on the diagonal of
    /// an empty board are each filled with the values of the range in
    /// random order; the board is solved by search; then cells are emptied
    /// by `reduce`. `GenerationError` is returned exactly when the seed that
    /// was drawn has no solution.
    pub fn generate_new(base_num: usize) -> (made: Result<Board, BoardError>)
        requires
            base_num * base_num <= i32::MAX,
            (base_num * base_num) * (base_num * base_num) <= usize::MAX,
        ensures
            match made {
                Ok(board) => board.wf() && board.base_num == base_num && board@.solvable() && (
                base_num > 0 ==> board@.remaining() > 0),
                Err(e) => e == BoardError::GenerationError,
            },
            exists|seed: Grid|
                #[trigger] seed.diagonal_seed() && seed.base == base_num && made.is_ok()
                    == seed.solvable() && (made.is_ok() ==> exists|s: Grid|
                    #[trigger] s.solution_of(seed) && made.unwrap()@.extended_by(s)),
            base_num <= 1 ==> made.is_ok(),
    {
        let seed = Board::seed_diagonal(base_num);
        let ghost drawn = seed@;
        proof {
            if base_num <= 1 {
                drawn.lemma_small_seed();
            }
            if base_num > 0 {
                assert(seed.num_squares > 0) by (nonlinear_arith)
                    requires
                        seed.num_squares == seed.side_length * seed.side_length,
                        seed.side_length == base_num * base_num,
                        base_num > 0,
                ;
            }
        }
        let made = Board::generate_from(seed);
        proof {
            assert(drawn.diagonal_seed() && drawn.base == base_num && made.is_ok()
                == drawn.solvable());
        }
        made
    }

    /// Exchanges two rows.
    pub fn _swap_rows(&mut self, row_ind_1: Pos, row_ind_2: Pos)
        requires
            old(self).wf(),
            row_ind_1 < old(self).side_length,
            row_ind_2 < old(self).side_length,
        ensures
            final(self).wf(),
            final(self)@ == old(self)@.swap_houses(House::Row, row_ind_1 as int, row_ind_2 as int),
    {
        let row1_vals = self.get_row_values(row_ind_1);
        let row2_vals = self.get_row_values(row_ind_2);
        proof {
            self.lemma_base_positive();
            self@.lemma_house_values_ok(House::Row, row_ind_1 as int);
            self@.lemma_house_values_ok(House::Row, row_ind_2 as int);
        }
        self.set_house(House::Row, row_ind_1, &row2_vals);
        self.set_house(House::Row, row_ind_2, &row1_vals);
    }

    /// Exchanges two columns.
    pub fn _swap_cols(&mut self, col_ind_1: Pos, col_ind_2: Pos)
        requires
            old(self).wf(),
            col_ind_1 < old(self).side_length,
            col_ind_2 < old(self).side_length,
        ensures
            final(self).wf(),
            final(self)@ == old(self)@.swap_houses(
                House::Column,
                col_ind_1 as int,
                col_ind_2 as int,
            ),
    {
        let col1_vals = self.get_col_values(col_ind_1);
        let col2_vals = self.get_col_values(col_ind_2);
        proof {
            self.lemma_base_positive();
            self@.lemma_house_values_ok(House::Column, col_ind_1 as int);
            self@.lemma_house_values_ok(House::Column, col_ind_2 as int);
        }
        self.set_house(House::Column, col_ind_1, &col2_vals);
        self.set_house(House::Column, col_ind_2, &col1_vals);
    }
}


impl Board {
    /// Reverses each row: the first column changes places with the last,
    /// the second with the last but one, and so on.
    pub fn _mirror(&mut self)
        requires
            old(self).wf(),
        ensures
            final(self).wf(),
            final(self)@ == old(self)@.mirrored(),
    {
        let num_groups = self.side_length;
        let ghost before = self@;
        let ghost base = self.base_num as int;
        let ghost side = self.side_length as int;
        let mut cols: Vec<Vec<Option<SquareType>>> = Vec::new();
        let mut i: usize = 0;
        while i < num_groups
            invariant
                self.wf(),
                self@ == before,
                num_groups == self.side_length,
                i <= num_groups,
                cols@.len() == i,
                forall|j: int|
                    0 <= j < i ==> (#[trigger] cols@[j])@ == before.house_values(House::Column, j),
            decreases num_groups - i,
        {
            cols.push(self.get_col_values(i));
            i += 1;
        }
        let mut i: usize = 0;
        while i < num_groups
            invariant
                before.wf(),
                self.wf(),
                base == self.base_num,
                side == self.side_length,
                side == before.side(),
                self@.base == before.base,
                self@.cells.len() == before.cells.len(),
                num_groups == self.side_length,
                i <= num_groups,
                cols@.len() == num_groups - i,
                forall|j: int|
                    0 <= j < cols@.len() ==> (#[trigger] cols@[j])@ == before.house_values(
                        House::Column,
                        j,
                    ),
                forall|t: int|
                    0 <= t < before.cells.len() ==> #[trigger] self@.cells[t] == if t % side < i {
                        before.cells[mirrored_index(side, t)]
                    } else {
                        before.cells[t]
                    },
            decreases num_groups - i,
        {
            let ghost prior = self@;
            let ghost source = num_groups - 1 - i;
            match cols.pop() {
                Some(thingo) => {
                    proof {
                        self.lemma_base_positive();
                        before.lemma_house_values_ok(House::Column, source);
                        assert(thingo@ == before.house_values(House::Column, source));
                    }
                    self.set_house(House::Column, i, &thingo);
                    proof {
                        assert forall|t: int| 0 <= t < before.cells.len() implies #[trigger] self@.cells[t]
                            == if t % side < i + 1 {
                            before.cells[mirrored_index(side, t)]
                        } else {
                            before.cells[t]
                        } by {
                            lemma_house_of(base, House::Column, t);
                            assert(self@.cells[t] == prior.with_house(
                                House::Column,
                                i as int,
                                thingo@,
                            ).cells[t]);
                            if t % side == i {
                                assert(house_of(base, House::Column, t) == i);
                                assert(slot_of(base, House::Column, t) == t / side);
                                assert(thingo@[t / side] == before.cells[house_cell(
                                    base,
                                    House::Column,
                                    source,
                                    t / side,
                                )]);
                            } else {
                                assert(self@.cells[t] == prior.cells[t]);
                            }
                        }
                    }
                },
                None => {},
            }
            i += 1;
        }
        proof {
            assert forall|t: int| 0 <= t < before.cells.len() implies self@.cells[t]
                == before.mirrored().cells[t] by {
                self.lemma_base_positive();
                lemma_house_of(base, House::Column, t);
            }
            assert(self@.cells =~= before.mirrored().cells);
        }
    }

    /// Turns the board a quarter turn anti-clockwise: the rows are
    /// reversed, then rows and columns exchanged.
    pub fn _rotate(&mut self)
        requires
            old(self).wf(),
        ensures
            final(self).wf(),
            final(self)@ == old(self)@.mirrored().transposed(),
    {
        self._mirror();
        let cloned = self.clone();
        let ghost turned = self@;
        let ghost base = self.base_num as int;
        let ghost side = self.side_length as int;
        let mut pos: usize = 0;
        proof {
            assert forall|t: int| 0 <= t < turned.cells.len() implies 0 <= #[trigger] transposed_index(
                side,
                t,
            ) by {
                self.lemma_base_positive();
                lemma_house_of(base, House::Row, t);
                lemma_house_cell(base, House::Row, t % side, t / side);
            }
        }
        while pos < self.squares.len()
            invariant
                turned.wf(),
                cloned.wf(),
                cloned@ == turned,
                self.wf(),
                base == self.base_num,
                side == self.side_length,
                side == turned.side(),
                self@.base == turned.base,
                self@.cells.len() == turned.cells.len(),
                pos <= self.squares@.len(),
                forall|t: int|
                    0 <= t < turned.cells.len() ==> #[trigger] self@.cells[t] == if transposed_index(
                        side,
                        t,
                    ) < pos {
                        turned.cells[transposed_index(side, t)]
                    } else {
                        turned.cells[t]
                    },
            decreases self.squares@.len() - pos,
        {
            let ghost prior = self@;
            proof {
                self.lemma_base_positive();
                lemma_house_of(base, House::Row, pos as int);
            }
            let (col, row) = pos.into_coord(self.side_length);
            proof {
                lemma_house_cell(base, House::Row, col as int, row as int);
                lemma_house_cell(base, House::Row, row as int, col as int);
                assert(turned.value_ok(turned.cells[pos as int]));
            }
            let val = cloned.squares[pos];
            let _ = self.set_val((row, col), val);
            proof {
                let target = side * col + row;
                assert(self@ == prior.set(target, val));
                assert forall|t: int| 0 <= t < turned.cells.len() implies #[trigger] self@.cells[t]
                    == if transposed_index(side, t) < pos + 1 {
                    turned.cells[transposed_index(side, t)]
                } else {
                    turned.cells[t]
                } by {
                    lemma_house_of(base, House::Row, t);
                    lemma_house_cell(base, House::Row, t % side, t / side);
                    if t == target {
                    } else {
                        assert(self@.cells[t] == prior.cells[t]);
                        if transposed_index(side, t) == pos {
                            assert(false);
                        }
                    }
                }
            }
            pos += 1;
        }
        proof {
            assert forall|t: int| 0 <= t < turned.cells.len() implies self@.cells[t]
                == turned.transposed().cells[t] by {
                self.lemma_base_positive();
                lemma_house_of(base, House::Row, t);
                lemma_house_cell(base, House::Row, t % side, t / side);
            }
            assert(self@.cells =~= turned.transposed().cells);
        }
    }
}

} // verus!
