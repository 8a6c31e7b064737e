//! Solutions of a grid, and why filling in forced values neither loses nor
//! invents one.

use vstd::prelude::*;
use vstd::set_lib::{lemma_int_range, lemma_subset_equality, set_int_range};
use crate::geometry::{House, house_cell, house_cells, house_of, lemma_house_cell, lemma_house_of, slot_of};
use crate::grid::{Grid, lemma_count_empty_monotone, lemma_count_empty_zero};
use crate::solver::{BoardStatus, has_repeat};

verus! {

impl Grid {
    /// The grid is well formed, full, and no house holds a value twice.
    pub open spec fn solved(self) -> bool {
        self.wf() && !self.has_clash() && self.remaining() == 0
    }

    /// `self` is a solution of `puzzle`: a solved grid that keeps every
    /// filled cell of `puzzle`.
    pub open spec fn solution_of(self, puzzle: Grid) -> bool {
        self.solved() && puzzle.extended_by(self)
    }

    /// The grid has a solution.
    pub open spec fn solvable(self) -> bool {
        exists|s: Grid| #[trigger] s.solution_of(self)
    }

    /// A well-formed grid with a cell has a positive block size, and its
    /// side and size are positive too.
    pub proof fn lemma_positive(self)
        requires
            self.wf(),
            self.cells.len() > 0,
        ensures
            self.base > 0,
            self.side() > 0,
    {
        let base = self.base;
        if base == 0 {
            assert(base * base == 0) by (nonlinear_arith)
                requires
                    base == 0,
            ;
            assert(self.side() * self.side() == 0);
        }
        assert(base * base > 0) by (nonlinear_arith)
            requires
                base > 0,
        ;
    }

    /// A solved grid is the status `Solved`, and the other way round for a
    /// well-formed grid.
    pub proof fn lemma_solved_status(self)
        requires
            self.wf(),
        ensures
            self.solved() <==> self.status() == BoardStatus::Solved,
    {
    }

    /// Extension is transitive.
    pub proof fn lemma_extended_twice(self, middle: Grid, last: Grid)
        requires
            self.extended_by(middle),
            middle.extended_by(last),
        ensures
            self.extended_by(last),
    {
        assert forall|i: int| 0 <= i < self.cells.len() && self.cells[i].is_some() implies #[trigger] last.cells[i]
            == self.cells[i] by {
            assert(middle.cells[i] == self.cells[i]);
        }
    }

    /// In a solved grid every house holds every value of the range.
    pub proof fn lemma_house_full(self, h: House, n: int, v: i32)
        requires
            self.solved(),
            0 <= n < self.side(),
            1 <= v <= self.side(),
        ensures
            self.house_values(h, n).contains(Some(v)),
    {
        let side = self.side();
        let vals = self.house_values(h, n);
        if self.cells.len() == 0 {
            assert(self.side() * self.side() == 0);
            assert(side == 0) by (nonlinear_arith)
                requires
                    side * side == 0,
            ;
        }
        self.lemma_positive();
        lemma_count_empty_zero(self.cells);
        assert forall|k: int| 0 <= k < side implies (#[trigger] vals[k]).is_some() && 1
            <= vals[k].unwrap() <= side by {
            lemma_house_cell(self.base, h, n, k);
            let d = house_cell(self.base, h, n, k);
            assert(self.cells[d].is_some());
            assert(self.value_ok(self.cells[d]));
        }
        let ints = Seq::new(side as nat, |k: int| vals[k].unwrap() as int);
        assert(!has_repeat(vals)) by {
            if has_repeat(vals) {
                assert(has_repeat(self.house_values(h, n)));
                assert(self.has_clash());
            }
        }
        assert forall|p: int, q: int| 0 <= p < ints.len() && 0 <= q < ints.len() && p != q implies ints[p]
            != ints[q] by {
            if ints[p] == ints[q] {
                assert(vals[p].is_some());
                assert(vals[q].is_some());
                assert(vals[p] == vals[q]);
            }
        }
        assert(ints.no_duplicates());
        ints.unique_seq_to_set();
        let range = set_int_range(1, side + 1);
        lemma_int_range(1, side + 1);
        vstd::seq_lib::seq_to_set_is_finite(ints);
        assert forall|x: int| ints.to_set().contains(x) implies range.contains(x) by {
            let k = choose|k: int| 0 <= k < ints.len() && ints[k] == x;
            assert(vals[k].is_some());
        }
        assert(ints.to_set().subset_of(range));
        lemma_subset_equality(ints.to_set(), range);
        assert(range.contains(v as int));
        assert(ints.to_set().contains(v as int));
        let k = choose|k: int| 0 <= k < ints.len() && ints[k] == v as int;
        assert(vals[k] == Some(v));
    }

    /// What a solution puts into an empty cell of the puzzle, no cell of the
    /// puzzle in a house of that cell holds.
    pub proof fn lemma_no_peer_holds(self, s: Grid, h: House, i: int)
        requires
            self.wf(),
            s.solution_of(self),
            0 <= i < self.cells.len(),
            self.cells[i].is_none(),
        ensures
            s.cells[i].is_some(),
            !self.house_values(h, house_of(self.base, h, i)).contains(s.cells[i]),
    {
        self.lemma_positive();
        lemma_count_empty_zero(s.cells);
        let base = self.base;
        let n = house_of(base, h, i);
        let m = slot_of(base, h, i);
        lemma_house_of(base, h, i);
        let vals = self.house_values(h, n);
        if vals.contains(s.cells[i]) {
            let k = choose|k: int| 0 <= k < vals.len() && vals[k] == s.cells[i];
            lemma_house_cell(base, h, n, k);
            let d = house_cell(base, h, n, k);
            assert(self.cells[d] == s.cells[i]);
            assert(s.cells[d] == self.cells[d]);
            assert(k != m);
            let full = s.house_values(h, n);
            assert(full[k] == s.cells[d]);
            assert(full[m] == s.cells[i]);
            assert(has_repeat(full));
            assert(s.has_clash());
        }
    }

    /// What a solution puts into an empty cell of the puzzle is a candidate
    /// of that cell.
    pub proof fn lemma_solution_is_candidate(self, s: Grid, i: int)
        requires
            self.wf(),
            s.solution_of(self),
            0 <= i < self.cells.len(),
            self.cells[i].is_none(),
        ensures
            s.cells[i].is_some(),
            self.candidates(i).contains(s.cells[i].unwrap()),
            self.hints().at(i).contains(s.cells[i].unwrap()),
    {
        self.lemma_no_peer_holds(s, House::Row, i);
        self.lemma_no_peer_holds(s, House::Column, i);
        self.lemma_no_peer_holds(s, House::Block, i);
        let v = s.cells[i].unwrap();
        assert(s.value_ok(s.cells[i]));
        self.lemma_candidates(i, v);
    }

    /// A hidden single is what every solution puts into the cell.
    pub proof fn lemma_hidden_single_sound(self, s: Grid, h: House, i: int)
        requires
            self.wf(),
            s.solution_of(self),
            self.hints().hidden_single(h, i).is_some(),
        ensures
            0 <= i < self.cells.len(),
            s.cells[i] == self.hints().hidden_single(h, i),
    {
        let hints = self.hints();
        let base = self.base;
        let n = house_of(base, h, i);
        let others = house_cells(base, h, n);
        let own = hints.at(i);
        let rest = hints.unshared(h, i);
        let v = rest[0];
        assert(rest.contains(v));
        crate::solver::lemma_filter_members(own, hints.only_here(others, i), v);
        self.lemma_hinted_cell(i);
        self.lemma_positive();
        lemma_house_of(base, h, i);
        self.lemma_candidates(i, v);
        self.lemma_solution_is_candidate(s, i);
        if s.cells[i] != Some(v) {
            s.lemma_house_full(h, n, v);
            let full = s.house_values(h, n);
            let k = choose|k: int| 0 <= k < full.len() && full[k] == Some(v);
            lemma_house_cell(base, h, n, k);
            let d = house_cell(base, h, n, k);
            assert(s.cells[d] == Some(v));
            assert(d != i);
            if self.cells[d].is_some() {
                assert(s.cells[d] == self.cells[d]);
                assert(self.house_values(h, n)[k] == Some(v));
                assert(self.house_values(h, n).contains(Some(v)));
            } else {
                self.lemma_solution_is_candidate(s, d);
                assert(others[k] == d);
                assert(hints.listed_among(others, i, v));
            }
        }
    }

    /// A forced value is what every solution puts into the cell.
    pub proof fn lemma_answer_sound(self, s: Grid, i: int)
        requires
            self.wf(),
            s.solution_of(self),
            self.deduce(i).is_some(),
        ensures
            0 <= i < self.cells.len(),
            self.cells[i].is_none(),
            s.cells[i] == self.deduce(i),
    {
        let hints = self.hints();
        self.lemma_hinted_cell(i);
        if hints.at(i).len() == 1 {
            self.lemma_solution_is_candidate(s, i);
            let v = s.cells[i].unwrap();
            let k = choose|k: int| 0 <= k < hints.at(i).len() && hints.at(i)[k] == v;
            assert(k == 0);
        } else if hints.hidden_single(House::Row, i).is_some() {
            self.lemma_hidden_single_sound(s, House::Row, i);
        } else if hints.hidden_single(House::Column, i).is_some() {
            self.lemma_hidden_single_sound(s, House::Column, i);
        } else {
            self.lemma_hidden_single_sound(s, House::Block, i);
        }
    }

    /// A hidden single found column first is what every solution puts into
    /// the cell.
    pub proof fn lemma_ordered_answer_sound(self, s: Grid, i: int)
        requires
            self.wf(),
            s.solution_of(self),
            self.hints().ordered_answer(i).is_some(),
        ensures
            0 <= i < self.cells.len(),
            self.cells[i].is_none(),
            s.cells[i] == self.hints().ordered_answer(i),
    {
        let hints = self.hints();
        if hints.hidden_single(House::Column, i).is_some() {
            self.lemma_hidden_single_sound(s, House::Column, i);
            self.lemma_hidden_single_is_candidate(House::Column, i);
        } else if hints.hidden_single(House::Row, i).is_some() {
            self.lemma_hidden_single_sound(s, House::Row, i);
            self.lemma_hidden_single_is_candidate(House::Row, i);
        } else {
            self.lemma_hidden_single_sound(s, House::Block, i);
            self.lemma_hidden_single_is_candidate(House::Block, i);
        }
    }

    /// A grid with a solution is not invalid, and is the solution itself
    /// when it is full.
    pub proof fn lemma_solvable_is_valid(self, s: Grid)
        requires
            self.wf(),
            s.solution_of(self),
        ensures
            self.status() != BoardStatus::Invalid,
            self.remaining() == 0 ==> self == s,
    {
        if self.has_clash() {
            let (h, n) = choose|h: House, n: int|
                0 <= n < self.side() && has_repeat(#[trigger] self.house_values(h, n));
            let vals = self.house_values(h, n);
            let (p, q) = choose|p: int, q: int|
                #![trigger vals[p], vals[q]]
                0 <= p < vals.len() && 0 <= q < vals.len() && p != q && vals[p].is_some() && vals[p]
                    == vals[q];
            if self.cells.len() == 0 {
                assert(self.side() * self.side() == 0);
                assert(self.side() == 0) by (nonlinear_arith)
                    requires
                        self.side() * self.side() == 0,
                ;
            }
            self.lemma_positive();
            lemma_house_cell(self.base, h, n, p);
            lemma_house_cell(self.base, h, n, q);
            let full = s.house_values(h, n);
            assert(full[p] == vals[p]);
            assert(full[q] == vals[q]);
            assert(has_repeat(full));
            assert(s.has_clash());
        }
        if self.remaining() != 0 && self.is_stuck() {
            let i = choose|i: int|
                0 <= i < self.cells.len() && self.cells[i].is_none() && (#[trigger] self.candidates(
                    i,
                )).len() == 0;
            self.lemma_solution_is_candidate(s, i);
        }
        if self.remaining() == 0 {
            lemma_count_empty_zero(self.cells);
            assert(self.cells =~= s.cells);
        }
    }

    /// A sweep has the solutions of the grid it started from, no more and
    /// no fewer.
    pub proof fn lemma_sweep_solutions(self, s: Grid)
        requires
            self.wf(),
        ensures
            s.solution_of(self) <==> s.solution_of(self.sweep()),
    {
        let next = self.sweep();
        self.lemma_sweep();
        if s.solution_of(self) {
            assert forall|i: int| 0 <= i < next.cells.len() && next.cells[i].is_some() implies #[trigger] s.cells[i]
                == next.cells[i] by {
                if self.cells[i].is_none() {
                    self.lemma_answer_sound(s, i);
                } else {
                    assert(s.cells[i] == self.cells[i]);
                }
            }
        }
        if s.solution_of(next) {
            self.lemma_extended_twice(next, s);
        }
    }

    /// Sweeping to the end keeps the grid well formed and its filled cells.
    pub proof fn lemma_sweep_to_end(self)
        requires
            self.wf(),
        ensures
            self.sweep_to_end().wf(),
            self.extended_by(self.sweep_to_end()),
            self.sweep_to_end().remaining() <= self.remaining(),
        decreases self.remaining(),
    {
        let next = self.sweep();
        self.lemma_sweep();
        if !next.status().finished() && next.remaining() < self.remaining() {
            next.lemma_sweep_to_end();
            self.lemma_extended_twice(next, next.sweep_to_end());
        }
    }

    /// Sweeping to the end has the solutions of the grid it started from.
    pub proof fn lemma_sweep_to_end_solutions(self, s: Grid)
        requires
            self.wf(),
        ensures
            s.solution_of(self) <==> s.solution_of(self.sweep_to_end()),
        decreases self.remaining(),
    {
        let next = self.sweep();
        self.lemma_sweep();
        self.lemma_sweep_solutions(s);
        if !next.status().finished() && next.remaining() < self.remaining() {
            next.lemma_sweep_to_end_solutions(s);
        }
    }

    /// What `solve_standard` makes of a grid is well formed, keeps the
    /// filled cells, and has the same solutions.
    pub proof fn lemma_solve_standard(self, s: Grid)
        requires
            self.wf(),
        ensures
            self.solve_standard().wf(),
            self.extended_by(self.solve_standard()),
            self.solve_standard().remaining() <= self.remaining(),
            s.solution_of(self) <==> s.solution_of(self.solve_standard()),
    {
        if !self.status().finished() {
            self.lemma_sweep_to_end();
            self.lemma_sweep_to_end_solutions(s);
        }
    }
}


impl Grid {
    /// One scan of the ordered solver keeps the grid well formed and its
    /// filled cells, and has the solutions of the grid it started from.
    pub proof fn lemma_ordered_step(self, s: Grid)
        requires
            self.wf(),
        ensures
            self.ordered_step().0.wf(),
            self.extended_by(self.ordered_step().0),
            self.ordered_step().0.remaining() <= self.remaining(),
            s.solution_of(self) <==> s.solution_of(self.ordered_step().0),
    {
        let hints = self.hints();
        let next = self.ordered_step().0;
        if self.has_single() {
            assert forall|i: int| 0 <= i < next.cells.len() implies next.value_ok(
                #[trigger] next.cells[i],
            ) && (self.cells[i].is_some() ==> next.cells[i] == self.cells[i]) by {
                if hints.at(i).len() == 1 {
                    self.lemma_hinted_cell(i);
                } else {
                    assert(self.value_ok(self.cells[i]));
                }
            }
            if s.solution_of(self) {
                assert forall|i: int|
                    0 <= i < next.cells.len() && next.cells[i].is_some() implies #[trigger] s.cells[i]
                    == next.cells[i] by {
                    if hints.at(i).len() == 1 {
                        self.lemma_hinted_cell(i);
                        self.lemma_solution_is_candidate(s, i);
                        let v = s.cells[i].unwrap();
                        let k = choose|k: int| 0 <= k < hints.at(i).len() && hints.at(i)[k] == v;
                        assert(k == 0);
                    } else {
                        assert(s.cells[i] == self.cells[i]);
                    }
                }
            }
        } else if exists|i: int| hints.leads(i) {
            let i = choose|i: int| hints.leads(i);
            if hints.hidden_single(House::Column, i).is_some() {
                self.lemma_hidden_single_is_candidate(House::Column, i);
            } else if hints.hidden_single(House::Row, i).is_some() {
                self.lemma_hidden_single_is_candidate(House::Row, i);
            } else {
                self.lemma_hidden_single_is_candidate(House::Block, i);
            }
            assert forall|j: int| 0 <= j < next.cells.len() implies next.value_ok(
                #[trigger] next.cells[j],
            ) by {
                if j != i {
                    assert(self.value_ok(self.cells[j]));
                }
            }
            if s.solution_of(self) {
                self.lemma_ordered_answer_sound(s, i);
                assert forall|j: int|
                    0 <= j < next.cells.len() && next.cells[j].is_some() implies #[trigger] s.cells[j]
                    == next.cells[j] by {
                    if j != i {
                        assert(s.cells[j] == self.cells[j]);
                    }
                }
            }
        }
        lemma_count_empty_monotone(self.cells, next.cells);
        if s.solution_of(next) {
            self.lemma_extended_twice(next, s);
        }
    }

    /// Scanning to the end keeps the grid well formed and its filled cells,
    /// and has the solutions of the grid it started from.
    pub proof fn lemma_ordered_to_end(self, s: Grid)
        requires
            self.wf(),
        ensures
            self.ordered_to_end().wf(),
            self.extended_by(self.ordered_to_end()),
            self.ordered_to_end().remaining() <= self.remaining(),
            s.solution_of(self) <==> s.solution_of(self.ordered_to_end()),
        decreases self.remaining(),
    {
        let (next, again) = self.ordered_step();
        self.lemma_ordered_step(s);
        if again && next.remaining() < self.remaining() {
            next.lemma_ordered_to_end(s);
            self.lemma_extended_twice(next, next.ordered_to_end());
        }
    }

    /// What `solve_ordered` makes of a grid is well formed, keeps the filled
    /// cells, and has the same solutions.
    pub proof fn lemma_solve_ordered(self, s: Grid)
        requires
            self.wf(),
        ensures
            self.solve_ordered().wf(),
            self.extended_by(self.solve_ordered()),
            self.solve_ordered().remaining() <= self.remaining(),
            s.solution_of(self) <==> s.solution_of(self.solve_ordered()),
    {
        if !self.status().finished() {
            self.lemma_ordered_to_end(s);
        }
    }
}


impl Grid {
    /// A grid in which two cells of one house hold the same value is
    /// invalid.
    pub proof fn lemma_repeat_is_invalid(self, h: House, i: int, j: int)
        requires
            self.wf(),
            0 <= i < self.cells.len(),
            0 <= j < self.cells.len(),
            i != j,
            house_of(self.base, h, i) == house_of(self.base, h, j),
            self.cells[i].is_some(),
            self.cells[i] == self.cells[j],
        ensures
            self.status() == BoardStatus::Invalid,
    {
        self.lemma_positive();
        let base = self.base;
        let n = house_of(base, h, i);
        lemma_house_of(base, h, i);
        lemma_house_of(base, h, j);
        let p = slot_of(base, h, i);
        let q = slot_of(base, h, j);
        let vals = self.house_values(h, n);
        assert(vals[p] == self.cells[i]);
        assert(vals[q] == self.cells[j]);
        assert(has_repeat(vals));
        assert(self.has_clash());
    }
}

} // verus!
