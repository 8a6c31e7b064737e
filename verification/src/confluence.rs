//! The solvers that only fill in forced values end on the same grid,
//! whatever the order in which they fill, as long as the grid has a solution.

use vstd::prelude::*;
use crate::geometry::{House, house_cell, house_cells, house_of, lemma_house_cell, lemma_house_of};
use crate::grid::{Grid, lemma_count_empty_monotone, lemma_count_empty_zero};
use crate::search::value_range_filter_len;
use crate::solver::lemma_filter_members;

verus! {

impl Grid {
    /// Nothing is forced on any cell.
    pub open spec fn at_rest(self) -> bool {
        forall|i: int| (#[trigger] self.deduce(i)).is_none()
    }

    /// A full grid is at rest.
    pub proof fn lemma_full_at_rest(self)
        requires
            self.remaining() == 0,
        ensures
            self.at_rest(),
    {
        lemma_count_empty_zero(self.cells);
        assert forall|i: int| (#[trigger] self.deduce(i)).is_none() by {
            assert(!self.hints().lists.contains_key(i));
        }
    }

    /// A grid that keeps the filled cells of another leaves each of its
    /// empty cells no candidate that the other does not leave it.
    pub proof fn lemma_candidates_shrink(self, later: Grid, i: int, v: i32)
        requires
            self.wf(),
            later.wf(),
            self.extended_by(later),
            0 <= i < self.cells.len(),
            later.candidates(i).contains(v),
        ensures
            self.candidates(i).contains(v),
    {
        self.lemma_positive();
        later.lemma_candidates(i, v);
        self.lemma_candidates(i, v);
        let base = self.base;
        assert forall|h: House|
            self.house_values(h, house_of(base, h, i)).contains(Some(v)) implies later.house_values(
            h,
            house_of(base, h, i),
        ).contains(Some(v)) by {
            let n = house_of(base, h, i);
            lemma_house_of(base, h, i);
            let vals = self.house_values(h, n);
            let k = choose|k: int| 0 <= k < vals.len() && vals[k] == Some(v);
            lemma_house_cell(base, h, n, k);
            let d = house_cell(base, h, n, k);
            assert(later.cells[d] == self.cells[d]);
            assert(later.house_values(h, n)[k] == Some(v));
        }
        assert(!later.house_values(House::Row, house_of(base, House::Row, i)).contains(Some(v)));
        assert(!later.house_values(House::Column, house_of(base, House::Column, i)).contains(
            Some(v),
        ));
        assert(!later.house_values(House::Block, house_of(base, House::Block, i)).contains(Some(v)));
    }

    /// A value that another cell of the house lists on the later grid, that
    /// cell lists on the earlier grid too.
    pub proof fn lemma_listed_shrinks(self, later: Grid, h: House, i: int, v: i32)
        requires
            self.wf(),
            later.wf(),
            self.extended_by(later),
            0 <= i < self.cells.len(),
            later.hints().listed_among(
                house_cells(self.base, h, house_of(self.base, h, i)),
                i,
                v,
            ),
        ensures
            self.hints().listed_among(house_cells(self.base, h, house_of(self.base, h, i)), i, v),
    {
        let others = house_cells(self.base, h, house_of(self.base, h, i));
        let k = choose|k: int|
            0 <= k < others.len() && #[trigger] others[k] != i && later.hints().at(
                others[k],
            ).contains(v);
        let d = others[k];
        assert(later.hints().lists.contains_key(d));
        assert(self.cells[d].is_none()) by {
            if self.cells[d].is_some() {
                assert(later.cells[d] == self.cells[d]);
            }
        }
        self.lemma_candidates_shrink(later, d, v);
        assert(self.hints().at(d).contains(v));
    }

    /// On a grid with a solution, an empty cell has a hidden single in a
    /// house exactly when no other cell of the house lists what the solution
    /// puts into the cell.
    pub proof fn lemma_hidden_single_when(self, s: Grid, h: House, i: int)
        requires
            self.wf(),
            s.solution_of(self),
            0 <= i < self.cells.len(),
            self.cells[i].is_none(),
        ensures
            s.cells[i].is_some(),
            self.hints().hidden_single(h, i).is_some() <==> !self.hints().listed_among(
                house_cells(self.base, h, house_of(self.base, h, i)),
                i,
                s.cells[i].unwrap(),
            ),
    {
        let hints = self.hints();
        let base = self.base;
        let n = house_of(base, h, i);
        let others = house_cells(base, h, n);
        let own = hints.at(i);
        let test = hints.only_here(others, i);
        let rest = hints.unshared(h, i);
        self.lemma_solution_is_candidate(s, i);
        let v = s.cells[i].unwrap();
        self.lemma_positive();
        lemma_house_of(base, h, i);
        if hints.hidden_single(h, i).is_some() {
            self.lemma_hidden_single_sound(s, h, i);
            assert(rest[0] == v);
            assert(rest.contains(v));
            lemma_filter_members(own, test, v);
        }
        if !hints.listed_among(others, i, v) {
            lemma_filter_members(own, test, v);
            assert(rest.contains(v));
            value_range_filter_len(self, i);
            crate::search::lemma_filter_distinct(own, test);
            assert forall|k: int| 0 <= k < rest.len() implies rest[k] == v by {
                let w = rest[k];
                assert(rest.contains(w));
                lemma_filter_members(own, test, w);
                if w != v {
                    self.lemma_candidates(i, w);
                    s.lemma_house_full(h, n, w);
                    let full = s.house_values(h, n);
                    let m = choose|m: int| 0 <= m < full.len() && full[m] == Some(w);
                    lemma_house_cell(base, h, n, m);
                    let d = house_cell(base, h, n, m);
                    assert(s.cells[d] == Some(w));
                    assert(d != i);
                    if self.cells[d].is_some() {
                        assert(s.cells[d] == self.cells[d]);
                        assert(self.house_values(h, n)[m] == Some(w));
                        assert(self.house_values(h, n).contains(Some(w)));
                    } else {
                        self.lemma_solution_is_candidate(s, d);
                        assert(others[m] == d);
                        assert(hints.listed_among(others, i, w));
                    }
                }
            }
            if rest.len() >= 2 {
                assert(rest[0] == rest[1]);
            }
        }
    }

    /// What is forced on a cell of a grid stays forced on every later grid
    /// with the same solution in which the cell is still empty.
    pub proof fn lemma_still_forced(self, later: Grid, s: Grid, i: int)
        requires
            self.wf(),
            later.wf(),
            self.extended_by(later),
            s.solution_of(later),
            self.deduce(i).is_some(),
            0 <= i < later.cells.len(),
            later.cells[i].is_none(),
        ensures
            later.deduce(i).is_some(),
    {
        let base = self.base;
        self.lemma_extended_twice(later, s);
        assert(s.solution_of(self));
        assert(self.cells[i].is_none()) by {
            if self.cells[i].is_some() {
                assert(later.cells[i] == self.cells[i]);
            }
        }
        later.lemma_solution_is_candidate(s, i);
        let v = s.cells[i].unwrap();
        let own = self.hints().at(i);
        let narrowed = later.hints().at(i);
        if narrowed.len() != 1 {
            if own.len() == 1 {
                value_range_filter_len(later, i);
                assert forall|k: int| 0 <= k < narrowed.len() implies narrowed[k] == own[0] by {
                    assert(narrowed.contains(narrowed[k]));
                    self.lemma_candidates_shrink(later, i, narrowed[k]);
                    let m = choose|m: int| 0 <= m < own.len() && own[m] == narrowed[k];
                }
                assert(narrowed[0] == narrowed[1]);
            } else {
                let h = if self.hints().hidden_single(House::Row, i).is_some() {
                    House::Row
                } else if self.hints().hidden_single(House::Column, i).is_some() {
                    House::Column
                } else {
                    House::Block
                };
                self.lemma_hidden_single_when(s, h, i);
                later.lemma_hidden_single_when(s, h, i);
                if later.hints().listed_among(house_cells(base, h, house_of(base, h, i)), i, v) {
                    self.lemma_listed_shrinks(later, h, i, v);
                }
                assert(later.hints().hidden_single(h, i).is_some());
            }
        }
    }

    /// A sweep fills nothing that a later grid at rest with the same
    /// solution has not filled.
    pub proof fn lemma_sweep_stays_within(self, rest: Grid, s: Grid)
        requires
            self.wf(),
            rest.wf(),
            self.extended_by(rest),
            s.solution_of(rest),
            rest.at_rest(),
        ensures
            self.sweep().extended_by(rest),
    {
        let next = self.sweep();
        self.lemma_extended_twice(rest, s);
        assert forall|i: int| 0 <= i < next.cells.len() && next.cells[i].is_some() implies #[trigger] rest.cells[i]
            == next.cells[i] by {
            if self.cells[i].is_some() {
                assert(rest.cells[i] == self.cells[i]);
            } else {
                self.lemma_answer_sound(s, i);
                if rest.cells[i].is_none() {
                    self.lemma_still_forced(rest, s, i);
                    assert(rest.deduce(i).is_none());
                }
                assert(s.cells[i] == rest.cells[i]);
            }
        }
    }

    /// Sweeping to the end fills nothing that a later grid at rest with the
    /// same solution has not filled.
    pub proof fn lemma_sweep_to_end_stays_within(self, rest: Grid, s: Grid)
        requires
            self.wf(),
            rest.wf(),
            self.extended_by(rest),
            s.solution_of(rest),
            rest.at_rest(),
        ensures
            self.sweep_to_end().extended_by(rest),
        decreases self.remaining(),
    {
        let next = self.sweep();
        self.lemma_sweep();
        self.lemma_sweep_stays_within(rest, s);
        if !next.status().finished() && next.remaining() < self.remaining() {
            next.lemma_sweep_to_end_stays_within(rest, s);
        }
    }

    /// One scan of the ordered solver fills nothing that a later grid at
    /// rest with the same solution has not filled.
    pub proof fn lemma_ordered_step_stays_within(self, rest: Grid, s: Grid)
        requires
            self.wf(),
            rest.wf(),
            self.extended_by(rest),
            s.solution_of(rest),
            rest.at_rest(),
        ensures
            self.ordered_step().0.extended_by(rest),
    {
        let hints = self.hints();
        let next = self.ordered_step().0;
        self.lemma_extended_twice(rest, s);
        self.lemma_ordered_step(s);
        assert forall|i: int| 0 <= i < next.cells.len() && next.cells[i].is_some() implies #[trigger] rest.cells[i]
            == next.cells[i] by {
            if self.cells[i].is_some() {
                assert(next.cells[i] == self.cells[i]);
                assert(rest.cells[i] == self.cells[i]);
            } else {
                assert(s.cells[i] == next.cells[i]);
                if rest.cells[i].is_none() {
                    self.lemma_filled_was_forced(i);
                    self.lemma_still_forced(rest, s, i);
                    assert(rest.deduce(i).is_none());
                }
                assert(s.cells[i] == rest.cells[i]);
            }
        }
    }

    /// A cell that one scan of the ordered solver fills had a value forced
    /// on it.
    pub proof fn lemma_filled_was_forced(self, i: int)
        requires
            self.wf(),
            0 <= i < self.cells.len(),
            self.cells[i].is_none(),
            self.ordered_step().0.cells[i].is_some(),
        ensures
            self.deduce(i).is_some(),
    {
        let hints = self.hints();
        if self.has_single() {
            assert(hints.at(i).len() == 1);
        } else {
            let j = choose|j: int| hints.leads(j);
            assert(i == j);
            assert(hints.ordered_answer(i).is_some());
            assert(hints.at(i).len() > 1) by {
                if hints.at(i).len() == 1 {
                    assert(self.has_single());
                }
            }
        }
    }

    /// Scanning to the end fills nothing that a later grid at rest with the
    /// same solution has not filled.
    pub proof fn lemma_ordered_to_end_stays_within(self, rest: Grid, s: Grid)
        requires
            self.wf(),
            rest.wf(),
            self.extended_by(rest),
            s.solution_of(rest),
            rest.at_rest(),
        ensures
            self.ordered_to_end().extended_by(rest),
        decreases self.remaining(),
    {
        let (next, again) = self.ordered_step();
        self.lemma_ordered_step(s);
        self.lemma_ordered_step_stays_within(rest, s);
        if again && next.remaining() < self.remaining() {
            next.lemma_ordered_to_end_stays_within(rest, s);
        }
    }

    /// A grid with a solution that a sweep leaves as it is, is at rest.
    pub proof fn lemma_sweep_to_end_rests(self, s: Grid)
        requires
            self.wf(),
            s.solution_of(self),
        ensures
            self.sweep_to_end().at_rest(),
        decreases self.remaining(),
    {
        let next = self.sweep();
        self.lemma_sweep();
        self.lemma_sweep_solutions(s);
        if !next.status().finished() && next.remaining() < self.remaining() {
            next.lemma_sweep_to_end_rests(s);
        } else if next.status().finished() {
            next.lemma_solvable_is_valid(s);
            next.lemma_full_at_rest();
        } else {
            lemma_count_empty_monotone(self.cells, next.cells);
            assert forall|i: int| 0 <= i < self.cells.len() implies self.cells[i]
                == next.cells[i] by {
                if self.cells[i].is_some() {
                    assert(next.cells[i] == self.cells[i]);
                }
            }
            assert(self.cells =~= next.cells);
            assert forall|i: int| (#[trigger] next.deduce(i)).is_none() by {
                if self.deduce(i).is_some() {
                    self.lemma_deduced_is_candidate(i);
                    assert(next.cells[i] == self.deduce(i));
                }
            }
        }
    }

    /// Among the cells with a hidden single, one comes first.
    pub proof fn lemma_some_cell_leads(self, i: int)
        requires
            self.wf(),
            self.hints().at(i).len() > 0,
            self.hints().ordered_answer(i).is_some(),
        ensures
            exists|j: int| self.hints().leads(j),
        decreases self.hints().at(i).len(), i,
    {
        let hints = self.hints();
        self.lemma_hinted_cell(i);
        if !hints.leads(i) {
            let j = choose|j: int|
                hints.at(j).len() > 0 && hints.before(j, i) && !(#[trigger] hints.ordered_answer(
                    j,
                )).is_none();
            self.lemma_hinted_cell(j);
            self.lemma_some_cell_leads(j);
        }
    }

    /// A scan that asks for another scan has filled a cell.
    pub proof fn lemma_scan_again_fills(self)
        requires
            self.wf(),
            self.ordered_step().1,
        ensures
            self.ordered_step().0.remaining() < self.remaining(),
    {
        let hints = self.hints();
        let next = self.ordered_step().0;
        self.lemma_ordered_step(self);
        lemma_count_empty_monotone(self.cells, next.cells);
        if self.has_single() {
            let i = choose|i: int| (#[trigger] self.hints().at(i)).len() == 1;
            self.lemma_hinted_cell(i);
            assert(next.cells[i].is_some());
        } else {
            let i = choose|i: int| hints.leads(i);
            self.lemma_hinted_cell(i);
            if hints.hidden_single(House::Column, i).is_some() {
                self.lemma_hidden_single_is_candidate(House::Column, i);
            } else if hints.hidden_single(House::Row, i).is_some() {
                self.lemma_hidden_single_is_candidate(House::Row, i);
            } else {
                self.lemma_hidden_single_is_candidate(House::Block, i);
            }
            assert(next.cells[i].is_some());
        }
    }

    /// Scanning a grid with a solution to the end leaves it at rest.
    pub proof fn lemma_ordered_to_end_rests(self, s: Grid)
        requires
            self.wf(),
            s.solution_of(self),
        ensures
            self.ordered_to_end().at_rest(),
        decreases self.remaining(),
    {
        let hints = self.hints();
        let (next, again) = self.ordered_step();
        self.lemma_ordered_step(s);
        if again {
            self.lemma_scan_again_fills();
            next.lemma_ordered_to_end_rests(s);
        } else if self.has_single() {
            assert forall|i: int| 0 <= i < next.cells.len() implies next.cells[i].is_some() by {
                if self.cells[i].is_none() {
                    self.lemma_solution_is_candidate(s, i);
                    assert(hints.at(i).len() > 0);
                    if hints.at(i).len() > 1 {
                        assert(self.has_choice());
                    }
                } else {
                    assert(next.cells[i] == self.cells[i]);
                }
            }
            lemma_count_empty_zero(next.cells);
            next.lemma_full_at_rest();
        } else {
            assert forall|i: int| (#[trigger] self.deduce(i)).is_none() by {
                if self.deduce(i).is_some() {
                    if hints.at(i).len() == 1 {
                        assert(self.has_single());
                    } else {
                        assert(hints.ordered_answer(i).is_some());
                        self.lemma_some_cell_leads(i);
                    }
                }
            }
        }
    }

    /// The sweeping solvers and the ordered solver end on the same grid
    /// when the grid they start from has a solution: `solve_standard` and
    /// `solve_parallel`, which make the same grid of every board, and
    /// `solve_ordered` agree on every such board.
    pub proof fn lemma_solvers_agree(self)
        requires
            self.wf(),
            self.solvable(),
        ensures
            self.solve_standard() == self.solve_ordered(),
    {
        let s = choose|s: Grid| #[trigger] s.solution_of(self);
        let swept = self.solve_standard();
        let scanned = self.solve_ordered();
        self.lemma_solve_standard(s);
        self.lemma_solve_ordered(s);
        self.lemma_solvable_is_valid(s);
        if self.status().finished() {
        } else {
            self.lemma_sweep_to_end_rests(s);
            self.lemma_ordered_to_end_rests(s);
            self.lemma_sweep_to_end_stays_within(scanned, s);
            self.lemma_ordered_to_end_stays_within(swept, s);
            assert forall|i: int| 0 <= i < swept.cells.len() implies swept.cells[i]
                == scanned.cells[i] by {
                if swept.cells[i].is_some() {
                    assert(scanned.cells[i] == swept.cells[i]);
                } else if scanned.cells[i].is_some() {
                    assert(swept.cells[i] == scanned.cells[i]);
                }
            }
            assert(swept.cells =~= scanned.cells);
        }
    }
}

} // verus!
