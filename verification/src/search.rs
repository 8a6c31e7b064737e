//! Backtracking search: where filling in forced values stalls, try the
//! candidates of the cells with the fewest of them.

use vstd::prelude::*;
use crate::board::{Board, Pos, SquareType};
use crate::branching::{
    Scan,
    Trial,
    ahead,
    entry_from,
    filled,
    fullest,
    lemma_ahead_next,
    lemma_ahead_pass,
    lemma_ahead_start,
    lemma_min_count,
    lemma_scan_skips,
    ordered_for,
    search_each,
    views,
};
use crate::grid::Grid;
use crate::hintmap::{HintMap, has_entry};
use crate::pool::explore_on_pool;
use crate::solver::BoardStatus;

verus! {

/// What came of trying the candidates of one cell.
pub struct Attempts {
    /// A branch that filling in forced values solved, if there was one.
    pub solved: Option<Board>,
    /// The branches that are neither solved nor invalid, in the order in
    /// which they were tried; empty where a branch was solved.
    pub working: Vec<Board>,
}

/// The attempts and the banned pairs, as the outcome of the trials at a cell.
pub open spec fn trial_of(attempts: Attempts, banned: Seq<(Pos, SquareType)>) -> Trial {
    Trial {
        solved: match attempts.solved {
            Some(board) => Some(board@),
            None => None,
        },
        working: views(attempts.working@),
        banned,
    }
}

/// A candidate on trial: a copy of the board, the cell and the value to put
/// there, and, once `explore` has run, what became of the copy.
pub struct Branch {
    /// The cell on trial.
    pub ind: Pos,
    /// The value on trial.
    pub val: SquareType,
    /// The copy of the board.
    pub board: Board,
    /// The status of the copy.
    pub status: BoardStatus,
}

/// The branch can be explored: its value can be set in its cell.
pub open spec fn ready(branch: Branch) -> bool {
    &&& branch.board.wf()
    &&& branch.ind < branch.board.num_squares
    &&& 1 <= branch.val <= branch.board.max_value
}

/// `after` is what `explore` makes of `before`.
pub open spec fn explored(before: Branch, after: Branch) -> bool {
    &&& after.ind == before.ind
    &&& after.val == before.val
    &&& after.board.wf()
    &&& after.board@ == before.board@.set(before.ind as int, Some(before.val)).solve_standard()
    &&& after.status == after.board@.status()
}

/// Sets the value of the branch in its cell and fills in what that forces.
pub fn explore(branch: &mut Branch)
    requires
        ready(*old(branch)),
    ensures
        explored(*old(branch), *final(branch)),
{
    let _ = branch.board.set_val(branch.ind, Some(branch.val));
    branch.status = branch.board.solve_parallel();
}

/// Some branch of `branches` tries the value `v`.
pub open spec fn tried(branches: Seq<Branch>, v: SquareType) -> bool {
    exists|k: int| 0 <= k < branches.len() && (#[trigger] branches[k]).val == v
}

/// No solution of `puzzle` puts a banned value into its cell.
pub open spec fn banned_ok(banned: Seq<(Pos, SquareType)>, puzzle: Grid) -> bool {
    forall|s: Grid, k: int|
        0 <= k < banned.len() && #[trigger] s.solution_of(puzzle) ==> s.cells[(
        #[trigger] banned[k]).0 as int] != Some(banned[k].1)
}

/// `s` is a solution of one of `boards`.
pub open spec fn covered(s: Grid, boards: Seq<Board>) -> bool {
    exists|k: int| 0 <= k < boards.len() && s.solution_of(#[trigger] boards[k]@)
}

/// Every board of `boards` is well formed, keeps the filled cells of
/// `puzzle` and has fewer empty cells.
pub open spec fn branches_of(boards: Seq<Board>, puzzle: Grid) -> bool {
    forall|k: int|
        0 <= k < boards.len() ==> (#[trigger] boards[k]).wf() && puzzle.extended_by(boards[k]@)
            && boards[k]@.remaining() < puzzle.remaining()
}

/// Whether the pair of `ind` and `val` is in `banned`.
pub fn is_banned(banned: &Vec<(Pos, SquareType)>, ind: Pos, val: SquareType) -> (found: bool)
    ensures
        found == banned@.contains((ind, val)),
{
    let mut k: usize = 0;
    while k < banned.len()
        invariant
            k <= banned@.len(),
            forall|j: int| 0 <= j < k ==> banned@[j] != (ind, val),
        decreases banned@.len() - k,
    {
        if banned[k].0 == ind && banned[k].1 == val {
            return true;
        }
        k += 1;
    }
    false
}

impl Board {
    /// Tries each value of `vals` that is not banned in the empty cell
    /// `ind`: on a copy of the board the value is set and what it forces is
    /// filled in. A copy that comes out solved ends the trial; one that
    /// comes out invalid has its value banned; the others are kept.
    pub fn try_cell(
        &self,
        ind: Pos,
        vals: &Vec<SquareType>,
        banned: &mut Vec<(Pos, SquareType)>,
    ) -> (attempts: Attempts)
        requires
            self.wf(),
            vals@ == self@.hints().at(ind as int),
            vals@.len() > 0,
            banned_ok(old(banned)@, self@),
            old(banned)@.no_duplicates(),
        ensures
            banned_ok(final(banned)@, self@),
            final(banned)@.no_duplicates(),
            attempts.solved.is_some() ==> attempts.solved.unwrap().wf()
                && attempts.solved.unwrap()@.solution_of(self@),
            attempts.solved.is_none() ==> branches_of(attempts.working@, self@) && forall|s: Grid|
                #[trigger] s.solution_of(self@) ==> covered(s, attempts.working@),
            forall|k: int|
                0 <= k < attempts.working@.len() ==> (#[trigger] attempts.working@[k])@.status()
                    == BoardStatus::Valid,
            trial_of(attempts, final(banned)@) == self@.try_from(
                false,
                ind as int,
                0,
                Seq::empty(),
                old(banned)@,
            ),
    {
        let ghost puzzle = self@;
        let ghost goal = puzzle.try_from(false, ind as int, 0, Seq::empty(), banned@);
        let mut working: Vec<Board> = Vec::new();
        proof {
            puzzle.lemma_hinted_cell(ind as int);
            assert(views(working@) =~= Seq::<Grid>::empty());
        }
        let mut k: usize = 0;
        while k < vals.len()
            invariant
                goal == puzzle.try_from(false, ind as int, 0, Seq::empty(), old(banned)@),
                goal == puzzle.try_from(false, ind as int, k as int, views(working@), banned@),
                vals@ == puzzle.hints().at(ind as int),
                self.wf(),
                puzzle == self@,
                0 <= ind < puzzle.cells.len(),
                puzzle.cells[ind as int].is_none(),
                vals@ == puzzle.candidates(ind as int),
                forall|j: int| 0 <= j < vals@.len() ==> 1 <= #[trigger] vals@[j] <= puzzle.side(),
                k <= vals@.len(),
                banned_ok(banned@, puzzle),
                banned@.no_duplicates(),
                branches_of(working@, puzzle),
                forall|j: int|
                    0 <= j < working@.len() ==> (#[trigger] working@[j])@.status()
                        == BoardStatus::Valid,
                forall|s: Grid, j: int|
                    0 <= j < k && #[trigger] s.solution_of(puzzle) && s.cells[ind as int] == Some(
                        #[trigger] vals@[j],
                    ) ==> covered(s, working@),
            decreases vals@.len() - k,
        {
            let val = vals[k];
            if !is_banned(banned, ind, val) {
                let mut cloned = self.clone();
                let _ = cloned.set_val(ind, Some(val));
                let ghost branch = puzzle.set(ind as int, Some(val));
                assert(cloned@ == branch);
                let status = cloned.solve_ordered();
                proof {
                    puzzle.lemma_set_fills(ind as int, val);
                    assert(puzzle.extended_by(branch));
                    branch.lemma_solve_ordered(branch);
                    puzzle.lemma_extended_twice(branch, cloned@);
                    assert(cloned@.remaining() < puzzle.remaining());
                    assert forall|s: Grid| #[trigger]
                        s.solution_of(branch) implies s.solution_of(cloned@) by {
                        branch.lemma_solve_ordered(s);
                    }
                    assert forall|s: Grid|
                        #[trigger] s.solution_of(puzzle) && s.cells[ind as int] == Some(
                            val,
                        ) implies s.solution_of(cloned@) by {
                        assert forall|i: int|
                            0 <= i < branch.cells.len() && branch.cells[i].is_some() implies #[trigger] s.cells[i]
                            == branch.cells[i] by {
                            if i != ind {
                                assert(s.cells[i] == puzzle.cells[i]);
                            }
                        }
                        assert(s.solution_of(branch));
                    }
                }
                match status {
                    BoardStatus::Valid => {
                        let ghost earlier = working@;
                        working.push(cloned);
                        proof {
                            let last = earlier.len() as int;
                            assert(views(working@) =~= views(earlier).push(cloned@));
                            assert forall|s: Grid| covered(s, earlier) implies covered(
                                s,
                                working@,
                            ) by {
                                let j = choose|j: int|
                                    0 <= j < earlier.len() && s.solution_of(
                                        #[trigger] earlier[j]@,
                                    );
                                assert(working@[j] == earlier[j]);
                            }
                            assert forall|s: Grid, j: int|
                                0 <= j < k + 1 && #[trigger] s.solution_of(puzzle)
                                    && s.cells[ind as int] == Some(
                                    #[trigger] vals@[j],
                                ) implies covered(s, working@) by {
                                if j < k {
                                    assert(covered(s, earlier));
                                } else {
                                    assert(s.solution_of(working@[last]@));
                                }
                            }
                            assert forall|j: int| 0 <= j < working@.len() implies (
                            #[trigger] working@[j]).wf() && puzzle.extended_by(working@[j]@)
                                && working@[j]@.remaining() < puzzle.remaining()
                                && working@[j]@.status() == BoardStatus::Valid by {
                                if j < last {
                                    assert(working@[j] == earlier[j]);
                                }
                            }
                        }
                    },
                    BoardStatus::Solved => {
                        proof {
                            cloned@.lemma_solved_status();
                        }
                        let attempts = Attempts { solved: Some(cloned), working: Vec::new() };
                        assert(views(attempts.working@) =~= Seq::<Grid>::empty());
                        return attempts;
                    },
                    BoardStatus::Invalid => {
                        let ghost earlier = banned@;
                        banned.push((ind, val));
                        proof {
                            assert forall|s: Grid| #[trigger]
                                s.solution_of(puzzle) implies s.cells[ind as int] != Some(val) by {
                                if s.cells[ind as int] == Some(val) {
                                    cloned@.lemma_solvable_is_valid(s);
                                }
                            }
                            assert forall|s: Grid, j: int|
                                0 <= j < banned@.len() && #[trigger] s.solution_of(
                                    puzzle,
                                ) implies s.cells[(#[trigger] banned@[j]).0 as int] != Some(
                                banned@[j].1,
                            ) by {
                                if j < earlier.len() {
                                    assert(banned@[j] == earlier[j]);
                                }
                            }
                            assert forall|i: int, j: int|
                                0 <= i < banned@.len() && 0 <= j < banned@.len() && i
                                    != j implies banned@[i] != banned@[j] by {
                                if i < earlier.len() {
                                    assert(banned@[i] == earlier[i]);
                                }
                                if j < earlier.len() {
                                    assert(banned@[j] == earlier[j]);
                                }
                            }
                        }
                    },
                }
            } else {
                proof {
                    let j = choose|j: int| 0 <= j < banned@.len() && banned@[j] == (ind, val);
                    assert forall|s: Grid| #[trigger]
                        s.solution_of(puzzle) implies s.cells[ind as int] != Some(val) by {
                        assert(s.cells[banned@[j].0 as int] != Some(banned@[j].1));
                    }
                }
            }
            k += 1;
        }
        proof {
            assert forall|s: Grid| #[trigger] s.solution_of(puzzle) implies covered(s, working@) by {
                puzzle.lemma_solution_is_candidate(s, ind as int);
                let v = s.cells[ind as int].unwrap();
                let j = choose|j: int| 0 <= j < vals@.len() && vals@[j] == v;
                assert(s.cells[ind as int] == Some(vals@[j]));
            }
        }
        Attempts { solved: None, working }
    }
}


/// The place of the board with the most filled cells; of several such, the
/// first.
pub fn most_filled(boards: &Vec<Board>) -> (best: usize)
    requires
        boards@.len() > 0,
    ensures
        best < boards@.len(),
        best == fullest(views(boards@)),
{
    let mut best: usize = 0;
    let mut most = boards[0].num_filled();
    let mut k: usize = 1;
    let ghost grids = views(boards@);
    while k < boards.len()
        invariant
            grids == views(boards@),
            1 <= k <= boards@.len(),
            best < k,
            most == filled(grids[best as int]),
            best == fullest(grids.take(k as int)),
        decreases boards@.len() - k,
    {
        let count = boards[k].num_filled();
        proof {
            let longer = grids.take(k + 1);
            assert(longer.drop_last() =~= grids.take(k as int));
            assert(longer.last() == grids[k as int]);
            assert(longer[best as int] == grids[best as int]);
        }
        if count > most {
            best = k;
            most = count;
        }
        k += 1;
    }
    assert(grids.take(boards@.len() as int) =~= grids);
    best
}

impl Board {
    /// Solves the board by search. The forced values are filled in; then,
    /// as long as the board is neither solved nor invalid, the candidates
    /// of the cells with the fewest candidates are tried on copies. A cell
    /// with one live candidate settles the board on that copy; otherwise
    /// the copies are searched in turn, the fullest first.
    ///
    /// Tells whether the board has a solution; if it has, the board is left
    /// as one of its solutions. If it has none, the board is left with the
    /// cells that were filled before and those that the search settled.
    pub fn solve_search(&mut self) -> (found: bool)
        requires
            old(self).wf(),
        ensures
            final(self).wf(),
            (final(self)@, found) == old(self)@.search(false),
            found == old(self)@.solvable(),
            found ==> final(self)@.solution_of(old(self)@),
            old(self)@.extended_by(final(self)@),
    {
        self.search_with(false)
    }

    /// `solve_search` on threads: forced values are filled in by
    /// `solve_parallel`, and the candidates of a cell are tried each on a
    /// thread of its own, all of which have ended before their outcomes are
    /// looked at, in the order of the candidates.
    pub fn solve_search_parallel(&mut self) -> (found: bool)
        requires
            old(self).wf(),
        ensures
            final(self).wf(),
            (final(self)@, found) == old(self)@.search(true),
            found == old(self)@.solvable(),
            found ==> final(self)@.solution_of(old(self)@),
            old(self)@.extended_by(final(self)@),
    {
        self.search_with(true)
    }

    /// The search behind `solve_search` and, with `parallel`, behind
    /// `solve_search_parallel`.
    pub fn search_with(&mut self, parallel: bool) -> (found: bool)
        requires
            old(self).wf(),
        ensures
            final(self).wf(),
            (final(self)@, found) == old(self)@.search(parallel),
            found == old(self)@.solvable(),
            found ==> final(self)@.solution_of(old(self)@),
            old(self)@.extended_by(final(self)@),
        decreases old(self)@.remaining(),
    {
        let ghost origin = self@;
        let first = if parallel {
            self.solve_parallel()
        } else {
            self.solve_ordered()
        };
        proof {
            origin.lemma_solve_ordered(origin);
            origin.lemma_solve_standard(origin);
            assert forall|s: Grid| #[trigger] s.solution_of(origin) <==> s.solution_of(self@) by {
                origin.lemma_solve_ordered(s);
                origin.lemma_solve_standard(s);
            }
            self@.lemma_solved_status();
            assert(self@ == origin.propagate(parallel));
        }
        match first {
            BoardStatus::Solved => {
                assert(self@.solution_of(self@));
                assert(self@.solution_of(origin));
                return true;
            },
            BoardStatus::Invalid => {
                proof {
                    if origin.solvable() {
                        let s = choose|s: Grid| #[trigger] s.solution_of(origin);
                        self@.lemma_solvable_is_valid(s);
                    }
                }
                return false;
            },
            BoardStatus::Valid => {},
        }
        let mut banned: Vec<(Pos, SquareType)> = Vec::new();
        assert(banned@ =~= Seq::<(Pos, SquareType)>::empty());
        loop
            invariant
                origin == old(self)@,
                origin.wf(),
                self.wf(),
                self@.status() == BoardStatus::Valid,
                origin.extended_by(self@),
                self@.remaining() <= origin.remaining(),
                forall|s: Grid| #[trigger] s.solution_of(origin) <==> s.solution_of(self@),
                banned_ok(banned@, self@),
                banned@.no_duplicates(),
                origin.search(parallel) == self@.search_on(parallel, banned@),
            decreases self@.remaining(),
        {
            let ghost puzzle = self@;
            //Build a hint map from the current board state
            let hmap = HintMap::from_board(self);

            //Order the hintmap from lowest number of hints to largest
            let ordered = hmap.get_ordered();
            if ordered.len() < 1 {
                proof {
                    puzzle.lemma_valid_has_hints();
                    let i = choose|i: int| puzzle.hints().at(i).len() > 0;
                    assert(has_entry(ordered@, i));
                }
                return false;
            }
            proof {
                lemma_min_count(puzzle, ordered@);
            }
            match self.scan_cells(parallel, &ordered, &mut banned) {
                Scanned::Found(board) => {
                    proof {
                        origin.lemma_extended_twice(puzzle, board@);
                        assert(board@.solution_of(puzzle));
                        assert(board@.solution_of(origin));
                    }
                    *self = board;
                    return true;
                },
                Scanned::Adopt(board) => {
                    proof {
                        origin.lemma_extended_twice(puzzle, board@);
                    }
                    *self = board;
                },
                Scanned::Fail => {
                    proof {
                        if origin.solvable() {
                            let s = choose|s: Grid| #[trigger] s.solution_of(origin);
                            assert(s.solution_of(puzzle));
                        }
                    }
                    return false;
                },
                Scanned::Done(branches) => {
                    let mut acceptable = branches;
                    let ghost each = search_each(views(acceptable@), parallel, puzzle.remaining());
                    while acceptable.len() > 0
                        invariant
                            origin == old(self)@,
                            origin.wf(),
                            self.wf(),
                            self@ == puzzle,
                            origin.extended_by(puzzle),
                            puzzle.remaining() <= origin.remaining(),
                            forall|s: Grid| #[trigger]
                                s.solution_of(origin) <==> s.solution_of(puzzle),
                            branches_of(acceptable@, puzzle),
                            forall|s: Grid| #[trigger]
                                s.solution_of(puzzle) ==> covered(s, acceptable@),
                            each == search_each(views(acceptable@), parallel, puzzle.remaining()),
                            origin.search(parallel) == match each {
                                Some(solved) => (solved, true),
                                None => (puzzle, false),
                            },
                        decreases acceptable@.len(),
                    {
                        let best = most_filled(&acceptable);
                        let ghost waiting = acceptable@;
                        let mut working_board = acceptable.remove(best);
                        let ghost branch = working_board@;
                        proof {
                            assert(working_board == waiting[best as int]);
                            assert(views(waiting)[best as int] == branch);
                            assert(views(acceptable@) =~= views(waiting).remove(best as int));
                        }
                        if working_board.search_with(parallel) {
                            proof {
                                puzzle.lemma_extended_twice(branch, working_board@);
                                origin.lemma_extended_twice(puzzle, working_board@);
                                assert(working_board@.solution_of(puzzle));
                                assert(working_board@.solution_of(origin));
                            }
                            *self = working_board;
                            return true;
                        }
                        proof {
                            assert forall|k: int| 0 <= k < acceptable@.len() implies (
                            #[trigger] acceptable@[k]).wf() && puzzle.extended_by(acceptable@[k]@)
                                && acceptable@[k]@.remaining() < puzzle.remaining() by {
                                if k < best {
                                    assert(acceptable@[k] == waiting[k]);
                                } else {
                                    assert(acceptable@[k] == waiting[k + 1]);
                                }
                            }
                            assert forall|s: Grid| #[trigger]
                                s.solution_of(puzzle) implies covered(s, acceptable@) by {
                                assert(covered(s, waiting));
                                let j = choose|j: int|
                                    0 <= j < waiting.len() && s.solution_of(
                                        #[trigger] waiting[j]@,
                                    );
                                if j < best {
                                    assert(acceptable@[j] == waiting[j]);
                                } else if j > best {
                                    assert(acceptable@[j - 1] == waiting[j]);
                                } else {
                                    assert(branch.solvable());
                                }
                            }
                        }
                    }
                    //If the above for loop has no results
                    proof {
                        assert(views(acceptable@).len() == 0);
                        if origin.solvable() {
                            let s = choose|s: Grid| #[trigger] s.solution_of(origin);
                            assert(s.solution_of(puzzle));
                            assert(covered(s, acceptable@));
                        }
                    }
                    return false;
                },
            }
        }
    }

    /// Goes through the cells with the fewest candidates, in the order of
    /// `ordered`, and tries the candidates of each. A solved branch ends
    /// the scan, and so does a cell with one live branch or with none; the
    /// branches of a cell with several are gathered, the last tried first.
    pub fn scan_cells(
        &self,
        parallel: bool,
        ordered: &Vec<(Pos, Vec<SquareType>)>,
        banned: &mut Vec<(Pos, SquareType)>,
    ) -> (scanned: Scanned)
        requires
            self.wf(),
            ordered_for(ordered@, self@.hints()),
            ordered@.len() > 0,
            banned_ok(old(banned)@, self@),
            old(banned)@.no_duplicates(),
        ensures
            final(banned)@.no_duplicates(),
            scan_of(scanned, final(banned)@) == self@.scan_from(
                parallel,
                self@.min_count(),
                0,
                Seq::empty(),
                old(banned)@,
            ),
            match scanned {
                Scanned::Found(board) => board.wf() && board@.solution_of(self@),
                Scanned::Adopt(board) => board.wf() && self@.extended_by(board@)
                    && board@.remaining() < self@.remaining() && board@.status()
                    == BoardStatus::Valid && banned_ok(final(banned)@, board@) && forall|s: Grid|
                    #[trigger] s.solution_of(self@) <==> s.solution_of(board@),
                Scanned::Fail => !self@.solvable(),
                Scanned::Done(branches) => branches_of(branches@, self@) && forall|s: Grid|
                    #[trigger] s.solution_of(self@) ==> covered(s, branches@),
            },
    {
        let ghost puzzle = self@;
        let ghost hints = puzzle.hints();
        let ghost goal = puzzle.scan_from(
            parallel,
            puzzle.min_count(),
            0,
            Seq::empty(),
            banned@,
        );
        //Minimum number of hints
        let min_hints = ordered[0].1.len();
        let ghost min = min_hints as int;
        let ghost mut cursor: int = 0;
        proof {
            lemma_min_count(puzzle, ordered@);
            lemma_ahead_start(ordered@, hints, min);
        }
        let mut acceptable: Vec<Board> = Vec::new();
        assert(views(acceptable@) =~= Seq::<Grid>::empty());
        let mut p: usize = 0;
        while p < ordered.len()
            invariant
                self.wf(),
                puzzle == self@,
                hints == puzzle.hints(),
                ordered_for(ordered@, hints),
                min == min_hints,
                min_hints == ordered@[0].1@.len(),
                min > 0,
                min == puzzle.min_count(),
                goal == puzzle.scan_from(parallel, min, 0, Seq::empty(), old(banned)@),
                goal == puzzle.scan_from(parallel, min, cursor, views(acceptable@), banned@),
                0 <= cursor <= puzzle.cells.len(),
                ahead(ordered@, hints, min, cursor, p as int),
                p <= ordered@.len(),
                banned_ok(banned@, puzzle),
                banned@.no_duplicates(),
                branches_of(acceptable@, puzzle),
                p > 0 ==> forall|s: Grid| #[trigger]
                    s.solution_of(puzzle) ==> covered(s, acceptable@),
            decreases ordered@.len() - p,
        {
            //Only let us do ones from the min size
            if ordered[p].1.len() == min_hints {
                let ghost here = ordered@[p as int].0 as int;
                let ghost banned_then = banned@;
                let ghost gathered_then = views(acceptable@);
                proof {
                    lemma_ahead_next(ordered@, hints, min, cursor, p as int);
                    puzzle.lemma_hinted_cell(here);
                    lemma_scan_skips(
                        puzzle,
                        parallel,
                        min,
                        cursor,
                        here,
                        gathered_then,
                        banned_then,
                    );
                }
                let attempts = if parallel {
                    self.try_cell_parallel(ordered[p].0, &ordered[p].1, banned)
                } else {
                    self.try_cell(ordered[p].0, &ordered[p].1, banned)
                };
                let ghost trial = trial_of(attempts, banned@);
                assert(trial == puzzle.try_from(parallel, here, 0, Seq::empty(), banned_then));
                let Attempts { solved, working } = attempts;
                match solved {
                    Some(board) => {
                        return Scanned::Found(board);
                    },
                    None => {},
                }
                let mut working = working;
                if working.len() == 1 {
                    let ghost only = working@[0];
                    proof {
                        assert(trial.working[0] == only@);
                        assert forall|s: Grid| #[trigger]
                            s.solution_of(puzzle) <==> s.solution_of(only@) by {
                            if s.solution_of(puzzle) {
                                assert(covered(s, working@));
                            }
                            if s.solution_of(only@) {
                                puzzle.lemma_extended_twice(only@, s);
                            }
                        }
                        assert forall|s: Grid, k: int|
                            0 <= k < banned@.len() && #[trigger] s.solution_of(
                                only@,
                            ) implies s.cells[(#[trigger] banned@[k]).0 as int] != Some(
                            banned@[k].1,
                        ) by {
                            puzzle.lemma_extended_twice(only@, s);
                            assert(s.solution_of(puzzle));
                        }
                    }
                    match working.pop() {
                        Some(board) => {
                            return Scanned::Adopt(board);
                        },
                        None => {},
                    }
                } else if working.len() > 1 {
                    let ghost first_found = working@;
                    let ghost earlier = acceptable@;
                    let ghost target = gathered_then + views(first_found).reverse();
                    assert(views(acceptable@) + views(working@).reverse() =~= target);
                    while working.len() > 0
                        invariant
                            branches_of(acceptable@, puzzle),
                            branches_of(working@, puzzle),
                            views(acceptable@) + views(working@).reverse() == target,
                            forall|s: Grid|
                                covered(s, earlier) || covered(s, first_found) ==> covered(
                                    s,
                                    acceptable@,
                                ) || covered(s, working@),
                        decreases working@.len(),
                    {
                        let ghost left = working@;
                        let ghost gathered = acceptable@;
                        match working.pop() {
                            Some(thing) => {
                                acceptable.push(thing);
                                proof {
                                    let last = gathered.len() as int;
                                    assert(acceptable@[last] == thing);
                                    assert(left[left.len() - 1] == thing);
                                    assert(views(acceptable@) + views(working@).reverse() =~= views(
                                        gathered,
                                    ) + views(left).reverse());
                                    assert forall|s: Grid|
                                        covered(s, gathered) || covered(s, left) implies covered(
                                        s,
                                        acceptable@,
                                    ) || covered(s, working@) by {
                                        if covered(s, gathered) {
                                            let j = choose|j: int|
                                                0 <= j < gathered.len() && s.solution_of(
                                                    #[trigger] gathered[j]@,
                                                );
                                            assert(acceptable@[j] == gathered[j]);
                                        } else {
                                            let j = choose|j: int|
                                                0 <= j < left.len() && s.solution_of(
                                                    #[trigger] left[j]@,
                                                );
                                            if j < left.len() - 1 {
                                                assert(working@[j] == left[j]);
                                            } else {
                                                assert(s.solution_of(acceptable@[last]@));
                                            }
                                        }
                                    }
                                    assert forall|k: int| 0 <= k < acceptable@.len() implies (
                                    #[trigger] acceptable@[k]).wf() && puzzle.extended_by(
                                        acceptable@[k]@,
                                    ) && acceptable@[k]@.remaining() < puzzle.remaining() by {
                                        if k < last {
                                            assert(acceptable@[k] == gathered[k]);
                                        }
                                    }
                                    assert forall|k: int| 0 <= k < working@.len() implies (
                                    #[trigger] working@[k]).wf() && puzzle.extended_by(
                                        working@[k]@,
                                    ) && working@[k]@.remaining() < puzzle.remaining() by {
                                        assert(working@[k] == left[k]);
                                    }
                                }
                            },
                            None => {},
                        }
                    }
                    proof {
                        assert(views(working@).reverse() =~= Seq::<Grid>::empty());
                        assert(views(acceptable@) =~= target);
                        assert forall|s: Grid| #[trigger] s.solution_of(puzzle) implies covered(
                            s,
                            acceptable@,
                        ) by {
                            assert(covered(s, first_found));
                            if covered(s, working@) {
                                let j = choose|j: int|
                                    0 <= j < working@.len() && s.solution_of(
                                        #[trigger] working@[j]@,
                                    );
                            }
                        }
                        cursor = here + 1;
                    }
                } else {
                    proof {
                        if puzzle.solvable() {
                            let s = choose|s: Grid| #[trigger] s.solution_of(puzzle);
                            assert(covered(s, working@));
                        }
                    }
                    return Scanned::Fail;
                }
            } else {
                proof {
                    lemma_ahead_pass(ordered@, hints, min, cursor, p as int);
                }
            }
            p += 1;
        }
        proof {
            assert forall|i: int| cursor <= i < puzzle.cells.len() implies (#[trigger] hints.at(
                i,
            )).len() != min by {
                if hints.at(i).len() == min {
                    assert(entry_from(ordered@, p as int, i));
                }
            }
            lemma_scan_skips(
                puzzle,
                parallel,
                min,
                cursor,
                puzzle.cells.len() as int,
                views(acceptable@),
                banned@,
            );
        }
        Scanned::Done(acceptable)
    }
}

/// What came of going through the cells with the fewest candidates.
pub enum Scanned {
    /// A branch came out solved.
    Found(Board),
    /// A cell had one live branch, from which the search goes on.
    Adopt(Board),
    /// A cell had no live branch.
    Fail,
    /// Every cell had several live branches, gathered here.
    Done(Vec<Board>),
}

/// The outcome of a scan and the banned pairs, as grids.
pub open spec fn scan_of(scanned: Scanned, banned: Seq<(Pos, SquareType)>) -> Scan {
    match scanned {
        Scanned::Found(board) => Scan::Found(board@),
        Scanned::Adopt(board) => Scan::Adopt(board@, banned),
        Scanned::Fail => Scan::Fail,
        Scanned::Done(branches) => Scan::Done(views(branches@), banned),
    }
}

impl Grid {
    /// A valid grid has a cell with a candidate.
    pub proof fn lemma_valid_has_hints(self)
        requires
            self.wf(),
            self.status() == BoardStatus::Valid,
        ensures
            exists|i: int| self.hints().at(i).len() > 0,
    {
        crate::grid::lemma_count_empty_zero(self.cells);
        let i = choose|i: int| 0 <= i < self.cells.len() && !self.cells[i].is_some();
        assert(self.candidates(i).len() != 0);
        assert(self.hints().lists.contains_key(i));
        assert(self.hints().at(i).len() > 0);
    }
}


impl Board {
    /// `try_cell` with every value that is not banned tried on a thread of
    /// its own. The outcomes are looked at when all threads have ended, in
    /// the order of `vals`: a solved copy ends the trial, an invalid one
    /// has its value banned, the others are kept.
    pub fn try_cell_parallel(
        &self,
        ind: Pos,
        vals: &Vec<SquareType>,
        banned: &mut Vec<(Pos, SquareType)>,
    ) -> (attempts: Attempts)
        requires
            self.wf(),
            vals@ == self@.hints().at(ind as int),
            vals@.len() > 0,
            banned_ok(old(banned)@, self@),
            old(banned)@.no_duplicates(),
        ensures
            banned_ok(final(banned)@, self@),
            final(banned)@.no_duplicates(),
            attempts.solved.is_some() ==> attempts.solved.unwrap().wf()
                && attempts.solved.unwrap()@.solution_of(self@),
            attempts.solved.is_none() ==> branches_of(attempts.working@, self@) && forall|s: Grid|
                #[trigger] s.solution_of(self@) ==> covered(s, attempts.working@),
            forall|k: int|
                0 <= k < attempts.working@.len() ==> (#[trigger] attempts.working@[k])@.status()
                    == BoardStatus::Valid,
            trial_of(attempts, final(banned)@) == self@.try_from(
                true,
                ind as int,
                0,
                Seq::empty(),
                old(banned)@,
            ),
    {
        let ghost puzzle = self@;
        let ghost goal = puzzle.try_from(true, ind as int, 0, Seq::empty(), banned@);
        proof {
            puzzle.lemma_hinted_cell(ind as int);
            value_range_filter_len(puzzle, ind as int);
        }
        let mut branches: Vec<Branch> = Vec::new();
        let ghost mut picks: Seq<int> = Seq::empty();
        let mut k: usize = 0;
        while k < vals.len()
            invariant
                picks.len() == branches@.len(),
                forall|j: int|
                    0 <= j < picks.len() ==> 0 <= #[trigger] picks[j] < k && vals@[picks[j]]
                        == branches@[j].val,
                forall|i: int, j: int| 0 <= i < j < picks.len() ==> #[trigger] picks[i] < #[trigger] picks[j],
                forall|i: int|
                    0 <= i < k ==> banned@.contains((ind, #[trigger] vals@[i])) || picks.contains(i),
                self.wf(),
                puzzle == self@,
                0 <= ind < puzzle.cells.len(),
                forall|j: int| 0 <= j < vals@.len() ==> 1 <= #[trigger] vals@[j] <= puzzle.side(),
                k <= vals@.len(),
                branches@.len() <= k,
                forall|j: int|
                    0 <= j < branches@.len() ==> ready(#[trigger] branches@[j]) && branches@[j].ind
                        == ind && branches@[j].board@ == puzzle && !banned@.contains(
                        (ind, branches@[j].val),
                    ),
                forall|j: int|
                    0 <= j < k && !banned@.contains((ind, #[trigger] vals@[j])) ==> tried(
                        branches@,
                        vals@[j],
                    ),
                forall|i: int, j: int|
                    0 <= i < j < branches@.len() ==> (#[trigger] branches@[i]).val != (
                    #[trigger] branches@[j]).val,
                forall|j: int|
                    0 <= j < branches@.len() ==> exists|i: int|
                        0 <= i < k && vals@[i] == (#[trigger] branches@[j]).val,
                vals@.no_duplicates(),
            decreases vals@.len() - k,
        {
            let val = vals[k];
            if !is_banned(banned, ind, val) {
                let ghost earlier = branches@;
                let ghost picked = picks;
                branches.push(Branch { ind, val, board: self.clone(), status: BoardStatus::Valid });
                proof {
                    let last = earlier.len() as int;
                    assert(branches@[last].val == val);
                    picks = picks.push(k as int);
                    assert forall|j: int| 0 <= j < picks.len() implies 0 <= #[trigger] picks[j] < k
                        + 1 && vals@[picks[j]] == branches@[j].val by {
                        if j < last {
                            assert(picks[j] == picked[j]);
                            assert(branches@[j] == earlier[j]);
                        }
                    }
                    assert forall|i: int, j: int| 0 <= i < j < picks.len() implies #[trigger] picks[i]
                        < #[trigger] picks[j] by {
                        assert(picks[i] == picked[i]);
                        if j < last {
                            assert(picks[j] == picked[j]);
                        }
                    }
                    assert forall|i: int| 0 <= i < k + 1 implies banned@.contains(
                        (ind, #[trigger] vals@[i]),
                    ) || picks.contains(i) by {
                        if i < k {
                            if picked.contains(i) {
                                let m = choose|m: int| 0 <= m < picked.len() && picked[m] == i;
                                assert(picks[m] == i);
                            }
                        } else {
                            assert(picks[last] == i);
                        }
                    }
                    assert forall|j: int|
                        0 <= j < k + 1 && !banned@.contains((ind, #[trigger] vals@[j])) implies tried(
                        branches@,
                        vals@[j],
                    ) by {
                        if j < k {
                            assert(tried(earlier, vals@[j]));
                            let i = choose|i: int|
                                0 <= i < earlier.len() && (#[trigger] earlier[i]).val == vals@[j];
                            assert(branches@[i] == earlier[i]);
                        }
                    }
                    assert forall|j: int| 0 <= j < branches@.len() implies exists|i: int|
                        0 <= i < k + 1 && vals@[i] == (#[trigger] branches@[j]).val by {
                        if j < last {
                            assert(branches@[j] == earlier[j]);
                            let i = choose|i: int| 0 <= i < k && vals@[i] == earlier[j].val;
                            assert(vals@[i] == branches@[j].val);
                        } else {
                            assert(vals@[k as int] == branches@[j].val);
                        }
                    }
                    assert forall|i: int, j: int| 0 <= i < j < branches@.len() implies (
                    #[trigger] branches@[i]).val != (#[trigger] branches@[j]).val by {
                        assert(branches@[i] == earlier[i]);
                        if j == last {
                            let m = choose|m: int| 0 <= m < k && vals@[m] == earlier[i].val;
                            assert(vals@[m] != vals@[k as int]);
                        } else {
                            assert(branches@[j] == earlier[j]);
                        }
                    }
                }
            }
            k += 1;
        }
        let ghost sent = branches@;
        if branches.len() > 0 {
            let mut pool = scoped_threadpool::Pool::new(branches.len() as u32);
            explore_on_pool(&mut pool, &mut branches);
        }
        let ghost back = branches@;
        let ghost banned_before = banned@;
        let mut working: Vec<Board> = Vec::new();
        let ghost mut done: int = 0;
        let ghost mut pos: int = 0;
        proof {
            assert(views(working@) =~= Seq::<Grid>::empty());
        }
        while branches.len() > 0
            invariant
                goal == puzzle.try_from(true, ind as int, 0, Seq::empty(), old(banned)@),
                goal == puzzle.try_from(true, ind as int, pos, views(working@), banned@),
                vals@ == puzzle.hints().at(ind as int),
                vals@.no_duplicates(),
                picks.len() == sent.len(),
                forall|j: int|
                    0 <= j < picks.len() ==> 0 <= #[trigger] picks[j] < vals@.len()
                        && vals@[picks[j]] == sent[j].val,
                forall|i: int, j: int| 0 <= i < j < picks.len() ==> #[trigger] picks[i] < #[trigger] picks[j],
                forall|i: int|
                    0 <= i < vals@.len() ==> banned_before.contains((ind, #[trigger] vals@[i]))
                        || picks.contains(i),
                0 <= pos <= vals@.len(),
                done > 0 ==> pos == picks[done - 1] + 1,
                done == 0 ==> pos == 0,
                forall|x: (Pos, SquareType)| banned_before.contains(x) ==> banned@.contains(x),
                self.wf(),
                puzzle == self@,
                0 <= ind < puzzle.cells.len(),
                puzzle.cells[ind as int].is_none(),
                back.len() == sent.len(),
                0 <= done,
                done + branches@.len() == back.len(),
                forall|j: int| 0 <= j < branches@.len() ==> #[trigger] branches@[j] == back[done + j],
                forall|j: int|
                    0 <= j < sent.len() ==> ready(#[trigger] sent[j]) && sent[j].ind == ind
                        && sent[j].board@ == puzzle && !banned_before.contains((ind, sent[j].val)),
                forall|i: int, j: int|
                    0 <= i < j < sent.len() ==> (#[trigger] sent[i]).val != (#[trigger] sent[j]).val,
                forall|j: int| 0 <= j < sent.len() ==> explored(sent[j], #[trigger] back[j]),
                banned_ok(banned@, puzzle),
                banned@.no_duplicates(),
                forall|j: int|
                    0 <= j < banned@.len() ==> banned_before.contains(#[trigger] banned@[j]) || (
                    exists|i: int| 0 <= i < done && banned@[j] == (ind, sent[i].val)),
                branches_of(working@, puzzle),
                forall|j: int|
                    0 <= j < working@.len() ==> (#[trigger] working@[j])@.status()
                        == BoardStatus::Valid,
                forall|s: Grid, j: int|
                    0 <= j < done && #[trigger] s.solution_of(puzzle) && s.cells[ind as int]
                        == Some((#[trigger] sent[j]).val) ==> covered(s, working@),
            decreases branches@.len(),
        {
            let ghost waiting = branches@;
            let ghost banned_then = banned@;
            let ghost kept = views(working@);
            let branch = branches.remove(0);
            let Branch { ind: _, val, board, status } = branch;
            let ghost start = puzzle.set(ind as int, Some(val));
            let ghost here = picks[done];
            proof {
                assert(vals@[here] == sent[done].val);
                assert forall|i: int| pos <= i < here implies banned_then.contains(
                    (ind, #[trigger] vals@[i]),
                ) by {
                    if picks.contains(i) {
                        let m = choose|m: int| 0 <= m < picks.len() && picks[m] == i;
                        if m < done {
                            if done > 0 && m < done - 1 {
                                assert(picks[m] < picks[done - 1]);
                            }
                        } else if m > done {
                            assert(picks[done] < picks[m]);
                        }
                        assert(false);
                    }
                    assert(banned_before.contains((ind, vals@[i])));
                }
                if done > 0 {
                    assert(picks[done - 1] < picks[done]);
                }
                lemma_try_from_skips(puzzle, true, ind as int, pos, here, kept, banned_then);
                assert(!banned_then.contains((ind, vals@[here]))) by {
                    if banned_then.contains((ind, vals@[here])) {
                        let m = choose|m: int|
                            0 <= m < banned_then.len() && banned_then[m] == (ind, vals@[here]);
                        if !banned_before.contains(banned_then[m]) {
                            let x = choose|x: int|
                                0 <= x < done && banned_then[m] == (ind, sent[x].val);
                            assert(sent[x].val != sent[done].val);
                        }
                    }
                }
                assert(goal == puzzle.try_from(true, ind as int, here, kept, banned_then));
                assert(branch == waiting[0]);
                assert(branch == back[done]);
                assert(explored(sent[done], back[done]));
                assert(val == sent[done].val);
                assert(board@ == start.solve_standard());
                assert forall|j: int| 0 <= j < branches@.len() implies #[trigger] branches@[j]
                    == back[done + 1 + j] by {
                    assert(branches@[j] == waiting[j + 1]);
                }
                puzzle.lemma_set_fills(ind as int, val);
                assert(puzzle.extended_by(start));
                assert(puzzle.value_ok(Some(val)));
                assert(start.wf()) by {
                    assert forall|i: int| 0 <= i < start.cells.len() implies start.value_ok(
                        #[trigger] start.cells[i],
                    ) by {
                        if i != ind {
                            assert(puzzle.value_ok(puzzle.cells[i]));
                        }
                    }
                }
                start.lemma_solve_standard(start);
                puzzle.lemma_extended_twice(start, board@);
                assert forall|s: Grid| #[trigger] s.solution_of(start) implies s.solution_of(
                    board@,
                ) by {
                    start.lemma_solve_standard(s);
                }
                assert forall|s: Grid|
                    #[trigger] s.solution_of(puzzle) && s.cells[ind as int] == Some(
                        val,
                    ) implies s.solution_of(board@) by {
                    assert forall|i: int|
                        0 <= i < start.cells.len() && start.cells[i].is_some() implies #[trigger] s.cells[i]
                        == start.cells[i] by {
                        if i != ind {
                            assert(s.cells[i] == puzzle.cells[i]);
                        }
                    }
                    assert(s.solution_of(start));
                }
            }
            proof {
                assert(board@ == start.propagate(true));
                pos = here + 1;
            }
            match status {
                BoardStatus::Valid => {
                    let ghost earlier = working@;
                    working.push(board);
                    proof {
                        let last = earlier.len() as int;
                        assert(views(working@) =~= kept.push(start.propagate(true)));
                        assert forall|s: Grid| covered(s, earlier) implies covered(s, working@) by {
                            let j = choose|j: int|
                                0 <= j < earlier.len() && s.solution_of(#[trigger] earlier[j]@);
                            assert(working@[j] == earlier[j]);
                        }
                        assert forall|s: Grid, j: int|
                            0 <= j < done + 1 && #[trigger] s.solution_of(puzzle)
                                && s.cells[ind as int] == Some(
                                (#[trigger] sent[j]).val,
                            ) implies covered(s, working@) by {
                            if j < done {
                                assert(covered(s, earlier));
                            } else {
                                assert(s.solution_of(working@[last]@));
                            }
                        }
                        assert forall|j: int| 0 <= j < working@.len() implies (
                        #[trigger] working@[j]).wf() && puzzle.extended_by(working@[j]@)
                            && working@[j]@.remaining() < puzzle.remaining()
                            && working@[j]@.status() == BoardStatus::Valid by {
                            if j < last {
                                assert(working@[j] == earlier[j]);
                            }
                        }
                        assert forall|j: int| 0 <= j < banned@.len() implies banned_before.contains(
                            #[trigger] banned@[j],
                        ) || (exists|i: int| 0 <= i < done + 1 && banned@[j] == (ind, sent[i].val)) by {
                            if !banned_before.contains(banned@[j]) {
                                let i = choose|i: int|
                                    0 <= i < done && banned@[j] == (ind, sent[i].val);
                                assert(0 <= i < done + 1 && banned@[j] == (ind, sent[i].val));
                            }
                        }
                    }
                },
                BoardStatus::Solved => {
                    proof {
                        board@.lemma_solved_status();
                    }
                    let attempts = Attempts { solved: Some(board), working: Vec::new() };
                    assert(views(attempts.working@) =~= Seq::<Grid>::empty());
                    return attempts;
                },
                BoardStatus::Invalid => {
                    let ghost earlier = banned@;
                    banned.push((ind, val));
                    proof {
                        assert forall|x: (Pos, SquareType)|
                            banned_before.contains(x) implies banned@.contains(x) by {
                            let m = choose|m: int| 0 <= m < earlier.len() && earlier[m] == x;
                            assert(banned@[m] == x);
                        }
                        assert forall|s: Grid| #[trigger]
                            s.solution_of(puzzle) implies s.cells[ind as int] != Some(val) by {
                            if s.cells[ind as int] == Some(val) {
                                board@.lemma_solvable_is_valid(s);
                            }
                        }
                        assert forall|s: Grid, j: int|
                            0 <= j < banned@.len() && #[trigger] s.solution_of(
                                puzzle,
                            ) implies s.cells[(#[trigger] banned@[j]).0 as int] != Some(
                            banned@[j].1,
                        ) by {
                            if j < earlier.len() {
                                assert(banned@[j] == earlier[j]);
                            }
                        }
                        assert forall|j: int| 0 <= j < banned@.len() implies banned_before.contains(
                            #[trigger] banned@[j],
                        ) || (exists|i: int| 0 <= i < done + 1 && banned@[j] == (ind, sent[i].val)) by {
                            if j < earlier.len() {
                                assert(banned@[j] == earlier[j]);
                                if !banned_before.contains(banned@[j]) {
                                    let i = choose|i: int|
                                        0 <= i < done && banned@[j] == (ind, sent[i].val);
                                    assert(0 <= i < done + 1 && banned@[j] == (ind, sent[i].val));
                                }
                            } else {
                                assert(banned@[j] == (ind, sent[done].val));
                            }
                        }
                        assert forall|i: int, j: int|
                            0 <= i < banned@.len() && 0 <= j < banned@.len() && i
                                != j implies banned@[i] != banned@[j] by {
                            let fresh = (ind, val);
                            assert forall|m: int| 0 <= m < earlier.len() implies earlier[m]
                                != fresh by {
                                if earlier[m] == fresh {
                                    if banned_before.contains(earlier[m]) {
                                    } else {
                                        let x = choose|x: int|
                                            0 <= x < done && earlier[m] == (ind, sent[x].val);
                                        assert(sent[x].val != sent[done].val);
                                    }
                                }
                            }
                            if i < earlier.len() {
                                assert(banned@[i] == earlier[i]);
                            }
                            if j < earlier.len() {
                                assert(banned@[j] == earlier[j]);
                            }
                        }
                    }
                },
            }
            proof {
                done = done + 1;
            }
        }
        proof {
            assert forall|i: int| pos <= i < vals@.len() implies banned@.contains(
                (ind, #[trigger] vals@[i]),
            ) by {
                if picks.contains(i) {
                    let m = choose|m: int| 0 <= m < picks.len() && picks[m] == i;
                    if done > 0 && m < done - 1 {
                        assert(picks[m] < picks[done - 1]);
                    }
                    assert(false);
                }
                assert(banned_before.contains((ind, vals@[i])));
            }
            lemma_try_from_skips(
                puzzle,
                true,
                ind as int,
                pos,
                vals@.len() as int,
                views(working@),
                banned@,
            );
            assert forall|s: Grid| #[trigger] s.solution_of(puzzle) implies covered(s, working@) by {
                puzzle.lemma_solution_is_candidate(s, ind as int);
                let v = s.cells[ind as int].unwrap();
                let j = choose|j: int| 0 <= j < vals@.len() && vals@[j] == v;
                if banned_before.contains((ind, vals@[j])) {
                    let m = choose|m: int|
                        0 <= m < banned_before.len() && banned_before[m] == (ind, vals@[j]);
                    assert(s.cells[banned_before[m].0 as int] != Some(banned_before[m].1));
                } else {
                    assert(tried(sent, vals@[j]));
                    let x = choose|x: int| 0 <= x < sent.len() && (#[trigger] sent[x]).val == v;
                    assert(s.cells[ind as int] == Some(sent[x].val));
                }
            }
        }
        Attempts { solved: None, working }
    }
}

/// The candidates of a cell are distinct and no more than the side of the grid.
pub proof fn value_range_filter_len(puzzle: Grid, i: int)
    requires
        puzzle.wf(),
    ensures
        puzzle.candidates(i).len() <= puzzle.side(),
        puzzle.candidates(i).no_duplicates(),
{
    let range = crate::hintmap::value_range(puzzle.side());
    assert(0 <= puzzle.side()) by (nonlinear_arith)
        requires
            puzzle.side() == puzzle.base * puzzle.base,
    ;
    range.lemma_filter_len(puzzle.open_at(i));
    lemma_filter_distinct(range, puzzle.open_at(i));
}

/// Filtering a list without repeats leaves a list without repeats.
pub proof fn lemma_filter_distinct<A>(s: Seq<A>, test: spec_fn(A) -> bool)
    requires
        s.no_duplicates(),
    ensures
        s.filter(test).no_duplicates(),
    decreases s.len(),
{
    reveal(Seq::filter);
    if s.len() > 0 {
        let front = s.drop_last();
        assert forall|i: int, j: int| 0 <= i < front.len() && 0 <= j < front.len() && i
            != j implies front[i] != front[j] by {
            assert(front[i] == s[i]);
            assert(front[j] == s[j]);
        }
        lemma_filter_distinct(front, test);
        if test(s.last()) {
            let kept = front.filter(test);
            assert forall|i: int| 0 <= i < kept.len() implies kept[i] != s.last() by {
                assert(kept.contains(kept[i]));
                front.lemma_filter_contains_rev(test, kept[i]);
                let m = choose|m: int| 0 <= m < front.len() && front[m] == kept[i];
                assert(s[m] == front[m]);
            }
        }
    }
}


/// The depth left for a branch below a board searched with `depth`.
pub open spec fn lower(depth: Option<i32>) -> Option<i32> {
    match depth {
        Some(d) => Some((d - 1) as i32),
        None => None,
    }
}

impl Grid {
    /// What the depth-first search makes of the grid. With no depth left
    /// the grid stays as it is. Otherwise it is swept; if that leaves it
    /// valid, the candidates of its cells are tried in turn.
    pub open spec fn dfs(self, depth: Option<i32>) -> Grid
        decreases self.remaining(), 1nat, 0nat, 0nat, 0nat,
    {
        if depth.is_some() && depth.unwrap() < 1 {
            self
        } else {
            let swept = self.solve_standard();
            if swept.status().finished() || swept.remaining() > self.remaining() {
                swept
            } else {
                swept.dfs_scan(depth, swept.side(), 0, 0)
            }
        }
    }

    /// The trials of the depth-first search from the `k`-th candidate of
    /// cell `index` on, among the cells with `count` candidates: cells with
    /// more candidates come before cells with fewer, and of cells with
    /// equally many the lower index first. The first trial that ends solved
    /// is the outcome; a trial that ends invalid or unfinished is passed
    /// over. If no trial ends solved, the grid stays as it is.
    pub open spec fn dfs_scan(self, depth: Option<i32>, count: int, index: int, k: int) -> Grid
        decreases self.remaining(), 0nat, count, self.cells.len() - index, count - k,
    {
        if count <= 0 || index < 0 || k < 0 {
            self
        } else if index >= self.cells.len() {
            self.dfs_scan(depth, count - 1, 0, 0)
        } else if self.hints().at(index).len() != count || k >= count {
            self.dfs_scan(depth, count, index + 1, 0)
        } else {
            let child = self.set(index, Some(self.hints().at(index)[k]));
            let outcome = if child.remaining() < self.remaining() {
                child.dfs(lower(depth))
            } else {
                child
            };
            if outcome.status() == BoardStatus::Solved {
                outcome
            } else {
                self.dfs_scan(depth, count, index, k + 1)
            }
        }
    }
}

impl Board {
    /// Depth-first search with an optional bound on its depth. With a bound
    /// below 1 the board is only classified. Otherwise the forced values
    /// are filled in; if the board is then neither solved nor invalid, each
    /// candidate of each empty cell is tried on a copy, which is searched
    /// with one less depth: cells with more candidates first, of cells with
    /// equally many the lower index first, candidates in ascending order.
    /// The first copy that comes back solved replaces the board; a copy
    /// that comes back invalid or unfinished is dropped. If none comes back
    /// solved, the board keeps the forced values and its status is returned.
    ///
    /// Without a bound the search finds a solution of every board that has
    /// one.
    pub fn solve_search_dfs(&mut self, max_depth: Option<i32>) -> (status: BoardStatus)
        requires
            old(self).wf(),
        ensures
            final(self).wf(),
            final(self)@ == old(self)@.dfs(max_depth),
            status == final(self)@.status(),
            old(self)@.extended_by(final(self)@),
            status == BoardStatus::Solved ==> final(self)@.solution_of(old(self)@),
            max_depth.is_none() && old(self)@.solvable() ==> status == BoardStatus::Solved
                && final(self)@.solution_of(old(self)@),
        decreases old(self)@.remaining(),
    {
        let ghost origin = self@;
        proof {
            origin.lemma_dfs_keeps(max_depth);
            origin.dfs(max_depth).lemma_solved_status();
            if max_depth.is_none() && origin.solvable() {
                let s = choose|s: Grid| #[trigger] s.solution_of(origin);
                origin.lemma_dfs_finds(s);
            }
        }
        if let Some(depth) = max_depth {
            if depth < 1 {
                //This doesn't give much of an indication that we're finished recursion, but it's good enough
                return self.check_status();
            }
        }
        let solved_status = self.solve_standard();
        proof {
            origin.lemma_solve_standard(origin);
        }
        if solved_status.is_finished() {
            return solved_status;
        }
        let ghost swept = self@;
        let hmap = HintMap::from_board(self);
        let new_depth = match max_depth {
            Some(depth) => Some(depth - 1),
            None => None,
        };

        let mut count = self.side_length;
        proof {
            crate::grid::lemma_count_empty_bound(swept.cells);
            self.lemma_base_positive();
        }
        while count > 0
            invariant
                origin == old(self)@,
                origin.extended_by(origin.dfs(max_depth)),
                origin.dfs(max_depth).solved() <==> origin.dfs(max_depth).status() == BoardStatus::Solved,
                max_depth.is_none() && origin.solvable() ==> origin.dfs(max_depth).solved(),
                self.wf(),
                self@ == swept,
                swept.remaining() <= origin.remaining(),
                hmap.wf(),
                hmap@ == swept.hints(),
                new_depth == lower(max_depth),
                origin.dfs(max_depth) == swept.dfs_scan(max_depth, count as int, 0, 0),
            decreases count,
        {
            let mut index: usize = 0;
            while index < self.num_squares
                invariant
                    origin == old(self)@,
                    origin.extended_by(origin.dfs(max_depth)),
                    origin.dfs(max_depth).solved() <==> origin.dfs(max_depth).status() == BoardStatus::Solved,
                    max_depth.is_none() && origin.solvable() ==> origin.dfs(max_depth).solved(),
                    self.wf(),
                    self@ == swept,
                    swept.remaining() <= origin.remaining(),
                    hmap.wf(),
                    hmap@ == swept.hints(),
                    new_depth == lower(max_depth),
                    count > 0,
                    index <= self.num_squares,
                    origin.dfs(max_depth) == swept.dfs_scan(max_depth, count as int, index as int, 0),
                decreases self.num_squares - index,
            {
                if self.squares[index].is_none() {
                    let vals = hmap.get_hints(index);
                    if vals.len() == count {
                        let mut k: usize = 0;
                        proof {
                            swept.lemma_hinted_cell(index as int);
                        }
                        while k < vals.len()
                            invariant
                                origin == old(self)@,
                                origin.extended_by(origin.dfs(max_depth)),
                                origin.dfs(max_depth).solved() <==> origin.dfs(max_depth).status() == BoardStatus::Solved,
                                max_depth.is_none() && origin.solvable() ==> origin.dfs(max_depth).solved(),
                                self.wf(),
                                self@ == swept,
                                swept.remaining() <= origin.remaining(),
                                new_depth == lower(max_depth),
                                count > 0,
                                index < self.num_squares,
                                swept.cells[index as int].is_none(),
                                vals@ == swept.hints().at(index as int),
                                vals@ == swept.candidates(index as int),
                                forall|j: int|
                                    0 <= j < vals@.len() ==> 1 <= #[trigger] vals@[j]
                                        <= swept.side(),
                                vals@.len() == count,
                                k <= vals@.len(),
                                origin.dfs(max_depth) == swept.dfs_scan(
                                    max_depth,
                                    count as int,
                                    index as int,
                                    k as int,
                                ),
                            decreases vals@.len() - k,
                        {
                            let mut cloned = self.clone();
                            cloned.squares.set(index, Some(vals[k]));
                            proof {
                                swept.lemma_set_fills(index as int, vals@[k as int]);
                                assert(cloned@ == swept.set(index as int, Some(vals@[k as int])));
                                assert forall|i: int| 0 <= i < cloned@.cells.len() implies cloned@.value_ok(
                                    #[trigger] cloned@.cells[i],
                                ) by {
                                    if i != index {
                                        assert(swept.value_ok(swept.cells[i]));
                                    }
                                }
                            }

                            // Recursive call
                            let solved_status = cloned.solve_search_dfs(new_depth);
                            if solved_status.is_solved() {
                                *self = cloned;
                                return solved_status;
                            }
                            k += 1;
                        }
                    }
                } else {
                    assert(swept.hints().at(index as int).len() == 0);
                }
                index += 1;
            }
            count -= 1;
        }
        self.check_status()
    }
}


/// The trials pass over candidates that are banned.
pub proof fn lemma_try_from_skips(
    puzzle: Grid,
    parallel: bool,
    ind: int,
    from: int,
    to: int,
    working: Seq<Grid>,
    banned: Seq<(Pos, SquareType)>,
)
    requires
        0 <= from <= to <= puzzle.hints().at(ind).len(),
        forall|i: int|
            from <= i < to ==> banned.contains((ind as usize, #[trigger] puzzle.hints().at(ind)[i])),
    ensures
        puzzle.try_from(parallel, ind, from, working, banned) == puzzle.try_from(
            parallel,
            ind,
            to,
            working,
            banned,
        ),
    decreases to - from,
{
    if from < to {
        assert(banned.contains((ind as usize, puzzle.hints().at(ind)[from])));
        lemma_try_from_skips(puzzle, parallel, ind, from + 1, to, working, banned);
    }
}


impl Grid {
    /// The depth-first search leaves a well-formed grid that keeps every
    /// filled cell.
    pub proof fn lemma_dfs_keeps(self, depth: Option<i32>)
        requires
            self.wf(),
        ensures
            self.dfs(depth).wf(),
            self.extended_by(self.dfs(depth)),
        decreases self.remaining(), 1nat, 0nat, 0nat, 0nat,
    {
        if !(depth.is_some() && depth.unwrap() < 1) {
            let swept = self.solve_standard();
            self.lemma_solve_standard(self);
            if !(swept.status().finished() || swept.remaining() > self.remaining()) {
                swept.lemma_dfs_scan_keeps(depth, swept.side(), 0, 0);
                self.lemma_extended_twice(swept, swept.dfs_scan(depth, swept.side(), 0, 0));
            }
        }
    }

    /// The trials of the depth-first search leave a well-formed grid that
    /// keeps every filled cell.
    pub proof fn lemma_dfs_scan_keeps(self, depth: Option<i32>, count: int, index: int, k: int)
        requires
            self.wf(),
        ensures
            self.dfs_scan(depth, count, index, k).wf(),
            self.extended_by(self.dfs_scan(depth, count, index, k)),
        decreases self.remaining(), 0nat, count, self.cells.len() - index, count - k,
    {
        if count <= 0 || index < 0 || k < 0 {
        } else if index >= self.cells.len() {
            self.lemma_dfs_scan_keeps(depth, count - 1, 0, 0);
        } else if self.hints().at(index).len() != count || k >= count {
            self.lemma_dfs_scan_keeps(depth, count, index + 1, 0);
        } else {
            let v = self.hints().at(index)[k];
            let child = self.set(index, Some(v));
            self.lemma_child(index, k);
            if child.remaining() < self.remaining() {
                child.lemma_dfs_keeps(lower(depth));
                self.lemma_extended_twice(child, child.dfs(lower(depth)));
            }
            self.lemma_dfs_scan_keeps(depth, count, index, k + 1);
        }
    }

    /// A grid with a candidate of one of its cells put into that cell is
    /// well formed, keeps every filled cell and has one empty cell fewer.
    pub proof fn lemma_child(self, index: int, k: int)
        requires
            self.wf(),
            0 <= k < self.hints().at(index).len(),
        ensures
            0 <= index < self.cells.len(),
            self.cells[index].is_none(),
            self.set(index, Some(self.hints().at(index)[k])).wf(),
            self.extended_by(self.set(index, Some(self.hints().at(index)[k]))),
            self.set(index, Some(self.hints().at(index)[k])).remaining() + 1 == self.remaining(),
    {
        let v = self.hints().at(index)[k];
        let child = self.set(index, Some(v));
        self.lemma_hinted_cell(index);
        self.lemma_set_fills(index, v);
        assert forall|i: int| 0 <= i < child.cells.len() implies child.value_ok(
            #[trigger] child.cells[i],
        ) by {
            if i != index {
                assert(self.value_ok(self.cells[i]));
            }
        }
    }

    /// Without a bound the depth-first search solves every grid that has a
    /// solution.
    pub proof fn lemma_dfs_finds(self, s: Grid)
        requires
            self.wf(),
            s.solution_of(self),
        ensures
            self.dfs(None).solved(),
            self.dfs(None).solution_of(self),
        decreases self.remaining(), 1nat, 0nat, 0nat, 0nat,
    {
        let swept = self.solve_standard();
        self.lemma_solve_standard(s);
        self.lemma_solve_standard(self);
        swept.lemma_solvable_is_valid(s);
        swept.lemma_solved_status();
        if swept.status().finished() {
        } else {
            crate::grid::lemma_count_empty_zero(swept.cells);
            let c = choose|c: int| 0 <= c < swept.cells.len() && !swept.cells[c].is_some();
            swept.lemma_solution_is_candidate(s, c);
            let own = swept.hints().at(c);
            let v = s.cells[c].unwrap();
            assert(swept.hints().lists.contains_key(c));
            let kpos = choose|kpos: int| 0 <= kpos < own.len() && own[kpos] == v;
            value_range_filter_len(swept, c);
            swept.lemma_dfs_scan_finds(s, swept.side(), 0, 0, c, kpos);
            let found = swept.dfs_scan(None, swept.side(), 0, 0);
            self.lemma_extended_twice(swept, found);
        }
    }

    /// Without a bound the trials of the depth-first search end solved
    /// when a trial that is still to come leads to a solution: the `kpos`-th
    /// candidate of cell `c`.
    pub proof fn lemma_dfs_scan_finds(
        self,
        s: Grid,
        count: int,
        index: int,
        k: int,
        c: int,
        kpos: int,
    )
        requires
            self.wf(),
            s.solution_of(self),
            0 <= count,
            0 <= index,
            0 <= k,
            0 <= c < self.cells.len(),
            self.cells[c].is_none(),
            0 <= kpos < self.hints().at(c).len(),
            s.cells[c] == Some(self.hints().at(c)[kpos]),
            self.hints().at(c).len() < count || (self.hints().at(c).len() == count && (c > index
                || (c == index && kpos >= k))),
        ensures
            self.dfs_scan(None, count, index, k).solved(),
            self.dfs_scan(None, count, index, k).solution_of(self),
        decreases self.remaining(), 0nat, count, self.cells.len() - index, count - k,
    {
        if index >= self.cells.len() {
            self.lemma_dfs_scan_finds(s, count - 1, 0, 0, c, kpos);
        } else if self.hints().at(index).len() != count || k >= count {
            self.lemma_dfs_scan_finds(s, count, index + 1, 0, c, kpos);
        } else {
            let v = self.hints().at(index)[k];
            let child = self.set(index, Some(v));
            self.lemma_child(index, k);
            child.lemma_dfs_keeps(None);
            let outcome = child.dfs(None);
            outcome.lemma_solved_status();
            if outcome.status() == BoardStatus::Solved {
                self.lemma_extended_twice(child, outcome);
            } else {
                if c == index && kpos == k {
                    assert forall|i: int|
                        0 <= i < child.cells.len() && child.cells[i].is_some() implies #[trigger] s.cells[i]
                        == child.cells[i] by {
                        if i != index {
                            assert(s.cells[i] == self.cells[i]);
                        }
                    }
                    assert(s.solution_of(child));
                    child.lemma_dfs_finds(s);
                }
                self.lemma_dfs_scan_finds(s, count, index, k + 1, c, kpos);
            }
        }
    }
}

} // verus!
