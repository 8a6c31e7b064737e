//! What the search makes of a grid, step by step: the trials at one cell,
//! the scan over the cells with the fewest candidates, and the descent into
//! the branches that are left.

use vstd::prelude::*;
use crate::board::{Board, Pos, SquareType};
use crate::grid::Grid;
use crate::hintmap::{Hints, has_entry};
use crate::solver::BoardStatus;

verus! {

/// What came of trying the candidates of one cell.
pub struct Trial {
    /// The branch that came out solved, if one did.
    pub solved: Option<Grid>,
    /// The branches that came out neither solved nor invalid, in the order
    /// of the candidates.
    pub working: Seq<Grid>,
    /// The banned pairs of cell and value, with those that the trial added.
    pub banned: Seq<(Pos, SquareType)>,
}

/// What came of going through the cells with the fewest candidates.
pub enum Scan {
    /// A branch came out solved.
    Found(Grid),
    /// A cell had one live branch: the search goes on from it.
    Adopt(Grid, Seq<(Pos, SquareType)>),
    /// A cell had no live branch.
    Fail,
    /// Every cell had several live branches, gathered here.
    Done(Seq<Grid>, Seq<(Pos, SquareType)>),
}

/// The grids of a list of boards.
pub open spec fn views(boards: Seq<Board>) -> Seq<Grid> {
    boards.map_values(|b: Board| b@)
}

/// How many cells of `grid` are filled.
pub open spec fn filled(grid: Grid) -> int {
    grid.cells.len() - grid.remaining()
}

/// The place of the grid with the most filled cells; of several such, the
/// first.
pub open spec fn fullest(grids: Seq<Grid>) -> int
    decreases grids.len(),
{
    if grids.len() <= 1 {
        0
    } else {
        let before = fullest(grids.drop_last());
        if filled(grids.last()) > filled(grids[before]) {
            grids.len() - 1
        } else {
            before
        }
    }
}

impl Grid {
    /// The grid with the forced values filled in, by sweeps where
    /// `parallel` is set and by ordered scans where it is not.
    pub open spec fn propagate(self, parallel: bool) -> Grid {
        if parallel {
            self.solve_standard()
        } else {
            self.solve_ordered()
        }
    }

    /// The trials at cell `ind` from its `k`-th candidate on, `working` and
    /// `banned` being what the earlier candidates left. A banned candidate
    /// is passed over. Any other is set in the cell and the forced values
    /// are filled in: a solved grid ends the trials, an invalid one bans
    /// the candidate, any other is kept.
    pub open spec fn try_from(
        self,
        parallel: bool,
        ind: int,
        k: int,
        working: Seq<Grid>,
        banned: Seq<(Pos, SquareType)>,
    ) -> Trial
        decreases self.hints().at(ind).len() - k,
    {
        let vals = self.hints().at(ind);
        if k < 0 || k >= vals.len() {
            Trial { solved: None, working, banned }
        } else if banned.contains((ind as usize, vals[k])) {
            self.try_from(parallel, ind, k + 1, working, banned)
        } else {
            let branch = self.set(ind, Some(vals[k])).propagate(parallel);
            match branch.status() {
                BoardStatus::Valid => self.try_from(
                    parallel,
                    ind,
                    k + 1,
                    working.push(branch),
                    banned,
                ),
                BoardStatus::Solved => Trial {
                    solved: Some(branch),
                    working: Seq::empty(),
                    banned,
                },
                BoardStatus::Invalid => self.try_from(
                    parallel,
                    ind,
                    k + 1,
                    working,
                    banned.push((ind as usize, vals[k])),
                ),
            }
        }
    }

    /// `m` is the smallest number of candidates that a cell with a
    /// candidate has.
    pub open spec fn is_min_count(self, m: int) -> bool {
        &&& m > 0
        &&& exists|i: int| (#[trigger] self.hints().at(i)).len() == m
        &&& forall|i: int|
            (#[trigger] self.hints().at(i)).len() > 0 ==> self.hints().at(i).len() >= m
    }

    /// The smallest number of candidates that a cell with a candidate has.
    pub open spec fn min_count(self) -> int {
        choose|m: int| self.is_min_count(m)
    }

    /// The scan over the cells with `min` candidates from cell `i` on, in
    /// ascending order, `acceptable` and `banned` being what the earlier
    /// cells left. The candidates of each such cell are tried. A solved
    /// branch ends the scan, and so does a cell with one live branch or
    /// with none; the branches of a cell with several are gathered, the
    /// last tried first.
    pub open spec fn scan_from(
        self,
        parallel: bool,
        min: int,
        i: int,
        acceptable: Seq<Grid>,
        banned: Seq<(Pos, SquareType)>,
    ) -> Scan
        decreases self.cells.len() - i,
    {
        if i < 0 || i >= self.cells.len() {
            Scan::Done(acceptable, banned)
        } else if self.hints().at(i).len() != min {
            self.scan_from(parallel, min, i + 1, acceptable, banned)
        } else {
            let trial = self.try_from(parallel, i, 0, Seq::empty(), banned);
            if trial.solved.is_some() {
                Scan::Found(trial.solved.unwrap())
            } else if trial.working.len() == 1 {
                Scan::Adopt(trial.working[0], trial.banned)
            } else if trial.working.len() > 1 {
                self.scan_from(
                    parallel,
                    min,
                    i + 1,
                    acceptable + trial.working.reverse(),
                    trial.banned,
                )
            } else {
                Scan::Fail
            }
        }
    }

    /// What the search makes of the grid, and whether it found a solution:
    /// the forced values are filled in, and a grid that is then neither
    /// solved nor invalid is searched on.
    pub open spec fn search(self, parallel: bool) -> (Grid, bool)
        decreases self.remaining(), 3nat, 0nat,
    {
        let start = self.propagate(parallel);
        match start.status() {
            BoardStatus::Solved => (start, true),
            BoardStatus::Invalid => (start, false),
            BoardStatus::Valid => if start.remaining() <= self.remaining() {
                start.search_on(parallel, Seq::empty())
            } else {
                (start, false)
            },
        }
    }

    /// The search on a valid grid with its forced values filled in: the
    /// cells with the fewest candidates are scanned. From a cell with one
    /// live branch the search goes on with that branch. Where every such
    /// cell has several, the branches are searched in turn, the fullest
    /// first.
    pub open spec fn search_on(self, parallel: bool, banned: Seq<(Pos, SquareType)>) -> (
        Grid,
        bool,
    )
        decreases self.remaining(), 2nat, 0nat,
    {
        if !(exists|i: int| (#[trigger] self.hints().at(i)).len() > 0) {
            (self, false)
        } else {
            match self.scan_from(parallel, self.min_count(), 0, Seq::empty(), banned) {
                Scan::Found(solved) => (solved, true),
                Scan::Adopt(branch, left) => if branch.remaining() < self.remaining() {
                    branch.search_on(parallel, left)
                } else {
                    (self, false)
                },
                Scan::Fail => (self, false),
                Scan::Done(branches, left) => match search_each(
                    branches,
                    parallel,
                    self.remaining(),
                ) {
                    Some(solved) => (solved, true),
                    None => (self, false),
                },
            }
        }
    }
}

/// The first solution that the search finds in `branches`, taken the
/// fullest first; none where it finds none. Only branches with fewer than
/// `bound` empty cells are searched.
pub open spec fn search_each(branches: Seq<Grid>, parallel: bool, bound: nat) -> Option<Grid>
    decreases bound, 1nat, branches.len(),
{
    if branches.len() == 0 {
        None
    } else {
        let best = fullest(branches);
        let rest = branches.remove(best);
        if 0 <= best < branches.len() && branches[best].remaining() < bound {
            let (left, found) = branches[best].search(parallel);
            if found {
                Some(left)
            } else {
                search_each(rest, parallel, bound)
            }
        } else {
            None
        }
    }
}


/// `ordered` lists the cells of `hints` that have a candidate, each with its
/// candidates, in the order of `before`.
pub open spec fn ordered_for(ordered: Seq<(Pos, Vec<SquareType>)>, hints: Hints) -> bool {
    &&& forall|q: int|
        0 <= q < ordered.len() ==> hints.lists.contains_key((#[trigger] ordered[q]).0 as int)
            && ordered[q].1@ == hints.at(ordered[q].0 as int) && ordered[q].1@.len() > 0
    &&& forall|i: int| hints.at(i).len() > 0 ==> has_entry(ordered, i)
    &&& forall|q: int, r: int|
        0 <= q < r < ordered.len() ==> hints.before(
            (#[trigger] ordered[q]).0 as int,
            (#[trigger] ordered[r]).0 as int,
        )
}

/// Cell `i` has an entry in `ordered` at place `p` or later.
pub open spec fn entry_from(ordered: Seq<(Pos, Vec<SquareType>)>, p: int, i: int) -> bool {
    exists|q: int| p <= q < ordered.len() && (#[trigger] ordered[q]).0 == i
}

/// The cells with `min` candidates from cell `cursor` on are those listed
/// in `ordered` from place `p` on.
pub open spec fn ahead(
    ordered: Seq<(Pos, Vec<SquareType>)>,
    hints: Hints,
    min: int,
    cursor: int,
    p: int,
) -> bool {
    &&& forall|i: int|
        i >= cursor && (#[trigger] hints.at(i)).len() == min ==> entry_from(ordered, p, i)
    &&& forall|q: int|
        p <= q < ordered.len() && (#[trigger] ordered[q]).1@.len() == min ==> ordered[q].0
            >= cursor
}

/// The first cell in order has the smallest number of candidates.
pub proof fn lemma_min_count(puzzle: Grid, ordered: Seq<(Pos, Vec<SquareType>)>)
    requires
        ordered_for(ordered, puzzle.hints()),
        ordered.len() > 0,
    ensures
        puzzle.is_min_count(ordered[0].1@.len() as int),
        puzzle.min_count() == ordered[0].1@.len(),
        exists|i: int| (#[trigger] puzzle.hints().at(i)).len() > 0,
{
    let hints = puzzle.hints();
    let m = ordered[0].1@.len() as int;
    let first = ordered[0].0 as int;
    assert(hints.at(first).len() == m);
    assert forall|i: int| (#[trigger] hints.at(i)).len() > 0 implies hints.at(i).len() >= m by {
        assert(has_entry(ordered, i));
        let q = choose|q: int| 0 <= q < ordered.len() && (#[trigger] ordered[q]).0 == i;
        if q > 0 {
            assert(hints.before(ordered[0].0 as int, ordered[q].0 as int));
        }
    }
    assert(puzzle.is_min_count(m));
    let chosen = puzzle.min_count();
    assert(puzzle.is_min_count(chosen));
    let j = choose|j: int| (#[trigger] hints.at(j)).len() == chosen;
    assert(hints.at(j).len() >= m);
    assert(hints.at(first).len() >= chosen);
}

/// At the start every cell with `min` candidates is ahead.
pub proof fn lemma_ahead_start(ordered: Seq<(Pos, Vec<SquareType>)>, hints: Hints, min: int)
    requires
        ordered_for(ordered, hints),
        min > 0,
    ensures
        ahead(ordered, hints, min, 0, 0),
{
    assert forall|i: int| i >= 0 && (#[trigger] hints.at(i)).len() == min implies entry_from(
        ordered,
        0,
        i,
    ) by {
        assert(has_entry(ordered, i));
        let q = choose|q: int| 0 <= q < ordered.len() && (#[trigger] ordered[q]).0 == i;
        assert(0 <= q < ordered.len() && ordered[q].0 == i);
    }
}

/// The cell at place `p` of the order, if it has `min` candidates, is the
/// next such cell from `cursor` on; behind it the rest of the order is
/// ahead.
pub proof fn lemma_ahead_next(
    ordered: Seq<(Pos, Vec<SquareType>)>,
    hints: Hints,
    min: int,
    cursor: int,
    p: int,
)
    requires
        ordered_for(ordered, hints),
        ahead(ordered, hints, min, cursor, p),
        0 <= p < ordered.len(),
        ordered[p].1@.len() == min,
    ensures
        cursor <= ordered[p].0,
        forall|i: int| cursor <= i < ordered[p].0 ==> (#[trigger] hints.at(i)).len() != min,
        ahead(ordered, hints, min, ordered[p].0 + 1, p + 1),
{
    let here = ordered[p].0 as int;
    assert forall|i: int| cursor <= i < here implies (#[trigger] hints.at(i)).len() != min by {
        if hints.at(i).len() == min {
            assert(entry_from(ordered, p, i));
            let q = choose|q: int| p <= q < ordered.len() && (#[trigger] ordered[q]).0 == i;
            if q > p {
                assert(hints.before(ordered[p].0 as int, ordered[q].0 as int));
            }
        }
    }
    assert forall|i: int| i >= here + 1 && (#[trigger] hints.at(i)).len() == min implies entry_from(
        ordered,
        p + 1,
        i,
    ) by {
        assert(entry_from(ordered, p, i));
        let q = choose|q: int| p <= q < ordered.len() && (#[trigger] ordered[q]).0 == i;
        assert(p + 1 <= q < ordered.len() && ordered[q].0 == i);
    }
    assert forall|q: int|
        p + 1 <= q < ordered.len() && (#[trigger] ordered[q]).1@.len() == min implies ordered[q].0
        >= here + 1 by {
        assert(hints.before(ordered[p].0 as int, ordered[q].0 as int));
    }
}

/// A cell at place `p` of the order with another number of candidates than
/// `min` leaves the rest of the order ahead.
pub proof fn lemma_ahead_pass(
    ordered: Seq<(Pos, Vec<SquareType>)>,
    hints: Hints,
    min: int,
    cursor: int,
    p: int,
)
    requires
        ordered_for(ordered, hints),
        ahead(ordered, hints, min, cursor, p),
        0 <= p < ordered.len(),
        ordered[p].1@.len() != min,
    ensures
        ahead(ordered, hints, min, cursor, p + 1),
{
    assert forall|i: int| i >= cursor && (#[trigger] hints.at(i)).len() == min implies entry_from(
        ordered,
        p + 1,
        i,
    ) by {
        assert(entry_from(ordered, p, i));
        let q = choose|q: int| p <= q < ordered.len() && (#[trigger] ordered[q]).0 == i;
        assert(p + 1 <= q < ordered.len() && ordered[q].0 == i);
    }
}

/// The scan passes over cells that have another number of candidates than
/// `min`.
pub proof fn lemma_scan_skips(
    puzzle: Grid,
    parallel: bool,
    min: int,
    from: int,
    to: int,
    acceptable: Seq<Grid>,
    banned: Seq<(Pos, SquareType)>,
)
    requires
        0 <= from <= to <= puzzle.cells.len(),
        forall|i: int| from <= i < to ==> (#[trigger] puzzle.hints().at(i)).len() != min,
    ensures
        puzzle.scan_from(parallel, min, from, acceptable, banned) == puzzle.scan_from(
            parallel,
            min,
            to,
            acceptable,
            banned,
        ),
    decreases to - from,
{
    if from < to {
        assert(puzzle.hints().at(from).len() != min);
        lemma_scan_skips(puzzle, parallel, min, from + 1, to, acceptable, banned);
    }
}

} // verus!
