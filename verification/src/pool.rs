//! Work handed to the threads of a `scoped_threadpool::Pool`. What this
//! module states of the pool is taken on trust from that crate.

use vstd::prelude::*;
use crate::board::SquareType;
use crate::hintmap::HintMap;
use crate::search::{Branch, explore, explored, ready};
use crate::solver::{fill_square, filled_in};

verus! {

/// A pool of worker threads, opaque to the verifier.
#[verifier::external_type_specification]
#[verifier::external_body]
pub struct ExPool(scoped_threadpool::Pool);

/// `scoped_threadpool::Pool::new` starts `n` worker threads; it panics for
/// a pool without threads, so one thread at least is asked for.
pub assume_specification[ scoped_threadpool::Pool::new ](n: u32) -> (pool: scoped_threadpool::Pool)
    requires
        n >= 1,
;

/// One sweep over `squares` on the threads of `pool`: `Pool::scoped` lends
/// the pool out, `Scope::execute` queues one call of `fill_square` per cell,
/// each with that cell alone and the shared `hmap`, and `scoped` returns
/// only when every queued call has run to its end. So each cell holds
/// afterwards what `fill_square` makes of it.
#[verifier::external_body]
pub(crate) fn sweep_on_pool(
    pool: &mut scoped_threadpool::Pool,
    squares: &mut Vec<Option<SquareType>>,
    hmap: &HintMap,
)
    requires
        hmap.wf(),
    ensures
        final(squares)@.len() == old(squares)@.len(),
        forall|i: int|
            0 <= i < old(squares)@.len() ==> #[trigger] final(squares)@[i] == filled_in(
                old(squares)@[i],
                hmap@,
                i,
            ),
{
    pool.scoped(
        |scope|
            {
                for (index, cell) in squares.iter_mut().enumerate() {
                    scope.execute(move || fill_square(cell, hmap, index));
                }
            },
    );
}


/// Explores every branch of `branches` on the threads of `pool`:
/// `Pool::scoped` lends the pool out, `Scope::execute` queues one call of
/// `explore` per branch, each with that branch alone, and `scoped` returns
/// only when every queued call has run to its end. So each branch is
/// afterwards what `explore` makes of it.
#[verifier::external_body]
pub(crate) fn explore_on_pool(pool: &mut scoped_threadpool::Pool, branches: &mut Vec<Branch>)
    requires
        forall|k: int| 0 <= k < old(branches)@.len() ==> ready(#[trigger] old(branches)@[k]),
    ensures
        final(branches)@.len() == old(branches)@.len(),
        forall|k: int|
            0 <= k < old(branches)@.len() ==> explored(
                old(branches)@[k],
                #[trigger] final(branches)@[k],
            ),
{
    pool.scoped(
        |scope|
            {
                for branch in branches.iter_mut() {
                    scope.execute(move || explore(branch));
                }
            },
    );
}

} // verus!
