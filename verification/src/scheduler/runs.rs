//! Laws of the DFS scheduler over a whole sequence of calls.

use vstd::prelude::*;

use crate::runtime::task::TaskId;
use crate::scheduler::data::draw;
use crate::scheduler::dfs::{dfs_choice, dfs_step, first_position, new_execution_post, DfsView};
use crate::scheduler::Schedule;

verus! {

/// A call of a DFS scheduler, with its arguments and result.
pub enum DfsCall {
    /// `new_execution`, and what it returned.
    NewExecution(Option<Schedule>),
    /// `next_task(runnable, current, is_yielding)`.
    NextTask(Seq<TaskId>, Option<TaskId>, bool),
    /// `next_u64`, and the value it returned.
    NextU64(u64),
}

/// `w` is the view after `call` from `v`, as the call's contract states it.
pub open spec fn call_post(v: DfsView, call: DfsCall, w: DfsView) -> bool {
    match call {
        DfsCall::NewExecution(r) => v.iterations < usize::MAX && new_execution_post(v, r, w),
        DfsCall::NextTask(rs, current, is_yielding) => w == dfs_step(v, rs, current),
        DfsCall::NextU64(x) => {
            &&& x == draw(v.data_seed, v.data_draws)
            &&& w == (DfsView { data_draws: v.data_draws + 1, ..v })
        },
    }
}

/// The number of executions started by `calls`.
pub open spec fn started(calls: Seq<DfsCall>) -> nat
    decreases calls.len(),
{
    if calls.len() == 0 {
        0
    } else {
        started(calls.drop_last()) + if calls.last() matches DfsCall::NewExecution(Some(_)) {
            1nat
        } else {
            0nat
        }
    }
}

/// The number of values drawn since the last execution started.
pub open spec fn draws_in_execution(calls: Seq<DfsCall>) -> nat
    decreases calls.len(),
{
    if calls.len() == 0 {
        0
    } else {
        match calls.last() {
            DfsCall::NewExecution(Some(_)) => 0,
            DfsCall::NextU64(_) => draws_in_execution(calls.drop_last()) + 1,
            _ => draws_in_execution(calls.drop_last()),
        }
    }
}

/// A sequence of views that the calls in `calls` lead through, from a fresh scheduler.
pub open spec fn is_trace(views: Seq<DfsView>, calls: Seq<DfsCall>) -> bool {
    &&& views.len() == calls.len() + 1
    &&& views[0].iterations == 0
    &&& views[0].data_draws == 0
    &&& forall|i: int| 0 <= i < calls.len() ==> call_post(#[trigger] views[i], calls[i], views[i + 1])
}

proof fn lemma_trace_prefix(views: Seq<DfsView>, calls: Seq<DfsCall>, i: int)
    requires
        is_trace(views, calls),
        0 <= i < views.len(),
    ensures
        views[i].iterations == started(calls.take(i)),
        views[i].max_iterations == views[0].max_iterations,
        views[i].data_seed == views[0].data_seed,
        views[i].data_draws == draws_in_execution(calls.take(i)),
        views[0].max_iterations matches Some(mi) ==> views[i].iterations <= mi,
    decreases i,
{
    if i > 0 {
        lemma_trace_prefix(views, calls, i - 1);
        assert(calls.take(i).drop_last() =~= calls.take(i - 1));
        assert(calls.take(i).last() == calls[i - 1]);
        assert(call_post(views[i - 1], calls[i - 1], views[i]));
    }
}

/// Over any sequence of calls from a fresh DFS scheduler: `new_execution` has returned `Some` as
/// many times as the scheduler counts iterations, and never more than `max_iterations` times.
pub proof fn lemma_at_most_max_iterations(views: Seq<DfsView>, calls: Seq<DfsCall>)
    requires
        is_trace(views, calls),
    ensures
        views.last().iterations == started(calls),
        views[0].max_iterations matches Some(mi) ==> started(calls) <= mi,
{
    lemma_trace_prefix(views, calls, calls.len() as int);
    assert(calls.take(calls.len() as int) =~= calls);
}

/// Over any sequence of calls from a fresh DFS scheduler, the `k`-th value drawn in an execution
/// (counting from 0) is `draw(seed, k)`, whichever execution it is: every execution sees the
/// same sequence of random values.
pub proof fn lemma_every_execution_draws_alike(views: Seq<DfsView>, calls: Seq<DfsCall>, i: int)
    requires
        is_trace(views, calls),
        0 <= i < calls.len(),
        calls[i] is NextU64,
    ensures
        calls[i] == DfsCall::NextU64(draw(views[0].data_seed, draws_in_execution(calls.take(i)))),
{
    lemma_trace_prefix(views, calls, i);
    assert(call_post(views[i], calls[i], views[i + 1]));
}

/// Once `new_execution` has returned `None`, calling it again returns `None` and changes nothing.
pub proof fn lemma_none_stays_none(v: DfsView, w: DfsView, r2: Option<Schedule>, w2: DfsView)
    requires
        new_execution_post(v, None, w),
        new_execution_post(w, r2, w2),
    ensures
        r2 is None,
        w2 == w,
{
}

/// The task that `next_task` returns is runnable whenever the runtime offers, at a decision
/// recorded in an earlier execution, a runnable set that holds the task chosen then; and it does
/// not depend on `is_yielding`, which `dfs_choice` does not take.
pub proof fn lemma_choice_is_runnable(v: DfsView, rs: Seq<TaskId>, current: Option<TaskId>)
    requires
        v.steps >= v.levels.len() ==> rs.len() > 0,
        (v.steps < v.levels.len() && v.next_change_level == Some(v.steps)) ==> {
            &&& rs.contains(v.levels[v.steps as int].0)
            &&& first_position(rs, v.levels[v.steps as int].0) + 1 < rs.len()
        },
        v.steps < v.levels.len() ==> rs.contains(v.levels[v.steps as int].0),
    ensures
        rs.contains(dfs_choice(v, rs, current)),
{
    if v.steps >= v.levels.len() {
        assert(rs.contains(rs[0]));
    } else if v.next_change_level == Some(v.steps) {
        let i = first_position(rs, v.levels[v.steps as int].0) + 1;
        assert(0 <= first_position(rs, v.levels[v.steps as int].0)) by {
            crate::scheduler::explore::lemma_first_position(rs, v.levels[v.steps as int].0);
        }
        assert(rs.contains(rs[i]));
    }
}

} // verus!
