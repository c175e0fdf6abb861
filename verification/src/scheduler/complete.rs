//! A whole DFS search, from the first execution to the end.
//!
//! For a test with finitely many interleavings (at most `depth` decisions, at most `width`
//! runnable tasks at each), a DFS search without bounds ends after finitely many executions,
//! runs every interleaving, and runs none twice.

use vstd::prelude::*;

use crate::runtime::task::TaskId;
use crate::scheduler::dfs::{is_last_pending, none_pending, restarted, DfsView};
use crate::scheduler::explore::{
    choice_index, choices, is_leaf, is_path, is_program, lemma_first_execution_is_least,
    lemma_first_position, lemma_next_execution_follows, lemma_path_step, lemma_path_within_depth,
    lemma_same_prefix_same_index, precedes, records, run_execution,
};

verus! {

/// No runnable set of the test has more than `width` tasks.
pub open spec fn is_narrow(prog: spec_fn(Seq<TaskId>) -> Seq<TaskId>, width: nat) -> bool {
    forall|q: Seq<TaskId>| #[trigger] prog(q).len() <= width
}

/// The deepest decision of `levels` at which another choice remains, if any.
pub open spec fn deepest_pending(levels: Seq<(TaskId, bool)>) -> Option<int>
    decreases levels.len(),
{
    if levels.len() == 0 {
        None
    } else if !levels.last().1 {
        Some(levels.len() - 1)
    } else {
        deepest_pending(levels.drop_last())
    }
}

/// The view after the `n`-th execution (counting from 0) of a DFS search started from `v0`: each
/// next execution departs from the previous one at its deepest decision with another choice
/// left, as `new_execution` does; once none is left, the search has ended and the view stays.
pub open spec fn nth_execution(v0: DfsView, prog: spec_fn(Seq<TaskId>) -> Seq<TaskId>, depth: nat, n: nat) -> DfsView
    decreases n,
{
    if n == 0 {
        run_execution(restarted(v0, None), prog, depth)
    } else {
        let prev = nth_execution(v0, prog, depth, (n - 1) as nat);
        match deepest_pending(prev.levels) {
            Some(l) => run_execution(restarted(prev, Some(l as usize)), prog, depth),
            None => prev,
        }
    }
}

/// `w` to the power `e`.
pub open spec fn power(w: nat, e: nat) -> nat
    decreases e,
{
    if e == 0 {
        1
    } else {
        w * power(w, (e - 1) as nat)
    }
}

/// The choice indices of `path` from decision `i` on, read as digits in base `width`, the digit
/// of decision `j` having weight `width` to the power `depth - 1 - j`.
pub open spec fn rank_from(prog: spec_fn(Seq<TaskId>) -> Seq<TaskId>, path: Seq<TaskId>, i: int, depth: nat, width: nat) -> int
    decreases path.len() - i,
{
    if i < 0 || i >= path.len() {
        0
    } else {
        choice_index(prog, path, i) * power(width, (depth - 1 - i) as nat) + rank_from(prog, path, i + 1, depth, width)
    }
}

pub(crate) proof fn lemma_power_positive(w: nat, e: nat)
    requires
        w >= 1,
    ensures
        power(w, e) >= 1,
    decreases e,
{
    if e > 0 {
        lemma_power_positive(w, (e - 1) as nat);
        assert(w * power(w, (e - 1) as nat) >= 1) by (nonlinear_arith)
            requires
                w >= 1,
                power(w, (e - 1) as nat) >= 1,
        ;
    }
}

/// The choice indices of a path are below `width`.
proof fn lemma_index_below_width(prog: spec_fn(Seq<TaskId>) -> Seq<TaskId>, width: nat, path: Seq<TaskId>, i: int)
    requires
        is_narrow(prog, width),
        is_path(prog, path),
        0 <= i < path.len(),
    ensures
        0 <= choice_index(prog, path, i) < width,
{
    lemma_path_step(prog, path, i);
    lemma_first_position(prog(path.subrange(0, i)), path[i]);
    assert(prog(path.subrange(0, i)).len() <= width);
}

/// The digits from decision `i` on are worth less than one unit of weight `depth - i`.
proof fn lemma_rank_from_bound(
    prog: spec_fn(Seq<TaskId>) -> Seq<TaskId>,
    path: Seq<TaskId>,
    i: int,
    depth: nat,
    width: nat,
)
    requires
        is_narrow(prog, width),
        width >= 1,
        is_path(prog, path),
        path.len() <= depth,
        0 <= i <= path.len(),
    ensures
        0 <= rank_from(prog, path, i, depth, width) < power(width, (depth - i) as nat),
    decreases path.len() - i,
{
    if i == path.len() {
        lemma_power_positive(width, (depth - i) as nat);
    } else {
        lemma_rank_from_bound(prog, path, i + 1, depth, width);
        lemma_index_below_width(prog, width, path, i);
        let c = choice_index(prog, path, i);
        let p = power(width, (depth - 1 - i) as nat);
        let t = rank_from(prog, path, i + 1, depth, width);
        assert((depth - i) as nat == ((depth - 1 - i) as nat + 1) as nat);
        assert(power(width, (depth - i) as nat) == width * p);
        assert(0 <= c * p + t < width * p) by (nonlinear_arith)
            requires
                0 <= c < width,
                0 <= t < p,
        ;
    }
}

/// Paths that agree on their first `k` decisions have the same digits there.
proof fn lemma_rank_same_prefix(
    prog: spec_fn(Seq<TaskId>) -> Seq<TaskId>,
    p: Seq<TaskId>,
    q: Seq<TaskId>,
    j: int,
    k: int,
    depth: nat,
    width: nat,
)
    requires
        0 <= j <= k,
        k <= p.len(),
        k <= q.len(),
        p.subrange(0, k) == q.subrange(0, k),
    ensures
        rank_from(prog, p, j, depth, width) - rank_from(prog, p, k, depth, width) == rank_from(prog, q, j, depth, width)
            - rank_from(prog, q, k, depth, width),
    decreases k - j,
{
    if j < k {
        lemma_rank_same_prefix(prog, p, q, j + 1, k, depth, width);
        lemma_same_prefix_same_index(prog, p, q, k, j);
    }
}

/// A path that comes before another in depth-first order has a smaller rank.
proof fn lemma_rank_increases(
    prog: spec_fn(Seq<TaskId>) -> Seq<TaskId>,
    p: Seq<TaskId>,
    q: Seq<TaskId>,
    depth: nat,
    width: nat,
)
    requires
        is_narrow(prog, width),
        width >= 1,
        is_path(prog, p),
        is_path(prog, q),
        p.len() <= depth,
        q.len() <= depth,
        precedes(prog, p, q),
    ensures
        rank_from(prog, p, 0, depth, width) < rank_from(prog, q, 0, depth, width),
{
    let k = choose|k: int|
        0 <= k < p.len() && k < q.len() && p.subrange(0, k) == q.subrange(0, k) && #[trigger] choice_index(prog, p, k)
            < choice_index(prog, q, k);
    lemma_rank_same_prefix(prog, p, q, 0, k, depth, width);
    lemma_rank_from_bound(prog, p, k + 1, depth, width);
    lemma_rank_from_bound(prog, q, k + 1, depth, width);
    lemma_index_below_width(prog, width, p, k);
    let cp = choice_index(prog, p, k);
    let cq = choice_index(prog, q, k);
    let w = power(width, (depth - 1 - k) as nat);
    assert((depth - (k + 1)) as nat == (depth - 1 - k) as nat);
    let tp = rank_from(prog, p, k + 1, depth, width);
    let tq = rank_from(prog, q, k + 1, depth, width);
    assert(cp * w + tp < cq * w + tq) by (nonlinear_arith)
        requires
            0 <= cp < cq,
            0 <= tp < w,
            0 <= tq,
    ;
}

pub(crate) proof fn lemma_deepest_pending(levels: Seq<(TaskId, bool)>)
    ensures
        deepest_pending(levels) matches Some(l) ==> is_last_pending(levels, l),
        deepest_pending(levels) is None ==> none_pending(levels),
    decreases levels.len(),
{
    if levels.len() > 0 && levels.last().1 {
        let pre = levels.drop_last();
        lemma_deepest_pending(pre);
        assert forall|j: int| 0 <= j < pre.len() implies #[trigger] levels[j] == pre[j] by {}
        if deepest_pending(pre) is None {
            assert forall|j: int| 0 <= j < levels.len() implies #[trigger] levels[j].1 by {
                if j < pre.len() {
                    assert(levels[j] == pre[j]);
                }
            }
        } else {
            let l = deepest_pending(pre).unwrap();
            assert forall|j: int| l < j < levels.len() implies #[trigger] levels[j].1 by {
                if j < pre.len() {
                    assert(levels[j] == pre[j]);
                }
            }
        }
    }
}

pub(crate) proof fn lemma_run_keeps_bound(v: DfsView, prog: spec_fn(Seq<TaskId>) -> Seq<TaskId>, fuel: nat)
    ensures
        run_execution(v, prog, fuel).max_preemptions == v.max_preemptions,
    decreases fuel,
{
    if fuel > 0 {
        let path = choices(v.levels.subrange(0, v.steps as int));
        if prog(path).len() > 0 {
            let v2 = crate::scheduler::dfs::dfs_step(v, prog(path), crate::scheduler::explore::last_choice(path));
            lemma_run_keeps_bound(v2, prog, (fuel - 1) as nat);
        }
    }
}

/// What holds of the first `n + 1` executions of a search that has not ended before the `n`-th.
proof fn lemma_search_prefix(
    v0: DfsView,
    prog: spec_fn(Seq<TaskId>) -> Seq<TaskId>,
    depth: nat,
    width: nat,
    n: nat,
)
    requires
        is_program(prog, depth),
        depth < usize::MAX,
        is_narrow(prog, width),
        width >= 1,
        v0.max_preemptions is None,
        v0.levels.len() == 0,
        v0.steps == 0,
        forall|i: nat| i < n ==> #[trigger] deepest_pending(nth_execution(v0, prog, depth, i).levels) is Some,
    ensures
        forall|i: nat|
            i <= n ==> {
                let e = #[trigger] nth_execution(v0, prog, depth, i);
                &&& e.max_preemptions is None
                &&& records(prog, e.levels)
                &&& is_leaf(prog, choices(e.levels))
                &&& rank_from(prog, choices(e.levels), 0, depth, width) + (n - i) <= rank_from(
                    prog,
                    choices(nth_execution(v0, prog, depth, n).levels),
                    0,
                    depth,
                    width,
                )
            },
        forall|q: Seq<TaskId>|
            is_leaf(prog, q) ==> (exists|i: nat|
                i <= n && choices((#[trigger] nth_execution(v0, prog, depth, i)).levels) == q) || precedes(
                prog,
                choices(nth_execution(v0, prog, depth, n).levels),
                q,
            ),
    decreases n,
{
    let e = nth_execution(v0, prog, depth, n);
    if n == 0 {
        let v1 = restarted(v0, None);
        lemma_first_execution_is_least(v1, prog, depth);
        lemma_run_keeps_bound(v1, prog, depth);
        assert forall|q: Seq<TaskId>| is_leaf(prog, q) implies (exists|i: nat|
            i <= n && choices((#[trigger] nth_execution(v0, prog, depth, i)).levels) == q) || precedes(
            prog,
            choices(e.levels),
            q,
        ) by {
            if q == choices(e.levels) {
                assert(choices(nth_execution(v0, prog, depth, 0).levels) == q);
            }
        }
    } else {
        let m = (n - 1) as nat;
        lemma_search_prefix(v0, prog, depth, width, m);
        let prev = nth_execution(v0, prog, depth, m);
        assert(deepest_pending(prev.levels) is Some);
        let l = deepest_pending(prev.levels).unwrap();
        lemma_deepest_pending(prev.levels);
        lemma_path_within_depth(prog, depth, choices(prev.levels));
        assert(l < depth);
        let lu = l as usize;
        assert(lu as int == l);
        lemma_next_execution_follows(prev, lu, prog, depth);
        lemma_run_keeps_bound(restarted(prev, Some(lu)), prog, depth);
        assert(e == run_execution(restarted(prev, Some(lu)), prog, depth));
        let pp = choices(prev.levels);
        let pe = choices(e.levels);
        lemma_path_within_depth(prog, depth, pp);
        lemma_path_within_depth(prog, depth, pe);
        lemma_rank_increases(prog, pp, pe, depth, width);
        assert forall|i: nat| i <= n implies {
            let ei = #[trigger] nth_execution(v0, prog, depth, i);
            &&& ei.max_preemptions is None
            &&& records(prog, ei.levels)
            &&& is_leaf(prog, choices(ei.levels))
            &&& rank_from(prog, choices(ei.levels), 0, depth, width) + (n - i) <= rank_from(prog, pe, 0, depth, width)
        } by {
            if i < n {
                assert(nth_execution(v0, prog, depth, i) == nth_execution(v0, prog, depth, i));
            }
        }
        assert forall|q: Seq<TaskId>| is_leaf(prog, q) implies (exists|i: nat|
            i <= n && choices((#[trigger] nth_execution(v0, prog, depth, i)).levels) == q) || precedes(prog, pe, q) by {
            if exists|i: nat| i <= m && choices((#[trigger] nth_execution(v0, prog, depth, i)).levels) == q {
                let i = choose|i: nat| i <= m && choices((#[trigger] nth_execution(v0, prog, depth, i)).levels) == q;
                assert(i <= n);
            } else {
                assert(precedes(prog, pp, q));
                if q == pe {
                    assert(choices(nth_execution(v0, prog, depth, n).levels) == q);
                }
            }
        }
    }
}

/// The first execution at or after `i` after which no decision has another choice left.
proof fn lemma_find_end(
    v0: DfsView,
    prog: spec_fn(Seq<TaskId>) -> Seq<TaskId>,
    depth: nat,
    width: nat,
    i: nat,
) -> (n: nat)
    requires
        is_program(prog, depth),
        depth < usize::MAX,
        is_narrow(prog, width),
        width >= 1,
        v0.max_preemptions is None,
        v0.levels.len() == 0,
        v0.steps == 0,
        forall|j: nat| j < i ==> #[trigger] deepest_pending(nth_execution(v0, prog, depth, j).levels) is Some,
        i < power(width, depth),
    ensures
        i <= n < power(width, depth),
        deepest_pending(nth_execution(v0, prog, depth, n).levels) is None,
        forall|j: nat| j < n ==> #[trigger] deepest_pending(nth_execution(v0, prog, depth, j).levels) is Some,
    decreases power(width, depth) - i,
{
    if deepest_pending(nth_execution(v0, prog, depth, i).levels) is None {
        i
    } else {
        let i1 = i + 1;
        assert forall|j: nat| j < i1 implies #[trigger] deepest_pending(nth_execution(v0, prog, depth, j).levels) is Some by {
            if j < i {
            }
        }
        lemma_search_prefix(v0, prog, depth, width, i1);
        let e = nth_execution(v0, prog, depth, i1);
        assert(e == nth_execution(v0, prog, depth, i1));
        let e0 = nth_execution(v0, prog, depth, 0);
        assert(rank_from(prog, choices(e0.levels), 0, depth, width) + i1 <= rank_from(prog, choices(e.levels), 0, depth, width));
        lemma_path_within_depth(prog, depth, choices(e.levels));
        lemma_path_within_depth(prog, depth, choices(e0.levels));
        lemma_rank_from_bound(prog, choices(e.levels), 0, depth, width);
        lemma_rank_from_bound(prog, choices(e0.levels), 0, depth, width);
        assert(i1 < power(width, depth));
        lemma_find_end(v0, prog, depth, width, i1)
    }
}

/// A DFS search without bounds, on a test with at most `depth` decisions and at most `width`
/// runnable tasks at each, ends: after some execution `n`, below `width` to the power `depth`, no
/// decision has another choice left, so `new_execution` returns `None`; it did not end before.
/// The executions `0..=n` are complete, run every interleaving of the test, and run none twice.
pub proof fn lemma_dfs_explores_every_schedule_once(
    v0: DfsView,
    prog: spec_fn(Seq<TaskId>) -> Seq<TaskId>,
    depth: nat,
    width: nat,
)
    requires
        is_program(prog, depth),
        depth < usize::MAX,
        is_narrow(prog, width),
        width >= 1,
        v0.max_preemptions is None,
        v0.levels.len() == 0,
        v0.steps == 0,
    ensures
        exists|n: nat|
            {
                &&& n < power(width, depth)
                &&& deepest_pending(nth_execution(v0, prog, depth, n).levels) is None
                &&& forall|i: nat| i < n ==> #[trigger] deepest_pending(nth_execution(v0, prog, depth, i).levels) is Some
                &&& forall|i: nat| i <= n ==> is_leaf(prog, choices(#[trigger] nth_execution(v0, prog, depth, i).levels))
                &&& forall|i: nat, j: nat|
                    i < j <= n ==> choices(#[trigger] nth_execution(v0, prog, depth, i).levels) != choices(
                        #[trigger] nth_execution(v0, prog, depth, j).levels,
                    )
                &&& forall|q: Seq<TaskId>|
                    is_leaf(prog, q) ==> exists|i: nat|
                        i <= n && choices((#[trigger] nth_execution(v0, prog, depth, i)).levels) == q
            },
{
    lemma_power_positive(width, depth);
    let n = lemma_find_end(v0, prog, depth, width, 0);
    lemma_search_prefix(v0, prog, depth, width, n);
    let en = nth_execution(v0, prog, depth, n);
    assert forall|i: nat| i <= n implies is_leaf(prog, choices(#[trigger] nth_execution(v0, prog, depth, i).levels)) by {
        assert(nth_execution(v0, prog, depth, i) == nth_execution(v0, prog, depth, i));
    }
    assert forall|i: nat, j: nat|
        i < j <= n implies choices(#[trigger] nth_execution(v0, prog, depth, i).levels) != choices(
        #[trigger] nth_execution(v0, prog, depth, j).levels,
    ) by {
        let rn = rank_from(prog, choices(en.levels), 0, depth, width);
        assert(rank_from(prog, choices(nth_execution(v0, prog, depth, i).levels), 0, depth, width) + (n - i) <= rn);
        assert(rank_from(prog, choices(nth_execution(v0, prog, depth, j).levels), 0, depth, width) + (n - j) <= rn);
        lemma_search_prefix(v0, prog, depth, width, j);
        assert(rank_from(prog, choices(nth_execution(v0, prog, depth, i).levels), 0, depth, width) + (j - i) <= rank_from(
            prog,
            choices(nth_execution(v0, prog, depth, j).levels),
            0,
            depth,
            width,
        ));
    }
    lemma_deepest_pending(en.levels);
    crate::scheduler::explore::lemma_search_ends_at_last(en.levels, prog, depth);
    assert forall|q: Seq<TaskId>| is_leaf(prog, q) implies exists|i: nat|
        i <= n && choices((#[trigger] nth_execution(v0, prog, depth, i)).levels) == q by {
        assert(!precedes(prog, choices(en.levels), q));
    }
}

} // verus!
