//! What the DFS scheduler explores over a whole test.
//!
//! A test whose only nondeterminism is scheduling is, as the scheduler sees it, a tree: after a
//! sequence of choices, the runtime offers a runnable set to choose from, or none once the
//! execution is over. An execution is a path from the root to a leaf. This module proves that,
//! without a preemption bound, the executions of the DFS scheduler are the leaves of that tree in
//! depth-first order: the first is the least leaf, each next one is the leaf that immediately
//! follows the previous one, and the search ends at the greatest. So every schedule is explored,
//! and none twice.

use vstd::prelude::*;

use crate::runtime::task::TaskId;
use crate::scheduler::dfs::{
    dfs_step, first_position, is_last_pending, none_pending, restarted, DfsView,
};

verus! {

/// The tasks chosen by a sequence of recorded decisions.
pub open spec fn choices(levels: Seq<(TaskId, bool)>) -> Seq<TaskId> {
    levels.map_values(|p: (TaskId, bool)| p.0)
}

/// A test as the scheduler sees it: the runnable tasks after each sequence of choices, without
/// repeats, and none from `depth` choices on.
pub open spec fn is_program(prog: spec_fn(Seq<TaskId>) -> Seq<TaskId>, depth: nat) -> bool {
    &&& forall|q: Seq<TaskId>| #[trigger] prog(q).no_duplicates()
    &&& forall|q: Seq<TaskId>| q.len() >= depth ==> #[trigger] prog(q).len() == 0
}

/// Every choice of `path` picks a task that was runnable at that point.
#[verifier::opaque]
pub open spec fn is_path(prog: spec_fn(Seq<TaskId>) -> Seq<TaskId>, path: Seq<TaskId>) -> bool {
    forall|i: int| 0 <= i < path.len() ==> #[trigger] prog(path.subrange(0, i)).contains(path[i])
}

/// A complete execution: a path after which nothing can run.
pub open spec fn is_leaf(prog: spec_fn(Seq<TaskId>) -> Seq<TaskId>, path: Seq<TaskId>) -> bool {
    is_path(prog, path) && prog(path).len() == 0
}

/// The position of the `i`-th choice of `path` among the tasks runnable at that point.
pub open spec fn choice_index(prog: spec_fn(Seq<TaskId>) -> Seq<TaskId>, path: Seq<TaskId>, i: int) -> int {
    first_position(prog(path.subrange(0, i)), path[i])
}

/// `levels` records a path, and for each decision whether its choice was the last runnable task.
pub open spec fn records(prog: spec_fn(Seq<TaskId>) -> Seq<TaskId>, levels: Seq<(TaskId, bool)>) -> bool {
    let path = choices(levels);
    &&& is_path(prog, path)
    &&& forall|i: int| #![trigger levels[i]]
        0 <= i < levels.len() ==> levels[i].1 == (choice_index(prog, path, i) == prog(path.subrange(0, i)).len() - 1)
}

/// `p` comes before `q` in depth-first order: at the first decision where they part, `p` takes a
/// task that is earlier in the runnable set.
pub open spec fn precedes(prog: spec_fn(Seq<TaskId>) -> Seq<TaskId>, p: Seq<TaskId>, q: Seq<TaskId>) -> bool {
    exists|k: int|
        0 <= k < p.len() && k < q.len() && p.subrange(0, k) == q.subrange(0, k) && #[trigger] choice_index(prog, p, k)
            < choice_index(prog, q, k)
}

/// The task that ran last, if any.
pub open spec fn last_choice(path: Seq<TaskId>) -> Option<TaskId> {
    if path.len() == 0 {
        None
    } else {
        Some(path.last())
    }
}

/// One execution under the DFS scheduler: at every step the runtime offers the tasks that the
/// program makes runnable after the choices taken so far, until none is left.
pub open spec fn run_execution(v: DfsView, prog: spec_fn(Seq<TaskId>) -> Seq<TaskId>, fuel: nat) -> DfsView
    decreases fuel,
{
    if fuel == 0 {
        v
    } else {
        let path = choices(v.levels.subrange(0, v.steps as int));
        let rs = prog(path);
        if rs.len() == 0 {
            v
        } else {
            run_execution(dfs_step(v, rs, last_choice(path)), prog, (fuel - 1) as nat)
        }
    }
}

proof fn lemma_first_occurrence_exists(s: Seq<TaskId>, t: TaskId, i: int)
    requires
        0 <= i < s.len(),
        s[i] == t,
    ensures
        exists|k: int| 0 <= k < s.len() && s[k] == t && forall|j: int| 0 <= j < k ==> s[j] != t,
    decreases i,
{
    if exists|j: int| 0 <= j < i && s[j] == t {
        let j = choose|j: int| 0 <= j < i && s[j] == t;
        lemma_first_occurrence_exists(s, t, j);
    } else {
        assert(0 <= i < s.len() && s[i] == t && forall|j: int| 0 <= j < i ==> s[j] != t);
    }
}

pub(crate) proof fn lemma_first_position(s: Seq<TaskId>, t: TaskId)
    requires
        s.contains(t),
    ensures
        0 <= first_position(s, t) < s.len(),
        s[first_position(s, t)] == t,
{
    let i = choose|i: int| 0 <= i < s.len() && s[i] == t;
    lemma_first_occurrence_exists(s, t, i);
}

pub(crate) proof fn lemma_first_position_of_index(s: Seq<TaskId>, i: int)
    requires
        s.no_duplicates(),
        0 <= i < s.len(),
    ensures
        first_position(s, s[i]) == i,
{
    lemma_first_position(s, s[i]);
}

/// The `i`-th choice of a path was runnable after the choices before it.
pub(crate) proof fn lemma_path_step(prog: spec_fn(Seq<TaskId>) -> Seq<TaskId>, path: Seq<TaskId>, i: int)
    requires
        is_path(prog, path),
        0 <= i < path.len(),
    ensures
        prog(path.subrange(0, i)).contains(path[i]),
{
    reveal(is_path);
}

pub(crate) proof fn lemma_choices_prefix(levels: Seq<(TaskId, bool)>, n: int)
    requires
        0 <= n <= levels.len(),
    ensures
        choices(levels.subrange(0, n)) == choices(levels).subrange(0, n),
{
    assert(choices(levels.subrange(0, n)) =~= choices(levels).subrange(0, n));
}

pub(crate) proof fn lemma_choices_push(levels: Seq<(TaskId, bool)>, x: (TaskId, bool))
    ensures
        choices(levels.push(x)) == choices(levels).push(x.0),
{
    assert(choices(levels.push(x)) =~= choices(levels).push(x.0));
}

/// A path never has more choices than the depth of the program.
pub(crate) proof fn lemma_path_within_depth(prog: spec_fn(Seq<TaskId>) -> Seq<TaskId>, depth: nat, path: Seq<TaskId>)
    requires
        is_program(prog, depth),
        is_path(prog, path),
    ensures
        path.len() <= depth,
{
    if path.len() > depth {
        lemma_path_step(prog, path, depth as int);
        assert(prog(path.subrange(0, depth as int)).len() == 0);
    }
}

/// Paths that agree on their first `n` choices have the same choice indices there.
pub(crate) proof fn lemma_same_prefix_same_index(prog: spec_fn(Seq<TaskId>) -> Seq<TaskId>, p: Seq<TaskId>, q: Seq<TaskId>, n: int, i: int)
    requires
        0 <= i < n <= p.len(),
        n <= q.len(),
        p.subrange(0, n) == q.subrange(0, n),
    ensures
        choice_index(prog, p, i) == choice_index(prog, q, i),
        p.subrange(0, i) == q.subrange(0, i),
        p[i] == q[i],
{
    assert(p.subrange(0, i) =~= p.subrange(0, n).subrange(0, i));
    assert(q.subrange(0, i) =~= q.subrange(0, n).subrange(0, i));
    assert(p[i] == p.subrange(0, n)[i]);
    assert(q[i] == q.subrange(0, n)[i]);
}

/// Two different leaves part at some decision that both of them take.
proof fn lemma_leaves_part(prog: spec_fn(Seq<TaskId>) -> Seq<TaskId>, p: Seq<TaskId>, q: Seq<TaskId>, m: int)
    requires
        is_leaf(prog, p),
        is_leaf(prog, q),
        p != q,
        0 <= m <= p.len(),
        m <= q.len(),
        p.subrange(0, m) == q.subrange(0, m),
    ensures
        exists|k: int|
            m <= k < p.len() && k < q.len() && p.subrange(0, k) == q.subrange(0, k) && p[k] != q[k],
    decreases p.len() - m,
{
    if m == p.len() {
        assert(p.subrange(0, m) =~= p);
        if m == q.len() {
            assert(q.subrange(0, m) =~= q);
        } else {
            assert(p =~= q.subrange(0, m));
            lemma_path_step(prog, q, m);
        }
    } else if m == q.len() {
        assert(q.subrange(0, m) =~= q);
        assert(q =~= p.subrange(0, m));
        lemma_path_step(prog, p, m);
    } else if p[m] != q[m] {
        assert(m <= m < p.len() && m < q.len() && p.subrange(0, m) == q.subrange(0, m) && p[m] != q[m]);
    } else {
        assert(p.subrange(0, m + 1) =~= p.subrange(0, m).push(p[m]));
        assert(q.subrange(0, m + 1) =~= q.subrange(0, m).push(q[m]));
        lemma_leaves_part(prog, p, q, m + 1);
    }
}

/// Where two paths with equal prefixes take different tasks, their choice indices differ.
proof fn lemma_different_task_different_index(
    prog: spec_fn(Seq<TaskId>) -> Seq<TaskId>,
    depth: nat,
    p: Seq<TaskId>,
    q: Seq<TaskId>,
    k: int,
)
    requires
        is_program(prog, depth),
        is_path(prog, p),
        is_path(prog, q),
        0 <= k < p.len(),
        k < q.len(),
        p.subrange(0, k) == q.subrange(0, k),
        p[k] != q[k],
    ensures
        choice_index(prog, p, k) != choice_index(prog, q, k),
        0 <= choice_index(prog, q, k) < prog(q.subrange(0, k)).len(),
{
    let rs = prog(p.subrange(0, k));
    lemma_path_step(prog, p, k);
    lemma_path_step(prog, q, k);
    lemma_first_position(rs, p[k]);
    lemma_first_position(rs, q[k]);
}

/// Appending a decision that takes the runnable task at position `idx` keeps the record accurate.
pub(crate) proof fn lemma_records_push(
    prog: spec_fn(Seq<TaskId>) -> Seq<TaskId>,
    depth: nat,
    levels: Seq<(TaskId, bool)>,
    idx: int,
)
    requires
        is_program(prog, depth),
        records(prog, levels),
        0 <= idx < prog(choices(levels)).len(),
    ensures
        ({
            let rs = prog(choices(levels));
            let l2 = levels.push((rs[idx], idx == rs.len() - 1));
            &&& records(prog, l2)
            &&& choice_index(prog, choices(l2), levels.len() as int) == idx
        }),
{
    let path = choices(levels);
    let rs = prog(path);
    let x = (rs[idx], idx == rs.len() - 1);
    let l2 = levels.push(x);
    let path2 = choices(l2);
    lemma_choices_push(levels, x);
    let n = levels.len() as int;
    assert(path2.subrange(0, n) =~= path);
    assert(path.subrange(0, n) =~= path);
    assert forall|i: int| 0 <= i < path2.len() implies #[trigger] prog(path2.subrange(0, i)).contains(path2[i]) by {
        if i < n {
            assert(path2.subrange(0, i) =~= path.subrange(0, i));
            lemma_path_step(prog, path, i);
        } else {
            assert(rs[idx] == path2[i]);
        }
    }
    reveal(is_path);
    lemma_first_position_of_index(rs, idx);
    assert forall|i: int| #![trigger l2[i]]
        0 <= i < l2.len() implies l2[i].1 == (choice_index(prog, path2, i) == prog(path2.subrange(0, i)).len() - 1) by {
        if i < n {
            lemma_same_prefix_same_index(prog, path2, path, n, i);
            assert(levels[i] == l2[i]);
        }
    }
}

/// From a decision reached for the first time on, an execution without a preemption bound takes
/// the first runnable task at every decision, and ends at a leaf.
proof fn lemma_fresh_run(v: DfsView, prog: spec_fn(Seq<TaskId>) -> Seq<TaskId>, depth: nat, fuel: nat)
    requires
        is_program(prog, depth),
        depth < usize::MAX,
        v.max_preemptions is None,
        v.steps == v.levels.len(),
        records(prog, v.levels),
        v.levels.len() + fuel >= depth,
    ensures
        ({
            let w = run_execution(v, prog, fuel);
            &&& w.steps == w.levels.len()
            &&& records(prog, w.levels)
            &&& is_leaf(prog, choices(w.levels))
            &&& v.levels.len() <= w.levels.len()
            &&& w.levels.subrange(0, v.levels.len() as int) == v.levels
            &&& forall|i: int|
                v.levels.len() <= i < w.levels.len() ==> #[trigger] choice_index(prog, choices(w.levels), i) == 0
        }),
    decreases fuel,
{
    let n = v.levels.len() as int;
    assert(v.levels.subrange(0, v.steps as int) =~= v.levels);
    let path = choices(v.levels);
    let rs = prog(path);
    lemma_path_within_depth(prog, depth, path);
    if rs.len() == 0 {
        assert(v.levels.subrange(0, n) =~= v.levels);
    } else {
        assert(fuel > 0);
        let v2 = dfs_step(v, rs, last_choice(path));
        assert(v2.levels == v.levels.push((rs[0], 0 == rs.len() - 1)));
        lemma_records_push(prog, depth, v.levels, 0);
        lemma_fresh_run(v2, prog, depth, (fuel - 1) as nat);
        let w = run_execution(v2, prog, (fuel - 1) as nat);
        assert(run_execution(v, prog, fuel) == w);
        assert(w.levels.subrange(0, n) =~= w.levels.subrange(0, n + 1).subrange(0, n));
        assert(v2.levels.subrange(0, n) =~= v.levels);
        let pw = choices(w.levels);
        let p2 = choices(v2.levels);
        lemma_choices_prefix(w.levels, n + 1);
        assert(w.levels.subrange(0, n + 1) == v2.levels);
        assert(pw.subrange(0, n + 1) == p2);
        assert(p2.subrange(0, n + 1) =~= p2);
        assert forall|i: int| n <= i < w.levels.len() implies #[trigger] choice_index(prog, pw, i) == 0 by {
            if i == n {
                lemma_same_prefix_same_index(prog, pw, p2, n + 1, n);
            }
        }
    }
}

/// The record of a path's first `n` decisions is accurate when the whole record is.
pub(crate) proof fn lemma_records_prefix(prog: spec_fn(Seq<TaskId>) -> Seq<TaskId>, levels: Seq<(TaskId, bool)>, n: int)
    requires
        records(prog, levels),
        0 <= n <= levels.len(),
    ensures
        records(prog, levels.subrange(0, n)),
{
    let l2 = levels.subrange(0, n);
    let path = choices(levels);
    let path2 = choices(l2);
    lemma_choices_prefix(levels, n);
    assert forall|i: int| 0 <= i < path2.len() implies #[trigger] prog(path2.subrange(0, i)).contains(path2[i]) by {
        assert(path2.subrange(0, i) =~= path.subrange(0, i));
        lemma_path_step(prog, path, i);
    }
    reveal(is_path);
    assert forall|i: int| #![trigger l2[i]]
        0 <= i < l2.len() implies l2[i].1 == (choice_index(prog, path2, i) == prog(path2.subrange(0, i)).len() - 1) by {
        assert(path2.subrange(0, i) =~= path.subrange(0, i));
        assert(levels[i] == l2[i]);
    }
}

/// The state after the decision at which an execution departs from the recorded path `old`.
proof fn lemma_change_step(
    v: DfsView,
    prog: spec_fn(Seq<TaskId>) -> Seq<TaskId>,
    depth: nat,
    l: int,
    old: Seq<(TaskId, bool)>,
)
    requires
        is_program(prog, depth),
        depth < usize::MAX,
        v.levels == old,
        records(prog, old),
        is_last_pending(old, l),
        v.next_change_level == Some(l as usize),
        v.steps == l,
    ensures
        ({
            let po = choices(old);
            let path = choices(old.subrange(0, l));
            let v2 = dfs_step(v, prog(path), last_choice(path));
            let p2 = choices(v2.levels);
            &&& v2.max_preemptions == v.max_preemptions
            &&& v2.steps == v2.levels.len() == l + 1
            &&& records(prog, v2.levels)
            &&& p2.subrange(0, l) == po.subrange(0, l)
            &&& choice_index(prog, p2, l) == choice_index(prog, po, l) + 1
        }),
{
    let po = choices(old);
    lemma_path_within_depth(prog, depth, po);
    lemma_choices_prefix(old, l);
    let path = choices(old.subrange(0, l));
    let rs = prog(path);
    lemma_path_step(prog, po, l);
    lemma_first_position(rs, po[l]);
    assert(old[l].0 == po[l]);
    let idx = first_position(rs, old[l].0) + 1;
    assert(choice_index(prog, po, l) == idx - 1);
    assert(idx < rs.len());
    let pre = old.subrange(0, l);
    let v2 = dfs_step(v, rs, last_choice(path));
    assert(v2.levels == pre.push((rs[idx], idx == rs.len() - 1)));
    lemma_records_prefix(prog, old, l);
    lemma_records_push(prog, depth, pre, idx);
    lemma_choices_push(pre, (rs[idx], idx == rs.len() - 1));
    let p2 = choices(v2.levels);
    assert(p2.subrange(0, l) =~= choices(pre));
}

/// An execution that departs from the recorded path `old` at decision `l` repeats the decisions
/// before `l`, takes the next runnable task at `l`, and the first runnable task after it.
proof fn lemma_successor_run(
    v: DfsView,
    prog: spec_fn(Seq<TaskId>) -> Seq<TaskId>,
    depth: nat,
    fuel: nat,
    l: int,
    old: Seq<(TaskId, bool)>,
)
    requires
        is_program(prog, depth),
        depth < usize::MAX,
        v.max_preemptions is None,
        v.levels == old,
        records(prog, old),
        is_last_pending(old, l),
        v.next_change_level == Some(l as usize),
        v.steps <= l,
        v.steps + fuel >= depth,
    ensures
        ({
            let w = run_execution(v, prog, fuel);
            let pw = choices(w.levels);
            let po = choices(old);
            &&& w.steps == w.levels.len()
            &&& records(prog, w.levels)
            &&& is_leaf(prog, pw)
            &&& l < w.levels.len()
            &&& pw.subrange(0, l) == po.subrange(0, l)
            &&& choice_index(prog, pw, l) == choice_index(prog, po, l) + 1
            &&& forall|i: int| l < i < w.levels.len() ==> #[trigger] choice_index(prog, pw, i) == 0
        }),
    decreases l - v.steps,
{
    let s = v.steps as int;
    let po = choices(old);
    lemma_path_within_depth(prog, depth, po);
    let path = choices(old.subrange(0, s));
    let rs = prog(path);
    lemma_choices_prefix(old, s);
    lemma_path_step(prog, po, s);
    assert(fuel > 0);
    let v2 = dfs_step(v, rs, last_choice(path));
    assert(run_execution(v, prog, fuel) == run_execution(v2, prog, (fuel - 1) as nat));
    if s < l {
        assert(v2.levels == old);
        lemma_successor_run(v2, prog, depth, (fuel - 1) as nat, l, old);
    } else {
        lemma_change_step(v, prog, depth, l, old);
        lemma_fresh_run(v2, prog, depth, (fuel - 1) as nat);
        let w = run_execution(v2, prog, (fuel - 1) as nat);
        let pw = choices(w.levels);
        let p2 = choices(v2.levels);
        lemma_choices_prefix(w.levels, l + 1);
        assert(w.levels.subrange(0, l + 1) == v2.levels);
        assert(p2.subrange(0, l + 1) =~= p2);
        lemma_same_prefix_same_index(prog, pw, p2, l + 1, l);
        assert(pw.subrange(0, l) =~= pw.subrange(0, l + 1).subrange(0, l));
    }
}

/// The first execution of a DFS search without a preemption bound is the least leaf of the test:
/// every other complete execution comes after it in depth-first order.
pub proof fn lemma_first_execution_is_least(v: DfsView, prog: spec_fn(Seq<TaskId>) -> Seq<TaskId>, depth: nat)
    requires
        is_program(prog, depth),
        depth < usize::MAX,
        v.max_preemptions is None,
        v.levels.len() == 0,
        v.steps == 0,
    ensures
        ({
            let w = run_execution(v, prog, depth);
            let p = choices(w.levels);
            &&& w.steps == w.levels.len()
            &&& records(prog, w.levels)
            &&& is_leaf(prog, p)
            &&& forall|q: Seq<TaskId>| is_leaf(prog, q) && q != p ==> precedes(prog, p, q)
        }),
{
    assert(choices(v.levels) =~= Seq::<TaskId>::empty());
    assert(records(prog, v.levels)) by {
        reveal(is_path);
    }
    lemma_fresh_run(v, prog, depth, depth);
    let w = run_execution(v, prog, depth);
    let p = choices(w.levels);
    assert forall|q: Seq<TaskId>| is_leaf(prog, q) && q != p implies precedes(prog, p, q) by {
        assert(p.subrange(0, 0) =~= q.subrange(0, 0));
        lemma_leftmost_from(prog, depth, 0, p, q);
    }
}

/// Past the deepest decision with another choice left, a recorded path takes the last runnable
/// task, so no path that agrees with it up to there takes a later one.
proof fn lemma_no_later_choice_past_pending(
    prog: spec_fn(Seq<TaskId>) -> Seq<TaskId>,
    levels: Seq<(TaskId, bool)>,
    l: int,
    q: Seq<TaskId>,
    k: int,
)
    requires
        records(prog, levels),
        is_last_pending(levels, l),
        is_path(prog, q),
        l < k < levels.len(),
        k < q.len(),
        choices(levels).subrange(0, k) == q.subrange(0, k),
    ensures
        choice_index(prog, q, k) <= choice_index(prog, choices(levels), k),
{
    let p = choices(levels);
    assert(levels[k].1);
    let rs = prog(q.subrange(0, k));
    lemma_path_step(prog, q, k);
    lemma_first_position(rs, q[k]);
}

/// Two leaves that agree on their first `m` choices, where one of them takes the first runnable
/// task at every later decision: the other one comes after it, unless they are the same.
proof fn lemma_leftmost_from(
    prog: spec_fn(Seq<TaskId>) -> Seq<TaskId>,
    depth: nat,
    m: int,
    p2: Seq<TaskId>,
    q: Seq<TaskId>,
)
    requires
        is_program(prog, depth),
        is_leaf(prog, p2),
        is_leaf(prog, q),
        0 <= m <= p2.len(),
        m <= q.len(),
        p2.subrange(0, m) == q.subrange(0, m),
        forall|i: int| m <= i < p2.len() ==> #[trigger] choice_index(prog, p2, i) == 0,
        q != p2,
    ensures
        precedes(prog, p2, q),
{
    lemma_leaves_part(prog, p2, q, m);
    let k2 = choose|k2: int|
        m <= k2 < p2.len() && k2 < q.len() && p2.subrange(0, k2) == q.subrange(0, k2) && p2[k2] != q[k2];
    lemma_different_task_different_index(prog, depth, p2, q, k2);
    assert(choice_index(prog, p2, k2) == 0);
    assert(precedes(prog, p2, q));
}

/// Two leaves that take the same task at `l` after the same prefix, where one of them takes the
/// first runnable task at every later decision: the other one comes after it, unless they are
/// the same.
proof fn lemma_leftmost_below(
    prog: spec_fn(Seq<TaskId>) -> Seq<TaskId>,
    depth: nat,
    l: int,
    p2: Seq<TaskId>,
    q: Seq<TaskId>,
)
    requires
        is_program(prog, depth),
        is_leaf(prog, p2),
        is_leaf(prog, q),
        0 <= l < p2.len(),
        l < q.len(),
        p2.subrange(0, l) == q.subrange(0, l),
        choice_index(prog, q, l) == choice_index(prog, p2, l),
        forall|i: int| l < i < p2.len() ==> #[trigger] choice_index(prog, p2, i) == 0,
        q != p2,
    ensures
        precedes(prog, p2, q),
{
    let rs = prog(q.subrange(0, l));
    lemma_path_step(prog, q, l);
    lemma_path_step(prog, p2, l);
    lemma_first_position(rs, q[l]);
    lemma_first_position(rs, p2[l]);
    assert(q[l] == p2[l]);
    assert(p2.subrange(0, l + 1) =~= p2.subrange(0, l).push(p2[l]));
    assert(q.subrange(0, l + 1) =~= q.subrange(0, l).push(q[l]));
    lemma_leftmost_from(prog, depth, l + 1, p2, q);
}

/// A complete execution `q` after `p` in depth-first order is not before `p2`, the execution that
/// departs from `p` at its deepest decision `l` with another choice left, with the next task there
/// and the first runnable task after.
proof fn lemma_nothing_between(
    prog: spec_fn(Seq<TaskId>) -> Seq<TaskId>,
    depth: nat,
    levels: Seq<(TaskId, bool)>,
    l: int,
    p2: Seq<TaskId>,
    q: Seq<TaskId>,
)
    requires
        is_program(prog, depth),
        records(prog, levels),
        is_last_pending(levels, l),
        is_leaf(prog, choices(levels)),
        is_leaf(prog, p2),
        is_leaf(prog, q),
        l < p2.len(),
        p2.subrange(0, l) == choices(levels).subrange(0, l),
        choice_index(prog, p2, l) == choice_index(prog, choices(levels), l) + 1,
        forall|i: int| l < i < p2.len() ==> #[trigger] choice_index(prog, p2, i) == 0,
        precedes(prog, choices(levels), q),
        q != p2,
    ensures
        precedes(prog, p2, q),
{
    let p = choices(levels);
    let k = choose|k: int|
        0 <= k < p.len() && k < q.len() && p.subrange(0, k) == q.subrange(0, k) && #[trigger] choice_index(prog, p, k)
            < choice_index(prog, q, k);
    if k < l {
        lemma_same_prefix_same_index(prog, p, p2, l, k);
        assert(p2.subrange(0, k) == q.subrange(0, k));
        assert(precedes(prog, p2, q));
    } else if k > l {
        lemma_no_later_choice_past_pending(prog, levels, l, q, k);
    } else if choice_index(prog, q, l) > choice_index(prog, p2, l) {
        assert(p2.subrange(0, l) == q.subrange(0, l));
        assert(precedes(prog, p2, q));
    } else {
        lemma_leftmost_below(prog, depth, l, p2, q);
    }
}

/// Each next execution of a DFS search without a preemption bound is the complete execution that
/// immediately follows the previous one in depth-first order: it comes after it, and every other
/// complete execution after the previous one also comes after the new one.
pub proof fn lemma_next_execution_follows(
    v: DfsView,
    l: usize,
    prog: spec_fn(Seq<TaskId>) -> Seq<TaskId>,
    depth: nat,
)
    requires
        is_program(prog, depth),
        depth < usize::MAX,
        v.max_preemptions is None,
        records(prog, v.levels),
        is_leaf(prog, choices(v.levels)),
        is_last_pending(v.levels, l as int),
    ensures
        ({
            let w = run_execution(restarted(v, Some(l)), prog, depth);
            let p = choices(v.levels);
            let p2 = choices(w.levels);
            &&& w.steps == w.levels.len()
            &&& records(prog, w.levels)
            &&& is_leaf(prog, p2)
            &&& precedes(prog, p, p2)
            &&& forall|q: Seq<TaskId>| is_leaf(prog, q) && precedes(prog, p, q) && q != p2 ==> precedes(prog, p2, q)
        }),
{
    let v1 = restarted(v, Some(l));
    let li = l as int;
    lemma_successor_run(v1, prog, depth, depth, li, v.levels);
    let w = run_execution(v1, prog, depth);
    let p = choices(v.levels);
    let p2 = choices(w.levels);
    assert(choice_index(prog, p2, li) > choice_index(prog, p, li));
    assert(precedes(prog, p, p2));
    assert forall|q: Seq<TaskId>| is_leaf(prog, q) && precedes(prog, p, q) && q != p2 implies precedes(prog, p2, q) by {
        lemma_nothing_between(prog, depth, v.levels, li, p2, q);
    }
}

/// When no decision of an execution has another choice left, that execution is the last in
/// depth-first order, and the search rightly ends.
pub proof fn lemma_search_ends_at_last(
    levels: Seq<(TaskId, bool)>,
    prog: spec_fn(Seq<TaskId>) -> Seq<TaskId>,
    depth: nat,
)
    requires
        is_program(prog, depth),
        records(prog, levels),
        is_leaf(prog, choices(levels)),
        none_pending(levels),
    ensures
        forall|q: Seq<TaskId>| is_leaf(prog, q) ==> !precedes(prog, choices(levels), q),
{
    let p = choices(levels);
    assert forall|q: Seq<TaskId>| is_leaf(prog, q) implies !precedes(prog, p, q) by {
        if precedes(prog, p, q) {
            let k = choose|k: int|
                0 <= k < p.len() && k < q.len() && p.subrange(0, k) == q.subrange(0, k) && #[trigger] choice_index(prog, p, k)
                    < choice_index(prog, q, k);
            assert(levels[k].1);
            let rs = prog(q.subrange(0, k));
            lemma_path_step(prog, q, k);
            lemma_first_position(rs, q[k]);
        }
    }
}

} // verus!
