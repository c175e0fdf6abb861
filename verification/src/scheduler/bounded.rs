//! The preemption bound of the DFS scheduler over whole searches.
//!
//! With `max_preemptions` set to `mp`, the DFS search runs every interleaving of the test that
//! preempts a runnable task at most `mp` times, each exactly once, and no other. The proof reads
//! the bounded search as the unbounded search of a pruned test, `bounded_program`: where the
//! bound is reached and the current task can still run, only the current task is offered.

use vstd::prelude::*;

use crate::runtime::task::TaskId;
use crate::scheduler::complete::{
    deepest_pending, is_narrow, lemma_deepest_pending, lemma_dfs_explores_every_schedule_once,
    lemma_run_keeps_bound, nth_execution, power,
};
use crate::scheduler::dfs::{dfs_step, first_position, forces_current, is_last_pending, is_preemption, restarted, DfsView};
use crate::scheduler::explore::{
    choice_index, choices, is_leaf, is_path, is_program, last_choice, lemma_choices_prefix,
    lemma_first_execution_is_least, lemma_first_position, lemma_next_execution_follows, lemma_path_step,
    lemma_path_within_depth, lemma_records_prefix, lemma_records_push, records, run_execution,
};

verus! {

/// The number of preemptions along `path`: choices that switch away from a task that could have
/// gone on running.
pub open spec fn count_preemptions(prog: spec_fn(Seq<TaskId>) -> Seq<TaskId>, path: Seq<TaskId>) -> nat
    decreases path.len(),
{
    if path.len() == 0 {
        0
    } else {
        let pre = path.drop_last();
        count_preemptions(prog, pre) + if is_preemption(prog(pre), last_choice(pre), path.last()) {
            1nat
        } else {
            0nat
        }
    }
}

/// After `q`, the bound `mp` is reached and the task that ran last can still run.
pub open spec fn bound_forces(prog: spec_fn(Seq<TaskId>) -> Seq<TaskId>, mp: usize, q: Seq<TaskId>) -> bool {
    &&& count_preemptions(prog, q) >= mp
    &&& last_choice(q) matches Some(c) && prog(q).contains(c)
}

/// The test as a search bounded by `mp` preemptions sees it: where the bound forces the current
/// task, only that task is offered.
pub open spec fn bounded_program(prog: spec_fn(Seq<TaskId>) -> Seq<TaskId>, mp: usize) -> spec_fn(Seq<TaskId>) -> Seq<TaskId> {
    |q: Seq<TaskId>|
        if bound_forces(prog, mp, q) {
            seq![last_choice(q).unwrap()]
        } else {
            prog(q)
        }
}

pub(crate) proof fn lemma_count_push(prog: spec_fn(Seq<TaskId>) -> Seq<TaskId>, path: Seq<TaskId>, x: TaskId)
    ensures
        count_preemptions(prog, path.push(x)) == count_preemptions(prog, path) + if is_preemption(
            prog(path),
            last_choice(path),
            x,
        ) {
            1nat
        } else {
            0nat
        },
{
    assert(path.push(x).drop_last() =~= path);
}

/// A path is a path exactly when its last choice was runnable after the ones before it and the
/// ones before it form a path.
proof fn lemma_path_push(prog: spec_fn(Seq<TaskId>) -> Seq<TaskId>, path: Seq<TaskId>, x: TaskId)
    ensures
        is_path(prog, path.push(x)) <==> (is_path(prog, path) && prog(path).contains(x)),
{
    reveal(is_path);
    let p2 = path.push(x);
    assert(p2.subrange(0, path.len() as int) =~= path);
    if is_path(prog, p2) {
        assert forall|i: int| 0 <= i < path.len() implies #[trigger] prog(path.subrange(0, i)).contains(path[i]) by {
            assert(p2.subrange(0, i) =~= path.subrange(0, i));
            assert(prog(p2.subrange(0, i)).contains(p2[i]));
        }
        assert(prog(p2.subrange(0, path.len() as int)).contains(p2[path.len() as int]));
    }
    if is_path(prog, path) && prog(path).contains(x) {
        assert forall|i: int| 0 <= i < p2.len() implies #[trigger] prog(p2.subrange(0, i)).contains(p2[i]) by {
            if i < path.len() {
                assert(p2.subrange(0, i) =~= path.subrange(0, i));
                assert(prog(path.subrange(0, i)).contains(path[i]));
            }
        }
    }
}

/// The pruned test is a test: its runnable sets have no repeats, none after `depth` choices, and
/// none wider than those of the unpruned test.
proof fn lemma_bounded_program_is_program(prog: spec_fn(Seq<TaskId>) -> Seq<TaskId>, mp: usize, depth: nat, width: nat)
    requires
        is_program(prog, depth),
        is_narrow(prog, width),
    ensures
        is_program(bounded_program(prog, mp), depth),
        is_narrow(bounded_program(prog, mp), width),
{
    let pm = bounded_program(prog, mp);
    assert forall|q: Seq<TaskId>| #[trigger] pm(q).no_duplicates() by {
        assert(prog(q).no_duplicates());
    }
    assert forall|q: Seq<TaskId>| q.len() >= depth implies #[trigger] pm(q).len() == 0 by {
        assert(prog(q).len() == 0);
    }
    assert forall|q: Seq<TaskId>| #[trigger] pm(q).len() <= width by {
        assert(prog(q).len() <= width);
        if bound_forces(prog, mp, q) {
            assert(prog(q).len() > 0);
        }
    }
}

/// The paths of the pruned test are the paths of the test with at most `mp` preemptions.
proof fn lemma_bounded_paths(prog: spec_fn(Seq<TaskId>) -> Seq<TaskId>, mp: usize, path: Seq<TaskId>)
    ensures
        is_path(bounded_program(prog, mp), path) <==> (is_path(prog, path) && count_preemptions(prog, path) <= mp),
    decreases path.len(),
{
    let pm = bounded_program(prog, mp);
    if path.len() == 0 {
        reveal(is_path);
    } else {
        let pre = path.drop_last();
        let x = path.last();
        assert(pre.push(x) =~= path);
        lemma_bounded_paths(prog, mp, pre);
        lemma_path_push(prog, pre, x);
        lemma_path_push(pm, pre, x);
        lemma_count_push(prog, pre, x);
        if bound_forces(prog, mp, pre) {
            assert(pm(pre) == seq![last_choice(pre).unwrap()]);
            assert(pm(pre).contains(x) ==> x == last_choice(pre).unwrap());
            if x == last_choice(pre).unwrap() {
                assert(pm(pre)[0] == x);
            }
        }
    }
}

/// The complete executions of the pruned test are those of the test with at most `mp`
/// preemptions.
proof fn lemma_bounded_leaves(prog: spec_fn(Seq<TaskId>) -> Seq<TaskId>, mp: usize, path: Seq<TaskId>)
    ensures
        is_leaf(bounded_program(prog, mp), path) <==> (is_leaf(prog, path) && count_preemptions(prog, path) <= mp),
{
    lemma_bounded_paths(prog, mp, path);
    if bound_forces(prog, mp, path) {
        assert(prog(path).len() > 0);
    }
}

/// A prefix of a path is a path.
proof fn lemma_path_prefix(prog: spec_fn(Seq<TaskId>) -> Seq<TaskId>, path: Seq<TaskId>, n: int)
    requires
        is_path(prog, path),
        0 <= n <= path.len(),
    ensures
        is_path(prog, path.subrange(0, n)),
{
    reveal(is_path);
    let q = path.subrange(0, n);
    assert forall|i: int| 0 <= i < q.len() implies #[trigger] prog(q.subrange(0, i)).contains(q[i]) by {
        assert(q.subrange(0, i) =~= path.subrange(0, i));
        assert(prog(path.subrange(0, i)).contains(path[i]));
    }
}

/// What the bounded search from `vb` on the test and the unbounded search from `vu` on the
/// pruned test keep in common, step by step.
pub open spec fn in_step(prog: spec_fn(Seq<TaskId>) -> Seq<TaskId>, mp: usize, vb: DfsView, vu: DfsView) -> bool {
    &&& vb.max_preemptions == Some(mp)
    &&& vu.max_preemptions is None
    &&& vb.levels == vu.levels
    &&& vb.steps == vu.steps
    &&& vb.next_change_level == vu.next_change_level
    &&& vb.steps <= vb.levels.len()
    &&& records(bounded_program(prog, mp), vb.levels)
    &&& vb.preemptions == count_preemptions(prog, choices(vb.levels.subrange(0, vb.steps as int)))
    &&& forall|l: usize| vb.next_change_level == Some(l) && vb.steps <= l ==> is_last_pending(vb.levels, l as int)
}

/// One decision of the bounded search and of the unbounded search of the pruned test.
proof fn lemma_bounded_step(prog: spec_fn(Seq<TaskId>) -> Seq<TaskId>, depth: nat, mp: usize, vb: DfsView, vu: DfsView)
    requires
        is_program(prog, depth),
        depth < usize::MAX,
        in_step(prog, mp, vb, vu),
    ensures
        ({
            let pm = bounded_program(prog, mp);
            let path = choices(vb.levels.subrange(0, vb.steps as int));
            &&& (prog(path).len() == 0 <==> pm(path).len() == 0)
            &&& path == choices(vu.levels.subrange(0, vu.steps as int))
            &&& prog(path).len() > 0 ==> in_step(
                prog,
                mp,
                dfs_step(vb, prog(path), last_choice(path)),
                dfs_step(vu, pm(path), last_choice(path)),
            )
        }),
{
    let pm = bounded_program(prog, mp);
    assert(is_program(pm, depth)) by {
        assert forall|q: Seq<TaskId>| #[trigger] pm(q).no_duplicates() by {
            assert(prog(q).no_duplicates());
        }
        assert forall|q: Seq<TaskId>| q.len() >= depth implies #[trigger] pm(q).len() == 0 by {
            assert(prog(q).len() == 0);
        }
    }
    let s = vb.steps as int;
    let levels = vb.levels;
    let full = choices(levels);
    lemma_choices_prefix(levels, s);
    let path = choices(levels.subrange(0, s));
    assert(path == full.subrange(0, s));
    let rs = prog(path);
    let rsu = pm(path);
    let cur = last_choice(path);
    lemma_path_within_depth(pm, depth, full);
    lemma_path_prefix(pm, full, s);
    lemma_bounded_paths(prog, mp, path);
    if bound_forces(prog, mp, path) {
        assert(rs.len() > 0);
        assert(rsu.len() == 1);
    } else {
        assert(rsu == rs);
    }
    if rs.len() > 0 {
        let wb = dfs_step(vb, rs, cur);
        let wu = dfs_step(vu, rsu, cur);
        assert(forces_current(vb, rs, cur) == bound_forces(prog, mp, path));
        if s >= levels.len() {
            assert(s == levels.len());
            assert(levels.subrange(0, s) =~= levels);
            if bound_forces(prog, mp, path) {
                assert(rsu[0] == cur.unwrap());
            }
            assert(wb.levels == wu.levels);
            assert(wu.levels == levels.push((rsu[0], 0 == rsu.len() - 1)));
            lemma_records_push(pm, depth, levels, 0);
        } else if vb.next_change_level == Some(s as usize) {
            assert(is_last_pending(levels, s));
            assert(!levels[s].1);
            lemma_path_step(pm, full, s);
            if bound_forces(prog, mp, path) {
                assert(rsu.contains(full[s]));
                lemma_first_position(rsu, full[s]);
                assert(choice_index(pm, full, s) == 0);
                assert(levels[s].1);
            }
            assert(rsu == rs);
            assert(levels[s].0 == full[s]);
            lemma_first_position(rs, full[s]);
            let idx = first_position(rs, levels[s].0) + 1;
            assert(idx < rs.len());
            lemma_records_prefix(pm, levels, s);
            lemma_choices_prefix(levels, s);
            lemma_records_push(pm, depth, levels.subrange(0, s), idx);
            assert(wb.levels == wu.levels);
        } else {
            assert(wb.levels == levels);
            assert(wu.levels == levels);
        }
        let next = crate::scheduler::dfs::dfs_choice(vb, rs, cur);
        let l2 = wb.levels;
        assert(l2.subrange(0, s) =~= levels.subrange(0, s));
        assert(l2[s].0 == next);
        lemma_choices_prefix(l2, s + 1);
        lemma_choices_prefix(l2, s);
        assert(choices(l2.subrange(0, s + 1)) =~= path.push(next));
        lemma_count_push(prog, path, next);
        lemma_path_prefix(pm, choices(l2), s + 1);
        lemma_bounded_paths(prog, mp, path.push(next));
        assert(wb.preemptions == count_preemptions(prog, choices(l2.subrange(0, wb.steps as int))));
        assert(wb.max_preemptions == Some(mp));
        assert(wu.max_preemptions is None);
        assert(wb.steps == wu.steps);
        assert(wb.next_change_level == wu.next_change_level);
        assert(wb.steps <= wb.levels.len());
        assert(records(pm, wb.levels));
        assert forall|l: usize| wb.next_change_level == Some(l) && wb.steps <= l implies is_last_pending(wb.levels, l as int) by {
            assert(vb.next_change_level == Some(l) && vb.steps <= l);
            assert(is_last_pending(levels, l as int));
            assert(s < levels.len());
            assert(vb.next_change_level != Some(s as usize));
            assert(wb.levels == levels);
        }
    }
}

/// The bounded search from `vb` on the test records the same decisions as the unbounded search
/// from `vu` on the pruned test.
proof fn lemma_bounded_run(prog: spec_fn(Seq<TaskId>) -> Seq<TaskId>, depth: nat, mp: usize, vb: DfsView, vu: DfsView, fuel: nat)
    requires
        is_program(prog, depth),
        depth < usize::MAX,
        in_step(prog, mp, vb, vu),
    ensures
        run_execution(vb, prog, fuel).levels == run_execution(vu, bounded_program(prog, mp), fuel).levels,
    decreases fuel,
{
    if fuel > 0 {
        let pm = bounded_program(prog, mp);
        lemma_bounded_step(prog, depth, mp, vb, vu);
        let path = choices(vb.levels.subrange(0, vb.steps as int));
        if prog(path).len() > 0 {
            lemma_bounded_run(
                prog,
                depth,
                mp,
                dfs_step(vb, prog(path), last_choice(path)),
                dfs_step(vu, pm(path), last_choice(path)),
                (fuel - 1) as nat,
            );
        }
    }
}

/// Execution by execution, the bounded search from `v0` on the test records the same decisions
/// as the unbounded search from the same start on the pruned test.
proof fn lemma_bounded_nth(v0: DfsView, prog: spec_fn(Seq<TaskId>) -> Seq<TaskId>, depth: nat, width: nat, mp: usize, n: nat)
    requires
        is_program(prog, depth),
        is_narrow(prog, width),
        depth < usize::MAX,
        v0.max_preemptions == Some(mp),
        v0.levels.len() == 0,
        v0.steps == 0,
    ensures
        ({
            let vu0 = DfsView { max_preemptions: None, ..v0 };
            let pm = bounded_program(prog, mp);
            let eb = nth_execution(v0, prog, depth, n);
            let eu = nth_execution(vu0, pm, depth, n);
            &&& eb.levels == eu.levels
            &&& eb.max_preemptions == Some(mp)
            &&& eu.max_preemptions is None
            &&& records(pm, eu.levels)
            &&& is_leaf(pm, choices(eu.levels))
        }),
    decreases n,
{
    let vu0 = DfsView { max_preemptions: None, ..v0 };
    let pm = bounded_program(prog, mp);
    lemma_bounded_program_is_program(prog, mp, depth, width);
    if n == 0 {
        let vb1 = restarted(v0, None);
        let vu1 = restarted(vu0, None);
        assert(choices(vb1.levels) =~= Seq::<TaskId>::empty());
        assert(choices(vb1.levels.subrange(0, 0)) =~= Seq::<TaskId>::empty());
        assert(records(pm, vb1.levels)) by {
            reveal(is_path);
        }
        assert(in_step(prog, mp, vb1, vu1));
        lemma_bounded_run(prog, depth, mp, vb1, vu1, depth);
        lemma_first_execution_is_least(vu1, pm, depth);
        lemma_run_keeps_bound(vb1, prog, depth);
        lemma_run_keeps_bound(vu1, pm, depth);
    } else {
        let m = (n - 1) as nat;
        lemma_bounded_nth(v0, prog, depth, width, mp, m);
        let pb = nth_execution(v0, prog, depth, m);
        let pu = nth_execution(vu0, pm, depth, m);
        if deepest_pending(pu.levels) is Some {
            let l = deepest_pending(pu.levels).unwrap();
            lemma_deepest_pending(pu.levels);
            lemma_path_within_depth(pm, depth, choices(pu.levels));
            let lu = l as usize;
            assert(lu as int == l);
            let vb1 = restarted(pb, Some(lu));
            let vu1 = restarted(pu, Some(lu));
            assert(choices(vb1.levels.subrange(0, 0)) =~= Seq::<TaskId>::empty());
            assert(in_step(prog, mp, vb1, vu1));
            lemma_bounded_run(prog, depth, mp, vb1, vu1, depth);
            lemma_next_execution_follows(pu, lu, pm, depth);
            lemma_run_keeps_bound(vb1, prog, depth);
            lemma_run_keeps_bound(vu1, pm, depth);
        }
    }
}

/// A DFS search bounded by `mp` preemptions, on a test with at most `depth` decisions and at most
/// `width` runnable tasks at each, ends after some execution `n`, below `width` to the power
/// `depth`, and not before. Its executions `0..=n` are complete, each preempts at most `mp`
/// times, no two are the same, and every complete execution of the test with at most `mp`
/// preemptions is among them.
pub proof fn lemma_bounded_dfs_explores_every_schedule_within_bound_once(
    v0: DfsView,
    prog: spec_fn(Seq<TaskId>) -> Seq<TaskId>,
    depth: nat,
    width: nat,
    mp: usize,
)
    requires
        is_program(prog, depth),
        depth < usize::MAX,
        is_narrow(prog, width),
        width >= 1,
        v0.max_preemptions == Some(mp),
        v0.levels.len() == 0,
        v0.steps == 0,
    ensures
        exists|n: nat|
            {
                &&& n < power(width, depth)
                &&& deepest_pending(nth_execution(v0, prog, depth, n).levels) is None
                &&& forall|i: nat| i < n ==> #[trigger] deepest_pending(nth_execution(v0, prog, depth, i).levels) is Some
                &&& forall|i: nat|
                    i <= n ==> is_leaf(prog, choices(#[trigger] nth_execution(v0, prog, depth, i).levels))
                        && count_preemptions(prog, choices(nth_execution(v0, prog, depth, i).levels)) <= mp
                &&& forall|i: nat, j: nat|
                    i < j <= n ==> choices(#[trigger] nth_execution(v0, prog, depth, i).levels) != choices(
                        #[trigger] nth_execution(v0, prog, depth, j).levels,
                    )
                &&& forall|q: Seq<TaskId>|
                    is_leaf(prog, q) && count_preemptions(prog, q) <= mp ==> exists|i: nat|
                        i <= n && choices((#[trigger] nth_execution(v0, prog, depth, i)).levels) == q
            },
{
    let vu0 = DfsView { max_preemptions: None, ..v0 };
    let pm = bounded_program(prog, mp);
    lemma_bounded_program_is_program(prog, mp, depth, width);
    lemma_dfs_explores_every_schedule_once(vu0, pm, depth, width);
    let n = choose|n: nat|
        {
            &&& n < power(width, depth)
            &&& deepest_pending(nth_execution(vu0, pm, depth, n).levels) is None
            &&& forall|i: nat| i < n ==> #[trigger] deepest_pending(nth_execution(vu0, pm, depth, i).levels) is Some
            &&& forall|i: nat| i <= n ==> is_leaf(pm, choices(#[trigger] nth_execution(vu0, pm, depth, i).levels))
            &&& forall|i: nat, j: nat|
                i < j <= n ==> choices(#[trigger] nth_execution(vu0, pm, depth, i).levels) != choices(
                    #[trigger] nth_execution(vu0, pm, depth, j).levels,
                )
            &&& forall|q: Seq<TaskId>|
                is_leaf(pm, q) ==> exists|i: nat| i <= n && choices((#[trigger] nth_execution(vu0, pm, depth, i)).levels) == q
        };
    lemma_bounded_nth(v0, prog, depth, width, mp, n);
    assert forall|i: nat| i < n implies #[trigger] deepest_pending(nth_execution(v0, prog, depth, i).levels) is Some by {
        lemma_bounded_nth(v0, prog, depth, width, mp, i);
        assert(deepest_pending(nth_execution(vu0, pm, depth, i).levels) is Some);
    }
    assert forall|i: nat| i <= n implies is_leaf(prog, choices(#[trigger] nth_execution(v0, prog, depth, i).levels))
        && count_preemptions(prog, choices(nth_execution(v0, prog, depth, i).levels)) <= mp by {
        lemma_bounded_nth(v0, prog, depth, width, mp, i);
        lemma_bounded_leaves(prog, mp, choices(nth_execution(v0, prog, depth, i).levels));
    }
    assert forall|i: nat, j: nat| i < j <= n implies choices(#[trigger] nth_execution(v0, prog, depth, i).levels) != choices(
        #[trigger] nth_execution(v0, prog, depth, j).levels,
    ) by {
        lemma_bounded_nth(v0, prog, depth, width, mp, i);
        lemma_bounded_nth(v0, prog, depth, width, mp, j);
        assert(choices(nth_execution(vu0, pm, depth, i).levels) != choices(nth_execution(vu0, pm, depth, j).levels));
    }
    assert forall|q: Seq<TaskId>| is_leaf(prog, q) && count_preemptions(prog, q) <= mp implies exists|i: nat|
        i <= n && choices((#[trigger] nth_execution(v0, prog, depth, i)).levels) == q by {
        lemma_bounded_leaves(prog, mp, q);
        let i = choose|i: nat| i <= n && choices((#[trigger] nth_execution(vu0, pm, depth, i)).levels) == q;
        lemma_bounded_nth(v0, prog, depth, width, mp, i);
        assert(choices(nth_execution(v0, prog, depth, i).levels) == q);
    }
}

} // verus!
