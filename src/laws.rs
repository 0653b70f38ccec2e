//! Properties that relate the search, its restriction, its tree and the
//! greedy heuristic.
use vstd::prelude::*;

use crate::dfs::{
    child_ok, deadhead, distinct_keys, eval, eval_child, eval_pairs, explored, explored_child,
    explored_pairs, fits, forest_ok, has_key, key_pos, lemma_distinct_remove, lemma_key_pos,
    level_count, levels_sum, next_agents, next_times, node_ok, pure_predicate, replay, reported,
    root_ok, steps_of, tree_bound, vetoes, zero_times, Edge, Node, Outcome, Root,
};
use crate::entity::{Agent, Distance, Task};
use crate::min::{fresh, greedy_steps};

verus! {

/// `o` overflows or is a makespan no greater than `w`.
pub open spec fn at_most(o: Outcome, w: u64) -> bool {
    match o {
        Outcome::Overflow => true,
        Outcome::Best(v) => v <= w,
        Outcome::Infeasible => false,
    }
}

/// The fold over pairs is bounded by each pair folded in.
proof fn lemma_fold_at_most<T: Distance, F: Fn(u64) -> bool>(
    r: Option<F>,
    agents: Seq<Agent<T>>,
    times: Seq<u64>,
    tasks: Seq<(usize, Task<T>)>,
    a: nat,
    t: nat,
    a2: nat,
    t2: nat,
    w: u64,
)
    requires
        at_most(eval_child(r, agents, times, tasks, a, t), w),
        t < tasks.len(),
        t2 <= tasks.len(),
        a < a2 || (a == a2 && t < t2),
    ensures
        at_most(eval_pairs(r, agents, times, tasks, a2, t2), w),
    decreases a2, t2,
{
    if t2 > 0 {
        if a == a2 && t + 1 == t2 {
        } else {
            lemma_fold_at_most(r, agents, times, tasks, a, t, a2, (t2 - 1) as nat, w);
        }
    } else {
        lemma_fold_at_most(r, agents, times, tasks, a, t, (a2 - 1) as nat, tasks.len(), w);
    }
}

/// A makespan that the fold over pairs yields is yielded by one pair.
proof fn lemma_fold_witness<T: Distance, F: Fn(u64) -> bool>(
    r: Option<F>,
    agents: Seq<Agent<T>>,
    times: Seq<u64>,
    tasks: Seq<(usize, Task<T>)>,
    a2: nat,
    t2: nat,
) -> (p: (nat, nat))
    requires
        eval_pairs(r, agents, times, tasks, a2, t2) is Best,
        t2 <= tasks.len(),
    ensures
        p.1 < tasks.len(),
        eval_child(r, agents, times, tasks, p.0, p.1) == eval_pairs(
            r,
            agents,
            times,
            tasks,
            a2,
            t2,
        ),
    decreases a2, t2,
{
    if t2 > 0 {
        let prev = eval_pairs(r, agents, times, tasks, a2, (t2 - 1) as nat);
        let c = eval_child(r, agents, times, tasks, a2, (t2 - 1) as nat);
        if prev is Best && (c is Infeasible || (c is Best && prev->Best_0 <= c->Best_0)) {
            lemma_fold_witness(r, agents, times, tasks, a2, (t2 - 1) as nat)
        } else {
            (a2, (t2 - 1) as nat)
        }
    } else {
        lemma_fold_witness(r, agents, times, tasks, (a2 - 1) as nat, tasks.len())
    }
}

/// Any complete schedule that the search explores without restriction is
/// no better than the optimum the search reports.
proof fn lemma_replay_bound<T: Distance, F: Fn(u64) -> bool>(
    agents: Seq<Agent<T>>,
    times: Seq<u64>,
    tasks: Seq<(usize, Task<T>)>,
    path: Seq<(usize, usize)>,
    x: u64,
)
    requires
        replay(agents, times, tasks, path) == Some(x),
        agents.len() == times.len(),
    ensures
        at_most(eval(None::<F>, agents, times, tasks), x),
    decreases path.len(),
{
    if path.len() > 0 {
        let a = path[0].0 as int;
        let t = key_pos(tasks, path[0].1);
        lemma_replay_bound::<T, F>(
            next_agents(agents, tasks, a, t),
            next_times(agents, times, tasks, a, t),
            tasks.remove(t),
            path.drop_first(),
            x,
        );
        lemma_fold_at_most(
            None::<F>,
            agents,
            times,
            tasks,
            a as nat,
            t as nat,
            agents.len(),
            0,
            x,
        );
    }
}

/// A makespan that the search reports is reached by a complete schedule.
proof fn lemma_best_has_path<T: Distance, F: Fn(u64) -> bool>(
    r: Option<F>,
    agents: Seq<Agent<T>>,
    times: Seq<u64>,
    tasks: Seq<(usize, Task<T>)>,
) -> (path: Seq<(usize, usize)>)
    requires
        eval(r, agents, times, tasks) is Best,
        agents.len() == times.len(),
        agents.len() <= usize::MAX,
        distinct_keys(tasks),
    ensures
        Some(eval(r, agents, times, tasks)->Best_0) == replay(agents, times, tasks, path),
    decreases tasks.len(),
{
    if tasks.len() == 0 {
        seq![]
    } else {
        let p = lemma_fold_witness(r, agents, times, tasks, agents.len(), 0);
        let a = p.0 as int;
        let t = p.1 as int;
        lemma_key_pos(tasks, t);
        lemma_distinct_remove(tasks, t);
        let rest = lemma_best_has_path(
            r,
            next_agents(agents, tasks, a, t),
            next_times(agents, times, tasks, a, t),
            tasks.remove(t),
        );
        assert(eval_child(r, agents, times, tasks, p.0, p.1) is Best);
        assert(p.0 < agents.len());
        assert(!vetoes(r, deadhead(agents, tasks, a, t)));
        assert(fits(agents, times, tasks, a, t));
        let path = seq![(a as usize, tasks[t].0)] + rest;
        assert(path.drop_first() =~= rest);
        assert(path[0].0 as int == a);
        assert(path[0].1 == tasks[t].0);
        path
    }
}

/// The exhaustive search without restriction reports an optimum no greater
/// than the makespan of the greedy heuristic's schedule, whenever both
/// succeed.
pub proof fn lemma_exhaustive_not_worse_than_greedy<T: Distance, F: Fn(u64) -> bool>(
    agents: Seq<Agent<T>>,
    tasks: Seq<(usize, Task<T>)>,
)
    requires
        distinct_keys(tasks),
    ensures
        ({
            let zero = zero_times(agents.len());
            eval(None::<F>, agents, zero, tasks) is Best && replay(
                agents,
                zero,
                tasks,
                greedy_steps(agents, tasks, fresh(agents.len())),
            ) is Some ==> eval(None::<F>, agents, zero, tasks)->Best_0 <= replay(
                agents,
                zero,
                tasks,
                greedy_steps(agents, tasks, fresh(agents.len())),
            )->Some_0
        }),
{
    let zero = zero_times(agents.len());
    let steps = greedy_steps(agents, tasks, fresh(agents.len()));
    if replay(agents, zero, tasks, steps) is Some {
        lemma_replay_bound::<T, F>(agents, zero, tasks, steps, replay(agents, zero, tasks, steps)->Some_0);
    }
}

/// A restriction never lowers the reported optimum: where both the
/// restricted and the unrestricted search report one, the restricted one is
/// no smaller.
pub proof fn lemma_restriction_never_improves<T: Distance, F: Fn(u64) -> bool, G: Fn(u64) -> bool>(
    restriction: F,
    agents: Seq<Agent<T>>,
    tasks: Seq<(usize, Task<T>)>,
)
    requires
        pure_predicate(Some(restriction)),
        distinct_keys(tasks),
        agents.len() <= usize::MAX,
    ensures
        ({
            let zero = zero_times(agents.len());
            eval(Some(restriction), agents, zero, tasks) is Best && eval(
                None::<G>,
                agents,
                zero,
                tasks,
            ) is Best ==> eval(None::<G>, agents, zero, tasks)->Best_0 <= eval(
                Some(restriction),
                agents,
                zero,
                tasks,
            )->Best_0
        }),
{
    let zero = zero_times(agents.len());
    if eval(Some(restriction), agents, zero, tasks) is Best {
        let path = lemma_best_has_path(Some(restriction), agents, zero, tasks);
        lemma_replay_bound::<T, G>(
            agents,
            zero,
            tasks,
            path,
            eval(Some(restriction), agents, zero, tasks)->Best_0,
        );
    }
}

/// The number of nodes of an unpruned search over `m` agents and `k`
/// tasks, below its start.
pub open spec fn full_forest(m: nat, k: nat) -> nat
    decreases k,
{
    if k == 0 {
        0
    } else {
        m * k * (1 + full_forest(m, (k - 1) as nat))
    }
}

proof fn lemma_explored_full<T: Distance, F: Fn(u64) -> bool>(
    agents: Seq<Agent<T>>,
    times: Seq<u64>,
    tasks: Seq<(usize, Task<T>)>,
)
    requires
        agents.len() == times.len(),
    ensures
        explored(None::<F>, agents, times, tasks) == full_forest(agents.len(), tasks.len()),
    decreases tasks.len(), 1nat, 0nat, 0nat,
{
    if tasks.len() > 0 {
        lemma_explored_pairs_full::<T, F>(agents, times, tasks, agents.len(), 0);
    }
}

proof fn lemma_explored_pairs_full<T: Distance, F: Fn(u64) -> bool>(
    agents: Seq<Agent<T>>,
    times: Seq<u64>,
    tasks: Seq<(usize, Task<T>)>,
    a: nat,
    t: nat,
)
    requires
        agents.len() == times.len(),
        tasks.len() > 0,
        a <= agents.len(),
        t <= tasks.len(),
        a == agents.len() ==> t == 0,
    ensures
        explored_pairs(None::<F>, agents, times, tasks, a, t) == (a * tasks.len() + t) * (1
            + full_forest(agents.len(), (tasks.len() - 1) as nat)),
    decreases tasks.len(), 0nat, a, t,
{
    let k = tasks.len();
    let c = 1 + full_forest(agents.len(), (k - 1) as nat);
    if t == 0 {
        if a > 0 {
            lemma_explored_pairs_full::<T, F>(agents, times, tasks, (a - 1) as nat, k);
            assert(((a - 1) * k + k) * c == (a * k + 0) * c) by (nonlinear_arith);
        } else {
            assert((a * k + 0) * c == 0) by (nonlinear_arith)
                requires
                    a == 0,
            ;
        }
    } else {
        lemma_explored_pairs_full::<T, F>(agents, times, tasks, a, (t - 1) as nat);
        let ta = (t - 1) as int;
        lemma_explored_full::<T, F>(
            next_agents(agents, tasks, a as int, ta),
            next_times(agents, times, tasks, a as int, ta),
            tasks.remove(ta),
        );
        assert(explored_child(None::<F>, agents, times, tasks, a, (t - 1) as nat) == c);
        assert((a * k + (t - 1)) * c + c == (a * k + t) * c) by (nonlinear_arith);
    }
}

proof fn lemma_level_shift(m: nat, n: nat, i: nat)
    requires
        1 <= i < n,
    ensures
        level_count(m, n, i) == m * n * level_count(m, (n - 1) as nat, (i - 1) as nat),
    decreases i,
{
    let n1 = (n - 1) as nat;
    if i == 1 {
        assert(level_count(m, n, 0) == m * n);
        assert(level_count(m, n1, 0) == m * n1);
    } else {
        lemma_level_shift(m, n, (i - 1) as nat);
        let x = level_count(m, n1, (i - 2) as nat);
        let y = m * (n - i);
        assert(level_count(m, n1, (i - 1) as nat) == x * (m * (n1 - (i - 1))));
        assert(m * n * x * y == m * n * (x * y)) by (nonlinear_arith);
    }
}

proof fn lemma_levels_sum_shift(m: nat, n: nat, k: nat)
    requires
        1 <= k <= n,
    ensures
        levels_sum(m, n, k) == m * n + m * n * levels_sum(m, (n - 1) as nat, (k - 1) as nat),
    decreases k,
{
    let n1 = (n - 1) as nat;
    if k == 1 {
        assert(levels_sum(m, n, 0) == 0);
        assert(levels_sum(m, n1, 0) == 0);
        assert(m * n * 0 == 0) by (nonlinear_arith);
    } else {
        lemma_levels_sum_shift(m, n, (k - 1) as nat);
        lemma_level_shift(m, n, (k - 1) as nat);
        let s = levels_sum(m, n1, (k - 2) as nat);
        let l = level_count(m, n1, (k - 2) as nat);
        assert(m * n * s + m * n * l == m * n * (s + l)) by (nonlinear_arith);
    }
}

proof fn lemma_full_forest_bound(m: nat, n: nat)
    ensures
        full_forest(m, n) == tree_bound(m, n),
    decreases n,
{
    if n > 0 {
        lemma_full_forest_bound(m, (n - 1) as nat);
        lemma_levels_sum_shift(m, n, n);
        let f = full_forest(m, (n - 1) as nat);
        assert(m * n * (1 + f) == m * n + m * n * f) by (nonlinear_arith);
    }
}

/// Without a restriction the search builds exactly `tree_bound(m, n)`
/// nodes below its start, for `m` agents and `n` tasks, whatever their
/// states.
pub proof fn lemma_unrestricted_count_is_bound<T: Distance, F: Fn(u64) -> bool>(
    agents: Seq<Agent<T>>,
    tasks: Seq<(usize, Task<T>)>,
)
    ensures
        explored(None::<F>, agents, zero_times(agents.len()), tasks) == tree_bound(
            agents.len(),
            tasks.len(),
        ),
{
    lemma_explored_full::<T, F>(agents, zero_times(agents.len()), tasks);
    lemma_full_forest_bound(agents.len(), tasks.len());
}

proof fn lemma_explored_le<T: Distance, F: Fn(u64) -> bool, G: Fn(u64) -> bool>(
    restriction: F,
    agents: Seq<Agent<T>>,
    times: Seq<u64>,
    tasks: Seq<(usize, Task<T>)>,
)
    ensures
        explored(Some(restriction), agents, times, tasks) <= explored(
            None::<G>,
            agents,
            times,
            tasks,
        ),
    decreases tasks.len(), 1nat, 0nat, 0nat,
{
    if tasks.len() > 0 {
        lemma_explored_pairs_le::<T, F, G>(restriction, agents, times, tasks, agents.len(), 0);
    }
}

proof fn lemma_explored_pairs_le<T: Distance, F: Fn(u64) -> bool, G: Fn(u64) -> bool>(
    restriction: F,
    agents: Seq<Agent<T>>,
    times: Seq<u64>,
    tasks: Seq<(usize, Task<T>)>,
    a: nat,
    t: nat,
)
    requires
        t <= tasks.len(),
    ensures
        explored_pairs(Some(restriction), agents, times, tasks, a, t) <= explored_pairs(
            None::<G>,
            agents,
            times,
            tasks,
            a,
            t,
        ),
    decreases tasks.len(), 0nat, a, t,
{
    if t == 0 {
        if a > 0 {
            lemma_explored_pairs_le::<T, F, G>(
                restriction,
                agents,
                times,
                tasks,
                (a - 1) as nat,
                tasks.len(),
            );
        }
    } else {
        lemma_explored_pairs_le::<T, F, G>(restriction, agents, times, tasks, a, (t - 1) as nat);
        let ta = (t - 1) as int;
        if a < agents.len() && a < times.len() {
            lemma_explored_le::<T, F, G>(
                restriction,
                next_agents(agents, tasks, a as int, ta),
                next_times(agents, times, tasks, a as int, ta),
                tasks.remove(ta),
            );
        }
        assert(explored_child(Some(restriction), agents, times, tasks, a, (t - 1) as nat)
            <= explored_child(None::<G>, agents, times, tasks, a, (t - 1) as nat));
    }
}

/// A restriction never makes the search build more nodes than it builds
/// without one.
pub proof fn lemma_restriction_never_grows<T: Distance, F: Fn(u64) -> bool, G: Fn(u64) -> bool>(
    restriction: F,
    agents: Seq<Agent<T>>,
    tasks: Seq<(usize, Task<T>)>,
)
    ensures
        explored(Some(restriction), agents, zero_times(agents.len()), tasks) <= explored(
            None::<G>,
            agents,
            zero_times(agents.len()),
            tasks,
        ),
{
    lemma_explored_le::<T, F, G>(restriction, agents, zero_times(agents.len()), tasks);
}

/// The node reached from the forest `children` by taking child `idx[0]`,
/// then child `idx[1]` of that, and so on.
pub open spec fn node_at<T>(children: Seq<Box<Node<T>>>, idx: Seq<int>) -> Option<Node<T>>
    decreases idx.len(),
{
    if idx.len() == 0 || idx[0] < 0 || idx[0] >= children.len() {
        None
    } else if idx.len() == 1 {
        Some(*children[idx[0]])
    } else {
        node_at(children[idx[0]].children@, idx.drop_first())
    }
}

/// The (agent, task key) steps of the edges passed on the way to
/// `node_at(children, idx)`.
pub open spec fn steps_along<T>(children: Seq<Box<Node<T>>>, idx: Seq<int>) -> Seq<(usize, usize)>
    decreases idx.len(),
{
    if idx.len() == 0 || idx[0] < 0 || idx[0] >= children.len() {
        seq![]
    } else {
        let c = *children[idx[0]];
        seq![(c.edge.agent, c.edge.task)] + steps_along(c.children@, idx.drop_first())
    }
}

/// The task keys of a sequence of steps.
pub open spec fn keys_along(steps: Seq<(usize, usize)>) -> Seq<usize> {
    steps.map_values(|s: (usize, usize)| s.1)
}

/// `keys` names every task of `tasks` exactly once.
pub open spec fn serves_each_once<T>(tasks: Seq<(usize, Task<T>)>, keys: Seq<usize>) -> bool {
    &&& keys.len() == tasks.len()
    &&& keys.no_duplicates()
    &&& forall|i: int| 0 <= i < keys.len() ==> has_key(tasks, #[trigger] keys[i])
}

proof fn lemma_leaf_replay<T: Distance, F: Fn(u64) -> bool>(
    children: Seq<Box<Node<T>>>,
    min: Option<u64>,
    best: usize,
    r: Option<F>,
    pc: bool,
    agents: Seq<Agent<T>>,
    times: Seq<u64>,
    tasks: Seq<(usize, Task<T>)>,
    idx: Seq<int>,
)
    requires
        forest_ok(children, min, best, r, pc, agents, times, tasks),
        agents.len() == times.len(),
        node_at(children, idx) is Some,
        node_at(children, idx)->Some_0.children.len() == 0,
        node_at(children, idx)->Some_0.min_path_time is Some,
    ensures
        replay(agents, times, tasks, steps_along(children, idx)) == node_at(
            children,
            idx,
        )->Some_0.min_path_time,
    decreases idx.len(),
{
    let c = *children[idx[0]];
    assert(child_ok(c, r, pc, agents, times, tasks));
    let a = c.edge.agent as int;
    let t = key_pos(tasks, c.edge.task);
    let na = next_agents(agents, tasks, a, t);
    let nt = next_times(agents, times, tasks, a, t);
    let rest = tasks.remove(t);
    assert(node_ok(c, r, pc, na, nt, rest));
    let tail = idx.drop_first();
    let steps = steps_along(children, idx);
    assert(steps.drop_first() =~= steps_along(c.children@, tail));
    if idx.len() > 1 {
        lemma_leaf_replay(c.children@, c.min_path_time, c.best, r, pc, na, nt, rest, tail);
    } else {
        assert(steps_along(c.children@, tail) =~= seq![]);
    }
}

proof fn lemma_replay_keys<T: Distance>(
    agents: Seq<Agent<T>>,
    times: Seq<u64>,
    tasks: Seq<(usize, Task<T>)>,
    path: Seq<(usize, usize)>,
)
    requires
        replay(agents, times, tasks, path) is Some,
        distinct_keys(tasks),
    ensures
        serves_each_once(tasks, keys_along(path)),
    decreases path.len(),
{
    let keys = keys_along(path);
    if path.len() > 0 {
        let a = path[0].0 as int;
        let t = key_pos(tasks, path[0].1);
        let rest = tasks.remove(t);
        lemma_distinct_remove(tasks, t);
        lemma_replay_keys(
            next_agents(agents, tasks, a, t),
            next_times(agents, times, tasks, a, t),
            rest,
            path.drop_first(),
        );
        let tail = keys_along(path.drop_first());
        assert(keys.drop_first() =~= tail);
        assert forall|i: int| 0 <= i < keys.len() implies has_key(tasks, #[trigger] keys[i]) by {
            if i > 0 {
                assert(keys[i] == tail[i - 1]);
                assert(has_key(rest, tail[i - 1]));
                let j = key_pos(rest, tail[i - 1]);
                assert(rest[j] == tasks[if j < t { j } else { j + 1 }]);
            }
        }
        assert forall|i: int, j: int|
            0 <= i < keys.len() && 0 <= j < keys.len() && i != j implies keys[i] != keys[j] by {
            if i > 0 && j > 0 {
                assert(keys[i] == tail[i - 1] && keys[j] == tail[j - 1]);
            } else {
                let o = if i == 0 { j } else { i };
                assert(keys[o] == tail[o - 1]);
                assert(has_key(rest, tail[o - 1]));
                let q = key_pos(rest, tail[o - 1]);
                let q2 = if q < t { q } else { q + 1 };
                assert(rest[q] == tasks[q2]);
                assert(tasks[q2].0 != tasks[t].0);
            }
        }
    }
}

/// Every leaf that ends a complete schedule stores, as its best makespan,
/// the largest per-agent total of the edge costs along its path, recomputed
/// from the path's (agent, task) steps.
pub proof fn lemma_leaf_makespan<T: Distance, F: Fn(u64) -> bool>(
    root: Root<T>,
    restriction: Option<F>,
    path_checking: bool,
    agents: Seq<Agent<T>>,
    tasks: Seq<(usize, Task<T>)>,
    idx: Seq<int>,
)
    requires
        root_ok(root, restriction, path_checking, agents, tasks),
        node_at(root.children@, idx) is Some,
        node_at(root.children@, idx)->Some_0.children.len() == 0,
        node_at(root.children@, idx)->Some_0.min_path_time is Some,
    ensures
        replay(agents, zero_times(agents.len()), tasks, steps_along(root.children@, idx))
            == node_at(root.children@, idx)->Some_0.min_path_time,
{
    lemma_leaf_replay(
        root.children@,
        Some(root.min_path_time),
        root.best,
        restriction,
        path_checking,
        agents,
        zero_times(agents.len()),
        tasks,
        idx,
    );
}

/// Along the path to every leaf that ends a complete schedule, the edges
/// name each task exactly once.
pub proof fn lemma_leaf_path_complete<T: Distance, F: Fn(u64) -> bool>(
    root: Root<T>,
    restriction: Option<F>,
    path_checking: bool,
    agents: Seq<Agent<T>>,
    tasks: Seq<(usize, Task<T>)>,
    idx: Seq<int>,
)
    requires
        root_ok(root, restriction, path_checking, agents, tasks),
        distinct_keys(tasks),
        node_at(root.children@, idx) is Some,
        node_at(root.children@, idx)->Some_0.children.len() == 0,
        node_at(root.children@, idx)->Some_0.min_path_time is Some,
    ensures
        serves_each_once(tasks, keys_along(steps_along(root.children@, idx))),
{
    lemma_leaf_makespan(root, restriction, path_checking, agents, tasks, idx);
    lemma_replay_keys(
        agents,
        zero_times(agents.len()),
        tasks,
        steps_along(root.children@, idx),
    );
}

/// Two searches on the same agents, tasks and restriction report the same
/// optimum and the same (agent, task) steps, whether or not either carries
/// diagnostics.
pub proof fn lemma_search_deterministic<T: Distance, F: Fn(u64) -> bool>(
    restriction: Option<F>,
    agents: Seq<Agent<T>>,
    tasks: Seq<(usize, Task<T>)>,
    path_checking1: bool,
    path1: Seq<Edge<T>>,
    root1: Root<T>,
    path_checking2: bool,
    path2: Seq<Edge<T>>,
    root2: Root<T>,
)
    requires
        reported(restriction, path_checking1, agents, tasks, path1, root1),
        reported(restriction, path_checking2, agents, tasks, path2, root2),
    ensures
        root1.min_path_time == root2.min_path_time,
        steps_of(path1) == steps_of(path2),
{
}

/// With a restriction the search builds at most `tree_bound(m, n)` nodes
/// below its start, for `m` agents and `n` tasks.
pub proof fn lemma_restricted_count_within_bound<T: Distance, F: Fn(u64) -> bool>(
    restriction: F,
    agents: Seq<Agent<T>>,
    tasks: Seq<(usize, Task<T>)>,
)
    ensures
        explored(Some(restriction), agents, zero_times(agents.len()), tasks) <= tree_bound(
            agents.len(),
            tasks.len(),
        ),
{
    lemma_restriction_never_grows::<T, F, F>(restriction, agents, tasks);
    lemma_unrestricted_count_is_bound::<T, F>(agents, tasks);
}

} // verus!
