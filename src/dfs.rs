//! The exhaustive search: the decision tree over every order in which the
//! agents can serve the tasks, its optimum, the reconstruction of an optimal
//! schedule, and the node count of the unpruned tree.
use vstd::prelude::*;

use crate::entity::{Agent, Distance, Task};

verus! {

broadcast use vstd::std_specs::vec::group_vec_axioms;

/// Why an exhaustive search produced no schedule.
#[derive(Debug, Clone, Copy, PartialEq, Eq, Structural)]
pub enum ScheduleError {
    /// There are no agents: an assignment is undefined.
    NoAgents,
    /// An accumulated cost does not fit in a `u64`.
    CostOverflow,
    /// The restriction vetoes every complete schedule.
    Infeasible,
}

/// An assignment step: agent `agent` serves the task keyed `task`. When
/// diagnostics are on, `path` holds the agent's state before the step, the
/// task's endpoints and the step's cost.
#[derive(Debug, Clone, Copy)]
pub struct Edge<T> {
    pub agent: usize,
    pub task: usize,
    pub path: Option<(T, T, T, u64)>,
}

/// A node of the decision tree: the edge leading to it, the subtrees below
/// it, the best makespan reachable through it (`None` where the restriction
/// leaves no complete schedule), and the index of the first child that
/// reaches that makespan.
#[derive(Debug)]
pub struct Node<T> {
    pub edge: Edge<T>,
    pub children: Vec<Box<Node<T>>>,
    pub min_path_time: Option<u64>,
    pub best: usize,
}

/// The forest of top-level nodes, with the global optimum.
#[derive(Debug)]
pub struct Root<T> {
    pub children: Vec<Box<Node<T>>>,
    pub min_path_time: u64,
    pub best: usize,
}

/// Counting the nodes of a tree.
pub trait Children {
    /// The number of nodes counted.
    spec fn size(&self) -> nat;

    fn children(&self) -> (r: u128)
        requires
            self.size() <= u128::MAX,
        ensures
            r == self.size(),
    ;
}

/// The number of nodes of the subtree at `node`, itself included.
pub open spec fn node_count<T>(node: Node<T>) -> nat
    decreases node, 0nat,
{
    1 + forest_count(node.children, node.children.len() as nat)
}

/// The number of nodes of the first `k` subtrees of `cs`.
pub open spec fn forest_count<T>(cs: Vec<Box<Node<T>>>, k: nat) -> nat
    decreases cs, k,
{
    if k == 0 || k > cs.len() {
        0
    } else {
        forest_count(cs, (k - 1) as nat) + node_count(*cs[k - 1])
    }
}

proof fn lemma_forest_count_mono<T>(cs: Vec<Box<Node<T>>>, k1: nat, k2: nat)
    requires
        k1 <= k2 <= cs.len(),
    ensures
        forest_count(cs, k1) <= forest_count(cs, k2),
        k1 < k2 ==> forest_count(cs, k1) + node_count(*cs[k1 as int]) <= forest_count(cs, k2),
    decreases k2,
{
    if k1 < k2 {
        lemma_forest_count_mono(cs, k1, (k2 - 1) as nat);
    }
}

/// Counts the nodes of the subtrees `cs`.
fn count_forest<T>(cs: &Vec<Box<Node<T>>>) -> (r: u128)
    requires
        forest_count(*cs, cs.len() as nat) <= u128::MAX,
    ensures
        r == forest_count(*cs, cs.len() as nat),
    decreases *cs, 1nat,
{
    let mut acc: u128 = 0;
    let mut i: usize = 0;
    while i < cs.len()
        invariant
            i <= cs.len(),
            acc == forest_count(*cs, i as nat),
            forest_count(*cs, cs.len() as nat) <= u128::MAX,
        decreases cs.len() - i,
    {
        proof {
            lemma_forest_count_mono(*cs, i as nat, cs.len() as nat);
        }
        let c: &Node<T> = &cs[i];
        assert(decreases_to!(*cs => cs[i as int]));
        let n = count_node(c);
        acc = acc + n;
        i = i + 1;
    }
    acc
}

/// Counts the nodes of the subtree at `node`.
fn count_node<T>(node: &Node<T>) -> (r: u128)
    requires
        node_count(*node) <= u128::MAX,
    ensures
        r == node_count(*node),
    decreases *node, 0nat,
{
    1 + count_forest(&node.children)
}

impl<T> Children for Node<T> {
    open spec fn size(&self) -> nat {
        node_count(*self)
    }

    fn children(&self) -> (r: u128) {
        count_node(self)
    }
}

impl<T> Children for Root<T> {
    open spec fn size(&self) -> nat {
        forest_count(self.children, self.children.len() as nat)
    }

    fn children(&self) -> (r: u128) {
        count_forest(&self.children)
    }
}

/// What a subtree of the search yields.
#[derive(Debug, Clone, Copy, PartialEq, Eq, Structural)]
pub enum Outcome {
    /// Some accumulated cost on an explored branch exceeds `u64::MAX`.
    Overflow,
    /// No complete schedule survives the restriction.
    Infeasible,
    /// The least makespan over all explored complete schedules.
    Best(u64),
}

/// Folding two outcomes: overflow absorbs, infeasible is neutral, and two
/// makespans give their minimum.
pub open spec fn combine(x: Outcome, y: Outcome) -> Outcome {
    match (x, y) {
        (Outcome::Overflow, _) => Outcome::Overflow,
        (_, Outcome::Overflow) => Outcome::Overflow,
        (Outcome::Infeasible, _) => y,
        (_, Outcome::Infeasible) => x,
        (Outcome::Best(a), Outcome::Best(b)) => Outcome::Best(if a <= b { a } else { b }),
    }
}

/// The largest element of `s`; zero for an empty sequence.
pub open spec fn seq_max(s: Seq<u64>) -> u64
    decreases s.len(),
{
    if s.len() == 0 {
        0
    } else {
        let rest = seq_max(s.drop_last());
        if s.last() >= rest { s.last() } else { rest }
    }
}

/// The restriction is a pure predicate: callable on every deadhead, with one
/// answer for each.
pub open spec fn pure_predicate<F: Fn(u64) -> bool>(restriction: Option<F>) -> bool {
    match restriction {
        Some(f) => {
            &&& forall|d: u64| f.requires((d,))
            &&& forall|d: u64, x: bool, y: bool|
                f.ensures((d,), x) && f.ensures((d,), y) ==> x == y
        },
        None => true,
    }
}

/// Whether the restriction vetoes a branch whose deadhead is `d`.
pub open spec fn vetoes<F: Fn(u64) -> bool>(restriction: Option<F>, d: nat) -> bool {
    match restriction {
        Some(f) => d <= u64::MAX && f.ensures((d as u64,), true),
        None => false,
    }
}

/// Task keys are pairwise distinct.
pub open spec fn distinct_keys<T>(tasks: Seq<(usize, Task<T>)>) -> bool {
    forall|i: int, j: int| 0 <= i < j < tasks.len() ==> tasks[i].0 != tasks[j].0
}

/// Some task is keyed `key`.
pub open spec fn has_key<T>(tasks: Seq<(usize, Task<T>)>, key: usize) -> bool {
    exists|t: int| 0 <= t < tasks.len() && tasks[t].0 == key
}

/// The position of the task keyed `key`.
pub open spec fn key_pos<T>(tasks: Seq<(usize, Task<T>)>, key: usize) -> int {
    choose|t: int| 0 <= t < tasks.len() && tasks[t].0 == key
}

/// Distance from agent `a`'s state to the start of task `t`.
pub open spec fn deadhead<T: Distance>(
    agents: Seq<Agent<T>>,
    tasks: Seq<(usize, Task<T>)>,
    a: int,
    t: int,
) -> nat {
    agents[a].state.dist(tasks[t].1.from)
}

/// The cost of agent `a` serving task `t`: deadhead plus the task itself.
pub open spec fn edge_cost<T: Distance>(
    agents: Seq<Agent<T>>,
    tasks: Seq<(usize, Task<T>)>,
    a: int,
    t: int,
) -> nat {
    deadhead(agents, tasks, a, t) + tasks[t].1.from.dist(tasks[t].1.to)
}

/// Agent `a`'s accumulated cost after serving task `t` fits in a `u64`.
pub open spec fn fits<T: Distance>(
    agents: Seq<Agent<T>>,
    times: Seq<u64>,
    tasks: Seq<(usize, Task<T>)>,
    a: int,
    t: int,
) -> bool {
    times[a] + edge_cost(agents, tasks, a, t) <= u64::MAX
}

/// The agents' states once agent `a` has served task `t`.
pub open spec fn next_agents<T>(
    agents: Seq<Agent<T>>,
    tasks: Seq<(usize, Task<T>)>,
    a: int,
    t: int,
) -> Seq<Agent<T>> {
    agents.update(a, Agent { state: tasks[t].1.to })
}

/// The accumulated costs once agent `a` has served task `t`.
pub open spec fn next_times<T: Distance>(
    agents: Seq<Agent<T>>,
    times: Seq<u64>,
    tasks: Seq<(usize, Task<T>)>,
    a: int,
    t: int,
) -> Seq<u64> {
    times.update(a, (times[a] + edge_cost(agents, tasks, a, t)) as u64)
}

/// The outcome of the search from a state: agents' states, their accumulated
/// costs, and the tasks still to serve.
pub open spec fn eval<T: Distance, F: Fn(u64) -> bool>(
    restriction: Option<F>,
    agents: Seq<Agent<T>>,
    times: Seq<u64>,
    tasks: Seq<(usize, Task<T>)>,
) -> Outcome
    decreases tasks.len(), 1nat, 0nat, 0nat,
{
    if tasks.len() == 0 {
        Outcome::Best(seq_max(times))
    } else {
        eval_pairs(restriction, agents, times, tasks, agents.len(), 0)
    }
}

/// The fold of the outcomes of every (agent, task) pair before `(a, t)` in
/// agent-major order.
pub open spec fn eval_pairs<T: Distance, F: Fn(u64) -> bool>(
    restriction: Option<F>,
    agents: Seq<Agent<T>>,
    times: Seq<u64>,
    tasks: Seq<(usize, Task<T>)>,
    a: nat,
    t: nat,
) -> Outcome
    decreases tasks.len(), 0nat, a, t,
{
    if t == 0 {
        if a == 0 {
            Outcome::Infeasible
        } else {
            eval_pairs(restriction, agents, times, tasks, (a - 1) as nat, tasks.len())
        }
    } else {
        combine(
            eval_pairs(restriction, agents, times, tasks, a, (t - 1) as nat),
            eval_child(restriction, agents, times, tasks, a, (t - 1) as nat),
        )
    }
}

/// The outcome of the branch where agent `a` serves task `t` next; a vetoed
/// branch contributes nothing.
pub open spec fn eval_child<T: Distance, F: Fn(u64) -> bool>(
    restriction: Option<F>,
    agents: Seq<Agent<T>>,
    times: Seq<u64>,
    tasks: Seq<(usize, Task<T>)>,
    a: nat,
    t: nat,
) -> Outcome
    decreases tasks.len(), 0nat, 0nat, 0nat,
{
    if a >= agents.len() || a >= times.len() || t >= tasks.len() {
        Outcome::Infeasible
    } else if vetoes(restriction, deadhead(agents, tasks, a as int, t as int)) {
        Outcome::Infeasible
    } else if !fits(agents, times, tasks, a as int, t as int) {
        Outcome::Overflow
    } else {
        eval(
            restriction,
            next_agents(agents, tasks, a as int, t as int),
            next_times(agents, times, tasks, a as int, t as int),
            tasks.remove(t as int),
        )
    }
}

/// `min_path_time` agrees with an outcome that is no overflow.
pub open spec fn time_matches(v: Option<u64>, o: Outcome) -> bool {
    match o {
        Outcome::Best(x) => v == Some(x),
        Outcome::Infeasible => v is None,
        Outcome::Overflow => false,
    }
}

/// The number of nodes that the search builds below the given state.
pub open spec fn explored<T: Distance, F: Fn(u64) -> bool>(
    restriction: Option<F>,
    agents: Seq<Agent<T>>,
    times: Seq<u64>,
    tasks: Seq<(usize, Task<T>)>,
) -> nat
    decreases tasks.len(), 1nat, 0nat, 0nat,
{
    if tasks.len() == 0 {
        0
    } else {
        explored_pairs(restriction, agents, times, tasks, agents.len(), 0)
    }
}

/// The nodes built for the (agent, task) pairs before `(a, t)` in
/// agent-major order.
pub open spec fn explored_pairs<T: Distance, F: Fn(u64) -> bool>(
    restriction: Option<F>,
    agents: Seq<Agent<T>>,
    times: Seq<u64>,
    tasks: Seq<(usize, Task<T>)>,
    a: nat,
    t: nat,
) -> nat
    decreases tasks.len(), 0nat, a, t,
{
    if t == 0 {
        if a == 0 {
            0
        } else {
            explored_pairs(restriction, agents, times, tasks, (a - 1) as nat, tasks.len())
        }
    } else {
        explored_pairs(restriction, agents, times, tasks, a, (t - 1) as nat) + explored_child(
            restriction,
            agents,
            times,
            tasks,
            a,
            (t - 1) as nat,
        )
    }
}

/// The nodes built for agent `a` serving task `t` next: none if vetoed.
pub open spec fn explored_child<T: Distance, F: Fn(u64) -> bool>(
    restriction: Option<F>,
    agents: Seq<Agent<T>>,
    times: Seq<u64>,
    tasks: Seq<(usize, Task<T>)>,
    a: nat,
    t: nat,
) -> nat
    decreases tasks.len(), 0nat, 0nat, 0nat,
{
    if a >= agents.len() || a >= times.len() || t >= tasks.len() {
        0
    } else if vetoes(restriction, deadhead(agents, tasks, a as int, t as int)) {
        0
    } else {
        1 + explored(
            restriction,
            next_agents(agents, tasks, a as int, t as int),
            next_times(agents, times, tasks, a as int, t as int),
            tasks.remove(t as int),
        )
    }
}

/// The number of nodes in the subtrees `cs`.
pub open spec fn seq_count<T>(cs: Seq<Box<Node<T>>>) -> nat
    decreases cs.len(),
{
    if cs.len() == 0 {
        0
    } else {
        seq_count(cs.drop_last()) + node_count(*cs.last())
    }
}

proof fn lemma_forest_count_seq<T>(cs: Vec<Box<Node<T>>>, k: nat)
    requires
        k <= cs.len(),
    ensures
        forest_count(cs, k) == seq_count(cs@.subrange(0, k as int)),
    decreases k,
{
    if k > 0 {
        lemma_forest_count_seq(cs, (k - 1) as nat);
        assert(cs@.subrange(0, k as int).drop_last() =~= cs@.subrange(0, k - 1));
    }
}

pub(crate) proof fn lemma_forest_count_all<T>(cs: Vec<Box<Node<T>>>)
    ensures
        forest_count(cs, cs.len() as nat) == seq_count(cs@),
{
    lemma_forest_count_seq(cs, cs.len() as nat);
    assert(cs@.subrange(0, cs.len() as int) =~= cs@);
}

/// Pair `(a2, t2)` comes strictly before `(a, t)` in agent-major order.
pub open spec fn pair_lt(a2: nat, t2: nat, a: nat, t: nat) -> bool {
    a2 < a || (a2 == a && t2 < t)
}

/// `(a, t)` is the first pair in agent-major order whose branch reaches the
/// makespan `v`.
pub open spec fn first_best<T: Distance, F: Fn(u64) -> bool>(
    restriction: Option<F>,
    agents: Seq<Agent<T>>,
    times: Seq<u64>,
    tasks: Seq<(usize, Task<T>)>,
    v: u64,
    a: nat,
    t: nat,
) -> bool {
    &&& a < agents.len()
    &&& t < tasks.len()
    &&& eval_child(restriction, agents, times, tasks, a, t) == Outcome::Best(v)
    &&& forall|a2: nat, t2: nat|
        #![trigger eval_child(restriction, agents, times, tasks, a2, t2)]
        t2 < tasks.len() && pair_lt(a2, t2, a, t) ==> eval_child(
            restriction,
            agents,
            times,
            tasks,
            a2,
            t2,
        ) != Outcome::Best(v)
}

/// The first pair whose branch reaches the makespan `v`.
pub open spec fn best_pair<T: Distance, F: Fn(u64) -> bool>(
    restriction: Option<F>,
    agents: Seq<Agent<T>>,
    times: Seq<u64>,
    tasks: Seq<(usize, Task<T>)>,
    v: u64,
) -> (nat, nat) {
    choose|p: (nat, nat)| first_best(restriction, agents, times, tasks, v, p.0, p.1)
}

/// The steps of the reported schedule: from each state, the first pair
/// whose branch reaches the optimum.
pub open spec fn best_steps<T: Distance, F: Fn(u64) -> bool>(
    restriction: Option<F>,
    agents: Seq<Agent<T>>,
    times: Seq<u64>,
    tasks: Seq<(usize, Task<T>)>,
) -> Seq<(usize, usize)>
    decreases tasks.len(),
{
    if tasks.len() == 0 || !(eval(restriction, agents, times, tasks) is Best) {
        seq![]
    } else {
        let p = best_pair(
            restriction,
            agents,
            times,
            tasks,
            eval(restriction, agents, times, tasks)->Best_0,
        );
        if p.1 < tasks.len() {
            seq![(p.0 as usize, tasks[p.1 as int].0)] + best_steps(
                restriction,
                next_agents(agents, tasks, p.0 as int, p.1 as int),
                next_times(agents, times, tasks, p.0 as int, p.1 as int),
                tasks.remove(p.1 as int),
            )
        } else {
            seq![]
        }
    }
}

proof fn lemma_best_pair_unique<T: Distance, F: Fn(u64) -> bool>(
    restriction: Option<F>,
    agents: Seq<Agent<T>>,
    times: Seq<u64>,
    tasks: Seq<(usize, Task<T>)>,
    v: u64,
    a: nat,
    t: nat,
)
    requires
        first_best(restriction, agents, times, tasks, v, a, t),
    ensures
        best_pair(restriction, agents, times, tasks, v) == (a, t),
{
    assert(first_best(restriction, agents, times, tasks, v, (a, t).0, (a, t).1));
    let p = best_pair(restriction, agents, times, tasks, v);
    assert(first_best(restriction, agents, times, tasks, v, p.0, p.1));
    if pair_lt(p.0, p.1, a, t) {
        assert(eval_child(restriction, agents, times, tasks, p.0, p.1) != Outcome::Best(v));
    }
    if pair_lt(a, t, p.0, p.1) {
        assert(eval_child(restriction, agents, times, tasks, a, t) != Outcome::Best(v));
    }
}

/// `children`, `min` and `best` are what the search builds below the given
/// state: the value is the search's outcome, `best` is a child that reaches
/// it, and each child is the subtree of a valid, unvetoed branch.
pub open spec fn forest_ok<T: Distance, F: Fn(u64) -> bool>(
    children: Seq<Box<Node<T>>>,
    min: Option<u64>,
    best: usize,
    restriction: Option<F>,
    path_checking: bool,
    agents: Seq<Agent<T>>,
    times: Seq<u64>,
    tasks: Seq<(usize, Task<T>)>,
) -> bool
    decreases tasks.len(), 1nat,
{
    &&& time_matches(min, eval(restriction, agents, times, tasks))
    &&& seq_count(children) == explored(restriction, agents, times, tasks)
    &&& tasks.len() == 0 ==> children.len() == 0
    &&& (min is Some && tasks.len() > 0) ==> {
        let p = best_pair(restriction, agents, times, tasks, min->Some_0);
        &&& best < children.len()
        &&& children[best as int].min_path_time == min
        &&& children[best as int].edge.agent == p.0
        &&& p.1 < tasks.len()
        &&& children[best as int].edge.task == tasks[p.1 as int].0
    }
    &&& forall|i: int|
        0 <= i < children.len() ==> child_ok(*children[i], restriction, path_checking, agents, times, tasks)
}

/// `node` is the subtree that the search builds from the given state.
pub open spec fn node_ok<T: Distance, F: Fn(u64) -> bool>(
    node: Node<T>,
    restriction: Option<F>,
    path_checking: bool,
    agents: Seq<Agent<T>>,
    times: Seq<u64>,
    tasks: Seq<(usize, Task<T>)>,
) -> bool
    decreases tasks.len(), 2nat,
{
    forest_ok(
        node.children@,
        node.min_path_time,
        node.best,
        restriction,
        path_checking,
        agents,
        times,
        tasks,
    )
}

/// `c` is the subtree of a valid, unvetoed branch from the given state.
pub open spec fn child_ok<T: Distance, F: Fn(u64) -> bool>(
    c: Node<T>,
    restriction: Option<F>,
    path_checking: bool,
    agents: Seq<Agent<T>>,
    times: Seq<u64>,
    tasks: Seq<(usize, Task<T>)>,
) -> bool
    decreases tasks.len(), 0nat,
{
    let a = c.edge.agent as int;
    let t = key_pos(tasks, c.edge.task);
    &&& a < agents.len()
    &&& has_key(tasks, c.edge.task)
    &&& !vetoes(restriction, deadhead(agents, tasks, a, t))
    &&& fits(agents, times, tasks, a, t)
    &&& c.edge.path == (if path_checking {
        Some(
            (
                agents[a].state,
                tasks[t].1.from,
                tasks[t].1.to,
                edge_cost(agents, tasks, a, t) as u64,
            ),
        )
    } else {
        None
    })
    &&& node_ok(
        c,
        restriction,
        path_checking,
        next_agents(agents, tasks, a, t),
        next_times(agents, times, tasks, a, t),
        tasks.remove(t),
    )
}

/// Every agent starts with no accumulated cost.
pub open spec fn zero_times(m: nat) -> Seq<u64> {
    Seq::new(m, |i: int| 0u64)
}

/// `root` is the forest that the search builds from the agents' states and
/// all tasks, with the optimum it reports.
pub open spec fn root_ok<T: Distance, F: Fn(u64) -> bool>(
    root: Root<T>,
    restriction: Option<F>,
    path_checking: bool,
    agents: Seq<Agent<T>>,
    tasks: Seq<(usize, Task<T>)>,
) -> bool {
    forest_ok(
        root.children@,
        Some(root.min_path_time),
        root.best,
        restriction,
        path_checking,
        agents,
        zero_times(agents.len()),
        tasks,
    )
}

/// The makespan of following `path`, a sequence of (agent, task key)
/// steps, from the given state to the end, if it serves each remaining task
/// once and no cost overflows.
pub open spec fn replay<T: Distance>(
    agents: Seq<Agent<T>>,
    times: Seq<u64>,
    tasks: Seq<(usize, Task<T>)>,
    path: Seq<(usize, usize)>,
) -> Option<u64>
    decreases path.len(),
{
    if path.len() == 0 {
        if tasks.len() == 0 {
            Some(seq_max(times))
        } else {
            None
        }
    } else {
        let a = path[0].0 as int;
        let t = key_pos(tasks, path[0].1);
        if a < agents.len() && a < times.len() && has_key(tasks, path[0].1) && fits(
            agents,
            times,
            tasks,
            a,
            t,
        ) {
            replay(
                next_agents(agents, tasks, a, t),
                next_times(agents, times, tasks, a, t),
                tasks.remove(t),
                path.drop_first(),
            )
        } else {
            None
        }
    }
}

/// The (agent, task key) steps of an edge sequence.
pub open spec fn steps_of<T>(path: Seq<Edge<T>>) -> Seq<(usize, usize)> {
    path.map_values(|e: Edge<T>| (e.agent, e.task))
}

/// The number of assignment sequences of length `i + 1` over `m` agents and
/// `n` tasks: the product of `m * (n - j)` for `j` in `0..=i`.
pub open spec fn level_count(m: nat, n: nat, i: nat) -> int
    decreases i,
{
    if i == 0 {
        (m * n) as int
    } else {
        level_count(m, n, (i - 1) as nat) * (m * (n - i))
    }
}

/// The sum of `level_count(m, n, i)` for `i` in `0..k`.
pub open spec fn levels_sum(m: nat, n: nat, k: nat) -> int
    decreases k,
{
    if k == 0 {
        0
    } else {
        levels_sum(m, n, (k - 1) as nat) + level_count(m, n, (k - 1) as nat)
    }
}

/// The number of nodes of the unpruned decision tree over `m` agents and `n`
/// tasks (top-level nodes included, the root itself not).
pub open spec fn tree_bound(m: nat, n: nat) -> int {
    levels_sum(m, n, n)
}

proof fn lemma_level_count_nonneg(m: nat, n: nat, i: nat)
    requires
        i < n,
    ensures
        level_count(m, n, i) >= 0,
    decreases i,
{
    if i > 0 {
        lemma_level_count_nonneg(m, n, (i - 1) as nat);
        let a = level_count(m, n, (i - 1) as nat);
        let b = m * (n - i);
        assert(a * b >= 0) by (nonlinear_arith)
            requires
                a >= 0,
                b >= 0,
        ;
    } else {
        assert(m * n >= 0) by (nonlinear_arith);
    }
}

proof fn lemma_levels_sum_mono(m: nat, n: nat, k1: nat, k2: nat)
    requires
        k1 <= k2 <= n,
    ensures
        levels_sum(m, n, k1) <= levels_sum(m, n, k2),
    decreases k2,
{
    if k1 < k2 {
        lemma_levels_sum_mono(m, n, k1, (k2 - 1) as nat);
        lemma_level_count_nonneg(m, n, (k2 - 1) as nat);
    }
}


/// The outcome that a running minimum stands for.
pub open spec fn outcome_of(v: Option<u64>) -> Outcome {
    match v {
        Some(x) => Outcome::Best(x),
        None => Outcome::Infeasible,
    }
}

pub(crate) proof fn lemma_key_pos<T>(tasks: Seq<(usize, Task<T>)>, t: int)
    requires
        distinct_keys(tasks),
        0 <= t < tasks.len(),
    ensures
        has_key(tasks, tasks[t].0),
        key_pos(tasks, tasks[t].0) == t,
{
    assert(has_key(tasks, tasks[t].0));
    let p = key_pos(tasks, tasks[t].0);
    if p != t {
        if p < t {
            assert(tasks[p].0 != tasks[t].0);
        } else {
            assert(tasks[t].0 != tasks[p].0);
        }
    }
}

pub(crate) proof fn lemma_distinct_remove<T>(tasks: Seq<(usize, Task<T>)>, t: int)
    requires
        distinct_keys(tasks),
        0 <= t < tasks.len(),
    ensures
        distinct_keys(tasks.remove(t)),
{
    let r = tasks.remove(t);
    assert forall|i: int, j: int| 0 <= i < j < r.len() implies r[i].0 != r[j].0 by {
        let i2 = if i < t { i } else { i + 1 };
        let j2 = if j < t { j } else { j + 1 };
        assert(r[i] == tasks[i2]);
        assert(r[j] == tasks[j2]);
    }
}

/// Once the fold has overflowed, it stays overflowed.
proof fn lemma_overflow_stays<T: Distance, F: Fn(u64) -> bool>(
    restriction: Option<F>,
    agents: Seq<Agent<T>>,
    times: Seq<u64>,
    tasks: Seq<(usize, Task<T>)>,
    a: nat,
    t: nat,
    a2: nat,
    t2: nat,
)
    requires
        eval_pairs(restriction, agents, times, tasks, a, t) == Outcome::Overflow,
        t <= tasks.len(),
        t2 <= tasks.len(),
        a < a2 || (a == a2 && t <= t2),
    ensures
        eval_pairs(restriction, agents, times, tasks, a2, t2) == Outcome::Overflow,
    decreases a2, t2,
{
    if a == a2 && t == t2 {
    } else if t2 > 0 {
        lemma_overflow_stays(restriction, agents, times, tasks, a, t, a2, (t2 - 1) as nat);
    } else {
        lemma_overflow_stays(restriction, agents, times, tasks, a, t, (a2 - 1) as nat, tasks.len());
    }
}

/// A copy of `v`, element by element.
fn copy_vec<V: Copy>(v: &Vec<V>) -> (r: Vec<V>)
    ensures
        r@ == v@,
{
    let mut r: Vec<V> = Vec::new();
    let mut i: usize = 0;
    while i < v.len()
        invariant
            i <= v.len(),
            r@ == v@.subrange(0, i as int),
        decreases v.len() - i,
    {
        r.push(v[i]);
        i = i + 1;
    }
    assert(v@.subrange(0, v.len() as int) =~= v@);
    r
}

/// The largest accumulated cost; zero when there is none.
pub(crate) fn max_of(times: &Vec<u64>) -> (r: u64)
    ensures
        r == seq_max(times@),
{
    let mut m: u64 = 0;
    let mut i: usize = 0;
    assert(times@.subrange(0, 0).len() == 0);
    while i < times.len()
        invariant
            i <= times.len(),
            m == seq_max(times@.subrange(0, i as int)),
        decreases times.len() - i,
    {
        let ghost pre = times@.subrange(0, (i + 1) as int);
        assert(pre.drop_last() =~= times@.subrange(0, i as int));
        if times[i] >= m {
            m = times[i];
        }
        i = i + 1;
    }
    assert(times@.subrange(0, times.len() as int) =~= times@);
    m
}

/// The running choice of the search after the pairs before `(a, t)`: `bp`
/// is the first pair reaching the running minimum, and no pair so far does
/// better.
pub open spec fn best_so_far<T: Distance, F: Fn(u64) -> bool>(
    restriction: Option<F>,
    agents: Seq<Agent<T>>,
    times: Seq<u64>,
    tasks: Seq<(usize, Task<T>)>,
    min: Option<u64>,
    bp: (nat, nat),
    a: nat,
    t: nat,
) -> bool {
    &&& min is None ==> forall|a2: nat, t2: nat|
        #![trigger eval_child(restriction, agents, times, tasks, a2, t2)]
        t2 < tasks.len() && pair_lt(a2, t2, a, t) ==> !(eval_child(
            restriction,
            agents,
            times,
            tasks,
            a2,
            t2,
        ) is Best)
    &&& min is Some ==> {
        let v = min->Some_0;
        &&& bp.0 < agents.len()
        &&& bp.1 < tasks.len()
        &&& pair_lt(bp.0, bp.1, a, t)
        &&& eval_child(restriction, agents, times, tasks, bp.0, bp.1) == Outcome::Best(v)
        &&& forall|a2: nat, t2: nat|
            #![trigger eval_child(restriction, agents, times, tasks, a2, t2)]
            t2 < tasks.len() && pair_lt(a2, t2, bp.0, bp.1) ==> !(eval_child(
                restriction,
                agents,
                times,
                tasks,
                a2,
                t2,
            ) is Best && eval_child(restriction, agents, times, tasks, a2, t2)->Best_0 <= v)
        &&& forall|a2: nat, t2: nat|
            #![trigger eval_child(restriction, agents, times, tasks, a2, t2)]
            t2 < tasks.len() && pair_lt(a2, t2, a, t) ==> !(eval_child(
                restriction,
                agents,
                times,
                tasks,
                a2,
                t2,
            ) is Best && eval_child(restriction, agents, times, tasks, a2, t2)->Best_0 < v)
    }
}

/// Builds the node reached by `edge`, from the given state, with the
/// subtree below it.
fn branch<T: Distance + Copy, F: Fn(u64) -> bool>(
    agents: Vec<Agent<T>>,
    times: Vec<u64>,
    tasks: Vec<(usize, Task<T>)>,
    restriction: &Option<F>,
    edge: Edge<T>,
    path_checking: bool,
) -> (r: Result<Node<T>, ScheduleError>)
    requires
        pure_predicate(*restriction),
        agents.len() == times.len(),
        distinct_keys(tasks@),
    ensures
        match r {
            Err(e) => e == ScheduleError::CostOverflow && eval(
                *restriction,
                agents@,
                times@,
                tasks@,
            ) == Outcome::Overflow,
            Ok(node) => node_ok(node, *restriction, path_checking, agents@, times@, tasks@) && node.edge == edge,
        },
    decreases tasks.len(), 1nat,
{
    if tasks.len() == 0 {
        let v = max_of(&times);
        Ok(Node { edge, children: Vec::new(), min_path_time: Some(v), best: 0 })
    } else {
        match expand(&agents, &times, &tasks, restriction, path_checking) {
            Err(e) => Err(e),
            Ok((children, min, best)) => Ok(Node { edge, children, min_path_time: min, best }),
        }
    }
}

/// Builds one subtree for each unvetoed (agent, task) pair from the given
/// state, in agent-major order, with their best makespan and the first
/// child that reaches it. Stops at the first cost that overflows.
fn expand<T: Distance + Copy, F: Fn(u64) -> bool>(
    agents: &Vec<Agent<T>>,
    times: &Vec<u64>,
    tasks: &Vec<(usize, Task<T>)>,
    restriction: &Option<F>,
    path_checking: bool,
) -> (r: Result<(Vec<Box<Node<T>>>, Option<u64>, usize), ScheduleError>)
    requires
        pure_predicate(*restriction),
        agents.len() == times.len(),
        distinct_keys(tasks@),
        tasks.len() > 0,
    ensures
        match r {
            Err(e) => e == ScheduleError::CostOverflow && eval(
                *restriction,
                agents@,
                times@,
                tasks@,
            ) == Outcome::Overflow,
            Ok((children, min, best)) => forest_ok(
                children@,
                min,
                best,
                *restriction,
                path_checking,
                agents@,
                times@,
                tasks@,
            ),
        },
    decreases tasks.len(), 0nat,
{
    let ghost r = *restriction;
    let ghost k = tasks.len() as nat;
    let mut children: Vec<Box<Node<T>>> = Vec::new();
    let mut min: Option<u64> = None;
    let mut best: usize = 0;
    let ghost mut bp: (nat, nat) = (0, 0);
    let mut ai: usize = 0;
    while ai < agents.len()
        invariant
            pure_predicate(r),
            r == *restriction,
            k == tasks.len(),
            k > 0,
            agents.len() == times.len(),
            distinct_keys(tasks@),
            ai <= agents.len(),
            outcome_of(min) == eval_pairs(r, agents@, times@, tasks@, ai as nat, 0),
            seq_count(children@) == explored_pairs(r, agents@, times@, tasks@, ai as nat, 0),
            min is Some ==> best < children.len() && children[best as int].min_path_time == min,
            best_so_far(r, agents@, times@, tasks@, min, bp, ai as nat, 0),
            min is Some ==> children[best as int].edge.agent == bp.0
                && children[best as int].edge.task == tasks@[bp.1 as int].0,
            forall|i: int|
                0 <= i < children.len() ==> child_ok(*children[i], r, path_checking, agents@, times@, tasks@),
        decreases agents.len() - ai,
    {
        let mut ti: usize = 0;
        assert(explored_pairs(r, agents@, times@, tasks@, ai as nat, 0) == explored_pairs(
            r,
            agents@,
            times@,
            tasks@,
            ai as nat,
            ti as nat,
        ));
        assert(eval_pairs(r, agents@, times@, tasks@, ai as nat, 0) == eval_pairs(
            r,
            agents@,
            times@,
            tasks@,
            ai as nat,
            ti as nat,
        ));
        while ti < tasks.len()
            invariant
                pure_predicate(r),
                r == *restriction,
                k == tasks.len(),
                k > 0,
                agents.len() == times.len(),
                distinct_keys(tasks@),
                ai < agents.len(),
                ti <= tasks.len(),
                outcome_of(min) == eval_pairs(r, agents@, times@, tasks@, ai as nat, ti as nat),
                seq_count(children@) == explored_pairs(
                    r,
                    agents@,
                    times@,
                    tasks@,
                    ai as nat,
                    ti as nat,
                ),
                min is Some ==> best < children.len() && children[best as int].min_path_time
                    == min,
                best_so_far(r, agents@, times@, tasks@, min, bp, ai as nat, ti as nat),
                min is Some ==> children[best as int].edge.agent == bp.0
                    && children[best as int].edge.task == tasks@[bp.1 as int].0,
                forall|i: int|
                    0 <= i < children.len() ==> child_ok(
                        *children[i],
                        r,
                        path_checking,
                        agents@,
                        times@,
                        tasks@,
                    ),
            decreases tasks.len() - ti,
        {
            let agent = agents[ai];
            let task = tasks[ti];
            let to_task = agent.state.distance(&task.1.from);
            let vetoed = match restriction {
                Some(f) => f(to_task),
                None => false,
            };
            let ghost child_outcome = eval_child(
                r,
                agents@,
                times@,
                tasks@,
                ai as nat,
                ti as nat,
            );
            assert(eval_pairs(r, agents@, times@, tasks@, ai as nat, (ti + 1) as nat) == combine(
                eval_pairs(r, agents@, times@, tasks@, ai as nat, ti as nat),
                child_outcome,
            ));
            assert(vetoed == vetoes(r, to_task as nat));
            assert(explored_pairs(r, agents@, times@, tasks@, ai as nat, (ti + 1) as nat)
                == explored_pairs(r, agents@, times@, tasks@, ai as nat, ti as nat)
                + explored_child(r, agents@, times@, tasks@, ai as nat, ti as nat));
            if !vetoed {
                let task_len = task.1.from.distance(&task.1.to);
                let cur = times[ai];
                if to_task > u64::MAX - cur || task_len > u64::MAX - cur - to_task {
                    assert(child_outcome == Outcome::Overflow);
                    proof {
                        lemma_overflow_stays(
                            r,
                            agents@,
                            times@,
                            tasks@,
                            ai as nat,
                            (ti + 1) as nat,
                            agents.len() as nat,
                            0,
                        );
                    }
                    return Err(ScheduleError::CostOverflow);
                }
                let cost = to_task + task_len;
                let mut new_agents = copy_vec(agents);
                new_agents.set(ai, Agent { state: task.1.to });
                let mut new_times = copy_vec(times);
                new_times.set(ai, cur + cost);
                let mut new_tasks = copy_vec(tasks);
                new_tasks.remove(ti);
                proof {
                    lemma_distinct_remove(tasks@, ti as int);
                    lemma_key_pos(tasks@, ti as int);
                }
                assert(new_agents@ == next_agents(agents@, tasks@, ai as int, ti as int));
                assert(new_times@ == next_times(agents@, times@, tasks@, ai as int, ti as int));
                let edge = Edge {
                    agent: ai,
                    task: task.0,
                    path: if path_checking {
                        Some((agent.state, task.1.from, task.1.to, cost))
                    } else {
                        None
                    },
                };
                match branch(new_agents, new_times, new_tasks, restriction, edge, path_checking) {
                    Err(e) => {
                        proof {
                            lemma_overflow_stays(
                                r,
                                agents@,
                                times@,
                                tasks@,
                                ai as nat,
                                (ti + 1) as nat,
                                agents.len() as nat,
                                0,
                            );
                        }
                        return Err(e);
                    },
                    Ok(node) => {
                        assert(child_ok(node, r, path_checking, agents@, times@, tasks@));
                        assert(child_outcome == eval(
                            r,
                            new_agents@,
                            new_times@,
                            new_tasks@,
                        ));
                        match (min, node.min_path_time) {
                            (None, Some(v)) => {
                                min = Some(v);
                                best = children.len();
                                proof {
                                    bp = (ai as nat, ti as nat);
                                }
                            },
                            (Some(m), Some(v)) => {
                                if v < m {
                                    min = Some(v);
                                    best = children.len();
                                    proof {
                                        bp = (ai as nat, ti as nat);
                                    }
                                }
                            },
                            _ => {},
                        }
                        let ghost before = children@;
                        children.push(Box::new(node));
                        proof {
                            assert(children@.drop_last() =~= before);
                            lemma_forest_count_all(node.children);
                        }
                    },
                }
            }
            ti = ti + 1;
        }
        ai = ai + 1;
    }
    proof {
        if min is Some {
            lemma_best_pair_unique(r, agents@, times@, tasks@, min->Some_0, bp.0, bp.1);
        }
    }
    Ok((children, min, best))
}

/// Follows the recorded best child from `node` down to a leaf and returns
/// the edges passed.
fn walk<T: Distance + Copy, F: Fn(u64) -> bool>(
    node: &Node<T>,
    Ghost(restriction): Ghost<Option<F>>,
    Ghost(path_checking): Ghost<bool>,
    Ghost(agents): Ghost<Seq<Agent<T>>>,
    Ghost(times): Ghost<Seq<u64>>,
    Ghost(tasks): Ghost<Seq<(usize, Task<T>)>>,
) -> (r: Vec<Edge<T>>)
    requires
        forest_ok(
        node.children@,
        node.min_path_time,
        node.best,
        restriction,
        path_checking,
        agents,
        times,
        tasks,
    ),
        node.min_path_time is Some,
        agents.len() == times.len(),
        distinct_keys(tasks),
    ensures
        replay(agents, times, tasks, steps_of(r@)) == node.min_path_time,
        steps_of(r@) == best_steps(restriction, agents, times, tasks),
    decreases tasks.len(),
{
    if node.children.len() == 0 {
        Vec::new()
    } else {
        let c: &Node<T> = &node.children[node.best];
        assert(child_ok(
            *node.children@[node.best as int],
            restriction,
            path_checking,
            agents,
            times,
            tasks,
        ));
        let ghost a = c.edge.agent as int;
        let ghost t = key_pos(tasks, c.edge.task);
        proof {
            let p = best_pair(restriction, agents, times, tasks, node.min_path_time->Some_0);
            lemma_key_pos(tasks, p.1 as int);
            lemma_distinct_remove(tasks, t);
        }
        let rest = walk::<T, F>(
            c,
            Ghost(restriction),
            Ghost(path_checking),
            Ghost(next_agents(agents, tasks, a, t)),
            Ghost(next_times(agents, times, tasks, a, t)),
            Ghost(tasks.remove(t)),
        );
        let mut r: Vec<Edge<T>> = Vec::new();
        r.push(c.edge);
        let mut j: usize = 0;
        while j < rest.len()
            invariant
                j <= rest.len(),
                r@ == seq![c.edge] + rest@.subrange(0, j as int),
            decreases rest.len() - j,
        {
            r.push(rest[j]);
            j = j + 1;
            assert(r@ =~= seq![c.edge] + rest@.subrange(0, j as int));
        }
        assert(steps_of(r@).drop_first() =~= steps_of(rest@));
        assert(steps_of(r@)[0] == (c.edge.agent, c.edge.task));
        r
    }
}

/// What a successful search reports: the forest it builds, the optimum,
/// the node count, and the schedule of the first optimal pairs, whose
/// makespan is the optimum.
pub open spec fn reported<T: Distance, F: Fn(u64) -> bool>(
    restriction: Option<F>,
    path_checking: bool,
    agents: Seq<Agent<T>>,
    tasks: Seq<(usize, Task<T>)>,
    path: Seq<Edge<T>>,
    root: Root<T>,
) -> bool {
    let zero = zero_times(agents.len());
    &&& eval(restriction, agents, zero, tasks) == Outcome::Best(root.min_path_time)
    &&& root_ok(root, restriction, path_checking, agents, tasks)
    &&& root.size() == explored(restriction, agents, zero, tasks)
    &&& replay(agents, zero, tasks, steps_of(path)) == Some(root.min_path_time)
    &&& steps_of(path) == best_steps(restriction, agents, zero, tasks)
}

/// Builds the decision tree of every order in which `agents` can serve
/// `tasks`, skipping each branch whose deadhead the restriction vetoes, and
/// returns an optimal edge sequence with the tree. With diagnostics on,
/// each edge carries the state before it, the task's endpoints and its cost.
pub fn schedule<T: Distance + Copy, F: Fn(u64) -> bool>(
    agents: &[Agent<T>],
    tasks: Vec<(usize, Task<T>)>,
    restriction: Option<F>,
    path_checking: bool,
) -> (r: Result<(Vec<Edge<T>>, Root<T>), ScheduleError>)
    requires
        pure_predicate(restriction),
        distinct_keys(tasks@),
    ensures
        agents@.len() == 0 ==> r == Err::<(Vec<Edge<T>>, Root<T>), ScheduleError>(
            ScheduleError::NoAgents,
        ),
        agents@.len() > 0 && tasks@.len() == 0 ==> r is Ok && r->Ok_0.0@.len() == 0
            && r->Ok_0.1.min_path_time == 0 && r->Ok_0.1.children@.len() == 0,
        agents@.len() > 0 && tasks@.len() > 0 ==> match eval(
            restriction,
            agents@,
            zero_times(agents@.len()),
            tasks@,
        ) {
            Outcome::Overflow => r == Err::<(Vec<Edge<T>>, Root<T>), ScheduleError>(
                ScheduleError::CostOverflow,
            ),
            Outcome::Infeasible => r == Err::<(Vec<Edge<T>>, Root<T>), ScheduleError>(
                ScheduleError::Infeasible,
            ),
            Outcome::Best(v) => r is Ok && reported(
                restriction,
                path_checking,
                agents@,
                tasks@,
                r->Ok_0.0@,
                r->Ok_0.1,
            ),
        },
{
    if agents.len() == 0 {
        return Err(ScheduleError::NoAgents);
    }
    if tasks.len() == 0 {
        return Ok((Vec::new(), Root { children: Vec::new(), min_path_time: 0, best: 0 }));
    }
    let mut start: Vec<Agent<T>> = Vec::new();
    let mut times: Vec<u64> = Vec::new();
    let mut i: usize = 0;
    while i < agents.len()
        invariant
            i <= agents.len(),
            start@ == agents@.subrange(0, i as int),
            times@ == zero_times(i as nat),
        decreases agents.len() - i,
    {
        start.push(agents[i]);
        times.push(0);
        assert(times@ =~= zero_times((i + 1) as nat));
        i = i + 1;
    }
    assert(start@ =~= agents@);
    match expand(&start, &times, &tasks, &restriction, path_checking) {
        Err(e) => Err(e),
        Ok((children, min, best)) => {
            match min {
                None => Err(ScheduleError::Infeasible),
                Some(v) => {
                    let root = Root { children, min_path_time: v, best };
                    let top = Node {
                        edge: Edge { agent: 0, task: 0, path: None },
                        children: root.children,
                        min_path_time: min,
                        best,
                    };
                    let path = walk::<T, F>(
                        &top,
                        Ghost(restriction),
                        Ghost(path_checking),
                        Ghost(agents@),
                        Ghost(times@),
                        Ghost(tasks@),
                    );
                    let root = Root { children: top.children, min_path_time: v, best };
                    proof {
                        lemma_forest_count_all(root.children);
                    }
                    Ok((path, root))
                },
            }
        },
    }
}

/// The exact node count of the unpruned decision tree over `m` agents and
/// `n` tasks: the sum over depths `i < n` of the product of `m * (n - j)`
/// for `j` in `0..=i`.
pub fn max(m: u128, n: u128) -> (r: u128)
    requires
        tree_bound(m as nat, n as nat) <= u128::MAX,
    ensures
        r == tree_bound(m as nat, n as nat),
{
    let ghost mi = m as nat;
    let ghost ni = n as nat;
    let mut sum: u128 = 0;
    let mut prod: u128 = 1;
    let mut i: u128 = 0;
    while i < n
        invariant
            i <= n,
            mi == m as nat,
            ni == n as nat,
            sum == levels_sum(mi, ni, i as nat),
            i == 0 ==> prod == 1,
            i > 0 ==> prod == level_count(mi, ni, (i - 1) as nat),
            tree_bound(mi, ni) <= u128::MAX,
        decreases n - i,
    {
        proof {
            lemma_levels_sum_mono(mi, ni, (i + 1) as nat, ni);
            lemma_level_count_nonneg(mi, ni, i as nat);
        }
        assert(levels_sum(mi, ni, (i + 1) as nat) == sum + level_count(mi, ni, i as nat));
        if prod != 0 {
            let ghost p = prod as int;
            let ghost f = mi * (ni - i);
            assert(f <= p * f && f >= 0) by (nonlinear_arith)
                requires
                    p >= 1,
                    mi >= 0,
                    ni - i > 0,
                    f == mi * (ni - i),
            ;
            let factor = m * (n - i);
            prod = prod * factor;
            assert(prod == level_count(mi, ni, i as nat)) by {
                if i > 0 {
                    assert(level_count(mi, ni, i as nat) == p * f);
                }
            }
        } else {
            assert(level_count(mi, ni, i as nat) == 0) by {
                let ff = mi * (ni - i);
                assert(0 * ff == 0) by (nonlinear_arith);
            }
        }
        sum = sum + prod;
        i = i + 1;
    }
    sum
}

} // verus!
