//! The greedy heuristic: rounds of cheapest-first matching between free
//! agents and pooled tasks, and a bound on its work.
use vstd::prelude::*;

use crate::dfs::{
    deadhead, distinct_keys, fits, lemma_distinct_remove, lemma_key_pos, max_of,
    next_agents, next_times, replay, zero_times, ScheduleError,
};
use crate::entity::{Agent, Distance, Task};

verus! {

/// Pair `(a, t)` comes no later than `(a2, t2)` in agent-major order.
pub open spec fn pair_le(a: int, t: int, a2: int, t2: int) -> bool {
    a < a2 || (a == a2 && t <= t2)
}

/// Agent `a` is free in this round and task `t` is in the pool.
pub open spec fn open_pair<T>(
    agents: Seq<Agent<T>>,
    pool: Seq<(usize, Task<T>)>,
    claimed: Seq<bool>,
    a: int,
    t: int,
) -> bool {
    0 <= a < agents.len() && a < claimed.len() && !claimed[a] && 0 <= t < pool.len()
}

/// `(a, t)` is the greedy choice: the open pair with the least deadhead,
/// the first in agent-major order among equals.
pub open spec fn is_choice<T: Distance>(
    agents: Seq<Agent<T>>,
    pool: Seq<(usize, Task<T>)>,
    claimed: Seq<bool>,
    a: int,
    t: int,
) -> bool {
    &&& open_pair(agents, pool, claimed, a, t)
    &&& forall|a2: int, t2: int|
        #![trigger deadhead(agents, pool, a2, t2)]
        open_pair(agents, pool, claimed, a2, t2) ==> deadhead(agents, pool, a, t) < deadhead(
            agents,
            pool,
            a2,
            t2,
        ) || (deadhead(agents, pool, a, t) == deadhead(agents, pool, a2, t2) && pair_le(
            a,
            t,
            a2,
            t2,
        ))
}

/// The greedy choice under the given claims.
pub open spec fn choice<T: Distance>(
    agents: Seq<Agent<T>>,
    pool: Seq<(usize, Task<T>)>,
    claimed: Seq<bool>,
) -> (int, int) {
    choose|p: (int, int)| is_choice(agents, pool, claimed, p.0, p.1)
}

/// Some agent is still free in this round.
pub open spec fn any_free(claimed: Seq<bool>) -> bool {
    exists|a: int| 0 <= a < claimed.len() && !claimed[a]
}

/// No agent claimed: the start of a round.
pub open spec fn fresh(m: nat) -> Seq<bool> {
    Seq::new(m, |i: int| false)
}

/// The claims under which the next choice is made: a new round starts once
/// every agent has been claimed.
pub open spec fn round_claims(claimed: Seq<bool>) -> Seq<bool> {
    if any_free(claimed) {
        claimed
    } else {
        fresh(claimed.len())
    }
}

/// The (agent, task key) steps that the round-based greedy matching takes
/// from the given agents' states, task pool and claims of the current round.
pub open spec fn greedy_steps<T: Distance>(
    agents: Seq<Agent<T>>,
    pool: Seq<(usize, Task<T>)>,
    claimed: Seq<bool>,
) -> Seq<(usize, usize)>
    decreases pool.len(),
{
    if pool.len() == 0 || agents.len() == 0 || claimed.len() != agents.len() {
        seq![]
    } else {
        let c = round_claims(claimed);
        let p = choice(agents, pool, c);
        if 0 <= p.0 < agents.len() && 0 <= p.1 < pool.len() {
            seq![(p.0 as usize, pool[p.1].0)] + greedy_steps(
                next_agents(agents, pool, p.0, p.1),
                pool.remove(p.1),
                c.update(p.0, true),
            )
        } else {
            seq![]
        }
    }
}

proof fn lemma_choice_unique<T: Distance>(
    agents: Seq<Agent<T>>,
    pool: Seq<(usize, Task<T>)>,
    claimed: Seq<bool>,
    a: int,
    t: int,
)
    requires
        is_choice(agents, pool, claimed, a, t),
    ensures
        choice(agents, pool, claimed) == (a, t),
{
    assert(is_choice(agents, pool, claimed, (a, t).0, (a, t).1));
    let p = choice(agents, pool, claimed);
    assert(is_choice(agents, pool, claimed, p.0, p.1));
    assert(deadhead(agents, pool, a, t) <= deadhead(agents, pool, p.0, p.1));
    assert(deadhead(agents, pool, p.0, p.1) <= deadhead(agents, pool, a, t));
}

/// The greedy choice among free agents and pooled tasks, with its deadhead.
fn pick<T: Distance>(
    agents: &Vec<Agent<T>>,
    pool: &Vec<(usize, Task<T>)>,
    claimed: &Vec<bool>,
) -> (r: Option<(usize, usize, u64)>)
    requires
        claimed.len() == agents.len(),
    ensures
        r is None <==> (pool.len() == 0 || !any_free(claimed@)),
        r matches Some((a, t, d)) ==> is_choice(agents@, pool@, claimed@, a as int, t as int)
            && d == deadhead(agents@, pool@, a as int, t as int),
{
    let mut found: Option<(usize, usize, u64)> = None;
    let mut ai: usize = 0;
    while ai < agents.len()
        invariant
            claimed.len() == agents.len(),
            ai <= agents.len(),
            found matches Some((a, t, d)) ==> open_pair(agents@, pool@, claimed@, a as int, t as int)
                && d == deadhead(agents@, pool@, a as int, t as int) && a < ai,
            found is None ==> forall|a2: int, t2: int|
                open_pair(agents@, pool@, claimed@, a2, t2) ==> a2 >= ai,
            found matches Some((a, t, d)) ==> forall|a2: int, t2: int|
                #![trigger deadhead(agents@, pool@, a2, t2)]
                open_pair(agents@, pool@, claimed@, a2, t2) && a2 < ai ==> d < deadhead(
                    agents@,
                    pool@,
                    a2,
                    t2,
                ) || (d == deadhead(agents@, pool@, a2, t2) && pair_le(
                    a as int,
                    t as int,
                    a2,
                    t2,
                )),
        decreases agents.len() - ai,
    {
        if !claimed[ai] {
            let mut ti: usize = 0;
            while ti < pool.len()
                invariant
                    claimed.len() == agents.len(),
                    ai < agents.len(),
                    !claimed[ai as int],
                    ti <= pool.len(),
                    found matches Some((a, t, d)) ==> open_pair(
                        agents@,
                        pool@,
                        claimed@,
                        a as int,
                        t as int,
                    ) && d == deadhead(agents@, pool@, a as int, t as int) && pair_le(
                        a as int,
                        t as int,
                        ai as int,
                        ti as int,
                    ) && (a as int, t as int) != (ai as int, ti as int),
                    found is None ==> ti == 0 && forall|a2: int, t2: int|
                        open_pair(agents@, pool@, claimed@, a2, t2) ==> a2 >= ai,
                    found matches Some((a, t, d)) ==> forall|a2: int, t2: int|
                        #![trigger deadhead(agents@, pool@, a2, t2)]
                        open_pair(agents@, pool@, claimed@, a2, t2) && pair_le(
                            a2,
                            t2,
                            ai as int,
                            ti as int,
                        ) && (a2, t2) != (ai as int, ti as int) ==> d < deadhead(
                            agents@,
                            pool@,
                            a2,
                            t2,
                        ) || (d == deadhead(agents@, pool@, a2, t2) && pair_le(
                            a as int,
                            t as int,
                            a2,
                            t2,
                        )),
                decreases pool.len() - ti,
            {
                let d = agents[ai].state.distance(&pool[ti].1.from);
                let better = match found {
                    None => true,
                    Some((_, _, bd)) => d < bd,
                };
                if better {
                    found = Some((ai, ti, d));
                }
                ti = ti + 1;
            }
            if pool.len() == 0 {
                assert(found is None);
            }
        }
        ai = ai + 1;
    }
    proof {
        if found is None && pool.len() > 0 {
            assert(!any_free(claimed@)) by {
            if any_free(claimed@) {
                let a2 = choose|a: int| 0 <= a < claimed@.len() && !claimed@[a];
                    assert(open_pair(agents@, pool@, claimed@, a2, 0));
                }
            }
        }
        if let Some((a, t, d)) = found {
            assert(any_free(claimed@)) by {
                assert(0 <= a < claimed@.len() && !claimed@[a as int]);
            }
        }
    }
    found
}

/// A round's claims before any agent is claimed.
fn fresh_claims(m: usize) -> (r: Vec<bool>)
    ensures
        r@ == fresh(m as nat),
{
    let mut r: Vec<bool> = Vec::new();
    let mut i: usize = 0;
    while i < m
        invariant
            i <= m,
            r@ == fresh(i as nat),
        decreases m - i,
    {
        r.push(false);
        i = i + 1;
        assert(r@ =~= fresh(i as nat));
    }
    r
}

/// Assigns every task by repeated rounds of cheapest-first matching: in each
/// round every agent takes at most one task, the pair with the least
/// deadhead going first. Returns the (agent, task key) steps in the order
/// taken and the makespan of that schedule.
pub fn schedule<T: Distance + Copy>(agents: Vec<Agent<T>>, tasks: Vec<(usize, Task<T>)>) -> (r:
    Result<(Vec<(usize, usize)>, u64), ScheduleError>)
    requires
        distinct_keys(tasks@),
    ensures
        agents@.len() == 0 ==> r == Err::<(Vec<(usize, usize)>, u64), ScheduleError>(
            ScheduleError::NoAgents,
        ),
        agents@.len() > 0 ==> match r {
            Ok((steps, estimate)) => steps@ == greedy_steps(
                agents@,
                tasks@,
                fresh(agents@.len()),
            ) && replay(agents@, zero_times(agents@.len()), tasks@, steps@) == Some(estimate),
            Err(e) => e == ScheduleError::CostOverflow && replay(
                agents@,
                zero_times(agents@.len()),
                tasks@,
                greedy_steps(agents@, tasks@, fresh(agents@.len())),
            ) is None,
        },
{
    if agents.len() == 0 {
        return Err(ScheduleError::NoAgents);
    }
    let ghost a0 = agents@;
    let ghost t0 = tasks@;
    let m = agents.len();
    let mut cur = agents;
    let mut totals: Vec<u64> = Vec::new();
    let mut i: usize = 0;
    while i < m
        invariant
            i <= m,
            totals@ == zero_times(i as nat),
        decreases m - i,
    {
        totals.push(0);
        i = i + 1;
        assert(totals@ =~= zero_times(i as nat));
    }
    let mut pool = tasks;
    let mut claimed = fresh_claims(m);
    let mut steps: Vec<(usize, usize)> = Vec::new();
    assert forall|p: Seq<(usize, usize)>|
        #[trigger] replay(a0, zero_times(m as nat), t0, steps@ + p) == replay(
            cur@,
            totals@,
            pool@,
            p,
        ) by {
        assert(steps@ + p =~= p);
    }
    assert(greedy_steps(a0, t0, fresh(m as nat)) =~= steps@ + greedy_steps(
        cur@,
        pool@,
        claimed@,
    ));
    while pool.len() > 0
        invariant
            m > 0,
            a0 == agents@,
            t0 == tasks@,
            a0.len() == m,
            cur.len() == m,
            totals.len() == m,
            claimed.len() == m,
            distinct_keys(pool@),
            forall|p: Seq<(usize, usize)>|
                #[trigger] replay(a0, zero_times(m as nat), t0, steps@ + p) == replay(
                    cur@,
                    totals@,
                    pool@,
                    p,
                ),
            greedy_steps(a0, t0, fresh(m as nat)) == steps@ + greedy_steps(
                cur@,
                pool@,
                claimed@,
            ),
        decreases pool.len(),
    {
        let ghost c0 = claimed@;
        let mut found = pick(&cur, &pool, &claimed);
        if found.is_none() {
            claimed = fresh_claims(m);
            found = pick(&cur, &pool, &claimed);
            assert(any_free(claimed@)) by {
                assert(!claimed@[0]);
            }
        }
        assert(claimed@ == round_claims(c0));
        let (a, t, d) = match found {
            Some(x) => x,
            None => {
                return Err(ScheduleError::NoAgents);
            },
        };
        proof {
            lemma_choice_unique(cur@, pool@, claimed@, a as int, t as int);
            lemma_key_pos(pool@, t as int);
        }
        let task = pool[t];
        let ghost x = (a, task.0);
        let ghost rest = greedy_steps(
            next_agents(cur@, pool@, a as int, t as int),
            pool@.remove(t as int),
            claimed@.update(a as int, true),
        );
        assert(greedy_steps(cur@, pool@, c0) == seq![x] + rest);
        let len = task.1.from.distance(&task.1.to);
        let now = totals[a];
        if d > u64::MAX - now || len > u64::MAX - now - d {
            assert(!fits(cur@, totals@, pool@, a as int, t as int));
            assert(replay(cur@, totals@, pool@, seq![x] + rest) is None) by {
                assert((seq![x] + rest)[0] == x);
            }
            assert(greedy_steps(a0, t0, fresh(m as nat)) == steps@ + (seq![x] + rest));
            return Err(ScheduleError::CostOverflow);
        }
        let ghost old_steps = steps@;
        let ghost old_cur = cur@;
        let ghost old_totals = totals@;
        let ghost old_pool = pool@;
        totals.set(a, now + d + len);
        cur.set(a, Agent { state: task.1.to });
        pool.remove(t);
        claimed.set(a, true);
        steps.push((a, task.0));
        proof {
            lemma_distinct_remove(old_pool, t as int);
            assert(cur@ == next_agents(old_cur, old_pool, a as int, t as int));
            assert(totals@ == next_times(old_cur, old_totals, old_pool, a as int, t as int));
            assert forall|p: Seq<(usize, usize)>|
                #[trigger] replay(a0, zero_times(m as nat), t0, steps@ + p) == replay(
                    cur@,
                    totals@,
                    pool@,
                    p,
                ) by {
                assert(steps@ + p =~= old_steps + (seq![x] + p));
                assert((seq![x] + p)[0] == x);
                assert((seq![x] + p).drop_first() =~= p);
                assert(replay(a0, zero_times(m as nat), t0, old_steps + (seq![x] + p)) == replay(
                    old_cur,
                    old_totals,
                    old_pool,
                    seq![x] + p,
                ));
            }
            assert(steps@ + rest =~= old_steps + (seq![x] + rest));
        }
    }
    let estimate = max_of(&totals);
    proof {
        assert(steps@ + seq![] =~= steps@);
        assert(replay(a0, zero_times(m as nat), t0, steps@ + seq![]) == replay(
            cur@,
            totals@,
            pool@,
            seq![],
        ));
        assert(steps@ + greedy_steps(cur@, pool@, claimed@) =~= steps@);
    }
    Ok((steps, estimate))
}

/// The integer part of the base-2 logarithm of `x`; zero for `x <= 1`.
pub open spec fn log2_floor(x: nat) -> nat
    decreases x,
{
    if x <= 1 {
        0
    } else {
        1 + log2_floor(x / 2)
    }
}

/// The comparison work of the greedy rounds over `m` agents and `n` pooled
/// tasks: each round computes and sorts every pair, then takes `min(m, n)`
/// tasks out of the pool.
pub open spec fn round_work(m: nat, n: nat) -> nat
    decreases n,
{
    if n == 0 || m == 0 {
        0
    } else {
        let k = if m <= n {
            m
        } else {
            n
        };
        m * n + m * n * log2_floor(m * n) + k + round_work(m, (n - k) as nat)
    }
}

/// The bound on the greedy heuristic's total work over `m` agents and `n`
/// tasks.
pub open spec fn approx_bound(m: nat, n: nat) -> nat {
    round_work(m, n) + m
}

proof fn lemma_log2_floor_le(x: nat)
    ensures
        log2_floor(x) <= x,
    decreases x,
{
    if x > 1 {
        lemma_log2_floor_le(x / 2);
    }
}

/// The integer part of the base-2 logarithm of `x`; zero for `x <= 1`.
fn log2_of(x: u128) -> (r: u128)
    ensures
        r == log2_floor(x as nat),
{
    let mut v: u128 = x;
    let mut r: u128 = 0;
    proof {
        lemma_log2_floor_le(x as nat);
    }
    while v > 1
        invariant
            r + log2_floor(v as nat) == log2_floor(x as nat),
            log2_floor(x as nat) <= x,
        decreases v,
    {
        v = v / 2;
        r = r + 1;
    }
    r
}

/// The upper bound on the comparison work of the greedy heuristic over `m`
/// agents and `n` tasks, round by round as the pool shrinks.
pub fn max(m: u128, n: u128) -> (r: u128)
    requires
        m > 0 || n == 0,
        approx_bound(m as nat, n as nat) <= u128::MAX,
    ensures
        r == approx_bound(m as nat, n as nat),
{
    let mut num: u128 = 0;
    let mut rest: u128 = n;
    while rest != 0
        invariant
            m > 0 || rest == 0,
            rest <= n,
            num + round_work(m as nat, rest as nat) == round_work(m as nat, n as nat),
            round_work(m as nat, n as nat) + m <= u128::MAX,
        decreases rest,
    {
        let k = if m <= rest {
            m
        } else {
            rest
        };
        let ghost mn = (m * rest) as nat;
        let ghost lg = log2_floor(mn);
        assert(mn * lg >= 0) by (nonlinear_arith);
        let mn_e = m * rest;
        let lg_e = log2_of(mn_e);
        let w = mn_e * lg_e;
        num = num + mn_e + w + k;
        rest = rest - k;
    }
    num + m
}

} // verus!
