use std::time::Instant;

use num_format::{Locale, ToFormattedString};
use scheduling::dfs::{self, Children, ScheduleError};
use scheduling::min;
use scheduling::{gen, time, Agent, Coord, Distance, Task};

const SIZE: u32 = 1000;
const NUM_OF_TASKS: u16 = 7; // n
const NUM_OF_AGENTS: u16 = 3; // m
const PRINT_PATH: bool = false;

fn no_restriction() -> Option<fn(u64) -> bool> {
    None
}

fn keyed<T: Copy>(tasks: Vec<Task<T>>) -> Vec<(usize, Task<T>)> {
    tasks.into_iter().enumerate().collect()
}

fn task(id: usize, from: (u32, u32), to: (u32, u32)) -> Task<Coord> {
    Task { id, from: Coord::at(from.0, from.1), to: Coord::at(to.0, to.1) }
}

fn agent(x: u32, y: u32) -> Agent<Coord> {
    Agent { state: Coord::at(x, y) }
}

fn two_task_line() -> (Vec<Agent<Coord>>, Vec<(usize, Task<Coord>)>) {
    (vec![agent(0, 0)], vec![(0, task(0, (0, 0), (1, 0))), (1, task(1, (2, 0), (2, 1)))])
}

fn small_instance() -> (Vec<Agent<Coord>>, Vec<(usize, Task<Coord>)>) {
    (
        vec![agent(0, 0), agent(9, 9)],
        vec![
            (0, task(0, (1, 0), (4, 0))),
            (1, task(1, (8, 9), (2, 2))),
            (2, task(2, (5, 5), (6, 6))),
        ],
    )
}

#[test]
fn dfs() {
    let mut rng = rand::thread_rng();

    let (agents, tasks) = gen(SIZE, &mut rng, NUM_OF_TASKS, NUM_OF_AGENTS);

    let now = Instant::now();
    let (path, root) = dfs::schedule(
        &agents,
        keyed(tasks),
        Some(|d: u64| d as f32 > 2.5f32 * SIZE as f32 / NUM_OF_AGENTS as f32),
        false,
    )
    .unwrap();
    println!("time:\t{}", time(now));

    let nodes = root.children();
    println!("edges:");
    let max = dfs::max(NUM_OF_AGENTS as u128, NUM_OF_TASKS as u128);
    println!("\tmax:\t{: >15}", max.to_formatted_string(&Locale::en));
    println!("\tactual:\t{: >15}", nodes.to_formatted_string(&Locale::en));
    println!("\t%:\t{:.5?}", 100f32 * (nodes as f32 / max as f32));

    println!("min_time: {:.2}", root.min_path_time);

    if PRINT_PATH {
        println!("path: \n{:#?}", path);
    }
}

#[test]
fn min() {
    let mut rng = rand::thread_rng();

    let (agents, tasks) = gen(SIZE, &mut rng, NUM_OF_TASKS, NUM_OF_AGENTS);

    let now = Instant::now();
    let (path, min_time) = min::schedule(agents, keyed(tasks)).unwrap();
    println!("time:\t{}", time(now));

    let max = min::max(NUM_OF_AGENTS as u128, NUM_OF_TASKS as u128);
    println!("edges:\t{: >15}", max);

    println!("min_time: {:.2}", min_time);

    if PRINT_PATH {
        println!("path: \n{:#?}", path);
    }
}

#[test]
fn line_instance_optimum_and_path() {
    let (agents, tasks) = two_task_line();
    let (path, root) = dfs::schedule(&agents, tasks, no_restriction(), true).unwrap();
    assert_eq!(root.min_path_time, 3);
    let ids: Vec<usize> = path.iter().map(|e| e.task).collect();
    assert_eq!(ids, vec![0, 1]);
    assert_eq!(path[0].agent, 0);
    let first = path[0].path.unwrap();
    assert_eq!(first.3, 1);
    let second = path[1].path.unwrap();
    assert_eq!(second.0, Coord::at(1, 0));
    assert_eq!(second.3, 2);
}

#[test]
fn line_instance_without_diagnostics_same_choice() {
    let (agents, tasks) = two_task_line();
    let (with, root_with) = dfs::schedule(&agents, tasks.clone(), no_restriction(), true).unwrap();
    let (without, root_without) = dfs::schedule(&agents, tasks, no_restriction(), false).unwrap();
    assert_eq!(root_with.min_path_time, root_without.min_path_time);
    let a: Vec<(usize, usize)> = with.iter().map(|e| (e.agent, e.task)).collect();
    let b: Vec<(usize, usize)> = without.iter().map(|e| (e.agent, e.task)).collect();
    assert_eq!(a, b);
    assert!(without.iter().all(|e| e.path.is_none()));
}

#[test]
fn bound_two_by_two() {
    assert_eq!(dfs::max(2, 2), 12);
    let agents = vec![agent(0, 0), agent(3, 3)];
    let tasks = vec![(0, task(0, (1, 1), (2, 2))), (1, task(1, (5, 0), (0, 5)))];
    let (_, root) = dfs::schedule(&agents, tasks, no_restriction(), false).unwrap();
    assert_eq!(root.children(), 12);
}

#[test]
fn bound_values() {
    assert_eq!(dfs::max(0, 0), 0);
    assert_eq!(dfs::max(3, 0), 0);
    assert_eq!(dfs::max(0, 4), 0);
    assert_eq!(dfs::max(1, 3), 3 + 6 + 6);
    assert_eq!(dfs::max(3, 7), 21 + 21 * 18 + 21 * 18 * 15 + 21 * 18 * 15 * 12 + 21 * 18 * 15 * 12 * 9 + 21 * 18 * 15 * 12 * 9 * 6 + 21 * 18 * 15 * 12 * 9 * 6 * 3);
}

#[test]
fn unrestricted_count_matches_bound() {
    let (agents, tasks) = small_instance();
    let (path, root) = dfs::schedule(&agents, tasks, no_restriction(), false).unwrap();
    assert_eq!(root.children(), dfs::max(2, 3));
    assert_eq!(path.len(), 3);
}

#[test]
fn restriction_never_improves() {
    let (agents, tasks) = small_instance();
    let (_, free) = dfs::schedule(&agents, tasks.clone(), no_restriction(), false).unwrap();
    let (_, pruned) = dfs::schedule(&agents, tasks, Some(|d: u64| d > 6), false).unwrap();
    assert!(pruned.min_path_time >= free.min_path_time);
    assert!(pruned.children() <= free.children());
    assert!(pruned.children() < dfs::max(2, 3));
}

#[test]
fn exhaustive_not_worse_than_greedy() {
    let (agents, tasks) = small_instance();
    let (_, root) = dfs::schedule(&agents, tasks.clone(), no_restriction(), false).unwrap();
    let (_, estimate) = min::schedule(agents, tasks).unwrap();
    assert!(root.min_path_time <= estimate);
}

#[test]
fn repeated_search_is_identical() {
    let (agents, tasks) = small_instance();
    let (first_path, first_root) = dfs::schedule(&agents, tasks.clone(), no_restriction(), false).unwrap();
    let (second_path, second_root) = dfs::schedule(&agents, tasks, no_restriction(), false).unwrap();
    assert_eq!(first_root.min_path_time, second_root.min_path_time);
    let a: Vec<(usize, usize)> = first_path.iter().map(|e| (e.agent, e.task)).collect();
    let b: Vec<(usize, usize)> = second_path.iter().map(|e| (e.agent, e.task)).collect();
    assert_eq!(a, b);
}

#[test]
fn path_serves_every_task_once() {
    let (agents, tasks) = small_instance();
    let (path, _) = dfs::schedule(&agents, tasks, no_restriction(), false).unwrap();
    let mut ids: Vec<usize> = path.iter().map(|e| e.task).collect();
    ids.sort();
    assert_eq!(ids, vec![0, 1, 2]);
}

#[test]
fn path_replays_to_optimum() {
    let (agents, tasks) = small_instance();
    let (path, root) = dfs::schedule(&agents, tasks.clone(), no_restriction(), true).unwrap();
    let mut states: Vec<Coord> = agents.iter().map(|a| a.state).collect();
    let mut totals = vec![0u64; agents.len()];
    for e in path.iter() {
        let t = &tasks.iter().find(|(k, _)| *k == e.task).unwrap().1;
        let cost = states[e.agent].distance(&t.from) + t.from.distance(&t.to);
        assert_eq!(e.path.unwrap().3, cost);
        totals[e.agent] += cost;
        states[e.agent] = t.to;
    }
    assert_eq!(*totals.iter().max().unwrap(), root.min_path_time);
}

#[test]
fn no_agents_is_an_error() {
    let (_, tasks) = small_instance();
    let none: Vec<Agent<Coord>> = Vec::new();
    assert_eq!(dfs::schedule(&none, tasks.clone(), no_restriction(), false).err(), Some(ScheduleError::NoAgents));
    assert_eq!(min::schedule(none, tasks).err(), Some(ScheduleError::NoAgents));
}

#[test]
fn no_tasks_costs_nothing() {
    let agents = vec![agent(4, 4)];
    let (path, root) = dfs::schedule(&agents, Vec::new(), no_restriction(), false).unwrap();
    assert!(path.is_empty());
    assert_eq!(root.min_path_time, 0);
    assert_eq!(root.children(), 0);
    let (steps, estimate) = min::schedule(agents, Vec::new()).unwrap();
    assert!(steps.is_empty());
    assert_eq!(estimate, 0);
}

#[test]
fn restriction_vetoing_all_is_infeasible() {
    let (agents, tasks) = small_instance();
    let r = dfs::schedule(&agents, tasks, Some(|_d: u64| true), false);
    assert_eq!(r.err(), Some(ScheduleError::Infeasible));
}

#[test]
fn cost_overflow_is_an_error() {
    let agents = vec![Agent { state: 0u64 }];
    let tasks = vec![
        (0, Task { id: 0, from: 0u64, to: u64::MAX }),
        (1, Task { id: 1, from: 0u64, to: 1u64 }),
    ];
    let r = dfs::schedule(&agents, tasks.clone(), no_restriction(), false);
    assert_eq!(r.err(), Some(ScheduleError::CostOverflow));
    assert_eq!(min::schedule(agents, tasks).err(), Some(ScheduleError::CostOverflow));
}

#[test]
fn greedy_line_instance() {
    let (agents, tasks) = two_task_line();
    let (steps, estimate) = min::schedule(agents, tasks).unwrap();
    assert_eq!(steps, vec![(0, 0), (0, 1)]);
    assert_eq!(estimate, 3);
}

#[test]
fn greedy_rounds_take_cheapest_first() {
    // Round one: agent 0 to task 0 and agent 1 to task 1 both have
    // deadhead 1; agent 0 comes first, then agent 1 takes task 1.
    // Round two: the last task goes to the nearer agent.
    let (agents, tasks) = small_instance();
    let (steps, estimate) = min::schedule(agents, tasks).unwrap();
    assert_eq!(steps.len(), 3);
    assert_eq!(steps[0], (0, 0));
    assert_eq!(steps[1], (1, 1));
    assert_eq!(steps[2].1, 2);
    assert!(estimate > 0);
}

#[test]
fn approx_bound_values() {
    assert_eq!(min::max(3, 7), 169);
    assert_eq!(min::max(1, 0), 1);
    assert_eq!(min::max(0, 0), 0);
    assert_eq!(min::max(2, 2), 4 + 4 * 2 + 2 + 2);
}

#[test]
fn clock_formatting() {
    assert_eq!(scheduling::util::clock(3042), "03:042");
    assert_eq!(scheduling::util::clock(125007), "125:007");
    assert_eq!(scheduling::util::clock(0), "00:000");
}

#[test]
fn line_distance() {
    assert_eq!(3u64.distance(&10u64), 7);
    assert_eq!(10u64.distance(&3u64), 7);
}

#[test]
fn manhattan_distance() {
    assert_eq!(Coord::at(1, 5).distance(&Coord::at(4, 1)), 7);
    assert_eq!(Coord::at(0, 0).distance(&Coord::at(0, 0)), 0);
    assert_eq!(Coord::at(0, u32::MAX).distance(&Coord::at(u32::MAX, 0)), 2 * u32::MAX as u64);
}

#[test]
fn generated_instance_shape() {
    let mut rng = rand::thread_rng();
    let (agents, tasks) = gen(10, &mut rng, 4, 2);
    assert_eq!(agents.len(), 2);
    assert_eq!(tasks.len(), 4);
    for (i, t) in tasks.iter().enumerate() {
        assert_eq!(t.id, i);
        assert!(t.from.x < 10 && t.from.y < 10 && t.to.x < 10 && t.to.y < 10);
    }
}

#[test]
fn elapsed_time_shape() {
    let text = time(Instant::now());
    let colon = text.find(':').unwrap();
    assert!(colon >= 2);
    assert_eq!(text.len(), colon + 4);
    assert!(text.chars().filter(|c| *c != ':').all(|c| c.is_ascii_digit()));
}
