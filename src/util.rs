//! Grid points with the Manhattan distance, random instances, and clock
//! text for timings.
use vstd::prelude::*;

use crate::entity::{Agent, Distance, Task};

verus! {

#[verifier::external_type_specification]
#[verifier::external_body]
pub struct ExThreadRng(rand::rngs::ThreadRng);

#[verifier::external_type_specification]
#[verifier::external_body]
pub struct ExInstant(std::time::Instant);

/// Relies on rand's `Rng::gen_range` on `0..size`: a value below `size`
/// (the range must not be empty).
#[verifier::external_body]
fn sample_below(size: u32, rng: &mut rand::rngs::ThreadRng) -> (r: u32)
    requires
        size > 0,
    ensures
        r < size,
{
    rand::Rng::gen_range(rng, 0..size)
}

/// Relies on std's `Instant::elapsed`: the time since `instant`. The value
/// depends on the clock.
#[verifier::external_body]
fn elapsed(instant: &std::time::Instant) -> std::time::Duration {
    instant.elapsed()
}

/// Relies on std's `Duration::as_millis`: the whole milliseconds of `d`.
#[verifier::external_body]
fn whole_millis(d: &std::time::Duration) -> u128 {
    d.as_millis()
}

/// The decimal digits of `n`, most significant first.
pub open spec fn decimal(n: nat) -> Seq<char>
    decreases n,
{
    let digits = seq!['0', '1', '2', '3', '4', '5', '6', '7', '8', '9'];
    if n < 10 {
        seq![digits[n as int]]
    } else {
        decimal(n / 10).push(digits[(n % 10) as int])
    }
}

/// `s` with zeros in front up to `width` characters.
pub open spec fn zero_padded(s: Seq<char>, width: nat) -> Seq<char> {
    if s.len() >= width {
        s
    } else {
        Seq::new((width - s.len()) as nat, |i: int| '0') + s
    }
}

/// Seconds padded to two digits, a colon, milliseconds padded to three.
pub open spec fn clock_text(secs: nat, millis: nat) -> Seq<char> {
    zero_padded(decimal(secs), 2) + seq![':'] + zero_padded(decimal(millis), 3)
}

/// A duration of `ms` milliseconds as `SS:mmm`.
pub open spec fn clock_of(ms: nat) -> Seq<char> {
    clock_text(ms / 1000, ms % 1000)
}

/// Relies on std's `format!` with `{:02}` on unsigned integers: decimal
/// digits, zero-padded to the width.
#[verifier::external_body]
fn format_clock(secs: u128, millis: u128) -> (r: String)
    ensures
        r@ == clock_text(secs as nat, millis as nat),
{
    format!("{:02}:{:03}", secs, millis)
}

/// A duration of `millis` milliseconds as `SS:mmm`.
pub fn clock(millis: u128) -> (r: String)
    ensures
        r@ == clock_of(millis as nat),
{
    format_clock(millis / 1000, millis % 1000)
}

/// The time elapsed since `instant` as `SS:mmm`.
pub fn time(instant: std::time::Instant) -> (r: String)
    ensures
        exists|ms: nat| r@ == #[trigger] clock_of(ms),
{
    let ms = whole_millis(&elapsed(&instant));
    let r = clock(ms);
    assert(r@ == clock_of(ms as nat));
    r
}

/// A point of the integer grid.
#[derive(Debug, Clone, Copy, PartialEq, Eq, Structural)]
pub struct Coord {
    pub x: u32,
    pub y: u32,
}

impl Coord {
    /// A point with both coordinates drawn uniformly from `0..size`.
    pub fn new(size: u32, rng: &mut rand::rngs::ThreadRng) -> (r: Coord)
        requires
            size > 0,
        ensures
            r.x < size,
            r.y < size,
    {
        let x = sample_below(size, rng);
        let y = sample_below(size, rng);
        Coord { x, y }
    }

    /// The point `(x, y)`.
    pub fn at(x: u32, y: u32) -> (r: Coord)
        ensures
            r.x == x,
            r.y == y,
    {
        Coord { x, y }
    }
}

/// `|a - b|`.
pub open spec fn gap(a: u32, b: u32) -> nat {
    if a >= b {
        (a - b) as nat
    } else {
        (b - a) as nat
    }
}

/// Manhattan distance.
impl Distance for Coord {
    open spec fn dist(self, other: Self) -> nat {
        gap(self.x, other.x) + gap(self.y, other.y)
    }

    fn distance(&self, other: &Self) -> (r: u64) {
        let dx: u64 = if self.x >= other.x {
            (self.x - other.x) as u64
        } else {
            (other.x - self.x) as u64
        };
        let dy: u64 = if self.y >= other.y {
            (self.y - other.y) as u64
        } else {
            (other.y - self.y) as u64
        };
        dx + dy
    }
}

/// Points on a line: the distance is the absolute difference.
impl Distance for u64 {
    open spec fn dist(self, other: Self) -> nat {
        if self >= other {
            (self - other) as nat
        } else {
            (other - self) as nat
        }
    }

    fn distance(&self, other: &Self) -> (r: u64) {
        if *self >= *other {
            *self - *other
        } else {
            *other - *self
        }
    }
}

/// `num_of_agents` agents and `num_of_tasks` tasks at points drawn
/// uniformly from the `size` by `size` grid; task `i` has id `i`.
pub fn gen(
    size: u32,
    rng: &mut rand::rngs::ThreadRng,
    num_of_tasks: u16,
    num_of_agents: u16,
) -> (r: (Vec<Agent<Coord>>, Vec<Task<Coord>>))
    requires
        size > 0,
    ensures
        r.0@.len() == num_of_agents,
        r.1@.len() == num_of_tasks,
        forall|i: int| 0 <= i < num_of_tasks ==> #[trigger] r.1@[i].id == i,
        forall|i: int|
            0 <= i < num_of_agents ==> (#[trigger] r.0@[i]).state.x < size && r.0@[i].state.y
                < size,
        forall|i: int|
            0 <= i < num_of_tasks ==> (#[trigger] r.1@[i]).from.x < size && r.1@[i].from.y < size
                && r.1@[i].to.x < size && r.1@[i].to.y < size,
{
    let mut agents: Vec<Agent<Coord>> = Vec::new();
    let mut i: u16 = 0;
    while i < num_of_agents
        invariant
            i <= num_of_agents,
            size > 0,
            agents@.len() == i,
            forall|k: int|
                0 <= k < i ==> (#[trigger] agents@[k]).state.x < size && agents@[k].state.y < size,
        decreases num_of_agents - i,
    {
        agents.push(Agent { state: Coord::new(size, rng) });
        i = i + 1;
    }
    let mut tasks: Vec<Task<Coord>> = Vec::new();
    let mut j: u16 = 0;
    while j < num_of_tasks
        invariant
            j <= num_of_tasks,
            size > 0,
            tasks@.len() == j,
            forall|k: int| 0 <= k < j ==> #[trigger] tasks@[k].id == k,
            forall|k: int|
                0 <= k < j ==> (#[trigger] tasks@[k]).from.x < size && tasks@[k].from.y < size
                    && tasks@[k].to.x < size && tasks@[k].to.y < size,
        decreases num_of_tasks - j,
    {
        let from = Coord::new(size, rng);
        let to = Coord::new(size, rng);
        tasks.push(Task { id: j as usize, from, to });
        j = j + 1;
    }
    (agents, tasks)
}

} // verus!
