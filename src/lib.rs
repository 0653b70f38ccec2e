//! Assignment of tasks to mobile agents so as to minimise the makespan:
//! an exhaustive decision-tree search (`dfs`) and a round-based greedy
//! heuristic (`min`), over any state type with a distance.
pub mod entity;
pub mod dfs;
pub mod min;
pub mod laws;
pub mod util;

pub use crate::entity::{Agent, Distance, Task};
pub use crate::util::{gen, time, Coord};

