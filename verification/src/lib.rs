use vstd::prelude::*;

pub mod board;
pub mod driver;
pub mod solver;
pub mod table;

pub use board::Board;
pub use driver::{aggregate_scores, enumerate_tasks, verdict_of, Verdict};
pub use solver::Solver;
pub use table::MemoTable;

verus! {

} // verus!
