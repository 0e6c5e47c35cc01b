pub mod alphabeta;
pub mod history;
pub mod iterate;
pub mod killers;
pub mod movepicker;
pub mod pv;
pub mod quiescence;
pub mod report;
pub mod shallow;
pub mod stopper;
pub mod time;
pub mod tt;

use vstd::prelude::*;

verus! {

/// The range the search keeps its evaluations and bounds in.
pub const SCORE_LIMIT: i32 = 1_000_000;

} // verus!
