use crate::collections::{move_items, MoveList};
use crate::eval::{EVAL_MATE, MAX_DEPTH};
use crate::movegen::moves::Move;
use std::time::{Duration, Instant};
use vstd::prelude::*;

verus! {

/// A point in time, from the standard library.
#[verifier::external_type_specification]
#[verifier::external_body]
pub struct ExInstant(Instant);

/// `Instant::now`: the current time. Nothing is claimed of it.
pub assume_specification[ Instant::now ]() -> Instant;

/// `Instant::elapsed`: the time gone by since the instant. Nothing is claimed of it.
pub assume_specification[ Instant::elapsed ](instant: &Instant) -> Duration;

/// `Duration::as_nanos`: the whole nanoseconds of the duration. Nothing is claimed of it.
pub assume_specification[ Duration::as_nanos ](duration: &Duration) -> u128;

/// Evaluations from this one up to a mate stand for a mate found in the search.
pub const EVAL_CHECKMATE_THRESHOLD: i32 = EVAL_MATE - 255;

/// What a search has found so far: the depth completed, the nodes visited, the principal
/// variation with its evaluation, and how full the transposition table is.
pub struct Report {
    pub depth: u8,
    pub nodes: u128,
    pub pv: Option<(MoveList, i32)>,
    pub tt_usage: usize,
    pub started_at: Instant,
}

/// The number of moves to the mate an evaluation stands for, if it stands for one.
pub open spec fn mate_distance(eval: int) -> Option<int> {
    let size = if eval < 0 {
        -eval
    } else {
        eval
    };
    if size < EVAL_CHECKMATE_THRESHOLD || size > EVAL_MATE {
        None
    } else {
        Some(EVAL_MATE - size)
    }
}

impl Report {
    /// An empty report, started now.
    pub fn new() -> (r: Report)
        ensures
            r.depth == 0,
            r.nodes == 0,
            r.pv is None,
            r.tt_usage == 0,
    {
        Report { depth: 0, nodes: 0, pv: None, tt_usage: 0, started_at: Instant::now() }
    }

    /// The nanoseconds since the report was started.
    pub fn elapsed(&self) -> u128 {
        let gone = self.started_at.elapsed();
        gone.as_nanos()
    }

    /// Counts a node, up to the largest count there is.
    pub fn count_node(&mut self)
        ensures
            final(self).nodes == if old(self).nodes < u128::MAX {
                old(self).nodes + 1
            } else {
                old(self).nodes as int
            },
            final(self).depth == old(self).depth,
            final(self).pv == old(self).pv,
            final(self).tt_usage == old(self).tt_usage,
    {
        if self.nodes < u128::MAX {
            self.nodes = self.nodes + 1;
        }
    }

    /// The evaluation of the principal variation, if there is one.
    pub open spec fn pv_eval(self) -> Option<i32> {
        match self.pv {
            Some((_, e)) => Some(e),
            None => None::<i32>,
        }
    }

    /// The evaluation of the principal variation, if there is one.
    pub fn eval(&self) -> (r: Option<i32>)
        ensures
            r == self.pv_eval(),
    {
        match &self.pv {
            Some((_, e)) => Some(*e),
            None => None,
        }
    }

    /// The first move of the principal variation, if there is one.
    pub fn best_move(&self) -> (r: Option<Move>)
        ensures
            r == match self.pv {
                Some((moves, _)) => if move_items(moves).len() > 0 {
                    Some(move_items(moves)[0])
                } else {
                    None::<Move>
                },
                None => None::<Move>,
            },
    {
        match &self.pv {
            Some((moves, _)) => if moves.len() > 0 {
                Some(moves.get(0))
            } else {
                None
            },
            None => None,
        }
    }

    /// The number of moves to the mate the evaluation of the principal variation stands
    /// for, if it stands for one.
    pub fn moves_until_mate(&self) -> (r: Option<u8>)
        ensures
            r == match self.pv {
                Some((_, e)) => match mate_distance(e as int) {
                    Some(d) => Some(d as u8),
                    None => None::<u8>,
                },
                None => None::<u8>,
            },
            r matches Some(d) ==> d <= MAX_DEPTH,
    {
        let eval = match &self.pv {
            Some((_, e)) => *e,
            None => {
                return None;
            },
        };
        let size: i32 = if eval < 0 {
            if eval == i32::MIN {
                return None;
            }
            -eval
        } else {
            eval
        };
        if size < EVAL_CHECKMATE_THRESHOLD || size > EVAL_MATE {
            return None;
        }
        Some((EVAL_MATE - size) as u8)
    }
}

/// Receives the reports of a search as it goes deeper.
pub trait Reporter {
    fn send(&self, report: &Report);
}

} // verus!
