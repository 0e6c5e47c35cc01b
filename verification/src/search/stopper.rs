use super::report::Report;
use super::time::TimeLimit;
use std::sync::atomic::{AtomicBool, Ordering};
use vstd::prelude::*;

verus! {

/// Node counts at which the limits are looked at: every 256th node.
pub const STOPPER_NODES_MASK: u128 = 255;

/// When a search stops: at a depth, after a time, at an evaluation of this size or more,
/// after a number of nodes, or when a signal is raised.
pub struct Stopper<'a> {
    pub depth: Option<u8>,
    pub time: Option<TimeLimit>,
    pub eval: Option<i32>,
    pub nodes: Option<u128>,
    pub signal: Option<&'a AtomicBool>,
}

/// The hard limit of a time limit.
pub open spec fn hard_limit(t: TimeLimit) -> int {
    match t {
        TimeLimit::Dynamic { soft, hard } => hard as int,
        TimeLimit::Fixed(d) => d as int,
    }
}

/// The size of an evaluation.
pub open spec fn eval_size(e: int) -> int {
    if e < 0 {
        -e
    } else {
        e
    }
}

/// Whether a search stops, given its node count, whether the signal is raised, the
/// nanoseconds gone by and the evaluation found so far: only at every 256th node, when
/// the signal is raised, the hard time limit is passed, the evaluation is at least as
/// large as the limit, or the nodes are more than the limit.
pub open spec fn stop_decision(
    limits: (Option<TimeLimit>, Option<i32>, Option<u128>, bool),
    nodes: u128,
    signalled: bool,
    elapsed: u128,
    eval: Option<i32>,
) -> bool {
    let (time, eval_limit, node_limit, has_signal) = limits;
    &&& nodes % 256 == 0
    &&& {
        ||| has_signal && signalled
        ||| time matches Some(t) && elapsed > hard_limit(t)
        ||| eval_limit matches Some(e) && eval_size(
            match eval {
                Some(v) => v as int,
                None => 0,
            },
        ) >= e
        ||| node_limit matches Some(n) && nodes > n
    }
}

proof fn bv_mask(n: u128)
    by (bit_vector)
    ensures
        (n & 255u128 == 0) == (n % 256 == 0),
{
}

impl<'a> Stopper<'a> {
    /// The limits the decision reads.
    pub open spec fn limits(self) -> (Option<TimeLimit>, Option<i32>, Option<u128>, bool) {
        (self.time, self.eval, self.nodes, self.signal is Some)
    }

    /// No limit stops the search: no time, evaluation or node limit and no signal.
    pub open spec fn unlimited(self) -> bool {
        &&& self.time is None
        &&& self.eval is None
        &&& self.nodes is None
        &&& self.signal is None
    }

    /// No limit at all.
    pub fn new() -> (r: Stopper<'a>)
        ensures
            r.depth is None,
            r.time is None,
            r.eval is None,
            r.nodes is None,
            r.signal is None,
            r.unlimited(),
    {
        Stopper { depth: None, time: None, eval: None, nodes: None, signal: None }
    }

    /// Sets the depth limit.
    pub fn at_depth(&mut self, depth: Option<u8>)
        ensures
            *final(self) == (Stopper { depth, ..*old(self) }),
    {
        self.depth = depth;
    }

    /// Sets the time limit.
    pub fn at_time(&mut self, time: Option<TimeLimit>)
        ensures
            *final(self) == (Stopper { time, ..*old(self) }),
    {
        self.time = time;
    }

    /// Sets the evaluation limit.
    pub fn at_eval(&mut self, eval: Option<i32>)
        ensures
            *final(self) == (Stopper { eval, ..*old(self) }),
    {
        self.eval = eval;
    }

    /// Sets the node limit.
    pub fn at_nodes(&mut self, nodes: Option<u128>)
        ensures
            *final(self) == (Stopper { nodes, ..*old(self) }),
    {
        self.nodes = nodes;
    }

    /// Sets the signal that stops the search when raised.
    pub fn at_signal(&mut self, signal: &'a AtomicBool)
        ensures
            *final(self) == (Stopper { signal: Some(signal), ..*old(self) }),
    {
        self.signal = Some(signal);
    }

    /// The decision of `stop_decision` on values read beforehand.
    pub fn decide(&self, nodes: u128, signalled: bool, elapsed: u128, eval: Option<i32>) -> (r: bool)
        ensures
            r == stop_decision(self.limits(), nodes, signalled, elapsed, eval),
    {
        proof {
            bv_mask(nodes);
        }
        if nodes & STOPPER_NODES_MASK != 0 {
            return false;
        }
        if self.signal.is_some() && signalled {
            return true;
        }
        if let Some(time) = &self.time {
            let hard: u64 = match time {
                TimeLimit::Dynamic { soft, hard } => *hard,
                TimeLimit::Fixed(d) => *d,
            };
            if elapsed > hard as u128 {
                return true;
            }
        }
        if let Some(limit) = self.eval {
            let v: i32 = match eval {
                Some(v) => v,
                None => 0,
            };
            let size: i64 = if v < 0 {
                -(v as i64)
            } else {
                v as i64
            };
            if size >= limit as i64 {
                return true;
            }
        }
        if let Some(limit) = self.nodes {
            if nodes > limit {
                return true;
            }
        }
        false
    }

    /// Whether the search stops now: `decide` on the report's node count and evaluation,
    /// whether the signal is raised, read with `AtomicBool::load`, and the time gone by,
    /// read from the clock. The signal and the clock are read only at every 256th node.
    pub fn should_stop(&self, report: &Report) -> (r: bool)
        ensures
            exists|signalled: bool, elapsed: u128|
                r == stop_decision(self.limits(), report.nodes, signalled, elapsed, report.pv_eval()),
            self.unlimited() ==> !r,
    {
        proof {
            bv_mask(report.nodes);
        }
        if report.nodes & STOPPER_NODES_MASK != 0 {
            proof {
                assert(!stop_decision(self.limits(), report.nodes, false, 0, report.pv_eval()));
            }
            return false;
        }
        let signalled = match self.signal {
            Some(flag) => flag.load(Ordering::Relaxed),
            None => false,
        };
        let elapsed = report.elapsed();
        let eval = report.eval();
        self.decide(report.nodes, signalled, elapsed, eval)
    }
}

} // verus!
