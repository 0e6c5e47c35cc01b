use vstd::prelude::*;

verus! {

/// Nanoseconds in a millisecond.
pub const NANOS_PER_MILLI: u64 = 1_000_000;

/// How long a search may take, in nanoseconds: a soft limit after which no new iteration
/// starts and a hard one at which the search stops, or a fixed time.
#[derive(Debug, Clone, Copy, PartialEq, Eq, Structural)]
pub enum TimeLimit {
    Dynamic { soft: u64, hard: u64 },
    Fixed(u64),
}

/// The smaller of two numbers.
pub open spec fn min_nat(a: int, b: int) -> int {
    if a < b {
        a
    } else {
        b
    }
}

/// The larger of two numbers.
pub open spec fn max_nat(a: int, b: int) -> int {
    if a < b {
        b
    } else {
        a
    }
}

/// The limits for the time left and the increment per move: a reserve of a twentieth of
/// the time left, at least 50 ms, is kept; the soft limit is a thirtieth of the time left
/// and three quarters of the increment; the hard limit is three times the soft one; both
/// at most the time left less the reserve. With less than a whole millisecond left, the
/// limit is the time left, fixed.
pub open spec fn dynamic_limit(time_left: int, time_inc: int) -> TimeLimit {
    if time_left < NANOS_PER_MILLI {
        TimeLimit::Fixed(time_left as u64)
    } else {
        let reserve = max_nat(time_left / 20, 50 * NANOS_PER_MILLI);
        let max_time = if time_left > reserve {
            time_left - reserve
        } else {
            0
        };
        let soft = min_nat(time_left / 30 + time_inc * 3 / 4, max_time);
        let hard = min_nat(soft * 3, max_time);
        TimeLimit::Dynamic { soft: soft as u64, hard: hard as u64 }
    }
}

impl TimeLimit {
    /// A fixed time.
    pub fn fixed(duration: u64) -> (r: TimeLimit)
        ensures
            r == TimeLimit::Fixed(duration),
    {
        TimeLimit::Fixed(duration)
    }

    /// The limits for the time left and the increment per move (see `dynamic_limit`).
    pub fn dynamic(time_left: u64, time_inc: Option<u64>) -> (r: TimeLimit)
        requires
            time_left <= u64::MAX / 3,
            time_inc matches Some(inc) ==> inc <= u64::MAX / 3,
        ensures
            r == dynamic_limit(
                time_left as int,
                match time_inc {
                    Some(inc) => inc as int,
                    None => 0,
                },
            ),
    {
        if time_left < NANOS_PER_MILLI {
            return TimeLimit::Fixed(time_left);
        }
        let twentieth = time_left / 20;
        let reserve = if twentieth > 50 * NANOS_PER_MILLI {
            twentieth
        } else {
            50 * NANOS_PER_MILLI
        };
        let max_time = if time_left > reserve {
            time_left - reserve
        } else {
            0
        };
        let inc = match time_inc {
            Some(inc) => inc,
            None => 0,
        };
        let share = time_left / 30 + inc * 3 / 4;
        let soft = if share < max_time {
            share
        } else {
            max_time
        };
        let hard = if soft * 3 < max_time {
            soft * 3
        } else {
            max_time
        };
        TimeLimit::Dynamic { soft, hard }
    }

    /// The time at which the search stops.
    pub fn hard(&self) -> (r: u64)
        ensures
            r == match *self {
                TimeLimit::Dynamic { hard, .. } => hard,
                TimeLimit::Fixed(duration) => duration,
            },
    {
        match self {
            TimeLimit::Dynamic { hard, .. } => *hard,
            TimeLimit::Fixed(duration) => *duration,
        }
    }
}

/// A dynamic limit never stops the search before its soft limit: the hard limit is at
/// least the soft one.
pub proof fn lemma_hard_not_below_soft(time_left: int, time_inc: int)
    requires
        0 <= time_left <= u64::MAX / 3,
        0 <= time_inc <= u64::MAX / 3,
    ensures
        dynamic_limit(time_left, time_inc) matches TimeLimit::Dynamic { soft, hard } ==> soft
            <= hard,
{
}

} // verus!
