pub mod king;
pub mod mobility;
pub mod rooks;

use vstd::prelude::*;

verus! {

/// An evaluation term: a middle-game value and an end-game value, mixed by the phase of
/// the game.
#[derive(Debug, Clone, Copy)]
pub struct EvalTerm(i32, i32);

/// Largest size of a term's values that adding and subtracting terms keeps within `i32`.
pub open spec fn term_bound() -> int {
    0x1000_0000
}

impl EvalTerm {
    /// The middle-game value.
    pub closed spec fn mg_value(self) -> int {
        self.0 as int
    }

    /// The end-game value.
    pub closed spec fn eg_value(self) -> int {
        self.1 as int
    }

    pub fn new(mg: i32, eg: i32) -> (r: EvalTerm)
        ensures
            r.mg_value() == mg,
            r.eg_value() == eg,
    {
        EvalTerm(mg, eg)
    }

    pub fn zero() -> (r: EvalTerm)
        ensures
            r.mg_value() == 0,
            r.eg_value() == 0,
    {
        EvalTerm(0, 0)
    }

    /// The same value in both phases.
    pub fn unphased(eval: i32) -> (r: EvalTerm)
        ensures
            r.mg_value() == eval,
            r.eg_value() == eval,
    {
        EvalTerm(eval, eval)
    }

    pub fn mg(self) -> (r: i32)
        ensures
            r == self.mg_value(),
    {
        self.0
    }

    pub fn eg(self) -> (r: i32)
        ensures
            r == self.eg_value(),
    {
        self.1
    }

    /// The sum of two terms, phase by phase.
    pub fn plus(self, rhs: EvalTerm) -> (r: EvalTerm)
        requires
            -term_bound() <= self.mg_value() + rhs.mg_value() <= term_bound(),
            -term_bound() <= self.eg_value() + rhs.eg_value() <= term_bound(),
        ensures
            r.mg_value() == self.mg_value() + rhs.mg_value(),
            r.eg_value() == self.eg_value() + rhs.eg_value(),
    {
        EvalTerm(self.0 + rhs.0, self.1 + rhs.1)
    }

    /// The difference of two terms, phase by phase.
    pub fn minus(self, rhs: EvalTerm) -> (r: EvalTerm)
        requires
            -term_bound() <= self.mg_value() - rhs.mg_value() <= term_bound(),
            -term_bound() <= self.eg_value() - rhs.eg_value() <= term_bound(),
        ensures
            r.mg_value() == self.mg_value() - rhs.mg_value(),
            r.eg_value() == self.eg_value() - rhs.eg_value(),
    {
        EvalTerm(self.0 - rhs.0, self.1 - rhs.1)
    }
}

} // verus!
