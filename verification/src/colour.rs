use vstd::prelude::*;

verus! {

/// The side a piece belongs to, or the side to move.
#[derive(Debug, Clone, Copy, PartialEq, Eq, Structural)]
pub enum Colour {
    White,
    Black,
}

impl Colour {
    /// The opposing colour.
    pub open spec fn opposite(self) -> Colour {
        match self {
            Colour::White => Colour::Black,
            Colour::Black => Colour::White,
        }
    }

    /// Position of the colour in tables that are indexed by colour.
    pub open spec fn idx(self) -> int {
        match self {
            Colour::White => 0,
            Colour::Black => 1,
        }
    }

    pub fn flip(&self) -> (r: Colour)
        ensures
            r == self.opposite(),
    {
        match self {
            Colour::White => Colour::Black,
            _ => Colour::White,
        }
    }

    pub fn index(&self) -> (r: usize)
        ensures
            r == self.idx(),
    {
        match self {
            Colour::White => 0,
            Colour::Black => 1,
        }
    }
}

/// Flipping twice gives the colour back.
pub proof fn lemma_flip_involutive(c: Colour)
    ensures
        c.opposite().opposite() == c,
        c.opposite() != c,
{
}

} // verus!
