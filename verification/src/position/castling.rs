use crate::colour::Colour;
use crate::square::Square;
use vstd::prelude::*;

verus! {

/// One of the four ways to castle.
#[derive(Debug, Clone, Copy, PartialEq, Eq, Structural)]
pub enum CastlingRight {
    WhiteKing,
    WhiteQueen,
    BlackKing,
    BlackQueen,
}

impl CastlingRight {
    /// The bit that stands for the right in a set of rights.
    pub open spec fn mask(self) -> u8 {
        match self {
            CastlingRight::WhiteKing => 1,
            CastlingRight::WhiteQueen => 2,
            CastlingRight::BlackKing => 4,
            CastlingRight::BlackQueen => 8,
        }
    }

    pub fn bit(&self) -> (r: u8)
        ensures
            r == self.mask(),
    {
        match self {
            CastlingRight::WhiteKing => 1,
            CastlingRight::WhiteQueen => 2,
            CastlingRight::BlackKing => 4,
            CastlingRight::BlackQueen => 8,
        }
    }
}

/// The castling rights still held, as a set of the four bits of `CastlingRight::mask`.
#[derive(Debug, Clone, Copy, PartialEq, Eq, Structural)]
pub struct CastlingRights(u8);

proof fn bv_rights(x: u8, m: u8)
    by (bit_vector)
    requires
        m == 1 || m == 2 || m == 4 || m == 8,
    ensures
        (x | m) & m != 0,
        (x & !m) & m == 0,
        x < 16 ==> (x | m) < 16 && (x & !m) < 16,
{
}

proof fn bv_rights_other(x: u8, m: u8, n: u8)
    by (bit_vector)
    requires
        m == 1 || m == 2 || m == 4 || m == 8,
        n == 1 || n == 2 || n == 4 || n == 8,
        n != m,
    ensures
        ((x | m) & n != 0) == (x & n != 0),
        ((x & !m) & n != 0) == (x & n != 0),
{
}

proof fn bv_rights_ext(x: u8, y: u8)
    by (bit_vector)
    requires
        x < 16,
        y < 16,
        (x & 1 != 0) == (y & 1 != 0),
        (x & 2 != 0) == (y & 2 != 0),
        (x & 4 != 0) == (y & 4 != 0),
        (x & 8 != 0) == (y & 8 != 0),
    ensures
        x == y,
{
}

proof fn bv_rights_const()
    by (bit_vector)
    ensures
        0u8 & 1 == 0 && 0u8 & 2 == 0 && 0u8 & 4 == 0 && 0u8 & 8 == 0,
        15u8 & 1 != 0 && 15u8 & 2 != 0 && 15u8 & 4 != 0 && 15u8 & 8 != 0,
{
}

impl CastlingRights {
    #[verifier::type_invariant]
    spec fn inv(self) -> bool {
        self.0 < 16
    }

    /// Whether the right is held.
    pub closed spec fn holds(self, right: CastlingRight) -> bool {
        self.0 & right.mask() != 0
    }

    /// The rights as a number 0..16 (bit 1 white king side, 2 white queen side,
    /// 4 black king side, 8 black queen side).
    pub closed spec fn code(self) -> int {
        self.0 as int
    }

    /// Rights are equal when they hold the same rights.
    pub proof fn lemma_ext(a: CastlingRights, b: CastlingRights)
        requires
            a.code() < 16,
            b.code() < 16,
            forall|r: CastlingRight| a.holds(r) == b.holds(r),
        ensures
            a == b,
    {
        assert(a.holds(CastlingRight::WhiteKing) == b.holds(CastlingRight::WhiteKing));
        assert(a.holds(CastlingRight::WhiteQueen) == b.holds(CastlingRight::WhiteQueen));
        assert(a.holds(CastlingRight::BlackKing) == b.holds(CastlingRight::BlackKing));
        assert(a.holds(CastlingRight::BlackQueen) == b.holds(CastlingRight::BlackQueen));
        bv_rights_ext(a.0, b.0);
    }

    /// The rights as a number below 16.
    pub fn index(&self) -> (r: usize)
        ensures
            r == self.code(),
            r < 16,
    {
        proof {
            use_type_invariant(self);
        }
        self.0 as usize
    }

    pub fn none() -> (r: CastlingRights)
        ensures
            forall|right: CastlingRight| !r.holds(right),
            r.code() == 0,
    {
        proof {
            bv_rights_const();
        }
        CastlingRights(0)
    }

    /// All four rights.
    pub fn all() -> (r: CastlingRights)
        ensures
            forall|right: CastlingRight| r.holds(right),
            r.code() == 15,
    {
        proof {
            bv_rights_const();
        }
        CastlingRights(15)
    }

    /// The set holding exactly the given rights.
    pub fn from(rights: &[CastlingRight]) -> (r: CastlingRights)
        ensures
            forall|right: CastlingRight| r.holds(right) <==> rights@.contains(right),
    {
        let mut acc = CastlingRights::none();
        let mut i: usize = 0;
        while i < rights.len()
            invariant
                i <= rights.len(),
                forall|right: CastlingRight|
                    acc.holds(right) <==> rights@.subrange(0, i as int).contains(right),
            decreases rights.len() - i,
        {
            acc.add(rights[i]);
            proof {
                let prev = rights@.subrange(0, i as int);
                let next = rights@.subrange(0, i + 1);
                assert(next =~= prev.push(rights@[i as int]));
                assert forall|right: CastlingRight|
                    acc.holds(right) <==> next.contains(right) by {
                    if right == rights@[i as int] {
                        assert(next[i as int] == right);
                    } else {
                        if next.contains(right) {
                            let k = choose|k: int| 0 <= k < next.len() && next[k] == right;
                            assert(prev[k] == right);
                        }
                        if prev.contains(right) {
                            let k = choose|k: int| 0 <= k < prev.len() && prev[k] == right;
                            assert(next[k] == right);
                        }
                    }
                }
            }
            i = i + 1;
        }
        proof {
            assert(rights@.subrange(0, i as int) =~= rights@);
        }
        acc
    }

    pub fn has(&self, right: CastlingRight) -> (r: bool)
        ensures
            r == self.holds(right),
    {
        self.0 & right.bit() != 0
    }

    pub fn add(&mut self, right: CastlingRight)
        ensures
            final(self).holds(right),
            forall|other: CastlingRight|
                other != right ==> #[trigger] final(self).holds(other) == old(self).holds(other),
    {
        proof {
            use_type_invariant(&*self);
            bv_rights(self.0, right.mask());
            let x = self.0;
            assert forall|other: CastlingRight| other != right implies ((x | right.mask()) & other.mask() != 0) == (x & other.mask() != 0) && ((x & !right.mask()) & other.mask() != 0) == (x & other.mask() != 0) by {
                bv_rights_other(x, right.mask(), other.mask());
            }
        }
        self.0 = self.0 | right.bit();
    }

    /// Gives up one right.
    pub fn remove(&mut self, right: CastlingRight)
        ensures
            !final(self).holds(right),
            forall|other: CastlingRight|
                other != right ==> #[trigger] final(self).holds(other) == old(self).holds(other),
    {
        proof {
            use_type_invariant(&*self);
            bv_rights(self.0, right.mask());
            let x = self.0;
            assert forall|other: CastlingRight| other != right implies ((x | right.mask()) & other.mask() != 0) == (x & other.mask() != 0) && ((x & !right.mask()) & other.mask() != 0) == (x & other.mask() != 0) by {
                bv_rights_other(x, right.mask(), other.mask());
            }
        }
        self.0 = self.0 & !right.bit();
    }

    /// Gives up both rights of a colour.
    pub fn remove_for_colour(&mut self, colour: Colour)
        ensures
            forall|right: CastlingRight|
                #[trigger] final(self).holds(right) == (old(self).holds(right) && right_colour(
                    right,
                ) != colour),
    {
        match colour {
            Colour::White => {
                self.remove(CastlingRight::WhiteKing);
                self.remove(CastlingRight::WhiteQueen);
            },
            _ => {
                self.remove(CastlingRight::BlackKing);
                self.remove(CastlingRight::BlackQueen);
            },
        };
    }

    /// Gives up the right that depends on the rook of a corner square.
    pub fn remove_for_square(&mut self, square: Square)
        requires
            square.idx() == 0 || square.idx() == 7 || square.idx() == 56 || square.idx() == 63,
        ensures
            forall|right: CastlingRight|
                #[trigger] final(self).holds(right) == (old(self).holds(right) && rook_square(
                    right,
                ) != square.idx()),
    {
        let i = square.index();
        self.remove(
            if i == 0 {
                CastlingRight::WhiteQueen
            } else if i == 7 {
                CastlingRight::WhiteKing
            } else if i == 56 {
                CastlingRight::BlackQueen
            } else {
                CastlingRight::BlackKing
            },
        );
    }
}

/// The colour a castling right belongs to.
pub open spec fn right_colour(right: CastlingRight) -> Colour {
    match right {
        CastlingRight::WhiteKing | CastlingRight::WhiteQueen => Colour::White,
        _ => Colour::Black,
    }
}

/// The corner square whose rook takes part in castling with the right.
pub open spec fn rook_square(right: CastlingRight) -> int {
    match right {
        CastlingRight::WhiteKing => 7,
        CastlingRight::WhiteQueen => 0,
        CastlingRight::BlackKing => 63,
        CastlingRight::BlackQueen => 56,
    }
}

} // verus!
