use crate::colour::Colour;
use vstd::prelude::*;

verus! {

/// A chess piece: its colour and its kind.
#[derive(Debug, Clone, Copy, PartialEq, Eq, Structural)]
pub enum Piece {
    WP,
    WN,
    WB,
    WR,
    WQ,
    WK,
    BP,
    BN,
    BB,
    BR,
    BQ,
    BK,
}

/// The kind of a piece, without its colour, as a number:
/// pawn 0, knight 1, bishop 2, rook 3, queen 4, king 5.
pub open spec fn kind_of(p: Piece) -> int {
    p.idx() % 6
}

impl Piece {
    /// Position of the piece in tables indexed by piece (white pawn 0 .. black king 11).
    pub open spec fn idx(self) -> int {
        match self {
            Piece::WP => 0,
            Piece::WN => 1,
            Piece::WB => 2,
            Piece::WR => 3,
            Piece::WQ => 4,
            Piece::WK => 5,
            Piece::BP => 6,
            Piece::BN => 7,
            Piece::BB => 8,
            Piece::BR => 9,
            Piece::BQ => 10,
            Piece::BK => 11,
        }
    }

    /// The piece with the given table position.
    pub open spec fn from_idx(i: int) -> Piece {
        if i == 0 {
            Piece::WP
        } else if i == 1 {
            Piece::WN
        } else if i == 2 {
            Piece::WB
        } else if i == 3 {
            Piece::WR
        } else if i == 4 {
            Piece::WQ
        } else if i == 5 {
            Piece::WK
        } else if i == 6 {
            Piece::BP
        } else if i == 7 {
            Piece::BN
        } else if i == 8 {
            Piece::BB
        } else if i == 9 {
            Piece::BR
        } else if i == 10 {
            Piece::BQ
        } else {
            Piece::BK
        }
    }

    /// The piece of the given colour and kind (kind as in `kind_of`).
    pub open spec fn of(colour: Colour, kind: int) -> Piece {
        Piece::from_idx(colour.idx() * 6 + kind)
    }

    pub open spec fn colour_of(self) -> Colour {
        if self.idx() < 6 {
            Colour::White
        } else {
            Colour::Black
        }
    }

    pub fn pawn(colour: Colour) -> (r: Piece)
        ensures
            r == Piece::of(colour, 0),
    {
        match colour {
            Colour::White => Piece::WP,
            Colour::Black => Piece::BP,
        }
    }

    pub fn knight(colour: Colour) -> (r: Piece)
        ensures
            r == Piece::of(colour, 1),
    {
        match colour {
            Colour::White => Piece::WN,
            Colour::Black => Piece::BN,
        }
    }

    pub fn bishop(colour: Colour) -> (r: Piece)
        ensures
            r == Piece::of(colour, 2),
    {
        match colour {
            Colour::White => Piece::WB,
            Colour::Black => Piece::BB,
        }
    }

    pub fn rook(colour: Colour) -> (r: Piece)
        ensures
            r == Piece::of(colour, 3),
    {
        match colour {
            Colour::White => Piece::WR,
            Colour::Black => Piece::BR,
        }
    }

    pub fn queen(colour: Colour) -> (r: Piece)
        ensures
            r == Piece::of(colour, 4),
    {
        match colour {
            Colour::White => Piece::WQ,
            Colour::Black => Piece::BQ,
        }
    }

    pub fn king(colour: Colour) -> (r: Piece)
        ensures
            r == Piece::of(colour, 5),
    {
        match colour {
            Colour::White => Piece::WK,
            Colour::Black => Piece::BK,
        }
    }

    /// All twelve pieces, white pawn first and black king last.
    pub fn pieces() -> (r: [Piece; 12])
        ensures
            forall|i: int| 0 <= i < 12 ==> #[trigger] r@[i] == Piece::from_idx(i),
    {
        [
            Piece::WP,
            Piece::WN,
            Piece::WB,
            Piece::WR,
            Piece::WQ,
            Piece::WK,
            Piece::BP,
            Piece::BN,
            Piece::BB,
            Piece::BR,
            Piece::BQ,
            Piece::BK,
        ]
    }

    /// The six pieces of a colour, pawn first and king last.
    pub fn pieces_by_colour(colour: Colour) -> (r: [Piece; 6])
        ensures
            forall|i: int| 0 <= i < 6 ==> #[trigger] r@[i] == Piece::of(colour, i),
    {
        match colour {
            Colour::White => [Piece::WP, Piece::WN, Piece::WB, Piece::WR, Piece::WQ, Piece::WK],
            Colour::Black => [Piece::BP, Piece::BN, Piece::BB, Piece::BR, Piece::BQ, Piece::BK],
        }
    }

    /// The pieces a pawn of the colour may promote to: knight, bishop, rook, queen.
    pub fn promotions(colour: Colour) -> (r: [Piece; 4])
        ensures
            forall|i: int| 0 <= i < 4 ==> #[trigger] r@[i] == Piece::of(colour, i + 1),
    {
        match colour {
            Colour::White => [Piece::WN, Piece::WB, Piece::WR, Piece::WQ],
            Colour::Black => [Piece::BN, Piece::BB, Piece::BR, Piece::BQ],
        }
    }

    pub fn is_pawn(&self) -> (r: bool)
        ensures
            r == (kind_of(*self) == 0),
    {
        matches!(self, Piece::WP | Piece::BP)
    }

    pub fn is_king(&self) -> (r: bool)
        ensures
            r == (kind_of(*self) == 5),
    {
        matches!(self, Piece::WK | Piece::BK)
    }

    pub fn colour(&self) -> (r: Colour)
        ensures
            r == self.colour_of(),
    {
        match self {
            Piece::WP | Piece::WN | Piece::WB | Piece::WR | Piece::WQ | Piece::WK => Colour::White,
            _ => Colour::Black,
        }
    }

    /// Position of the piece in tables indexed by piece.
    pub fn index(&self) -> (r: usize)
        ensures
            r == self.idx(),
            r < 12,
    {
        match self {
            Piece::WP => 0,
            Piece::WN => 1,
            Piece::WB => 2,
            Piece::WR => 3,
            Piece::WQ => 4,
            Piece::WK => 5,
            Piece::BP => 6,
            Piece::BN => 7,
            Piece::BB => 8,
            Piece::BR => 9,
            Piece::BQ => 10,
            Piece::BK => 11,
        }
    }

    /// The letter of the piece in FEN: upper case for white, lower case for black.
    pub fn symbol(&self) -> (r: char)
        ensures
            r == piece_symbol(*self),
    {
        match self {
            Piece::WP => 'P',
            Piece::WN => 'N',
            Piece::WB => 'B',
            Piece::WR => 'R',
            Piece::WQ => 'Q',
            Piece::WK => 'K',
            Piece::BP => 'p',
            Piece::BN => 'n',
            Piece::BB => 'b',
            Piece::BR => 'r',
            Piece::BQ => 'q',
            Piece::BK => 'k',
        }
    }
}

/// The FEN letter of a piece.
pub open spec fn piece_symbol(p: Piece) -> char {
    match p {
        Piece::WP => 'P',
        Piece::WN => 'N',
        Piece::WB => 'B',
        Piece::WR => 'R',
        Piece::WQ => 'Q',
        Piece::WK => 'K',
        Piece::BP => 'p',
        Piece::BN => 'n',
        Piece::BB => 'b',
        Piece::BR => 'r',
        Piece::BQ => 'q',
        Piece::BK => 'k',
    }
}

/// Every piece is the piece of its colour and kind, and the table position round-trips.
pub proof fn lemma_piece_of_colour_and_kind(p: Piece)
    ensures
        Piece::of(p.colour_of(), kind_of(p)) == p,
        Piece::from_idx(p.idx()) == p,
        0 <= p.idx() < 12,
        0 <= kind_of(p) < 6,
{
}

/// A piece built from a colour and a kind has that colour and that kind.
pub proof fn lemma_of_has_colour_and_kind(c: Colour, k: int)
    requires
        0 <= k < 6,
    ensures
        Piece::of(c, k).colour_of() == c,
        kind_of(Piece::of(c, k)) == k,
        Piece::of(c, k).idx() == c.idx() * 6 + k,
{
}

} // verus!
