use crate::colour::Colour;
use crate::piece::{kind_of, Piece};
use crate::position::CastlingRights;
use crate::square::{advanced, dist, file_of, rank_of, Square};
use vstd::prelude::*;

verus! {

/// A move, with what is needed to take it back: the castling rights and half-move clock
/// of the position it was made from.
#[derive(Debug, Clone, Copy, PartialEq, Eq, Structural)]
pub struct Move {
    pub piece: Piece,
    pub from: Square,
    pub to: Square,
    pub captured_piece: Option<Piece>,
    pub promotion_piece: Option<Piece>,
    pub castling_rights: CastlingRights,
    pub half_move_clock: u8,
    pub is_en_passant: bool,
}

/// The en passant square of a capture lies on a square from which the captured pawn can
/// be reached.
pub open spec fn capture_square_ok(mv: Move) -> bool {
    mv.is_en_passant && mv.captured_piece is Some ==> (mv.captured_piece->0.colour_of()
        == Colour::White ==> mv.to.idx() < 56) && (mv.captured_piece->0.colour_of()
        == Colour::Black ==> mv.to.idx() >= 8)
}

/// The square of the piece a move captures: the target square, or for an en passant
/// capture the square the captured pawn stands on.
pub open spec fn capture_index(mv: Move) -> Option<int> {
    match mv.captured_piece {
        None => None,
        Some(p) => if mv.is_en_passant {
            Some(advanced(mv.to.idx(), p.colour_of()))
        } else {
            Some(mv.to.idx())
        },
    }
}

/// A move of a king across more than one file: castling.
pub open spec fn castles(mv: Move) -> bool {
    kind_of(mv.piece) == 5 && dist(file_of(mv.from.idx()), file_of(mv.to.idx())) > 1
}

impl Move {
    /// The square of the piece the move captures, if it captures one: the target square,
    /// or for an en passant capture the square behind it, where the captured pawn stands.
    /// An en passant capture whose captured pawn would stand off the board has none.
    pub fn capture_square(&self) -> (r: Option<Square>)
        ensures
            r is Some == (capture_index(*self) is Some && capture_square_ok(*self)),
            r matches Some(sq) ==> capture_index(*self) == Some(sq.idx()),
    {
        let captured_piece = match self.captured_piece {
            Some(p) => p,
            None => {
                return None;
            },
        };
        if self.is_en_passant {
            let to = self.to.index();
            match captured_piece.colour() {
                Colour::White => if to >= 56 {
                    return None;
                },
                Colour::Black => if to < 8 {
                    return None;
                },
            }
            Some(self.to.advance(captured_piece.colour()))
        } else {
            Some(self.to)
        }
    }

    pub fn is_capture(&self) -> (r: bool)
        ensures
            r == self.captured_piece is Some,
    {
        self.captured_piece.is_some()
    }

    /// The square of the captured piece, for a move that captures.
    pub fn get_capture_square(&self) -> (r: Square)
        requires
            self.captured_piece is Some,
            capture_square_ok(*self),
        ensures
            capture_index(*self) == Some(r.idx()),
    {
        match self.capture_square() {
            Some(sq) => sq,
            None => self.to,
        }
    }

    pub fn file_diff(&self) -> (r: u8)
        ensures
            r == dist(file_of(self.from.idx()), file_of(self.to.idx())),
    {
        self.from.file_diff(self.to)
    }

    pub fn rank_diff(&self) -> (r: u8)
        ensures
            r == dist(rank_of(self.from.idx()), rank_of(self.to.idx())),
    {
        self.from.rank_diff(self.to)
    }

    /// A king move across more than one file.
    pub fn is_castling(&self) -> (r: bool)
        ensures
            r == castles(*self),
    {
        self.piece.is_king() && self.file_diff() > 1
    }

    /// Neither a capture nor a promotion.
    pub fn is_quiet(&self) -> (r: bool)
        ensures
            r == (self.captured_piece is None && self.promotion_piece is None),
    {
        self.captured_piece.is_none() && self.promotion_piece.is_none()
    }

    /// The same move on the board: same squares and same promotion.
    pub fn equals(&self, other: &Move) -> (r: bool)
        ensures
            r == (self.from == other.from && self.to == other.to && self.promotion_piece
                == other.promotion_piece),
    {
        self.from == other.from && self.to == other.to && self.promotion_piece
            == other.promotion_piece
    }
}

} // verus!
