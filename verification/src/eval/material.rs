use crate::bitboard::popcount;
use crate::colour::Colour;
use crate::piece::{kind_of, Piece};
use crate::position::Board;
use vstd::prelude::*;

verus! {

/// The material value of a piece: pawn 100, knight 300, bishop 350, rook 500, queen 900;
/// the king counts nothing.
pub open spec fn weight_of(p: Piece) -> int {
    let k = kind_of(p);
    if k == 0 {
        100
    } else if k == 1 {
        300
    } else if k == 2 {
        350
    } else if k == 3 {
        500
    } else if k == 4 {
        900
    } else {
        0
    }
}

/// The material value of a piece (see `weight_of`).
pub fn piece_weight(piece: Piece) -> (r: i32)
    ensures
        r == weight_of(piece),
{
    match piece {
        Piece::WP | Piece::BP => 100,
        Piece::WN | Piece::BN => 300,
        Piece::WB | Piece::BB => 350,
        Piece::WR | Piece::BR => 500,
        Piece::WQ | Piece::BQ => 900,
        Piece::WK | Piece::BK => 0,
    }
}

/// The material of `colour`: the weight of each of its pieces on the board.
pub open spec fn material_value(board: Board, colour: Colour) -> int {
    weight_of(Piece::of(colour, 0)) * popcount(board.piece_bb(Piece::of(colour, 0)))
        + weight_of(Piece::of(colour, 1)) * popcount(board.piece_bb(Piece::of(colour, 1)))
        + weight_of(Piece::of(colour, 2)) * popcount(board.piece_bb(Piece::of(colour, 2)))
        + weight_of(Piece::of(colour, 3)) * popcount(board.piece_bb(Piece::of(colour, 3)))
        + weight_of(Piece::of(colour, 4)) * popcount(board.piece_bb(Piece::of(colour, 4)))
        + weight_of(Piece::of(colour, 5)) * popcount(board.piece_bb(Piece::of(colour, 5)))
}

/// The material of `colour` (see `material_value`).
pub fn eval(colour: Colour, board: &Board) -> (r: i32)
    ensures
        r == material_value(*board, colour),
        0 <= r <= 345600,
{
    let pieces = Piece::pieces_by_colour(colour);
    let mut acc: i32 = 0;
    let mut k: usize = 0;
    while k < 6
        invariant
            k <= 6,
            forall|i: int| 0 <= i < 6 ==> #[trigger] pieces@[i] == Piece::of(colour, i),
            acc == partial_material(*board, colour, k as int),
            0 <= acc <= 57600 * k,
        decreases 6 - k,
    {
        let piece = pieces[k];
        let count = board.count_pieces(piece);
        let weight = piece_weight(piece);
        proof {
            crate::piece::lemma_of_has_colour_and_kind(colour, k as int);
            assert(0 <= weight <= 900);
            assert(count <= 64);
            assert(weight * count <= 64 * weight) by (nonlinear_arith)
                requires
                    0 <= weight,
                    count <= 64,
            ;
        }
        acc = acc + weight * (count as i32);
        k = k + 1;
    }
    proof {
        reveal_with_fuel(partial_material, 7);
    }
    acc
}

/// The material of the first `k` kinds of piece of `colour`.
pub open spec fn partial_material(board: Board, colour: Colour, k: int) -> int
    decreases k,
{
    if k <= 0 {
        0
    } else {
        partial_material(board, colour, k - 1) + weight_of(Piece::of(colour, k - 1)) * popcount(
            board.piece_bb(Piece::of(colour, k - 1)),
        )
    }
}

} // verus!
