use super::EvalTerm;
use crate::bitboard::{
    count_ones, group_bitboard, has_bit, indicator, lemma_popcount_count, square_sum,
};
use crate::colour::Colour;
use crate::movegen::attacks::{king_square, lemma_coords_of, lemma_square_at, square_at};
use crate::piece::{kind_of, Piece};
use crate::position::Board;
use crate::square::{dist, file_of, rank_of, Square};
use vstd::prelude::*;

verus! {

broadcast use group_bitboard;

/// Bonus of a pawn of the shield on the rank next to the king.
pub const PAWN_SHIELD_CLOSE: i32 = 12;

/// Bonus of a pawn of the shield two ranks from the king.
pub const PAWN_SHIELD_FAR: i32 = 6;

/// The rank `d` ranks in front of rank `rank` from the point of view of `colour`, if the
/// board has it.
pub open spec fn shield_rank(colour: Colour, rank: int, d: int) -> Option<int> {
    match colour {
        Colour::White => if rank + d <= 7 {
            Some(rank + d)
        } else {
            None
        },
        Colour::Black => if rank - d >= 0 {
            Some(rank - d)
        } else {
            None
        },
    }
}

/// Square `j` is in the pawn shield `d` ranks in front of a king of `colour` on square `k`:
/// on that rank, on the king's file or a file next to it.
pub open spec fn in_shield(colour: Colour, k: int, d: int, j: int) -> bool {
    &&& 0 <= j < 64
    &&& shield_rank(colour, rank_of(k), d) == Some(rank_of(j))
    &&& dist(file_of(j), file_of(k)) <= 1
}

/// The square on the same file and the mirrored rank: the square seen from the other side.
pub open spec fn mirror_square(i: int) -> int {
    square_at(file_of(i), 7 - rank_of(i))
}

/// The shield lies in front of the king, as the side sees the board: `d` ranks up the
/// board for white, `d` ranks down for black, on the king's file or a file next to it.
pub proof fn lemma_shield_in_front(colour: Colour, k: int, d: int, j: int)
    requires
        0 <= k < 64,
        1 <= d <= 2,
    ensures
        in_shield(colour, k, d, j) <==> (0 <= j < 64 && rank_of(j) - rank_of(k) == (if colour
            == Colour::White {
            d
        } else {
            -d
        }) && dist(file_of(j), file_of(k)) <= 1),
{
    if 0 <= j < 64 {
        lemma_coords_of(j);
    }
    lemma_coords_of(k);
}

/// The shield of black is that of white on the mirrored board: a square is in black's
/// shield in front of a king exactly when the mirrored square is in white's shield in
/// front of the mirrored king.
pub proof fn lemma_shield_mirror(k: int, d: int, j: int)
    requires
        0 <= k < 64,
        0 <= j < 64,
        1 <= d <= 2,
    ensures
        0 <= mirror_square(k) < 64,
        0 <= mirror_square(j) < 64,
        in_shield(Colour::Black, k, d, j) == in_shield(Colour::White, mirror_square(k), d, mirror_square(j)),
{
    lemma_coords_of(k);
    lemma_coords_of(j);
    lemma_square_at(file_of(k), 7 - rank_of(k));
    lemma_square_at(file_of(j), 7 - rank_of(j));
}

/// Mirroring a square twice gives it back.
proof fn lemma_mirror_involutive(i: int)
    requires
        0 <= i < 64,
    ensures
        0 <= mirror_square(i) < 64,
        mirror_square(mirror_square(i)) == i,
        file_of(mirror_square(i)) == file_of(i),
        rank_of(mirror_square(i)) == 7 - rank_of(i),
{
    lemma_coords_of(i);
    lemma_square_at(file_of(i), 7 - rank_of(i));
    lemma_square_at(file_of(i), rank_of(i));
}

/// Summing over the mirrored squares gives the same sum.
proof fn lemma_sum_mirror(f: spec_fn(int) -> int)
    ensures
        square_sum(|i: int| f(mirror_square(i)), 64) == square_sum(f, 64),
{
    reveal_with_fuel(square_sum, 65);
}

/// The pawns of `colour` in the shield `d` ranks in front of square `k`.
pub open spec fn shield_count(board: Board, colour: Colour, k: int, d: int) -> int {
    square_sum(
        indicator(|j: int| in_shield(colour, k, d, j) && board.at(j) == Some(Piece::of(colour, 0))),
        64,
    )
}

/// The pawn shield term of `colour` in the middle game (it counts nothing in the end
/// game): nothing while the king stands on the d- or e-file, else the pawns in front of
/// it.
pub open spec fn king_value(board: Board, colour: Colour) -> int {
    let k = king_square(board, colour);
    if 3 <= file_of(k) < 5 {
        0
    } else {
        PAWN_SHIELD_CLOSE * shield_count(board, colour, k, 1) + PAWN_SHIELD_FAR * shield_count(
            board,
            colour,
            k,
            2,
        )
    }
}

/// A piece with its colour swapped.
pub open spec fn flipped(sq: Option<Piece>) -> Option<Piece> {
    match sq {
        Some(p) => Some(Piece::of(p.colour_of().opposite(), kind_of(p))),
        None => None,
    }
}

/// Board `b` is board `a` seen from the other side: each square of `b` holds the piece of
/// the mirrored square of `a`, with its colour swapped.
pub open spec fn mirrored(a: Board, b: Board) -> bool {
    forall|i: int| 0 <= i < 64 ==> #[trigger] b.at(mirror_square(i)) == flipped(a.at(i))
}

/// The pawn shield term is the same for both sides: black's term on a board with one black
/// king is white's term on the board seen from the other side.
pub proof fn lemma_king_value_mirror(a: Board, b: Board)
    requires
        a.wf(),
        b.wf(),
        mirrored(a, b),
        crate::movegen::perft::one_king(a, Colour::Black),
    ensures
        king_value(a, Colour::Black) == king_value(b, Colour::White),
{
    let bk = Piece::of(Colour::Black, 5);
    let wk = Piece::of(Colour::White, 5);
    let bp = Piece::of(Colour::Black, 0);
    let wp = Piece::of(Colour::White, 0);
    crate::piece::lemma_of_has_colour_and_kind(Colour::Black, 5);
    crate::piece::lemma_of_has_colour_and_kind(Colour::White, 5);
    crate::piece::lemma_of_has_colour_and_kind(Colour::Black, 0);
    crate::piece::lemma_of_has_colour_and_kind(Colour::White, 0);
    let ka = choose|k: int|
        0 <= k < 64 && #[trigger] a.at(k) == Some(bk) && forall|j: int|
            0 <= j < 64 && #[trigger] a.at(j) == Some(bk) ==> j == k;
    lemma_mirror_involutive(ka);
    let kb = mirror_square(ka);
    // The squares of b hold the swapped pieces of the mirrored squares of a.
    assert forall|j: int| 0 <= j < 64 implies #[trigger] b.at(j) == flipped(a.at(mirror_square(j))) by {
        lemma_mirror_involutive(j);
        assert(b.at(mirror_square(mirror_square(j))) == flipped(a.at(mirror_square(j))));
    }
    assert forall|j: int| 0 <= j < 64 implies (#[trigger] b.at(j) == Some(wk)) == (a.at(mirror_square(j))
        == Some(bk)) by {
        lemma_mirror_involutive(j);
        if a.at(mirror_square(j)) is Some {
            crate::piece::lemma_piece_of_colour_and_kind(a.at(mirror_square(j))->0);
        }
    }
    assert forall|j: int| 0 <= j < 64 implies (#[trigger] b.at(j) == Some(wp)) == (a.at(mirror_square(j))
        == Some(bp)) by {
        lemma_mirror_involutive(j);
        if a.at(mirror_square(j)) is Some {
            crate::piece::lemma_piece_of_colour_and_kind(a.at(mirror_square(j))->0);
        }
    }
    // The kings: each side's king stands on the lowest square of its bitboard.
    assert forall|j: int| 0 <= j < ka implies !#[trigger] has_bit(a.piece_bb(bk), j) by {
        if 0 <= j && has_bit(a.piece_bb(bk), j) {
            assert(a.at(j) == Some(bk));
        }
    }
    assert(has_bit(a.piece_bb(bk), ka));
    crate::bitboard::lemma_lowest_unique(a.piece_bb(bk), ka);
    assert forall|j: int| 0 <= j < kb implies !#[trigger] has_bit(b.piece_bb(wk), j) by {
        if 0 <= j && has_bit(b.piece_bb(wk), j) {
            assert(b.at(j) == Some(wk));
            lemma_mirror_involutive(j);
            assert(a.at(mirror_square(j)) == Some(bk));
            assert(mirror_square(j) == ka);
        }
    }
    assert(b.at(kb) == Some(wk)) by {
        assert(a.at(mirror_square(kb)) == Some(bk));
    }
    assert(has_bit(b.piece_bb(wk), kb));
    crate::bitboard::lemma_lowest_unique(b.piece_bb(wk), kb);
    assert(king_square(a, Colour::Black) == ka);
    assert(king_square(b, Colour::White) == kb);
    // The shields: their squares and pawns correspond square by square.
    assert forall|d: int| 1 <= d <= 2 implies #[trigger] shield_count(a, Colour::Black, ka, d)
        == shield_count(b, Colour::White, kb, d) by {
        let pa = |j: int| in_shield(Colour::Black, ka, d, j) && a.at(j) == Some(bp);
        let pb = |j: int| in_shield(Colour::White, kb, d, j) && b.at(j) == Some(wp);
        assert forall|i: int| 0 <= i < 64 implies #[trigger] indicator(pa)(i) == indicator(pb)(mirror_square(i)) by {
            lemma_shield_mirror(ka, d, i);
            lemma_mirror_involutive(i);
            assert((b.at(mirror_square(i)) == Some(wp)) == (a.at(mirror_square(mirror_square(i))) == Some(bp)));
        }
        crate::bitboard::lemma_square_sum_ext(indicator(pa), |i: int| indicator(pb)(mirror_square(i)), 64);
        lemma_sum_mirror(indicator(pb));
    }
    assert(shield_count(a, Colour::Black, ka, 1) == shield_count(b, Colour::White, kb, 1));
    assert(shield_count(a, Colour::Black, ka, 2) == shield_count(b, Colour::White, kb, 2));
}

/// The squares `d` ranks in front of a king of `colour` on `square`, on its file and the
/// files next to it.
fn shield_mask(colour: Colour, square: Square, d: u8) -> (r: u64)
    requires
        1 <= d <= 2,
    ensures
        forall|j: int| #[trigger] has_bit(r, j) == in_shield(colour, square.idx(), d as int, j),
{
    let rank = square.rank();
    let file = square.file();
    let shield: Option<u8> = match colour {
        Colour::White => if rank + d <= 7 {
            Some(rank + d)
        } else {
            None
        },
        Colour::Black => if rank >= d {
            Some(rank - d)
        } else {
            None
        },
    };
    let mut mask: u64 = 0;
    match shield {
        None => {
            proof {
                assert forall|j: int| #[trigger] has_bit(mask, j) == in_shield(colour, square.idx(), d as int, j) by {}
            }
        },
        Some(r) => {
            let mut df: u8 = 0;
            while df < 3
                invariant
                    df <= 3,
                    r < 8,
                    file < 8,
                    file == file_of(square.idx()),
                    shield_rank(colour, rank_of(square.idx()), d as int) == Some(r as int),
                    forall|j: int| #[trigger] has_bit(mask, j) == (0 <= j < 64 && rank_of(j) == r
                        && file - 1 <= file_of(j) < file - 1 + df),
                decreases 3 - df,
            {
                if file + df >= 1 && file + df <= 8 {
                    let f = file + df - 1;
                    let bit = Square::from_file_and_rank(f, r).u64();
                    proof {
                        lemma_square_at(f as int, r as int);
                        assert forall|j: int| 0 <= j < 64 implies #[trigger] has_bit(bit, j) == (rank_of(j) == r && file_of(j) == f) by {
                            lemma_coords_of(j);
                        }
                    }
                    mask = mask | bit;
                }
                df = df + 1;
            }
            proof {
                assert forall|j: int| #[trigger] has_bit(mask, j) == in_shield(colour, square.idx(), d as int, j) by {}
            }
        },
    }
    mask
}

/// The pawns of `colour` in the shield `d` ranks in front of `square`.
fn shield_pawns(colour: Colour, square: Square, d: u8, board: &Board) -> (r: i32)
    requires
        board.wf(),
        1 <= d <= 2,
    ensures
        r == shield_count(*board, colour, square.idx(), d as int),
        0 <= r <= 64,
{
    let mask = shield_mask(colour, square, d);
    let pawns = board.pieces(Piece::pawn(colour));
    let n = count_ones(pawns & mask);
    proof {
        let p = |j: int| in_shield(colour, square.idx(), d as int, j) && board.at(j) == Some(Piece::of(colour, 0));
        crate::piece::lemma_of_has_colour_and_kind(colour, 0);
        assert forall|j: int| 0 <= j < 64 implies #[trigger] has_bit(pawns & mask, j) == p(j) by {
            assert(has_bit(board.piece_bb(Piece::of(colour, 0)), j) == (board.at(j) == Some(Piece::of(colour, 0))));
        }
        lemma_popcount_count(pawns & mask, p, 64);
    }
    n as i32
}

/// The pawn shield term of `colour` (see `king_value`).
pub fn eval(colour: Colour, board: &Board) -> (r: EvalTerm)
    requires
        board.wf(),
        board.piece_bb(Piece::of(colour, 5)) != 0,
    ensures
        r.mg_value() == king_value(*board, colour),
        r.eg_value() == 0,
        0 <= r.mg_value() <= 18 * 64,
{
    let king = Square::first(board.pieces(Piece::king(colour)));
    proof {
        crate::bitboard::lemma_lowest_unique(board.piece_bb(Piece::of(colour, 5)), king.idx());
    }
    let file = king.file();
    if file >= 3 && file < 5 {
        return EvalTerm::zero();
    }
    let close = shield_pawns(colour, king, 1, board);
    let far = shield_pawns(colour, king, 2, board);
    EvalTerm::new(close * PAWN_SHIELD_CLOSE + far * PAWN_SHIELD_FAR, 0)
}

} // verus!
