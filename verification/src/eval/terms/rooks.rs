use super::EvalTerm;
use crate::bitboard::{
    group_bitboard, has_bit, lemma_no_bits_zero_contra, lemma_square_sum_bound,
    lemma_square_sum_gap, lemma_square_sum_nonneg, square_sum,
};
use crate::colour::Colour;
use crate::piece::Piece;
use crate::position::Board;
use crate::square::{file_mask, file_of, Square};
use vstd::prelude::*;

verus! {

broadcast use group_bitboard;

/// Bonus of a rook on a file without pawns, middle game and end game.
pub const OPEN_FILE_MG: i32 = 15;

pub const OPEN_FILE_EG: i32 = 10;

/// Bonus of a rook on a file without pawns of its own, middle game and end game.
pub const HALF_OPEN_FILE_MG: i32 = 8;

pub const HALF_OPEN_FILE_EG: i32 = 6;

/// A pawn of `colour` stands on file `f`.
pub open spec fn pawn_on_file(board: Board, colour: Colour, f: int) -> bool {
    exists|j: int| 0 <= j < 64 && file_of(j) == f && #[trigger] board.at(j) == Some(Piece::of(colour, 0))
}

/// The bonus of a rook of `colour` on square `i`: open file, half-open file, or none.
pub open spec fn rook_file_bonus(board: Board, colour: Colour, i: int) -> (int, int) {
    let f = file_of(i);
    if !pawn_on_file(board, Colour::White, f) && !pawn_on_file(board, Colour::Black, f) {
        (OPEN_FILE_MG as int, OPEN_FILE_EG as int)
    } else if !pawn_on_file(board, colour, f) {
        (HALF_OPEN_FILE_MG as int, HALF_OPEN_FILE_EG as int)
    } else {
        (0, 0)
    }
}

/// What square `i` adds to the rook term of `colour`, middle game or end game.
pub open spec fn rook_term(board: Board, colour: Colour, eg: bool) -> spec_fn(int) -> int {
    |i: int|
        if board.at(i) == Some(Piece::of(colour, 3)) {
            if eg {
                rook_file_bonus(board, colour, i).1
            } else {
                rook_file_bonus(board, colour, i).0
            }
        } else {
            0
        }
}

/// The rook term of `colour`: the file bonuses of its rooks.
pub open spec fn rooks_value(board: Board, colour: Colour) -> (int, int) {
    (square_sum(rook_term(board, colour, false), 64), square_sum(rook_term(board, colour, true), 64))
}

/// Whether a pawn bitboard meets a file, as `pawn_on_file` says.
proof fn lemma_pawns_on_file(board: Board, colour: Colour, mask: u64, f: int)
    requires
        board.wf(),
        forall|j: int| #[trigger] has_bit(mask, j) == (0 <= j < 64 && file_of(j) == f),
    ensures
        (board.piece_bb(Piece::of(colour, 0)) & mask != 0) == pawn_on_file(board, colour, f),
{
    let pawns = board.piece_bb(Piece::of(colour, 0));
    if pawns & mask != 0 {
        lemma_no_bits_zero_contra(pawns & mask);
        let j = choose|j: int| 0 <= j < 64 && #[trigger] has_bit(pawns & mask, j);
        assert(has_bit(pawns, j) && has_bit(mask, j));
        assert(board.at(j) == Some(Piece::of(colour, 0)));
    } else {
        if pawn_on_file(board, colour, f) {
            let j = choose|j: int| 0 <= j < 64 && file_of(j) == f && #[trigger] board.at(j) == Some(Piece::of(colour, 0));
            assert(has_bit(pawns, j));
            assert(has_bit(pawns & mask, j));
            assert(has_bit(0u64, j));
        }
    }
}

/// The rook term of `colour` (see `rooks_value`).
pub fn eval(colour: Colour, board: &Board) -> (r: EvalTerm)
    requires
        board.wf(),
    ensures
        r.mg_value() == rooks_value(*board, colour).0,
        r.eg_value() == rooks_value(*board, colour).1,
        0 <= r.mg_value() <= 15 * 64,
        0 <= r.eg_value() <= 10 * 64,
{
    let rook = Piece::rook(colour);
    let bb = board.pieces(rook);
    let mut our_rooks = bb;
    let our_pawns = board.pieces(Piece::pawn(colour));
    let their_pawns = board.pieces(Piece::pawn(colour.flip()));
    let all_pawns = our_pawns | their_pawns;
    let mut mg: i32 = 0;
    let mut eg: i32 = 0;
    let ghost fm = rook_term(*board, colour, false);
    let ghost fe = rook_term(*board, colour, true);
    let ghost mut floor: int = 0;
    proof {
        crate::colour::lemma_flip_involutive(colour);
        assert forall|i: int| 0 <= i < 64 implies 0 <= #[trigger] fm(i) <= 15 && 0 <= fe(i) <= 10 by {}
        assert forall|i: int| 0 <= i < 64 implies 0 <= #[trigger] fe(i) <= 10 by {}
    }
    while our_rooks != 0
        invariant
            0 <= floor <= 64,
            board.wf(),
            rook == Piece::of(colour, 3),
            bb == board.piece_bb(rook),
            our_pawns == board.piece_bb(Piece::of(colour, 0)),
            all_pawns == board.piece_bb(Piece::of(colour, 0)) | board.piece_bb(
                Piece::of(colour.opposite(), 0),
            ),
            fm == rook_term(*board, colour, false),
            fe == rook_term(*board, colour, true),
            forall|i: int| 0 <= i < 64 ==> 0 <= #[trigger] fm(i) <= 15,
            forall|i: int| 0 <= i < 64 ==> 0 <= #[trigger] fe(i) <= 10,
            forall|j: int| #[trigger] has_bit(our_rooks, j) == (has_bit(bb, j) && j >= floor),
            mg == square_sum(fm, floor),
            eg == square_sum(fe, floor),
            0 <= mg <= 15 * floor,
            0 <= eg <= 10 * floor,
        decreases 64 - floor,
    {
        let ghost before = our_rooks;
        let square = Square::next(&mut our_rooks);
        let ghost j = square.idx();
        proof {
            assert forall|i: int| floor <= i < j implies #[trigger] fm(i) == 0 && fe(i) == 0 by {
                assert(!has_bit(before, i));
                assert(!has_bit(bb, i));
            }
            assert forall|i: int| floor <= i < j implies #[trigger] fe(i) == 0 by {
                assert(!has_bit(before, i));
                assert(!has_bit(bb, i));
            }
            lemma_square_sum_gap(fm, floor, j);
            lemma_square_sum_gap(fe, floor, j);
            lemma_square_sum_nonneg(fm, j);
            lemma_square_sum_nonneg(fe, j);
            lemma_square_sum_bound(fm, j, 15);
            lemma_square_sum_bound(fe, j, 10);
            assert(has_bit(bb, j));
        }
        let file = file_mask(square.file());
        proof {
            lemma_pawns_on_file(*board, colour.opposite(), file, file_of(j));
            lemma_pawns_on_file(*board, colour, file, file_of(j));
            let w = board.piece_bb(Piece::of(colour, 0));
            let b = board.piece_bb(Piece::of(colour.opposite(), 0));
            assert((all_pawns & file == 0) == (w & file == 0 && b & file == 0)) by {
                if all_pawns & file == 0 {
                    if w & file != 0 {
                        lemma_no_bits_zero_contra(w & file);
                        let k = choose|k: int| 0 <= k < 64 && #[trigger] has_bit(w & file, k);
                        assert(has_bit(all_pawns & file, k));
                        assert(has_bit(0u64, k));
                    }
                    if b & file != 0 {
                        lemma_no_bits_zero_contra(b & file);
                        let k = choose|k: int| 0 <= k < 64 && #[trigger] has_bit(b & file, k);
                        assert(has_bit(all_pawns & file, k));
                        assert(has_bit(0u64, k));
                    }
                } else {
                    lemma_no_bits_zero_contra(all_pawns & file);
                    let k = choose|k: int| 0 <= k < 64 && #[trigger] has_bit(all_pawns & file, k);
                    if w & file == 0 && b & file == 0 {
                        assert(has_bit(w & file, k) || has_bit(b & file, k));
                        assert(has_bit(0u64, k));
                    }
                }
            }
        }
        if all_pawns & file == 0 {
            mg = mg + OPEN_FILE_MG;
            eg = eg + OPEN_FILE_EG;
        } else if our_pawns & file == 0 {
            mg = mg + HALF_OPEN_FILE_MG;
            eg = eg + HALF_OPEN_FILE_EG;
        }
        proof {
            floor = j + 1;
        }
    }
    proof {
        assert forall|i: int| floor <= i < 64 implies #[trigger] fm(i) == 0 && fe(i) == 0 by {
            assert(!has_bit(our_rooks, i));
        }
        assert forall|i: int| floor <= i < 64 implies #[trigger] fe(i) == 0 by {
            assert(!has_bit(our_rooks, i));
        }
        lemma_square_sum_gap(fm, floor, 64);
        lemma_square_sum_gap(fe, floor, 64);
    }
    EvalTerm::new(mg, eg)
}

} // verus!
