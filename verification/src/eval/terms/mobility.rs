use super::EvalTerm;
use crate::bitboard::{
    count_ones, group_bitboard, has_bit, indicator, lemma_popcount_count, lemma_square_sum_bound,
    lemma_square_sum_gap, square_sum,
};
use crate::colour::Colour;
use crate::movegen::attacks::{attacks_on, get_attacks};
use crate::piece::{kind_of, Piece};
use crate::position::Board;
use crate::square::Square;
use vstd::prelude::*;

verus! {

broadcast use group_bitboard;

/// The number of squares a piece `p` on square `i` attacks that hold no piece of its own.
pub open spec fn mobility_count(board: Board, p: Piece, i: int) -> int {
    square_sum(
        indicator(|j: int| attacks_on(board, p, i, j) && !has_bit(board.colour_bb(p.colour_of()), j)),
        64,
    )
}

/// Sums add up square by square.
proof fn lemma_square_sum_add(f: spec_fn(int) -> int, g: spec_fn(int) -> int, h: spec_fn(int) -> int, n: int)
    requires
        forall|i: int| 0 <= i < n ==> #[trigger] f(i) + g(i) == h(i),
    ensures
        square_sum(f, n) + square_sum(g, n) == square_sum(h, n),
    decreases n,
{
    if n > 0 {
        lemma_square_sum_add(f, g, h, n - 1);
        assert(f(n - 1) + g(n - 1) == h(n - 1));
    }
}

/// Mobility never counts a square held by a piece of the mover's own colour: the squares
/// the piece attacks split into those its mobility counts and those its own pieces hold,
/// so that where its own pieces hold every square it attacks, its mobility is nothing.
pub proof fn lemma_mobility_excludes_own(board: Board, p: Piece, i: int)
    ensures
        ({
            let own = board.colour_bb(p.colour_of());
            let attacked = square_sum(indicator(|j: int| attacks_on(board, p, i, j)), 64);
            let attacked_own = square_sum(
                indicator(|j: int| attacks_on(board, p, i, j) && has_bit(own, j)),
                64,
            );
            &&& mobility_count(board, p, i) + attacked_own == attacked
            &&& 0 <= mobility_count(board, p, i) <= attacked
            &&& (forall|j: int| 0 <= j < 64 && attacks_on(board, p, i, j) ==> #[trigger] has_bit(own, j))
                ==> mobility_count(board, p, i) == 0
        }),
{
    let own = board.colour_bb(p.colour_of());
    let free = indicator(|j: int| attacks_on(board, p, i, j) && !has_bit(own, j));
    let held = indicator(|j: int| attacks_on(board, p, i, j) && has_bit(own, j));
    let all = indicator(|j: int| attacks_on(board, p, i, j));
    lemma_square_sum_add(free, held, all, 64);
    crate::bitboard::lemma_square_sum_nonneg(free, 64);
    crate::bitboard::lemma_square_sum_nonneg(held, 64);
    if forall|j: int| 0 <= j < 64 && attacks_on(board, p, i, j) ==> #[trigger] has_bit(own, j) {
        assert forall|j: int| 0 <= j < 64 implies #[trigger] free(j) == 0 by {
            if attacks_on(board, p, i, j) {
                assert(has_bit(own, j));
            }
        }
        lemma_square_sum_gap(free, 0, 64);
    }
}

/// The mobility square `i` adds for the pieces `p`.
pub open spec fn mobility_term(board: Board, p: Piece) -> spec_fn(int) -> int {
    |i: int|
        if board.at(i) == Some(p) {
            mobility_count(board, p, i)
        } else {
            0
        }
}

/// The mobility of the pieces `p`: the squares they attack that hold no piece of their own.
pub open spec fn piece_mobility(board: Board, p: Piece) -> int {
    square_sum(mobility_term(board, p), 64)
}

/// Middle-game and end-game weights of a square of mobility: knight and bishop (4, 4),
/// rook (2, 3), queen (1, 2).
pub open spec fn mobility_weights(kind: int) -> (int, int) {
    if kind == 1 || kind == 2 {
        (4, 4)
    } else if kind == 3 {
        (2, 3)
    } else {
        (1, 2)
    }
}

/// The weighted mobility of the pieces `p`, in the middle game and in the end game.
pub open spec fn weighted_mobility(board: Board, p: Piece) -> (int, int) {
    let w = mobility_weights(kind_of(p));
    (w.0 * piece_mobility(board, p), w.1 * piece_mobility(board, p))
}

/// The mobility term of `colour`: that of its knights, bishops, rooks and queens.
pub open spec fn mobility_value(board: Board, colour: Colour) -> (int, int) {
    let n = weighted_mobility(board, Piece::of(colour, 1));
    let b = weighted_mobility(board, Piece::of(colour, 2));
    let r = weighted_mobility(board, Piece::of(colour, 3));
    let q = weighted_mobility(board, Piece::of(colour, 4));
    (n.0 + b.0 + r.0 + q.0, n.1 + b.1 + r.1 + q.1)
}

/// The number of squares a piece on a square attacks that hold no piece of its own.
fn square_mobility(piece: Piece, square: Square, occupancy: u64, board: &Board) -> (r: i32)
    requires
        occupancy == board.colour_bb(piece.colour_of()),
    ensures
        r == mobility_count(*board, piece, square.idx()),
        0 <= r <= 64,
{
    let attacks = get_attacks(piece, square, board) & !occupancy;
    let mobility = count_ones(attacks);
    proof {
        let p = |j: int| attacks_on(*board, piece, square.idx(), j) && !has_bit(occupancy, j);
        assert forall|j: int| 0 <= j < 64 implies #[trigger] has_bit(attacks, j) == p(j) by {}
        lemma_popcount_count(attacks, p, 64);
        assert(p == (|j: int| attacks_on(*board, piece, square.idx(), j) && !has_bit(board.colour_bb(piece.colour_of()), j)));
    }
    mobility as i32
}

/// The weighted mobility of the pieces `piece` (see `weighted_mobility`).
fn mobility(piece: Piece, weights: (i32, i32), occupancy: u64, board: &Board) -> (r: EvalTerm)
    requires
        board.wf(),
        occupancy == board.colour_bb(piece.colour_of()),
        weights.0 == mobility_weights(kind_of(piece)).0,
        weights.1 == mobility_weights(kind_of(piece)).1,
    ensures
        r.mg_value() == weighted_mobility(*board, piece).0,
        r.eg_value() == weighted_mobility(*board, piece).1,
        0 <= r.mg_value() <= 16384,
        0 <= r.eg_value() <= 16384,
{
    let ghost f = mobility_term(*board, piece);
    let bb = board.pieces(piece);
    let mut squares = bb;
    let mut mg: i32 = 0;
    let mut eg: i32 = 0;
    let ghost mut floor: int = 0;
    proof {
        assert forall|i: int| 0 <= i < 64 implies 0 <= #[trigger] f(i) <= 64 by {
            if board.at(i) == Some(piece) {
                let q = |j: int| attacks_on(*board, piece, i, j) && !has_bit(board.colour_bb(piece.colour_of()), j);
                lemma_square_sum_bound(indicator(q), 64, 1);
                crate::bitboard::lemma_square_sum_nonneg(indicator(q), 64);
            }
        }
    }
    while squares != 0
        invariant
            0 <= floor <= 64,
            board.wf(),
            bb == board.piece_bb(piece),
            occupancy == board.colour_bb(piece.colour_of()),
            f == mobility_term(*board, piece),
            1 <= weights.0 <= 4,
            1 <= weights.1 <= 4,
            forall|i: int| 0 <= i < 64 ==> 0 <= #[trigger] f(i) <= 64,
            forall|j: int| #[trigger] has_bit(squares, j) == (has_bit(bb, j) && j >= floor),
            0 <= square_sum(f, floor) <= 64 * floor,
            mg == weights.0 * square_sum(f, floor),
            eg == weights.1 * square_sum(f, floor),
        decreases 64 - floor,
    {
        let ghost before = squares;
        let square = Square::next(&mut squares);
        let ghost j = square.idx();
        proof {
            assert forall|i: int| floor <= i < j implies #[trigger] f(i) == 0 by {
                assert(!has_bit(before, i));
                assert(!has_bit(bb, i));
            }
            lemma_square_sum_gap(f, floor, j);
            crate::bitboard::lemma_square_sum_nonneg(f, j);
            lemma_square_sum_bound(f, j, 64);
            assert(has_bit(bb, j));
        }
        let m = square_mobility(piece, square, occupancy, board);
        proof {
            let s = square_sum(f, j);
            assert(square_sum(f, j + 1) == s + m);
            assert(weights.0 * s + m * weights.0 == weights.0 * (s + m)) by (nonlinear_arith);
            assert(weights.1 * s + m * weights.1 == weights.1 * (s + m)) by (nonlinear_arith);
            assert(weights.0 * (s + m) <= 4 * 4096) by (nonlinear_arith)
                requires
                    weights.0 <= 4,
                    0 <= s + m <= 4096,
            ;
            assert(weights.1 * (s + m) <= 4 * 4096) by (nonlinear_arith)
                requires
                    weights.1 <= 4,
                    0 <= s + m <= 4096,
            ;
            assert(0 <= weights.0 * (s + m)) by (nonlinear_arith)
                requires
                    0 <= weights.0,
                    0 <= s + m,
            ;
            assert(0 <= weights.1 * (s + m)) by (nonlinear_arith)
                requires
                    0 <= weights.1,
                    0 <= s + m,
            ;
        }
        mg = mg + m * weights.0;
        eg = eg + m * weights.1;
        proof {
            floor = j + 1;
        }
    }
    proof {
        assert forall|i: int| floor <= i < 64 implies #[trigger] f(i) == 0 by {
            assert(!has_bit(squares, i));
        }
        lemma_square_sum_gap(f, floor, 64);
    }
    EvalTerm::new(mg, eg)
}

/// The mobility term of `colour` (see `mobility_value`).
pub fn eval(colour: Colour, board: &Board) -> (r: EvalTerm)
    requires
        board.wf(),
    ensures
        r.mg_value() == mobility_value(*board, colour).0,
        r.eg_value() == mobility_value(*board, colour).1,
        0 <= r.mg_value() <= 4 * 16384,
        0 <= r.eg_value() <= 4 * 16384,
{
    let occupancy = board.pieces_by_colour(colour);
    proof {
        crate::piece::lemma_of_has_colour_and_kind(colour, 1);
        crate::piece::lemma_of_has_colour_and_kind(colour, 2);
        crate::piece::lemma_of_has_colour_and_kind(colour, 3);
        crate::piece::lemma_of_has_colour_and_kind(colour, 4);
    }
    let knights = mobility(Piece::knight(colour), (4, 4), occupancy, board);
    let bishops = mobility(Piece::bishop(colour), (4, 4), occupancy, board);
    let rooks = mobility(Piece::rook(colour), (2, 3), occupancy, board);
    let queens = mobility(Piece::queen(colour), (1, 2), occupancy, board);
    knights.plus(bishops).plus(rooks).plus(queens)
}

} // verus!
