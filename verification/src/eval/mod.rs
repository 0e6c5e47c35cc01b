pub mod material;
pub mod phase;
pub mod psqt;
pub mod terms;

use crate::colour::Colour;
use crate::piece::Piece;
use crate::position::{Board, Position};
use phase::{phase_of, MAX_PHASE};
use psqt::{king_eg_table, king_mg_table, mapped_square, non_king_value};
use terms::king::king_value;
use terms::mobility::mobility_value;
use terms::rooks::rooks_value;
use terms::EvalTerm;
use crate::eval::material::material_value;
use crate::movegen::attacks::king_square;
use vstd::prelude::*;

verus! {

/// The deepest a search goes, in plies.
pub const MAX_DEPTH: u8 = 255;

/// The best evaluation there is.
pub const EVAL_MAX: i32 = 10_000;

/// The worst evaluation there is.
pub const EVAL_MIN: i32 = -EVAL_MAX;

/// The evaluation of a draw.
pub const EVAL_DRAW: i32 = 0;

/// The evaluation of giving mate now.
pub const EVAL_MATE: i32 = EVAL_MAX;

/// Evaluations beyond this one stand for a mate found in the search.
pub const EVAL_MATE_THRESHOLD: i32 = EVAL_MATE - MAX_DEPTH as i32;

/// Division that rounds towards zero, as integer division does in Rust.
pub open spec fn trunc_div(a: int, b: int) -> int {
    if a >= 0 {
        a / b
    } else {
        -((-a) / b)
    }
}

/// The piece-square term of `colour`, middle game and end game.
pub open spec fn psqt_value_of(board: Board, colour: Colour) -> (int, int) {
    let non_king = non_king_value(board, colour);
    let k = mapped_square(king_square(board, colour), colour);
    (non_king + king_mg_table()[k] as int, non_king + king_eg_table()[k] as int)
}

/// All terms for white less all terms for black, middle game and end game: material,
/// mobility, the king's pawn shield, rooks on open files and piece-square values.
pub open spec fn eval_terms(board: Board) -> (int, int) {
    let w = Colour::White;
    let b = Colour::Black;
    let material = material_value(board, w) - material_value(board, b);
    let mobility_mg = mobility_value(board, w).0 - mobility_value(board, b).0;
    let mobility_eg = mobility_value(board, w).1 - mobility_value(board, b).1;
    let king = king_value(board, w) - king_value(board, b);
    let rooks_mg = rooks_value(board, w).0 - rooks_value(board, b).0;
    let rooks_eg = rooks_value(board, w).1 - rooks_value(board, b).1;
    let psqt_mg = psqt_value_of(board, w).0 - psqt_value_of(board, b).0;
    let psqt_eg = psqt_value_of(board, w).1 - psqt_value_of(board, b).1;
    (
        material + mobility_mg + king + rooks_mg + psqt_mg,
        material + mobility_eg + rooks_eg + psqt_eg,
    )
}

/// A term mixed by the phase: all middle game at `MAX_PHASE`, all end game at 0.
pub open spec fn phased(mg: int, eg: int, phase: int) -> int {
    trunc_div(mg * phase + eg * (MAX_PHASE - phase), MAX_PHASE as int)
}

/// The evaluation of a position from the point of view of the side to move.
pub open spec fn eval_value(pos: Position) -> int {
    let t = eval_terms(pos.board);
    let v = phased(t.0, t.1, phase_of(pos.board));
    match pos.colour_to_move {
        Colour::White => v,
        Colour::Black => -v,
    }
}

/// Mixes a term by the phase of the game on the board (see `phased`).
fn phase_eval(term: EvalTerm, board: &Board) -> (r: i32)
    requires
        -500_000 <= term.mg_value() <= 500_000,
        -500_000 <= term.eg_value() <= 500_000,
    ensures
        r == phased(term.mg_value(), term.eg_value(), phase_of(*board)),
        -500_000 <= r <= 500_000,
{
    let phase = phase::phase(board);
    let mg = term.mg();
    let eg = term.eg();
    proof {
        assert(-500_000 * 24 <= mg * phase <= 500_000 * 24) by (nonlinear_arith)
            requires
                -500_000 <= mg <= 500_000,
                0 <= phase <= 24,
        ;
        assert(-500_000 * 24 <= eg * (24 - phase) <= 500_000 * 24) by (nonlinear_arith)
            requires
                -500_000 <= eg <= 500_000,
                0 <= phase <= 24,
        ;
        assert(mg * phase + eg * (24 - phase) <= 500_000 * 24) by (nonlinear_arith)
            requires
                -500_000 <= mg <= 500_000,
                -500_000 <= eg <= 500_000,
                0 <= phase <= 24,
        ;
        assert(mg * phase + eg * (24 - phase) >= -500_000 * 24) by (nonlinear_arith)
            requires
                -500_000 <= mg <= 500_000,
                -500_000 <= eg <= 500_000,
                0 <= phase <= 24,
        ;
    }
    let total = mg * phase + eg * (MAX_PHASE - phase);
    total / MAX_PHASE
}

/// Evaluates a position from the point of view of the side to move (see `eval_value`).
pub fn eval(pos: &Position) -> (r: i32)
    requires
        pos.board.wf(),
        pos.board.piece_bb(Piece::WK) != 0,
        pos.board.piece_bb(Piece::BK) != 0,
    ensures
        r == eval_value(*pos),
        -500_000 <= r <= 500_000,
{
    let board = &pos.board;
    let w = Colour::White;
    let b = Colour::Black;
    proof {
        crate::piece::lemma_of_has_colour_and_kind(w, 5);
        crate::piece::lemma_of_has_colour_and_kind(b, 5);
        assert(Piece::of(w, 5) == Piece::WK);
        assert(Piece::of(b, 5) == Piece::BK);
    }
    let material = EvalTerm::unphased(material::eval(w, board) - material::eval(b, board));
    let mobility = terms::mobility::eval(w, board).minus(terms::mobility::eval(b, board));
    let king = terms::king::eval(w, board).minus(terms::king::eval(b, board));
    let rooks = terms::rooks::eval(w, board).minus(terms::rooks::eval(b, board));
    let white_non_king = psqt::eval_non_king(w, board);
    let black_non_king = psqt::eval_non_king(b, board);
    let psqt = EvalTerm::new(
        (white_non_king + psqt::eval_king_mg(w, board)) - (black_non_king + psqt::eval_king_mg(
            b,
            board,
        )),
        (white_non_king + psqt::eval_king_eg(w, board)) - (black_non_king + psqt::eval_king_eg(
            b,
            board,
        )),
    );
    let total = material.plus(mobility).plus(king).plus(rooks).plus(psqt);
    let v = phase_eval(total, board);
    match pos.colour_to_move {
        Colour::White => v,
        Colour::Black => -v,
    }
}

/// The evaluation is from the side to move: with the other side to move, it is negated.
pub proof fn lemma_eval_other_side(pos: Position)
    ensures
        eval_value(Position { colour_to_move: pos.colour_to_move.opposite(), ..pos }) == -eval_value(
            pos,
        ),
{
}

} // verus!
