use crate::bitboard::popcount;
use crate::piece::Piece;
use crate::position::Board;
use vstd::prelude::*;

verus! {

/// The phase of a game with all pieces on the board: the middle game.
pub const MAX_PHASE: i32 = 24;

/// How far the game is from the end game: a knight or bishop counts 1, a rook 2 and a
/// queen 4, up to `MAX_PHASE`.
pub open spec fn phase_of(board: Board) -> int {
    let knights = popcount(board.piece_bb(Piece::WN)) + popcount(board.piece_bb(Piece::BN));
    let bishops = popcount(board.piece_bb(Piece::WB)) + popcount(board.piece_bb(Piece::BB));
    let rooks = popcount(board.piece_bb(Piece::WR)) + popcount(board.piece_bb(Piece::BR));
    let queens = popcount(board.piece_bb(Piece::WQ)) + popcount(board.piece_bb(Piece::BQ));
    let total = knights + bishops + 2 * rooks + 4 * queens;
    if total < MAX_PHASE {
        total as int
    } else {
        MAX_PHASE as int
    }
}

/// The phase of the game on the board (see `phase_of`).
pub fn phase(board: &Board) -> (r: i32)
    ensures
        r == phase_of(*board),
        0 <= r <= MAX_PHASE,
{
    let knights = board.count_pieces(Piece::WN) + board.count_pieces(Piece::BN);
    let bishops = board.count_pieces(Piece::WB) + board.count_pieces(Piece::BB);
    let rooks = board.count_pieces(Piece::WR) + board.count_pieces(Piece::BR);
    let queens = board.count_pieces(Piece::WQ) + board.count_pieces(Piece::BQ);
    let total = knights + bishops + 2 * rooks + 4 * queens;
    if total < MAX_PHASE as u32 {
        total as i32
    } else {
        MAX_PHASE
    }
}

} // verus!
