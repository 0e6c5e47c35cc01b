use crate::bitboard::{
    group_bitboard, has_bit, lemma_square_sum_bound, lemma_square_sum_gap, square_sum,
};
use crate::colour::Colour;
use crate::movegen::attacks::king_square;
use crate::piece::{kind_of, Piece};
use crate::position::Board;
use crate::square::{file_of, rank_of, Square};
use vstd::prelude::*;

verus! {

broadcast use group_bitboard;

/// Piece-square values of a white pawn, rank 8 first, each rank from the a-file on.
pub open spec fn pawn_table() -> Seq<i32> {
    seq![
        0i32, 0i32, 0i32, 0i32, 0i32, 0i32, 0i32, 0i32,
        70i32, 70i32, 70i32, 70i32, 80i32, 70i32, 70i32, 70i32,
        50i32, 50i32, 50i32, 60i32, 70i32, 50i32, 50i32, 50i32,
        30i32, 30i32, 30i32, 50i32, 60i32, 30i32, 30i32, 30i32,
        10i32, 10i32, 20i32, 40i32, 50i32, 10i32, 10i32, 10i32,
        10i32, 10i32, 10i32, 30i32, 40i32, 10i32, 10i32, 10i32,
        10i32, 10i32, 10i32, -30i32, -30i32, 10i32, 10i32, 10i32,
        0i32, 0i32, 0i32, 0i32, 0i32, 0i32, 0i32, 0i32,
    ]
}

/// Piece-square values of a white knight, rank 8 first, each rank from the a-file on.
pub open spec fn knight_table() -> Seq<i32> {
    seq![
        -25i32, -15i32, -15i32, -15i32, -15i32, -15i32, -15i32, -25i32,
        -15i32, -10i32, -10i32, -10i32, -10i32, -10i32, -10i32, -15i32,
        -15i32, -10i32, 15i32, 15i32, 15i32, 15i32, -10i32, -15i32,
        -15i32, -10i32, 15i32, 15i32, 15i32, 15i32, -10i32, -15i32,
        -15i32, -10i32, 15i32, 15i32, 15i32, 15i32, -10i32, -15i32,
        -15i32, -10i32, 15i32, 15i32, 15i32, 15i32, -10i32, -15i32,
        -15i32, -10i32, -10i32, -10i32, -10i32, -10i32, -10i32, -15i32,
        -25i32, -15i32, -15i32, -15i32, -15i32, -15i32, -15i32, -25i32,
    ]
}

/// Piece-square values of a white bishop, rank 8 first, each rank from the a-file on.
pub open spec fn bishop_table() -> Seq<i32> {
    seq![
        -25i32, 0i32, 0i32, 0i32, 0i32, 0i32, 0i32, -25i32,
        -20i32, 0i32, 0i32, 0i32, 0i32, 0i32, 0i32, -20i32,
        -15i32, 0i32, 0i32, 5i32, 5i32, 0i32, 0i32, -15i32,
        -15i32, 10i32, 10i32, 30i32, 30i32, 10i32, 10i32, -15i32,
        5i32, 5i32, 10i32, 25i32, 25i32, 10i32, 5i32, 5i32,
        5i32, 5i32, 5i32, 15i32, 15i32, 5i32, 5i32, 5i32,
        -15i32, 10i32, 5i32, 10i32, 10i32, 5i32, 10i32, -15i32,
        -25i32, -10i32, -10i32, -10i32, -10i32, -10i32, -10i32, -25i32,
    ]
}

/// Piece-square values of a white rook, rank 8 first, each rank from the a-file on.
pub open spec fn rook_table() -> Seq<i32> {
    seq![
        0i32, 0i32, 0i32, 0i32, 0i32, 0i32, 0i32, 0i32,
        20i32, 20i32, 20i32, 30i32, 30i32, 20i32, 20i32, 20i32,
        0i32, 0i32, 0i32, 0i32, 0i32, 0i32, 0i32, 0i32,
        0i32, 0i32, 0i32, 0i32, 0i32, 0i32, 0i32, 0i32,
        0i32, 0i32, 0i32, 0i32, 0i32, 0i32, 0i32, 0i32,
        0i32, 0i32, 0i32, 0i32, 0i32, 0i32, 0i32, 0i32,
        0i32, 0i32, 5i32, 5i32, 5i32, 0i32, 0i32, 0i32,
        0i32, 0i32, 5i32, 15i32, 15i32, 15i32, 0i32, 0i32,
    ]
}

/// Piece-square values of a white queen, rank 8 first, each rank from the a-file on.
pub open spec fn queen_table() -> Seq<i32> {
    seq![
        -20i32, -20i32, -10i32, -10i32, -10i32, -10i32, -20i32, -20i32,
        -15i32, -10i32, -5i32, -5i32, -5i32, -5i32, -10i32, -15i32,
        -10i32, -5i32, 15i32, 15i32, 15i32, 15i32, -5i32, -10i32,
        -10i32, -5i32, 15i32, 25i32, 25i32, 15i32, -5i32, -10i32,
        -10i32, -5i32, 15i32, 25i32, 25i32, 15i32, -5i32, -10i32,
        -10i32, -5i32, -5i32, -5i32, -5i32, -5i32, -5i32, -10i32,
        -15i32, -10i32, -5i32, -5i32, -5i32, -5i32, -10i32, -15i32,
        -20i32, -20i32, -10i32, -10i32, -10i32, -10i32, -20i32, -20i32,
    ]
}

/// Piece-square values of the white king in the middle game, rank 8 first, each rank from the
/// a-file on.
pub open spec fn king_mg_table() -> Seq<i32> {
    seq![
        -30i32, -40i32, -40i32, -50i32, -50i32, -40i32, -40i32, -30i32,
        -30i32, -40i32, -40i32, -50i32, -50i32, -40i32, -40i32, -30i32,
        -30i32, -40i32, -40i32, -50i32, -50i32, -40i32, -40i32, -30i32,
        -30i32, -40i32, -40i32, -50i32, -50i32, -40i32, -40i32, -30i32,
        -20i32, -30i32, -30i32, -40i32, -40i32, -30i32, -30i32, -20i32,
        -10i32, -20i32, -20i32, -20i32, -20i32, -20i32, -20i32, -10i32,
        20i32, 20i32, 0i32, 0i32, 0i32, 0i32, 20i32, 20i32,
        20i32, 30i32, 40i32, 0i32, 0i32, 10i32, 40i32, 20i32,
    ]
}

/// Piece-square values of the white king in the end game, rank 8 first, each rank from the
/// a-file on.
pub open spec fn king_eg_table() -> Seq<i32> {
    seq![
        -50i32, -40i32, -30i32, -20i32, -20i32, -30i32, -40i32, -50i32,
        -40i32, -20i32, 0i32, 10i32, 10i32, 0i32, -20i32, -40i32,
        -30i32, 0i32, 20i32, 30i32, 30i32, 20i32, 0i32, -30i32,
        -20i32, 10i32, 30i32, 40i32, 40i32, 30i32, 10i32, -20i32,
        -20i32, 10i32, 30i32, 40i32, 40i32, 30i32, 10i32, -20i32,
        -30i32, 0i32, 20i32, 30i32, 30i32, 20i32, 0i32, -30i32,
        -40i32, -20i32, 0i32, 10i32, 10i32, 0i32, -20i32, -40i32,
        -50i32, -40i32, -30i32, -20i32, -20i32, -30i32, -40i32, -50i32,
    ]
}

/// The piece-square table of a kind of piece other than the king (pawn 0 to queen 4).
pub open spec fn psqt_white(kind: int) -> Seq<i32> {
    if kind == 0 {
        pawn_table()
    } else if kind == 1 {
        knight_table()
    } else if kind == 2 {
        bishop_table()
    } else if kind == 3 {
        rook_table()
    } else {
        queen_table()
    }
}

/// Where square `i` is read in the tables for `colour`: the tables are written from
/// white's side, rank 8 first, so white reads them upside down.
pub open spec fn mapped_square(i: int, colour: Colour) -> int {
    match colour {
        Colour::White => (7 - rank_of(i)) * 8 + file_of(i),
        Colour::Black => i,
    }
}

/// The piece-square value of piece `p` (not a king) on square `i`.
pub open spec fn psqt_value(p: Piece, i: int) -> int {
    psqt_white(kind_of(p))[mapped_square(i, p.colour_of())] as int
}

/// The piece-square value square `i` adds for the pieces `p`.
pub open spec fn psqt_term(board: Board, p: Piece) -> spec_fn(int) -> int {
    |i: int|
        if board.at(i) == Some(p) {
            psqt_value(p, i)
        } else {
            0
        }
}

/// The piece-square values of the pieces `p` on the board.
pub open spec fn piece_psqt(board: Board, p: Piece) -> int {
    square_sum(psqt_term(board, p), 64)
}

/// The piece-square values of the pawns, knights, bishops, rooks and queens of `colour`.
pub open spec fn non_king_value(board: Board, colour: Colour) -> int {
    piece_psqt(board, Piece::of(colour, 0)) + piece_psqt(board, Piece::of(colour, 1))
        + piece_psqt(board, Piece::of(colour, 2)) + piece_psqt(board, Piece::of(colour, 3))
        + piece_psqt(board, Piece::of(colour, 4))
}

/// The table entry of a kind of piece other than the king.
fn psqt_entry(kind: usize, index: usize) -> (r: i32)
    requires
        kind < 5,
        index < 64,
    ensures
        r == psqt_white(kind as int)[index as int],
        -80 <= r <= 80,
{

    if kind == 0 {
        let t: [i32; 64] = [
            0, 0, 0, 0, 0, 0, 0, 0,
            70, 70, 70, 70, 80, 70, 70, 70,
            50, 50, 50, 60, 70, 50, 50, 50,
            30, 30, 30, 50, 60, 30, 30, 30,
            10, 10, 20, 40, 50, 10, 10, 10,
            10, 10, 10, 30, 40, 10, 10, 10,
            10, 10, 10, -30, -30, 10, 10, 10,
            0, 0, 0, 0, 0, 0, 0, 0,
        ];
        proof {
            assert(t@ =~= pawn_table());
        }
        t[index]

    } else if kind == 1 {
        let t: [i32; 64] = [
            -25, -15, -15, -15, -15, -15, -15, -25,
            -15, -10, -10, -10, -10, -10, -10, -15,
            -15, -10, 15, 15, 15, 15, -10, -15,
            -15, -10, 15, 15, 15, 15, -10, -15,
            -15, -10, 15, 15, 15, 15, -10, -15,
            -15, -10, 15, 15, 15, 15, -10, -15,
            -15, -10, -10, -10, -10, -10, -10, -15,
            -25, -15, -15, -15, -15, -15, -15, -25,
        ];
        proof {
            assert(t@ =~= knight_table());
        }
        t[index]

    } else if kind == 2 {
        let t: [i32; 64] = [
            -25, 0, 0, 0, 0, 0, 0, -25,
            -20, 0, 0, 0, 0, 0, 0, -20,
            -15, 0, 0, 5, 5, 0, 0, -15,
            -15, 10, 10, 30, 30, 10, 10, -15,
            5, 5, 10, 25, 25, 10, 5, 5,
            5, 5, 5, 15, 15, 5, 5, 5,
            -15, 10, 5, 10, 10, 5, 10, -15,
            -25, -10, -10, -10, -10, -10, -10, -25,
        ];
        proof {
            assert(t@ =~= bishop_table());
        }
        t[index]

    } else if kind == 3 {
        let t: [i32; 64] = [
            0, 0, 0, 0, 0, 0, 0, 0,
            20, 20, 20, 30, 30, 20, 20, 20,
            0, 0, 0, 0, 0, 0, 0, 0,
            0, 0, 0, 0, 0, 0, 0, 0,
            0, 0, 0, 0, 0, 0, 0, 0,
            0, 0, 0, 0, 0, 0, 0, 0,
            0, 0, 5, 5, 5, 0, 0, 0,
            0, 0, 5, 15, 15, 15, 0, 0,
        ];
        proof {
            assert(t@ =~= rook_table());
        }
        t[index]

    } else {
        let t: [i32; 64] = [
            -20, -20, -10, -10, -10, -10, -20, -20,
            -15, -10, -5, -5, -5, -5, -10, -15,
            -10, -5, 15, 15, 15, 15, -5, -10,
            -10, -5, 15, 25, 25, 15, -5, -10,
            -10, -5, 15, 25, 25, 15, -5, -10,
            -10, -5, -5, -5, -5, -5, -5, -10,
            -15, -10, -5, -5, -5, -5, -10, -15,
            -20, -20, -10, -10, -10, -10, -20, -20,
        ];
        proof {
            assert(t@ =~= queen_table());
        }
        t[index]
    }
}

/// The entry of the king's table in the middle game.
fn king_mg_entry(index: usize) -> (r: i32)
    requires
        index < 64,
    ensures
        r == king_mg_table()[index as int],
{
    let t: [i32; 64] = [
        -30, -40, -40, -50, -50, -40, -40, -30,
        -30, -40, -40, -50, -50, -40, -40, -30,
        -30, -40, -40, -50, -50, -40, -40, -30,
        -30, -40, -40, -50, -50, -40, -40, -30,
        -20, -30, -30, -40, -40, -30, -30, -20,
        -10, -20, -20, -20, -20, -20, -20, -10,
        20, 20, 0, 0, 0, 0, 20, 20,
        20, 30, 40, 0, 0, 10, 40, 20,
    ];
    proof {
        assert(t@ =~= king_mg_table());
    }
    t[index]
}

/// The entry of the king's table in the end game.
fn king_eg_entry(index: usize) -> (r: i32)
    requires
        index < 64,
    ensures
        r == king_eg_table()[index as int],
{
    let t: [i32; 64] = [
        -50, -40, -30, -20, -20, -30, -40, -50,
        -40, -20, 0, 10, 10, 0, -20, -40,
        -30, 0, 20, 30, 30, 20, 0, -30,
        -20, 10, 30, 40, 40, 30, 10, -20,
        -20, 10, 30, 40, 40, 30, 10, -20,
        -30, 0, 20, 30, 30, 20, 0, -30,
        -40, -20, 0, 10, 10, 0, -20, -40,
        -50, -40, -30, -20, -20, -30, -40, -50,
    ];
    proof {
        assert(t@ =~= king_eg_table());
    }
    t[index]
}

/// Where a square is read in the tables for a colour (see `mapped_square`).
fn map_square(square: Square, colour: Colour) -> (r: usize)
    ensures
        r == mapped_square(square.idx(), colour),
        r < 64,
{
    let index = square.index();
    match colour {
        Colour::White => ((7 - square.rank()) * 8 + square.file()) as usize,
        Colour::Black => index as usize,
    }
}

/// Sums the piece-square values of the pieces `piece` on the board.
fn piece_psqt_sum(piece: Piece, board: &Board) -> (r: i32)
    requires
        board.wf(),
        kind_of(piece) < 5,
    ensures
        r == piece_psqt(*board, piece),
        -80 * 64 <= r <= 80 * 64,
{
    let ghost f = psqt_term(*board, piece);
    let bb = board.pieces(piece);
    let mut squares = bb;
    let mut acc: i32 = 0;
    let ghost mut floor: int = 0;
    proof {
        assert forall|i: int| 0 <= i < 64 implies -80 <= #[trigger] f(i) <= 80 by {
            if board.at(i) == Some(piece) {
                let m = mapped_square(i, piece.colour_of());
                assert(0 <= m < 64);
                assert(-80 <= psqt_white(kind_of(piece))[m] <= 80);
            }
        }
    }
    while squares != 0
        invariant
            0 <= floor <= 64,
            board.wf(),
            kind_of(piece) < 5,
            bb == board.piece_bb(piece),
            f == psqt_term(*board, piece),
            forall|i: int| 0 <= i < 64 ==> -80 <= #[trigger] f(i) <= 80,
            forall|j: int| #[trigger] has_bit(squares, j) == (has_bit(bb, j) && j >= floor),
            acc == square_sum(f, floor),
            -80 * floor <= acc <= 80 * floor,
        decreases 64 - floor,
    {
        let ghost before = squares;
        let square = Square::next(&mut squares);
        let ghost j = square.idx();
        proof {
            assert forall|i: int| floor <= i < j implies #[trigger] f(i) == 0 by {
                assert(!has_bit(before, i));
                assert(!has_bit(bb, i));
            }
            lemma_square_sum_gap(f, floor, j);
            lemma_square_sum_bound(f, j, 80);
            assert(has_bit(bb, j));
        }
        let value = psqt_entry(piece.index() % 6, map_square(square, piece.colour()));
        proof {
            crate::piece::lemma_piece_of_colour_and_kind(piece);
        }
        acc = acc + value;
        proof {
            floor = j + 1;
        }
    }
    proof {
        assert forall|i: int| floor <= i < 64 implies #[trigger] f(i) == 0 by {
            assert(!has_bit(squares, i));
        }
        lemma_square_sum_gap(f, floor, 64);
        lemma_square_sum_bound(f, 64, 80);
    }
    acc
}

/// The piece-square values of the pawns, knights, bishops, rooks and queens of `colour`.
pub fn eval_non_king(colour: Colour, board: &Board) -> (r: i32)
    requires
        board.wf(),
    ensures
        r == non_king_value(*board, colour),
        -5 * 80 * 64 <= r <= 5 * 80 * 64,
{
    proof {
        crate::piece::lemma_of_has_colour_and_kind(colour, 0);
        crate::piece::lemma_of_has_colour_and_kind(colour, 1);
        crate::piece::lemma_of_has_colour_and_kind(colour, 2);
        crate::piece::lemma_of_has_colour_and_kind(colour, 3);
        crate::piece::lemma_of_has_colour_and_kind(colour, 4);
    }
    let pawns = piece_psqt_sum(Piece::pawn(colour), board);
    let knights = piece_psqt_sum(Piece::knight(colour), board);
    let bishops = piece_psqt_sum(Piece::bishop(colour), board);
    let rooks = piece_psqt_sum(Piece::rook(colour), board);
    let queens = piece_psqt_sum(Piece::queen(colour), board);
    pawns + knights + bishops + rooks + queens
}

/// The middle-game piece-square value of the king of `colour`.
pub fn eval_king_mg(colour: Colour, board: &Board) -> (r: i32)
    requires
        board.piece_bb(Piece::of(colour, 5)) != 0,
    ensures
        r == king_mg_table()[mapped_square(king_square(*board, colour), colour)],
        -80 <= r <= 80,
{
    let king = Square::first(board.pieces(Piece::king(colour)));
    proof {
        crate::bitboard::lemma_lowest_unique(board.piece_bb(Piece::of(colour, 5)), king.idx());
    }
    let r = king_mg_entry(map_square(king, colour));
    proof {
        let m = mapped_square(king.idx(), colour);
        assert(-80 <= king_mg_table()[m] <= 80);
    }
    r
}

/// The end-game piece-square value of the king of `colour`.
pub fn eval_king_eg(colour: Colour, board: &Board) -> (r: i32)
    requires
        board.piece_bb(Piece::of(colour, 5)) != 0,
    ensures
        r == king_eg_table()[mapped_square(king_square(*board, colour), colour)],
        -80 <= r <= 80,
{
    let king = Square::first(board.pieces(Piece::king(colour)));
    proof {
        crate::bitboard::lemma_lowest_unique(board.piece_bb(Piece::of(colour, 5)), king.idx());
    }
    let r = king_eg_entry(map_square(king, colour));
    proof {
        let m = mapped_square(king.idx(), colour);
        assert(-80 <= king_eg_table()[m] <= 80);
    }
    r
}

} // verus!
