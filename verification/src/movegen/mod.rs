pub mod attacks;
pub mod moves;
pub mod perft;

pub use moves::Move;

use crate::bitboard::{group_bitboard, has_bit};
use crate::collections::{list_limit, move_items, SmallList};
use crate::colour::Colour;
use crate::piece::{kind_of, Piece};
use crate::position::castling::right_colour;
use crate::position::{Board, CastlingRight, CastlingRights, Position};
use crate::square::{
    advanced, lemma_back_ranks, lemma_square_of, rank_of, square_of, Square, BACK_RANKS,
};
use attacks::{
    attacker_at, attacks_on, get_attacks, get_en_passant_attacks, is_attacked, is_in_check,
    king_square, occupied_bb, pawn_attack,
};
use vstd::prelude::*;

verus! {

broadcast use group_bitboard;

/// Moves a list holds inline before it spills to the heap.
pub const MAX_MOVES: usize = 128;

/// A list of moves.
pub type MoveList = SmallList<Move>;

/// Squares between the white king and its rook on the king side: f1, g1.
pub const WHITE_KING_CASTLING_PATH: u64 = 0x60u64;

/// Squares between the white king and its rook on the queen side: b1, c1, d1.
pub const WHITE_QUEEN_CASTLING_PATH: u64 = 0x0Eu64;

/// Squares between the black king and its rook on the king side: f8, g8.
pub const BLACK_KING_CASTLING_PATH: u64 = 0x6000000000000000u64;

/// Squares between the black king and its rook on the queen side: b8, c8, d8.
pub const BLACK_QUEEN_CASTLING_PATH: u64 = 0x0E00000000000000u64;

/// The rank pawns of a colour start on.
pub open spec fn start_rank(colour: Colour) -> int {
    match colour {
        Colour::White => 1,
        Colour::Black => 6,
    }
}

/// The pawns of the colour stand where they can still advance: no white pawn on the
/// eighth rank and no black pawn on the first.
pub open spec fn pawns_in_range(board: Board, colour: Colour) -> bool {
    forall|i: int|
        0 <= i < 64 && #[trigger] board.at(i) == Some(Piece::of(colour, 0)) ==> match colour {
            Colour::White => i < 56,
            Colour::Black => i >= 8,
        }
}

/// A pawn of `colour` on `from` can advance to `j`: one square ahead if it is empty, and
/// from its start rank two squares ahead if both are empty.
pub open spec fn pawn_advance(board: Board, from: int, colour: Colour, j: int) -> bool {
    let one = advanced(from, colour);
    let two = advanced(one, colour);
    board.at(one) is None && (j == one || (rank_of(from) == start_rank(colour) && j == two
        && board.at(two) is None))
}

/// A piece of `colour` attacks square `i`.
pub open spec fn attacked_by(board: Board, i: int, colour: Colour) -> bool {
    exists|j: int| #[trigger] attacker_at(board, colour, i, j)
}

/// The king of `colour` is attacked.
pub open spec fn in_check(board: Board, colour: Colour) -> bool {
    attacked_by(board, king_square(board, colour), colour.opposite())
}

/// Castling with the right passes: the right is held, the squares between king and rook
/// are empty, and the square the king crosses is not attacked.
pub open spec fn castle_side(
    rights: CastlingRights,
    right: CastlingRight,
    board: Board,
    path: u64,
    via: int,
) -> bool {
    &&& rights.holds(right)
    &&& occupied_bb(board) & path == 0
    &&& !attacked_by(board, via, right_colour(right).opposite())
}

/// `j` is a square the king of `colour` may castle to; no castling out of check.
pub open spec fn castling_target(rights: CastlingRights, colour: Colour, board: Board, j: int) -> bool {
    let side = match colour {
        Colour::White => (j == 6 && castle_side(
            rights,
            CastlingRight::WhiteKing,
            board,
            WHITE_KING_CASTLING_PATH,
            5,
        )) || (j == 2 && castle_side(
            rights,
            CastlingRight::WhiteQueen,
            board,
            WHITE_QUEEN_CASTLING_PATH,
            3,
        )),
        Colour::Black => (j == 62 && castle_side(
            rights,
            CastlingRight::BlackKing,
            board,
            BLACK_KING_CASTLING_PATH,
            61,
        )) || (j == 58 && castle_side(
            rights,
            CastlingRight::BlackQueen,
            board,
            BLACK_QUEEN_CASTLING_PATH,
            59,
        )),
    };
    side && !in_check(board, colour)
}

/// A square of the first or the eighth rank.
pub open spec fn on_back_rank(i: int) -> bool {
    rank_of(i) == 0 || rank_of(i) == 7
}

/// The squares a piece `p` on `from` may move to, for the side to move: with `all`, any
/// square it attacks that holds no piece of its own, a pawn's advances and a king's
/// castling; without, the squares it attacks that hold an opponent's piece and a pawn's
/// advances to the last rank.
pub open spec fn move_targets(pos: Position, p: Piece, from: int, all: bool, j: int) -> bool {
    let board = pos.board;
    let colour = pos.colour_to_move;
    if all {
        ||| attacks_on(board, p, from, j) && !has_bit(board.colour_bb(colour), j)
        ||| kind_of(p) == 0 && pawn_advance(board, from, colour, j)
        ||| kind_of(p) == 5 && castling_target(pos.castling_rights, colour, board, j)
    } else {
        ||| attacks_on(board, p, from, j) && has_bit(board.colour_bb(colour.opposite()), j)
        ||| kind_of(p) == 0 && pawn_advance(board, from, colour, j) && on_back_rank(j)
    }
}

/// The squares a pawn of `colour` on `square` can advance to.
fn get_pawn_advances(square: Square, colour: Colour, board: &Board) -> (r: u64)
    requires
        colour == Colour::White ==> square.idx() < 56,
        colour == Colour::Black ==> square.idx() >= 8,
    ensures
        forall|j: int| #[trigger] has_bit(r, j) == pawn_advance(*board, square.idx(), colour, j),
{
    let one_ahead = square.advance(colour);
    let _one = one_ahead.index();
    if board.has_piece_at(one_ahead) {
        return 0;
    }
    let start: u8 = match colour {
        Colour::White => 1,
        Colour::Black => 6,
    };
    if square.rank() != start {
        return one_ahead.u64();
    }
    let two_ahead = one_ahead.advance(colour);
    let _two = two_ahead.index();
    if board.has_piece_at(two_ahead) {
        return one_ahead.u64();
    }
    one_ahead.u64() | two_ahead.u64()
}

/// The squares the white king may castle to, out of check or not.
fn get_white_castling(rights: CastlingRights, board: &Board) -> (r: u64)
    requires
        board.wf(),
    ensures
        forall|j: int| #[trigger] has_bit(r, j) == ((j == 6 && castle_side(
            rights,
            CastlingRight::WhiteKing,
            *board,
            WHITE_KING_CASTLING_PATH,
            5,
        )) || (j == 2 && castle_side(
            rights,
            CastlingRight::WhiteQueen,
            *board,
            WHITE_QUEEN_CASTLING_PATH,
            3,
        ))),
{
    let mut castling: u64 = 0;
    let f1 = Square::from_index(5);
    let d1 = Square::from_index(3);
    let king_side = rights.has(CastlingRight::WhiteKing) && !board.has_occupancy_at(
        WHITE_KING_CASTLING_PATH,
    ) && !is_attacked(f1, Colour::Black, board);
    if king_side {
        castling = castling | Square::from_index(6).u64();
    }
    let queen_side = rights.has(CastlingRight::WhiteQueen) && !board.has_occupancy_at(
        WHITE_QUEEN_CASTLING_PATH,
    ) && !is_attacked(d1, Colour::Black, board);
    if queen_side {
        castling = castling | Square::from_index(2).u64();
    }
    castling
}

/// The squares the black king may castle to, out of check or not.
fn get_black_castling(rights: CastlingRights, board: &Board) -> (r: u64)
    requires
        board.wf(),
    ensures
        forall|j: int| #[trigger] has_bit(r, j) == ((j == 62 && castle_side(
            rights,
            CastlingRight::BlackKing,
            *board,
            BLACK_KING_CASTLING_PATH,
            61,
        )) || (j == 58 && castle_side(
            rights,
            CastlingRight::BlackQueen,
            *board,
            BLACK_QUEEN_CASTLING_PATH,
            59,
        ))),
{
    let mut castling: u64 = 0;
    let f8 = Square::from_index(61);
    let d8 = Square::from_index(59);
    let king_side = rights.has(CastlingRight::BlackKing) && !board.has_occupancy_at(
        BLACK_KING_CASTLING_PATH,
    ) && !is_attacked(f8, Colour::White, board);
    if king_side {
        castling = castling | Square::from_index(62).u64();
    }
    let queen_side = rights.has(CastlingRight::BlackQueen) && !board.has_occupancy_at(
        BLACK_QUEEN_CASTLING_PATH,
    ) && !is_attacked(d8, Colour::White, board);
    if queen_side {
        castling = castling | Square::from_index(58).u64();
    }
    castling
}

/// The squares the king of `colour` may castle to.
fn get_castling(rights: CastlingRights, colour: Colour, board: &Board) -> (r: u64)
    requires
        board.wf(),
        board.piece_bb(Piece::of(colour, 5)) != 0,
    ensures
        forall|j: int| #[trigger] has_bit(r, j) == castling_target(rights, colour, *board, j),
{
    let castling = match colour {
        Colour::White => get_white_castling(rights, board),
        Colour::Black => get_black_castling(rights, board),
    };
    if castling != 0 && !is_in_check(colour, board) {
        return castling;
    }
    proof {
        if castling == 0 {
            assert forall|j: int| !castling_target(rights, colour, *board, j) by {
                assert(!has_bit(castling, j));
            }
        }
    }
    0
}

/// The squares a piece of the side to move may go to from `from`: `move_targets`.
fn targets_of(pos: &Position, piece: Piece, from: Square, all: bool) -> (r: u64)
    requires
        pos.board.wf(),
        pawns_in_range(pos.board, pos.colour_to_move),
        piece.colour_of() == pos.colour_to_move,
        pos.board.at(from.idx()) == Some(piece),
    ensures
        forall|j: int| #[trigger]
            has_bit(r, j) == (0 <= j < 64 && move_targets(*pos, piece, from.idx(), all, j)),
{
    let colour = pos.colour_to_move;
    let board = &pos.board;
    let attacks = get_attacks(piece, from, board);
    let _from_index = from.index();
    proof {
        crate::piece::lemma_piece_of_colour_and_kind(piece);
        assert(has_bit(board.piece_bb(piece), from.idx()));
    }
    if all {
        let mut to_squares = !board.pieces_by_colour(colour) & attacks;
        if piece.is_pawn() {
            to_squares = to_squares | get_pawn_advances(from, colour, board);
        } else if piece.is_king() {
            to_squares = to_squares | get_castling(pos.castling_rights, colour, board);
        }
        to_squares
    } else {
        let mut to_squares = board.pieces_by_colour(colour.flip()) & attacks;
        if piece.is_pawn() {
            proof {
                lemma_back_ranks();
            }
            to_squares = to_squares | (get_pawn_advances(from, colour, board) & BACK_RANKS);
        }
        to_squares
    }
}

/// The rank of a promotion in the order moves are listed: none first, then knight,
/// bishop, rook and queen.
pub open spec fn promotion_rank(p: Option<Piece>) -> int {
    match p {
        None => 0,
        Some(q) => kind_of(q),
    }
}

/// A number that orders moves as they are listed: moves other than en passant captures
/// first, then by kind of piece, square from, square to and promotion.
pub open spec fn key_of(ep: int, kind: int, from: int, to: int, promotion: int) -> int {
    (((ep * 8 + kind) * 64 + from) * 64 + to) * 8 + promotion
}

/// The order number of a move (see `key_of`).
pub open spec fn move_key(m: Move) -> int {
    key_of(
        if m.is_en_passant {
            1
        } else {
            0
        },
        kind_of(m.piece),
        m.from.idx(),
        m.to.idx(),
        promotion_rank(m.promotion_piece),
    )
}

/// The moves are listed in strictly increasing order (see `key_of`).
pub open spec fn sorted_moves(s: Seq<Move>) -> bool {
    forall|i: int, j: int| 0 <= i < j < s.len() ==> move_key(s[i]) < move_key(s[j])
}

/// The promotion of a move is as the rules have it: a pawn that reaches the last rank
/// becomes a knight, bishop, rook or queen of its colour; no other move promotes.
pub open spec fn promotion_ok(m: Move, colour: Colour) -> bool {
    if kind_of(m.piece) == 0 && on_back_rank(m.to.idx()) {
        m.promotion_piece matches Some(q) && q.colour_of() == colour && 1 <= kind_of(q) <= 4
    } else {
        m.promotion_piece is None
    }
}

/// The move takes `piece` from `from` to `to`, as the generator writes it for the
/// position: what it captures, its promotion, and the rights and clock to restore.
pub open spec fn move_to(pos: Position, m: Move, piece: Piece, from: Square, to: int) -> bool {
    &&& m.piece == piece
    &&& m.from == from
    &&& m.to.idx() == to
    &&& !m.is_en_passant
    &&& m.captured_piece == pos.board.at(to)
    &&& promotion_ok(m, pos.colour_to_move)
    &&& m.castling_rights == pos.castling_rights
    &&& m.half_move_clock == pos.half_move_clock
}

/// The list goes on from `prefix`.
pub open spec fn extends(s: Seq<Move>, prefix: Seq<Move>) -> bool {
    s.len() >= prefix.len() && s.subrange(0, prefix.len() as int) == prefix
}

/// What was added to a list that goes on from `prefix`.
pub open spec fn added(s: Seq<Move>, prefix: Seq<Move>) -> Seq<Move> {
    s.subrange(prefix.len() as int, s.len() as int)
}

/// Pushing a move adds exactly that move.
proof fn lemma_push_contains(s: Seq<Move>, x: Move)
    ensures
        forall|m: Move| #[trigger] s.push(x).contains(m) <==> (s.contains(m) || m == x),
{
    assert forall|m: Move| #[trigger] s.push(x).contains(m) <==> (s.contains(m) || m == x) by {
        if s.contains(m) {
            let i = choose|i: int| 0 <= i < s.len() && s[i] == m;
            assert(s.push(x)[i] == m);
        }
        if m == x {
            assert(s.push(x)[s.len() as int] == m);
        }
        if s.push(x).contains(m) {
            let i = choose|i: int| 0 <= i < s.len() + 1 && s.push(x)[i] == m;
            if i < s.len() {
                assert(s[i] == m);
            }
        }
    }
}

/// Pushes one move and keeps track of what was added since `prefix`.
proof fn lemma_push_added(s: Seq<Move>, prefix: Seq<Move>, x: Move)
    requires
        extends(s, prefix),
    ensures
        extends(s.push(x), prefix),
        added(s.push(x), prefix) == added(s, prefix).push(x),
{
    assert(s.push(x).subrange(0, prefix.len() as int) =~= s.subrange(0, prefix.len() as int));
    assert(added(s.push(x), prefix) =~= added(s, prefix).push(x));
}

/// The moves that take `piece` from `from` to `to`, in order: one move, or the four
/// promotions of a pawn that reaches the last rank.
pub open spec fn target_moves(pos: Position, piece: Piece, from: Square, to: Square) -> Seq<Move> {
    let base = Move {
        piece,
        from,
        to,
        captured_piece: pos.board.at(to.idx()),
        promotion_piece: None,
        castling_rights: pos.castling_rights,
        half_move_clock: pos.half_move_clock,
        is_en_passant: false,
    };
    if kind_of(piece) == 0 && on_back_rank(to.idx()) {
        seq![
            Move { promotion_piece: Some(Piece::of(pos.colour_to_move, 1)), ..base },
            Move { promotion_piece: Some(Piece::of(pos.colour_to_move, 2)), ..base },
            Move { promotion_piece: Some(Piece::of(pos.colour_to_move, 3)), ..base },
            Move { promotion_piece: Some(Piece::of(pos.colour_to_move, 4)), ..base },
        ]
    } else {
        seq![base]
    }
}

/// The moves for one target square are those that go there, listed in order.
proof fn lemma_target_moves(pos: Position, piece: Piece, from: Square, to: Square)
    requires
        piece.colour_of() == pos.colour_to_move,
    ensures
        forall|m: Move| #[trigger] target_moves(pos, piece, from, to).contains(m)
            <==> move_to(pos, m, piece, from, to.idx()),
        sorted_moves(target_moves(pos, piece, from, to)),
        target_moves(pos, piece, from, to).len() <= 4,
        forall|k: int|
            0 <= k < target_moves(pos, piece, from, to).len() ==> key_of(
                0,
                kind_of(piece),
                from.idx(),
                to.idx(),
                0,
            ) <= move_key(#[trigger] target_moves(pos, piece, from, to)[k]) < key_of(
                0,
                kind_of(piece),
                from.idx(),
                to.idx() + 1,
                0,
            ),
{
    let c = pos.colour_to_move;
    let t = target_moves(pos, piece, from, to);
    crate::piece::lemma_of_has_colour_and_kind(c, 1);
    crate::piece::lemma_of_has_colour_and_kind(c, 2);
    crate::piece::lemma_of_has_colour_and_kind(c, 3);
    crate::piece::lemma_of_has_colour_and_kind(c, 4);
    crate::piece::lemma_piece_of_colour_and_kind(piece);
    assert forall|m: Move| #[trigger] t.contains(m) <==> move_to(pos, m, piece, from, to.idx()) by {
        if t.contains(m) {
            let i = choose|i: int| 0 <= i < t.len() && t[i] == m;
            crate::square::lemma_idx_injective(m.to, to);
        }
        if move_to(pos, m, piece, from, to.idx()) {
            crate::square::lemma_idx_injective(m.to, to);
            if kind_of(piece) == 0 && on_back_rank(to.idx()) {
                let q = m.promotion_piece->0;
                crate::piece::lemma_piece_of_colour_and_kind(q);
                assert(t[kind_of(q) - 1] == m);
            } else {
                assert(t[0] == m);
            }
        }
    }
}

/// Adds the moves of a piece from `from` to `to`: `target_moves`.
fn add_target_moves(moves: &mut MoveList, pos: &Position, piece: Piece, from: Square, to: Square)
    requires
        move_items(*old(moves)).len() + 4 < list_limit(),
        piece.colour_of() == pos.colour_to_move,
    ensures
        move_items(*final(moves)) == move_items(*old(moves)) + target_moves(*pos, piece, from, to),
{
    let captured_piece = pos.board.piece_at(to);
    let base = Move {
        piece,
        from,
        to,
        captured_piece,
        promotion_piece: None,
        castling_rights: pos.castling_rights,
        half_move_clock: pos.half_move_clock,
        is_en_passant: false,
    };
    let ghost start = move_items(*moves);
    if piece.is_pawn() && to.is_back_rank() {
        let promotions = Piece::promotions(pos.colour_to_move);
        let mut k: usize = 0;
        while k < 4
            invariant
                k <= 4,
                start.len() + 4 < list_limit(),
                kind_of(piece) == 0 && on_back_rank(to.idx()),
                forall|i: int| 0 <= i < 4 ==> #[trigger] promotions@[i] == Piece::of(pos.colour_to_move, i + 1),
                base == (Move {
                    piece,
                    from,
                    to,
                    captured_piece: pos.board.at(to.idx()),
                    promotion_piece: None,
                    castling_rights: pos.castling_rights,
                    half_move_clock: pos.half_move_clock,
                    is_en_passant: false,
                }),
                move_items(*moves) == start + target_moves(*pos, piece, from, to).take(k as int),
            decreases 4 - k,
        {
            moves.push(Move { promotion_piece: Some(promotions[k]), ..base });
            proof {
                let t = target_moves(*pos, piece, from, to);
                let x = Move { promotion_piece: Some(promotions@[k as int]), ..base };
                if k == 0 {
                    assert(t[0] == x);
                } else if k == 1 {
                    assert(t[1] == x);
                } else if k == 2 {
                    assert(t[2] == x);
                } else {
                    assert(t[3] == x);
                }
                assert(t.take(k + 1) =~= t.take(k as int).push(x));
            }
            k = k + 1;
        }
        proof {
            let t = target_moves(*pos, piece, from, to);
            assert(t.take(4) =~= t);
        }
    } else {
        moves.push(base);
        proof {
            assert(start.push(base) =~= start + seq![base]);
        }
    }
}

/// The moves of `piece` from `from` to the squares below `n`, in order.
pub open spec fn to_moves(pos: Position, piece: Piece, from: Square, all: bool, n: int) -> Seq<Move>
    decreases n,
{
    if n <= 0 {
        Seq::empty()
    } else {
        to_moves(pos, piece, from, all, n - 1) + if move_targets(
            pos,
            piece,
            from.idx(),
            all,
            n - 1,
        ) {
            target_moves(pos, piece, from, square_of(n - 1))
        } else {
            Seq::empty()
        }
    }
}

/// No target in `a..b` adds no move, and each square adds at most four.
proof fn lemma_to_moves_gap(pos: Position, piece: Piece, from: Square, all: bool, a: int, b: int)
    requires
        0 <= a <= b,
        forall|j: int| a <= j < b ==> !#[trigger] move_targets(pos, piece, from.idx(), all, j),
    ensures
        to_moves(pos, piece, from, all, b) == to_moves(pos, piece, from, all, a),
    decreases b - a,
{
    if b > a {
        lemma_to_moves_gap(pos, piece, from, all, a, b - 1);
        assert(to_moves(pos, piece, from, all, b) =~= to_moves(pos, piece, from, all, b - 1));
    }
}

proof fn lemma_to_moves_len(pos: Position, piece: Piece, from: Square, all: bool, n: int)
    requires
        0 <= n,
        piece.colour_of() == pos.colour_to_move,
    ensures
        to_moves(pos, piece, from, all, n).len() <= 4 * n,
    decreases n,
{
    if n > 0 {
        lemma_to_moves_len(pos, piece, from, all, n - 1);
        lemma_target_moves(pos, piece, from, square_of(n - 1));
    }
}

/// Adds the moves of `piece` from `from`, in order of their target square.
fn add_moves(moves: &mut MoveList, pos: &Position, piece: Piece, from: Square, all: bool)
    requires
        pos.board.wf(),
        pawns_in_range(pos.board, pos.colour_to_move),
        piece.colour_of() == pos.colour_to_move,
        pos.board.at(from.idx()) == Some(piece),
        move_items(*old(moves)).len() + 256 < list_limit(),
    ensures
        move_items(*final(moves)) == move_items(*old(moves)) + to_moves(*pos, piece, from, all, 64),
        to_moves(*pos, piece, from, all, 64).len() <= 256,
{
    let targets = targets_of(pos, piece, from, all);
    let mut to_squares = targets;
    let ghost start = move_items(*moves);
    let ghost mut floor: int = 0;
    proof {
        assert(start + to_moves(*pos, piece, from, all, 0) =~= start);
    }
    while to_squares != 0
        invariant
            0 <= floor <= 64,
            piece.colour_of() == pos.colour_to_move,
            start.len() + 256 < list_limit(),
            forall|j: int| #[trigger]
                has_bit(targets, j) == (0 <= j < 64 && move_targets(*pos, piece, from.idx(), all, j)),
            forall|j: int| #[trigger] has_bit(to_squares, j) == (has_bit(targets, j) && j >= floor),
            move_items(*moves) == start + to_moves(*pos, piece, from, all, floor),
        decreases 64 - floor,
    {
        let ghost before = to_squares;
        let to = Square::next(&mut to_squares);
        let ghost j = to.idx();
        proof {
            assert forall|i: int| floor <= i < j implies !#[trigger] move_targets(*pos, piece, from.idx(), all, i) by {
                assert(!has_bit(before, i));
                assert(!has_bit(targets, i));
            }
            lemma_to_moves_gap(*pos, piece, from, all, floor, j);
            lemma_to_moves_len(*pos, piece, from, all, j);
            lemma_square_of(j);
        }
        add_target_moves(moves, pos, piece, from, to);
        proof {
            assert(to_moves(*pos, piece, from, all, j + 1) =~= to_moves(*pos, piece, from, all, j)
                + target_moves(*pos, piece, from, to));
            floor = j + 1;
        }
    }
    proof {
        assert forall|i: int| floor <= i < 64 implies !#[trigger] move_targets(*pos, piece, from.idx(), all, i) by {
            assert(!has_bit(to_squares, i));
        }
        lemma_to_moves_gap(*pos, piece, from, all, floor, 64);
        lemma_to_moves_len(*pos, piece, from, all, 64);
    }
}

/// The moves of `piece` from the squares below `n` that hold it, in order.
pub open spec fn piece_moves(pos: Position, piece: Piece, all: bool, n: int) -> Seq<Move>
    decreases n,
{
    if n <= 0 {
        Seq::empty()
    } else {
        piece_moves(pos, piece, all, n - 1) + if pos.board.at(n - 1) == Some(piece) {
            to_moves(pos, piece, square_of(n - 1), all, 64)
        } else {
            Seq::empty()
        }
    }
}

proof fn lemma_piece_moves_gap(pos: Position, piece: Piece, all: bool, a: int, b: int)
    requires
        0 <= a <= b,
        forall|j: int| a <= j < b ==> #[trigger] pos.board.at(j) != Some(piece),
    ensures
        piece_moves(pos, piece, all, b) == piece_moves(pos, piece, all, a),
    decreases b - a,
{
    if b > a {
        lemma_piece_moves_gap(pos, piece, all, a, b - 1);
        assert(piece_moves(pos, piece, all, b) =~= piece_moves(pos, piece, all, b - 1));
    }
}

proof fn lemma_piece_moves_len(pos: Position, piece: Piece, all: bool, n: int)
    requires
        0 <= n,
        piece.colour_of() == pos.colour_to_move,
    ensures
        piece_moves(pos, piece, all, n).len() <= 256 * n,
    decreases n,
{
    if n > 0 {
        lemma_piece_moves_len(pos, piece, all, n - 1);
        lemma_to_moves_len(pos, piece, square_of(n - 1), all, 64);
    }
}

/// The moves of the pieces of the side to move whose kind is below `k`: pawns first,
/// then knights, bishops, rooks, queens and the king.
pub open spec fn kind_moves(pos: Position, all: bool, k: int) -> Seq<Move>
    decreases k,
{
    if k <= 0 {
        Seq::empty()
    } else {
        kind_moves(pos, all, k - 1) + piece_moves(
            pos,
            Piece::of(pos.colour_to_move, k - 1),
            all,
            64,
        )
    }
}

proof fn lemma_kind_moves_len(pos: Position, all: bool, k: int)
    requires
        0 <= k <= 6,
    ensures
        kind_moves(pos, all, k).len() <= 16384 * k,
    decreases k,
{
    if k > 0 {
        lemma_kind_moves_len(pos, all, k - 1);
        let p = Piece::of(pos.colour_to_move, k - 1);
        crate::piece::lemma_of_has_colour_and_kind(pos.colour_to_move, k - 1);
        lemma_piece_moves_len(pos, p, all, 64);
        assert(kind_moves(pos, all, k) == kind_moves(pos, all, k - 1) + piece_moves(pos, p, all, 64));
        assert(piece_moves(pos, p, all, 64).len() <= 16384);
    }
}

/// The en passant capture onto `to` by the pawn on `from`.
pub open spec fn en_passant_move(pos: Position, from: Square, to: Square) -> Move {
    Move {
        piece: Piece::of(pos.colour_to_move, 0),
        from,
        to,
        captured_piece: Some(Piece::of(pos.colour_to_move.opposite(), 0)),
        promotion_piece: None,
        castling_rights: pos.castling_rights,
        half_move_clock: pos.half_move_clock,
        is_en_passant: true,
    }
}

/// A pawn of the side to move on square `i` can capture en passant onto `to`.
pub open spec fn en_passant_from(pos: Position, to: Square, i: int) -> bool {
    pawn_attack(to.idx(), pos.colour_to_move.opposite(), i) && pos.board.at(i) == Some(
        Piece::of(pos.colour_to_move, 0),
    )
}

/// The en passant captures by the pawns on the squares below `n`, in order.
pub open spec fn en_passant_moves(pos: Position, n: int) -> Seq<Move>
    decreases n,
{
    if n <= 0 {
        Seq::empty()
    } else {
        en_passant_moves(pos, n - 1) + match pos.en_passant_square {
            Some(to) => if en_passant_from(pos, to, n - 1) {
                seq![en_passant_move(pos, square_of(n - 1), to)]
            } else {
                Seq::empty()
            },
            None => Seq::empty(),
        }
    }
}

proof fn lemma_en_passant_moves_gap(pos: Position, to: Square, a: int, b: int)
    requires
        0 <= a <= b,
        pos.en_passant_square == Some(to),
        forall|j: int| a <= j < b ==> !#[trigger] en_passant_from(pos, to, j),
    ensures
        en_passant_moves(pos, b) == en_passant_moves(pos, a),
    decreases b - a,
{
    if b > a {
        lemma_en_passant_moves_gap(pos, to, a, b - 1);
        assert(en_passant_moves(pos, b) =~= en_passant_moves(pos, b - 1));
    }
}

proof fn lemma_en_passant_moves_none(pos: Position, n: int)
    requires
        0 <= n,
        pos.en_passant_square is None,
    ensures
        en_passant_moves(pos, n) == Seq::<Move>::empty(),
    decreases n,
{
    if n > 0 {
        lemma_en_passant_moves_none(pos, n - 1);
        assert(en_passant_moves(pos, n) =~= Seq::<Move>::empty());
    }
}

proof fn lemma_en_passant_moves_len(pos: Position, n: int)
    requires
        0 <= n,
    ensures
        en_passant_moves(pos, n).len() <= n,
    decreases n,
{
    if n > 0 {
        lemma_en_passant_moves_len(pos, n - 1);
    }
}

/// The moves the generator lists for a position, in order: those of each kind of piece,
/// pawns first, then the en passant captures. With `all`, every pseudo-legal move; without,
/// the captures and the promotions by advance.
pub open spec fn generated_moves(pos: Position, all: bool) -> Seq<Move> {
    kind_moves(pos, all, 6) + en_passant_moves(pos, 64)
}

/// The generator lists no more than a bounded number of moves.
pub proof fn lemma_generated_moves_len(pos: Position, all: bool)
    ensures
        generated_moves(pos, all).len() <= 16384 * 6 + 64,
{
    lemma_kind_moves_len(pos, all, 6);
    lemma_en_passant_moves_len(pos, 64);
}

/// Lists the moves of the side to move (see `generated_moves`).
fn generate_moves(pos: &Position, all: bool) -> (moves: MoveList)
    requires
        pos.board.wf(),
        pawns_in_range(pos.board, pos.colour_to_move),
    ensures
        move_items(moves) == generated_moves(*pos, all),
{
    let mut moves = MoveList::new();
    let colour = pos.colour_to_move;
    let pieces = Piece::pieces_by_colour(colour);
    let mut k: usize = 0;
    while k < 6
        invariant
            k <= 6,
            colour == pos.colour_to_move,
            pos.board.wf(),
            pawns_in_range(pos.board, pos.colour_to_move),
            forall|i: int| 0 <= i < 6 ==> #[trigger] pieces@[i] == Piece::of(colour, i),
            move_items(moves) == kind_moves(*pos, all, k as int),
        decreases 6 - k,
    {
        let piece = pieces[k];
        let bb = pos.board.pieces(piece);
        let mut from_squares = bb;
        let ghost mut floor: int = 0;
        proof {
            crate::piece::lemma_of_has_colour_and_kind(colour, k as int);
            lemma_kind_moves_len(*pos, all, k as int);
            assert(kind_moves(*pos, all, k as int) + piece_moves(*pos, piece, all, 0) =~= kind_moves(*pos, all, k as int));
        }
        while from_squares != 0
            invariant
                0 <= floor <= 64,
                k < 6,
                pos.board.wf(),
                pawns_in_range(pos.board, pos.colour_to_move),
                piece == Piece::of(colour, k as int),
                piece.colour_of() == pos.colour_to_move,
                bb == pos.board.piece_bb(piece),
                forall|j: int| #[trigger] has_bit(from_squares, j) == (has_bit(bb, j) && j >= floor),
                kind_moves(*pos, all, k as int).len() <= 16384 * k,
                move_items(moves) == kind_moves(*pos, all, k as int) + piece_moves(*pos, piece, all, floor),
            decreases 64 - floor,
        {
            let ghost before = from_squares;
            let from = Square::next(&mut from_squares);
            let ghost j = from.idx();
            proof {
                assert forall|i: int| floor <= i < j implies #[trigger] pos.board.at(i) != Some(piece) by {
                    assert(!has_bit(before, i));
                    assert(!has_bit(bb, i));
                }
                lemma_piece_moves_gap(*pos, piece, all, floor, j);
                lemma_piece_moves_len(*pos, piece, all, j);
                lemma_square_of(j);
                assert(has_bit(bb, j));
                assert(j < 64);
                assert(piece_moves(*pos, piece, all, floor).len() <= 256 * j);
                assert(move_items(moves).len() <= 16384 * k + 256 * j);
            }
            add_moves(&mut moves, pos, piece, from, all);
            proof {
                assert(piece_moves(*pos, piece, all, j + 1) =~= piece_moves(*pos, piece, all, j)
                    + to_moves(*pos, piece, from, all, 64));
                floor = j + 1;
            }
        }
        proof {
            assert forall|i: int| floor <= i < 64 implies #[trigger] pos.board.at(i) != Some(piece) by {
                assert(!has_bit(from_squares, i));
            }
            lemma_piece_moves_gap(*pos, piece, all, floor, 64);
            assert(kind_moves(*pos, all, k + 1) =~= kind_moves(*pos, all, k as int) + piece_moves(*pos, piece, all, 64));
        }
        k = k + 1;
    }
    proof {
        lemma_kind_moves_len(*pos, all, 6);
    }
    match pos.en_passant_square {
        Some(to) => {
            let bb = get_en_passant_attacks(to, colour, &pos.board);
            let mut from_squares = bb;
            let ghost mut floor: int = 0;
            let ghost start = move_items(moves);
            proof {
                assert(start + en_passant_moves(*pos, 0) =~= start);
            }
            while from_squares != 0
                invariant
                    0 <= floor <= 64,
                    pos.board.wf(),
                    colour == pos.colour_to_move,
                    pos.en_passant_square == Some(to),
                    start.len() <= 16384 * 6,
                    forall|j: int| #[trigger] has_bit(bb, j) == (pawn_attack(to.idx(), colour.opposite(), j)
                        && has_bit(pos.board.piece_bb(Piece::of(colour, 0)), j)),
                    forall|j: int| #[trigger] has_bit(from_squares, j) == (has_bit(bb, j) && j >= floor),
                    move_items(moves) == start + en_passant_moves(*pos, floor),
                decreases 64 - floor,
            {
                let ghost before = from_squares;
                let from = Square::next(&mut from_squares);
                let ghost j = from.idx();
                proof {
                    assert forall|i: int| floor <= i < j implies !#[trigger] en_passant_from(*pos, to, i) by {
                        assert(!has_bit(before, i));
                        assert(!has_bit(bb, i));
                        if 0 <= i < 64 {
                            assert(has_bit(pos.board.piece_bb(Piece::of(colour, 0)), i) == (pos.board.at(i) == Some(Piece::of(colour, 0))));
                        }
                    }
                    lemma_en_passant_moves_gap(*pos, to, floor, j);
                    lemma_en_passant_moves_len(*pos, j);
                    lemma_square_of(j);
                    assert(has_bit(bb, j));
                    assert(has_bit(pos.board.piece_bb(Piece::of(colour, 0)), j) == (pos.board.at(j) == Some(Piece::of(colour, 0))));
                }
                moves.push(
                    Move {
                        piece: Piece::pawn(colour),
                        from,
                        to,
                        captured_piece: Some(Piece::pawn(colour.flip())),
                        promotion_piece: None,
                        castling_rights: pos.castling_rights,
                        half_move_clock: pos.half_move_clock,
                        is_en_passant: true,
                    },
                );
                proof {
                    assert(en_passant_moves(*pos, j + 1) =~= en_passant_moves(*pos, j).push(
                        en_passant_move(*pos, from, to),
                    ));
                    floor = j + 1;
                }
            }
            proof {
                assert forall|i: int| floor <= i < 64 implies !#[trigger] en_passant_from(*pos, to, i) by {
                    assert(!has_bit(from_squares, i));
                    if 0 <= i < 64 {
                        assert(has_bit(pos.board.piece_bb(Piece::of(colour, 0)), i) == (pos.board.at(i) == Some(Piece::of(colour, 0))));
                    }
                }
                lemma_en_passant_moves_gap(*pos, to, floor, 64);
            }
        },
        None => {
            proof {
                lemma_en_passant_moves_none(*pos, 64);
                assert(move_items(moves) + en_passant_moves(*pos, 64) =~= move_items(moves));
            }
        },
    }
    moves
}

/// A move the generator lists for the position: with `all`, a pseudo-legal move of the
/// side to move (one that may leave its king in check); without, a capture or a promotion
/// by advance. Either a piece of the side to move goes to one of its targets (see
/// `move_targets`), capturing what stands there and promoting as the rules have it, or a
/// pawn captures en passant onto the en passant square. The move keeps the castling rights
/// and half-move clock of the position.
pub open spec fn generated(pos: Position, m: Move, all: bool) -> bool {
    let board = pos.board;
    let colour = pos.colour_to_move;
    &&& m.castling_rights == pos.castling_rights
    &&& m.half_move_clock == pos.half_move_clock
    &&& if m.is_en_passant {
        &&& pos.en_passant_square == Some(m.to)
        &&& m == en_passant_move(pos, m.from, m.to)
        &&& en_passant_from(pos, m.to, m.from.idx())
    } else {
        &&& m.piece.colour_of() == colour
        &&& board.at(m.from.idx()) == Some(m.piece)
        &&& move_targets(pos, m.piece, m.from.idx(), all, m.to.idx())
        &&& m.captured_piece == board.at(m.to.idx())
        &&& promotion_ok(m, colour)
    }
}

/// A move of a joined list is a move of one of its parts.
proof fn lemma_add_contains(a: Seq<Move>, b: Seq<Move>, m: Move)
    ensures
        (a + b).contains(m) <==> (a.contains(m) || b.contains(m)),
{
    if (a + b).contains(m) {
        let i = choose|i: int| 0 <= i < (a + b).len() && (a + b)[i] == m;
        if i < a.len() {
            assert(a[i] == m);
        } else {
            assert(b[i - a.len()] == m);
        }
    }
    if a.contains(m) {
        let i = choose|i: int| 0 <= i < a.len() && a[i] == m;
        assert((a + b)[i] == m);
    }
    if b.contains(m) {
        let i = choose|i: int| 0 <= i < b.len() && b[i] == m;
        assert((a + b)[a.len() + i] == m);
    }
}

proof fn lemma_to_moves_sound(pos: Position, piece: Piece, from: Square, all: bool, n: int, m: Move)
    requires
        0 <= n <= 64,
        piece.colour_of() == pos.colour_to_move,
        to_moves(pos, piece, from, all, n).contains(m),
    ensures
        move_to(pos, m, piece, from, m.to.idx()),
        move_targets(pos, piece, from.idx(), all, m.to.idx()),
    decreases n,
{
    if n > 0 {
        let head = to_moves(pos, piece, from, all, n - 1);
        let tail = if move_targets(pos, piece, from.idx(), all, n - 1) {
            target_moves(pos, piece, from, square_of(n - 1))
        } else {
            Seq::<Move>::empty()
        };
        lemma_add_contains(head, tail, m);
        if head.contains(m) {
            lemma_to_moves_sound(pos, piece, from, all, n - 1, m);
        } else {
            lemma_square_of(n - 1);
            lemma_target_moves(pos, piece, from, square_of(n - 1));
        }
    }
}

proof fn lemma_piece_moves_sound(pos: Position, piece: Piece, all: bool, n: int, m: Move)
    requires
        0 <= n <= 64,
        piece.colour_of() == pos.colour_to_move,
        piece_moves(pos, piece, all, n).contains(m),
    ensures
        pos.board.at(m.from.idx()) == Some(piece),
        move_to(pos, m, piece, m.from, m.to.idx()),
        move_targets(pos, piece, m.from.idx(), all, m.to.idx()),
    decreases n,
{
    if n > 0 {
        let head = piece_moves(pos, piece, all, n - 1);
        let from = square_of(n - 1);
        let tail = if pos.board.at(n - 1) == Some(piece) {
            to_moves(pos, piece, from, all, 64)
        } else {
            Seq::<Move>::empty()
        };
        lemma_add_contains(head, tail, m);
        if head.contains(m) {
            lemma_piece_moves_sound(pos, piece, all, n - 1, m);
        } else {
            lemma_square_of(n - 1);
            lemma_to_moves_sound(pos, piece, from, all, 64, m);
        }
    }
}

proof fn lemma_kind_moves_sound(pos: Position, all: bool, k: int, m: Move)
    requires
        0 <= k <= 6,
        kind_moves(pos, all, k).contains(m),
    ensures
        m.piece.colour_of() == pos.colour_to_move,
        pos.board.at(m.from.idx()) == Some(m.piece),
        move_to(pos, m, m.piece, m.from, m.to.idx()),
        move_targets(pos, m.piece, m.from.idx(), all, m.to.idx()),
    decreases k,
{
    if k > 0 {
        let head = kind_moves(pos, all, k - 1);
        let piece = Piece::of(pos.colour_to_move, k - 1);
        let tail = piece_moves(pos, piece, all, 64);
        lemma_add_contains(head, tail, m);
        if head.contains(m) {
            lemma_kind_moves_sound(pos, all, k - 1, m);
        } else {
            crate::piece::lemma_of_has_colour_and_kind(pos.colour_to_move, k - 1);
            lemma_piece_moves_sound(pos, piece, all, 64, m);
        }
    }
}

proof fn lemma_en_passant_moves_sound(pos: Position, n: int, m: Move)
    requires
        0 <= n <= 64,
        en_passant_moves(pos, n).contains(m),
    ensures
        pos.en_passant_square == Some(m.to),
        m == en_passant_move(pos, m.from, m.to),
        en_passant_from(pos, m.to, m.from.idx()),
    decreases n,
{
    if n > 0 {
        let head = en_passant_moves(pos, n - 1);
        let tail = match pos.en_passant_square {
            Some(to) => if en_passant_from(pos, to, n - 1) {
                seq![en_passant_move(pos, square_of(n - 1), to)]
            } else {
                Seq::<Move>::empty()
            },
            None => Seq::<Move>::empty(),
        };
        lemma_add_contains(head, tail, m);
        if head.contains(m) {
            lemma_en_passant_moves_sound(pos, n - 1, m);
        } else {
            lemma_square_of(n - 1);
            assert(tail[0] == m);
        }
    }
}

/// Every move the generator lists is one it is meant to list (see `generated`).
pub proof fn lemma_generated_sound(pos: Position, all: bool, m: Move)
    requires
        generated_moves(pos, all).contains(m),
    ensures
        generated(pos, m, all),
{
    lemma_add_contains(kind_moves(pos, all, 6), en_passant_moves(pos, 64), m);
    if kind_moves(pos, all, 6).contains(m) {
        lemma_kind_moves_sound(pos, all, 6, m);
        let i = choose|i: int| 0 <= i < kind_moves(pos, all, 6).len() && kind_moves(pos, all, 6)[i] == m;
    } else {
        lemma_en_passant_moves_sound(pos, 64, m);
    }
}

proof fn lemma_to_moves_grow(pos: Position, piece: Piece, from: Square, all: bool, k: int, n: int, m: Move)
    requires
        0 <= k <= n,
        to_moves(pos, piece, from, all, k).contains(m),
    ensures
        to_moves(pos, piece, from, all, n).contains(m),
    decreases n - k,
{
    if k < n {
        lemma_to_moves_grow(pos, piece, from, all, k, n - 1, m);
        let extra = if move_targets(pos, piece, from.idx(), all, n - 1) {
            target_moves(pos, piece, from, square_of(n - 1))
        } else {
            Seq::empty()
        };
        lemma_add_contains(to_moves(pos, piece, from, all, n - 1), extra, m);
    }
}

proof fn lemma_piece_moves_grow(pos: Position, piece: Piece, all: bool, k: int, n: int, m: Move)
    requires
        0 <= k <= n,
        piece_moves(pos, piece, all, k).contains(m),
    ensures
        piece_moves(pos, piece, all, n).contains(m),
    decreases n - k,
{
    if k < n {
        lemma_piece_moves_grow(pos, piece, all, k, n - 1, m);
        let extra = if pos.board.at(n - 1) == Some(piece) {
            to_moves(pos, piece, square_of(n - 1), all, 64)
        } else {
            Seq::empty()
        };
        lemma_add_contains(piece_moves(pos, piece, all, n - 1), extra, m);
    }
}

proof fn lemma_kind_moves_grow(pos: Position, all: bool, k: int, n: int, m: Move)
    requires
        0 <= k <= n,
        kind_moves(pos, all, k).contains(m),
    ensures
        kind_moves(pos, all, n).contains(m),
    decreases n - k,
{
    if k < n {
        lemma_kind_moves_grow(pos, all, k, n - 1, m);
        lemma_add_contains(
            kind_moves(pos, all, n - 1),
            piece_moves(pos, Piece::of(pos.colour_to_move, n - 1), all, 64),
            m,
        );
    }
}

proof fn lemma_en_passant_moves_grow(pos: Position, k: int, n: int, m: Move)
    requires
        0 <= k <= n,
        en_passant_moves(pos, k).contains(m),
    ensures
        en_passant_moves(pos, n).contains(m),
    decreases n - k,
{
    if k < n {
        lemma_en_passant_moves_grow(pos, k, n - 1, m);
        let extra = match pos.en_passant_square {
            Some(to) => if en_passant_from(pos, to, n - 1) {
                seq![en_passant_move(pos, square_of(n - 1), to)]
            } else {
                Seq::empty()
            },
            None => Seq::empty(),
        };
        lemma_add_contains(en_passant_moves(pos, n - 1), extra, m);
    }
}

/// Every move the generator is meant to list (see `generated`) is listed: with
/// `lemma_generated_sound`, the generator lists exactly those moves.
pub proof fn lemma_generated_complete(pos: Position, all: bool, m: Move)
    requires
        generated(pos, m, all),
        0 <= m.from.idx() < 64,
        0 <= m.to.idx() < 64,
    ensures
        generated_moves(pos, all).contains(m),
{
    let from = m.from.idx();
    let to = m.to.idx();
    lemma_square_of(from);
    lemma_square_of(to);
    if m.is_en_passant {
        let t = m.to;
        let extra = seq![en_passant_move(pos, square_of(from), t)];
        assert(en_passant_moves(pos, from + 1) == en_passant_moves(pos, from) + extra);
        assert(extra[0] == m);
        lemma_add_contains(en_passant_moves(pos, from), extra, m);
        lemma_en_passant_moves_grow(pos, from + 1, 64, m);
        lemma_add_contains(kind_moves(pos, all, 6), en_passant_moves(pos, 64), m);
    } else {
        let piece = m.piece;
        let c = pos.colour_to_move;
        crate::piece::lemma_piece_of_colour_and_kind(piece);
        let k = kind_of(piece);
        assert(piece == Piece::of(c, k));
        lemma_target_moves(pos, piece, m.from, m.to);
        assert(move_to(pos, m, piece, m.from, to));
        assert(target_moves(pos, piece, m.from, m.to).contains(m));
        assert(to_moves(pos, piece, m.from, all, to + 1) == to_moves(pos, piece, m.from, all, to)
            + target_moves(pos, piece, m.from, square_of(to)));
        lemma_add_contains(
            to_moves(pos, piece, m.from, all, to),
            target_moves(pos, piece, m.from, m.to),
            m,
        );
        lemma_to_moves_grow(pos, piece, m.from, all, to + 1, 64, m);
        assert(piece_moves(pos, piece, all, from + 1) == piece_moves(pos, piece, all, from)
            + to_moves(pos, piece, square_of(from), all, 64));
        lemma_add_contains(
            piece_moves(pos, piece, all, from),
            to_moves(pos, piece, m.from, all, 64),
            m,
        );
        lemma_piece_moves_grow(pos, piece, all, from + 1, 64, m);
        assert(kind_moves(pos, all, k + 1) == kind_moves(pos, all, k) + piece_moves(pos, piece, all, 64));
        lemma_add_contains(kind_moves(pos, all, k), piece_moves(pos, piece, all, 64), m);
        lemma_kind_moves_grow(pos, all, k + 1, 6, m);
        lemma_add_contains(kind_moves(pos, all, 6), en_passant_moves(pos, 64), m);
    }
}

/// The order numbers of the moves lie from `lo` up to `hi`.
pub open spec fn keys_within(s: Seq<Move>, lo: int, hi: int) -> bool {
    forall|i: int| 0 <= i < s.len() ==> lo <= #[trigger] move_key(s[i]) < hi
}

/// Sorted lists whose order numbers lie in ranges one after the other join into a sorted
/// list.
proof fn lemma_sorted_concat(a: Seq<Move>, b: Seq<Move>, lo: int, mid: int, hi: int)
    requires
        lo <= mid <= hi,
        sorted_moves(a),
        sorted_moves(b),
        keys_within(a, lo, mid),
        keys_within(b, mid, hi),
    ensures
        sorted_moves(a + b),
        keys_within(a + b, lo, hi),
{
    let c = a + b;
    assert forall|i: int, j: int| 0 <= i < j < c.len() implies move_key(c[i]) < move_key(c[j]) by {
        if j < a.len() {
            assert(c[i] == a[i] && c[j] == a[j]);
        } else if i >= a.len() {
            assert(c[i] == b[i - a.len()] && c[j] == b[j - a.len()]);
        } else {
            assert(c[i] == a[i] && c[j] == b[j - a.len()]);
            assert(move_key(a[i]) < mid);
            assert(mid <= move_key(b[j - a.len()]));
        }
    }
    assert forall|i: int| 0 <= i < c.len() implies lo <= #[trigger] move_key(c[i]) < hi by {
        if i < a.len() {
            assert(c[i] == a[i]);
        } else {
            assert(c[i] == b[i - a.len()]);
        }
    }
}

proof fn lemma_to_moves_sorted(pos: Position, piece: Piece, from: Square, all: bool, n: int)
    requires
        0 <= n <= 64,
        piece.colour_of() == pos.colour_to_move,
    ensures
        sorted_moves(to_moves(pos, piece, from, all, n)),
        keys_within(
            to_moves(pos, piece, from, all, n),
            key_of(0, kind_of(piece), from.idx(), 0, 0),
            key_of(0, kind_of(piece), from.idx(), n, 0),
        ),
    decreases n,
{
    let k = kind_of(piece);
    if n > 0 {
        lemma_to_moves_sorted(pos, piece, from, all, n - 1);
        let to = square_of(n - 1);
        lemma_square_of(n - 1);
        let extra = if move_targets(pos, piece, from.idx(), all, n - 1) {
            target_moves(pos, piece, from, to)
        } else {
            Seq::empty()
        };
        lemma_target_moves(pos, piece, from, to);
        assert(key_of(0, k, from.idx(), n - 1, 0) <= key_of(0, k, from.idx(), n, 0));
        lemma_sorted_concat(
            to_moves(pos, piece, from, all, n - 1),
            extra,
            key_of(0, k, from.idx(), 0, 0),
            key_of(0, k, from.idx(), n - 1, 0),
            key_of(0, k, from.idx(), n, 0),
        );
    }
}

proof fn lemma_piece_moves_sorted(pos: Position, piece: Piece, all: bool, n: int)
    requires
        0 <= n <= 64,
        piece.colour_of() == pos.colour_to_move,
    ensures
        sorted_moves(piece_moves(pos, piece, all, n)),
        keys_within(
            piece_moves(pos, piece, all, n),
            key_of(0, kind_of(piece), 0, 0, 0),
            key_of(0, kind_of(piece), n, 0, 0),
        ),
    decreases n,
{
    let k = kind_of(piece);
    if n > 0 {
        lemma_piece_moves_sorted(pos, piece, all, n - 1);
        let from = square_of(n - 1);
        lemma_square_of(n - 1);
        lemma_to_moves_sorted(pos, piece, from, all, 64);
        let extra = if pos.board.at(n - 1) == Some(piece) {
            to_moves(pos, piece, from, all, 64)
        } else {
            Seq::empty()
        };
        assert(key_of(0, k, n - 1, 64, 0) == key_of(0, k, n, 0, 0));
        lemma_sorted_concat(
            piece_moves(pos, piece, all, n - 1),
            extra,
            key_of(0, k, 0, 0, 0),
            key_of(0, k, n - 1, 0, 0),
            key_of(0, k, n, 0, 0),
        );
    }
}

proof fn lemma_kind_moves_sorted(pos: Position, all: bool, k: int)
    requires
        0 <= k <= 6,
    ensures
        sorted_moves(kind_moves(pos, all, k)),
        keys_within(kind_moves(pos, all, k), key_of(0, 0, 0, 0, 0), key_of(0, k, 0, 0, 0)),
    decreases k,
{
    if k > 0 {
        lemma_kind_moves_sorted(pos, all, k - 1);
        let piece = Piece::of(pos.colour_to_move, k - 1);
        crate::piece::lemma_of_has_colour_and_kind(pos.colour_to_move, k - 1);
        lemma_piece_moves_sorted(pos, piece, all, 64);
        assert(key_of(0, k - 1, 64, 0, 0) == key_of(0, k, 0, 0, 0));
        lemma_sorted_concat(
            kind_moves(pos, all, k - 1),
            piece_moves(pos, piece, all, 64),
            key_of(0, 0, 0, 0, 0),
            key_of(0, k - 1, 0, 0, 0),
            key_of(0, k, 0, 0, 0),
        );
    }
}

proof fn lemma_en_passant_moves_sorted(pos: Position, n: int)
    requires
        0 <= n <= 64,
        pos.en_passant_square matches Some(e) ==> 0 <= e.idx() < 64,
    ensures
        sorted_moves(en_passant_moves(pos, n)),
        keys_within(en_passant_moves(pos, n), key_of(1, 0, 0, 0, 0), key_of(1, 0, n, 0, 0)),
    decreases n,
{
    if n > 0 {
        lemma_en_passant_moves_sorted(pos, n - 1);
        lemma_square_of(n - 1);
        crate::piece::lemma_of_has_colour_and_kind(pos.colour_to_move, 0);
        let extra = match pos.en_passant_square {
            Some(to) => if en_passant_from(pos, to, n - 1) {
                seq![en_passant_move(pos, square_of(n - 1), to)]
            } else {
                Seq::empty()
            },
            None => Seq::empty(),
        };
        if let Some(to) = pos.en_passant_square {
            let _ = to.idx();
            if en_passant_from(pos, to, n - 1) {
                let m = en_passant_move(pos, square_of(n - 1), to);
                assert(key_of(1, 0, n - 1, 0, 0) <= move_key(m) < key_of(1, 0, n, 0, 0));
            }
        }
        lemma_sorted_concat(
            en_passant_moves(pos, n - 1),
            extra,
            key_of(1, 0, 0, 0, 0),
            key_of(1, 0, n - 1, 0, 0),
            key_of(1, 0, n, 0, 0),
        );
    }
}

/// The generator lists the moves in strictly increasing order (see `key_of`), so no move
/// twice.
pub proof fn lemma_generated_sorted(pos: Position, all: bool)
    requires
        pos.en_passant_square matches Some(e) ==> 0 <= e.idx() < 64,
    ensures
        sorted_moves(generated_moves(pos, all)),
        forall|i: int, j: int|
            0 <= i < j < generated_moves(pos, all).len() ==> #[trigger] generated_moves(pos, all)[i]
                != #[trigger] generated_moves(pos, all)[j],
{
    lemma_kind_moves_sorted(pos, all, 6);
    lemma_en_passant_moves_sorted(pos, 64);
    lemma_sorted_concat(
        kind_moves(pos, all, 6),
        en_passant_moves(pos, 64),
        key_of(0, 0, 0, 0, 0),
        key_of(1, 0, 0, 0, 0),
        key_of(1, 0, 64, 0, 0),
    );
    let g = generated_moves(pos, all);
    assert forall|i: int, j: int| 0 <= i < j < g.len() implies #[trigger] g[i] != #[trigger] g[j] by {
        assert(move_key(g[i]) < move_key(g[j]));
    }
}

/// Two positions agree on what the generator reads: board, side to move, castling rights,
/// en passant square and half-move clock.
pub open spec fn same_state(p: Position, q: Position) -> bool {
    &&& p.board == q.board
    &&& p.colour_to_move == q.colour_to_move
    &&& p.castling_rights == q.castling_rights
    &&& p.en_passant_square == q.en_passant_square
    &&& p.half_move_clock == q.half_move_clock
}

/// Two positions agree on what the generator reads but for the en passant square.
pub open spec fn same_placement(p: Position, q: Position) -> bool {
    &&& p.board == q.board
    &&& p.colour_to_move == q.colour_to_move
    &&& p.castling_rights == q.castling_rights
    &&& p.half_move_clock == q.half_move_clock
}

proof fn lemma_to_moves_same(p: Position, q: Position, piece: Piece, from: Square, all: bool, n: int)
    requires
        same_placement(p, q),
    ensures
        to_moves(p, piece, from, all, n) == to_moves(q, piece, from, all, n),
    decreases n,
{
    if n > 0 {
        lemma_to_moves_same(p, q, piece, from, all, n - 1);
        assert(move_targets(p, piece, from.idx(), all, n - 1) == move_targets(q, piece, from.idx(), all, n - 1));
        assert(target_moves(p, piece, from, square_of(n - 1)) == target_moves(q, piece, from, square_of(n - 1)));
    }
}

proof fn lemma_piece_moves_same(p: Position, q: Position, piece: Piece, all: bool, n: int)
    requires
        same_placement(p, q),
    ensures
        piece_moves(p, piece, all, n) == piece_moves(q, piece, all, n),
    decreases n,
{
    if n > 0 {
        lemma_piece_moves_same(p, q, piece, all, n - 1);
        lemma_to_moves_same(p, q, piece, square_of(n - 1), all, 64);
    }
}

proof fn lemma_kind_moves_same(p: Position, q: Position, all: bool, k: int)
    requires
        same_placement(p, q),
    ensures
        kind_moves(p, all, k) == kind_moves(q, all, k),
    decreases k,
{
    if k > 0 {
        lemma_kind_moves_same(p, q, all, k - 1);
        lemma_piece_moves_same(p, q, Piece::of(p.colour_to_move, k - 1), all, 64);
    }
}

proof fn lemma_en_passant_moves_same(p: Position, q: Position, n: int)
    requires
        same_state(p, q),
    ensures
        en_passant_moves(p, n) == en_passant_moves(q, n),
    decreases n,
{
    if n > 0 {
        lemma_en_passant_moves_same(p, q, n - 1);
        assert(en_passant_move(p, square_of(n - 1), square_of(0)) == en_passant_move(q, square_of(n - 1), square_of(0)));
        if let Some(to) = p.en_passant_square {
            assert(en_passant_move(p, square_of(n - 1), to) == en_passant_move(q, square_of(n - 1), to));
            assert(en_passant_from(p, to, n - 1) == en_passant_from(q, to, n - 1));
        }
    }
}

/// The generator lists the same moves for positions that agree on what it reads.
pub proof fn lemma_generated_moves_same(p: Position, q: Position, all: bool)
    requires
        same_state(p, q),
    ensures
        generated_moves(p, all) == generated_moves(q, all),
{
    lemma_kind_moves_same(p, q, all, 6);
    lemma_en_passant_moves_same(p, q, 64);
}

/// The en passant captures are the only moves the generator lists that depend on the en
/// passant square: a move other than an en passant capture listed for a position is listed
/// for every position that agrees with it on the rest of what the generator reads.
pub proof fn lemma_generated_without_en_passant(p: Position, q: Position, all: bool, m: Move)
    requires
        same_placement(p, q),
        generated_moves(p, all).contains(m),
        !m.is_en_passant,
    ensures
        generated_moves(q, all).contains(m),
{
    lemma_kind_moves_same(p, q, all, 6);
    lemma_add_contains(kind_moves(p, all, 6), en_passant_moves(p, 64), m);
    lemma_add_contains(kind_moves(q, all, 6), en_passant_moves(q, 64), m);
    if en_passant_moves(p, 64).contains(m) {
        lemma_en_passant_moves_are_en_passant(p, 64, m);
    }
}

/// The moves of `en_passant_moves` are en passant captures.
proof fn lemma_en_passant_moves_are_en_passant(pos: Position, n: int, m: Move)
    requires
        en_passant_moves(pos, n).contains(m),
    ensures
        m.is_en_passant,
    decreases n,
{
    if n > 0 {
        let rest = en_passant_moves(pos, n - 1);
        let last = match pos.en_passant_square {
            Some(to) => if en_passant_from(pos, to, n - 1) {
                seq![en_passant_move(pos, square_of(n - 1), to)]
            } else {
                Seq::empty()
            },
            None => Seq::empty(),
        };
        assert(en_passant_moves(pos, n) == rest + last);
        lemma_add_contains(rest, last, m);
        if rest.contains(m) {
            lemma_en_passant_moves_are_en_passant(pos, n - 1, m);
        } else {
            assert(last[0] == m);
        }
    }
}

/// Lists every pseudo-legal move of the side to move: moves that may leave the own king
/// in check are listed too.
pub fn generate_all_moves(pos: &Position) -> (moves: MoveList)
    requires
        pos.board.wf(),
        pawns_in_range(pos.board, pos.colour_to_move),
    ensures
        move_items(moves) == generated_moves(*pos, true),
{
    generate_moves(pos, true)
}

/// Lists the captures and the promotions by advance of the side to move.
pub fn generate_non_quiet_moves(pos: &Position) -> (moves: MoveList)
    requires
        pos.board.wf(),
        pawns_in_range(pos.board, pos.colour_to_move),
    ensures
        move_items(moves) == generated_moves(*pos, false),
{
    generate_moves(pos, false)
}

} // verus!
