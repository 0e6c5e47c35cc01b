use super::attacks::{
    attacker_at, attacks_on, is_in_check, king_square, lemma_piece_attack_irreflexive, occupied_bb,
};
use super::moves::{capture_index, capture_square_ok, castles, Move};
use super::{
    attacked_by, castle_side, castling_target, generate_all_moves, generated, generated_moves,
    in_check, lemma_generated_moves_same, pawn_advance, pawns_in_range, same_state,
    BLACK_KING_CASTLING_PATH, BLACK_QUEEN_CASTLING_PATH, WHITE_KING_CASTLING_PATH,
    WHITE_QUEEN_CASTLING_PATH,
};
use crate::bitboard::{group_bitboard, has_bit};
use crate::colour::Colour;
use crate::piece::{kind_of, Piece};
use crate::position::castling::{right_colour, rook_square};
use crate::collections::{key_items, list_limit, move_items};
use crate::position::{
    board_after, castle_move, castle_rook_from, castle_rook_to, did_move, double_pawn_advance,
    move_fits, move_keeps_board, moved_fields, placed_piece, Board, CastlingRight, CastlingRights,
    Position,
};
use crate::square::{advanced, dist, file_of, lemma_square_of, rank_of, square_of, Square};
use vstd::prelude::*;

verus! {

broadcast use group_bitboard;

/// `colour` has exactly one king on the board.
pub open spec fn one_king(board: Board, colour: Colour) -> bool {
    exists|k: int|
        0 <= k < 64 && #[trigger] board.at(k) == Some(Piece::of(colour, 5)) && forall|j: int|
            0 <= j < 64 && #[trigger] board.at(j) == Some(Piece::of(colour, 5)) ==> j == k
}

/// Each castling right held has its rook in its corner.
pub open spec fn rights_consistent(pos: Position) -> bool {
    forall|right: CastlingRight| #[trigger]
        pos.castling_rights.holds(right) ==> pos.board.at(rook_square(right)) == Some(
            Piece::of(right_colour(right), 3),
        )
}

/// The en passant square, if any, is the empty square a pawn of the other side has just
/// passed over: on the sixth rank when white is to move, on the third when black is.
pub open spec fn en_passant_ok(pos: Position) -> bool {
    match pos.en_passant_square {
        None => true,
        Some(e) => {
            let c = pos.colour_to_move;
            &&& rank_of(e.idx()) == (if c == Colour::White {
                5int
            } else {
                2int
            })
            &&& pos.board.at(e.idx()) is None
            &&& pos.board.at(advanced(e.idx(), c.opposite())) == Some(Piece::of(c.opposite(), 0))
        },
    }
}

/// A position the engine can play from: a well-formed board with its key table, one king
/// each, no pawn on the last rank, castling rights with their rooks and a sound en passant
/// square.
pub open spec fn sound_position(pos: Position) -> bool {
    &&& pos.wf()
    &&& one_king(pos.board, Colour::White)
    &&& one_king(pos.board, Colour::Black)
    &&& pawns_in_range(pos.board, Colour::White)
    &&& pawns_in_range(pos.board, Colour::Black)
    &&& rights_consistent(pos)
    &&& en_passant_ok(pos)
}

/// A sound position whose side not to move is not in check: one that can come about in a
/// game.
pub open spec fn playable(pos: Position) -> bool {
    &&& sound_position(pos)
    &&& !in_check(pos.board, pos.colour_to_move.opposite())
}

/// Whether `colour` has exactly one king on the board.
pub fn has_one_king(board: &Board, colour: Colour) -> (r: bool)
    ensures
        r == one_king(*board, colour),
{
    let king = Piece::king(colour);
    let mut found: Option<u8> = None;
    let mut i: u8 = 0;
    while i < 64
        invariant
            i <= 64,
            king == Piece::of(colour, 5),
            match found {
                None => forall|j: int| 0 <= j < i ==> #[trigger] board.at(j) != Some(king),
                Some(k) => k < i && board.at(k as int) == Some(king) && forall|j: int|
                    0 <= j < i && #[trigger] board.at(j) == Some(king) ==> j == k,
            },
        decreases 64 - i,
    {
        let here = board.piece_at(Square::from_index(i));
        let is_king = match here {
            Some(p) => p == king,
            None => false,
        };
        if is_king {
            if let Some(k) = found {
                proof {
                    assert(board.at(i as int) == Some(king));
                    assert(!one_king(*board, colour)) by {
                        if one_king(*board, colour) {
                            let w = choose|w: int|
                                0 <= w < 64 && #[trigger] board.at(w) == Some(Piece::of(colour, 5))
                                    && forall|j: int|
                                    0 <= j < 64 && #[trigger] board.at(j) == Some(
                                        Piece::of(colour, 5),
                                    ) ==> j == w;
                            assert(board.at(k as int) == Some(Piece::of(colour, 5)));
                        }
                    }
                }
                return false;
            }
            found = Some(i);
        }
        i = i + 1;
    }
    match found {
        None => {
            proof {
                assert(!one_king(*board, colour));
            }
            false
        },
        Some(k) => {
            proof {
                assert(board.at(k as int) == Some(Piece::of(colour, 5)));
            }
            true
        },
    }
}

/// Whether no pawn of `colour` stands on the last rank it could reach.
pub fn has_pawns_in_range(board: &Board, colour: Colour) -> (r: bool)
    ensures
        r == pawns_in_range(*board, colour),
{
    let pawn = Piece::pawn(colour);
    let start: u8 = match colour {
        Colour::White => 56,
        Colour::Black => 0,
    };
    let mut i: u8 = start;
    while i < start + 8
        invariant
            start <= i <= start + 8,
            start == (if colour == Colour::White { 56int } else { 0int }),
            pawn == Piece::of(colour, 0),
            forall|j: int| start <= j < i ==> #[trigger] board.at(j) != Some(pawn),
        decreases start + 8 - i,
    {
        let here = board.piece_at(Square::from_index(i));
        let is_pawn = match here {
            Some(p) => p == pawn,
            None => false,
        };
        if is_pawn {
            proof {
                assert(board.at(i as int) == Some(Piece::of(colour, 0)));
            }
            return false;
        }
        i = i + 1;
    }
    true
}

/// Whether the rook of a castling right stands in its corner.
fn rook_in_corner(board: &Board, right: CastlingRight) -> (r: bool)
    ensures
        r == (board.at(rook_square(right)) == Some(Piece::of(right_colour(right), 3))),
{
    let (square, colour): (u8, Colour) = match right {
        CastlingRight::WhiteKing => (7, Colour::White),
        CastlingRight::WhiteQueen => (0, Colour::White),
        CastlingRight::BlackKing => (63, Colour::Black),
        CastlingRight::BlackQueen => (56, Colour::Black),
    };
    let rook = Piece::rook(colour);
    match board.piece_at(Square::from_index(square)) {
        Some(p) => p == rook,
        None => false,
    }
}

/// Whether every castling right held has its rook in its corner.
pub fn has_consistent_rights(pos: &Position) -> (r: bool)
    ensures
        r == rights_consistent(*pos),
{
    let rights = pos.castling_rights;
    let ok_wk = !rights.has(CastlingRight::WhiteKing) || rook_in_corner(&pos.board, CastlingRight::WhiteKing);
    let ok_wq = !rights.has(CastlingRight::WhiteQueen) || rook_in_corner(&pos.board, CastlingRight::WhiteQueen);
    let ok_bk = !rights.has(CastlingRight::BlackKing) || rook_in_corner(&pos.board, CastlingRight::BlackKing);
    let ok_bq = !rights.has(CastlingRight::BlackQueen) || rook_in_corner(&pos.board, CastlingRight::BlackQueen);
    proof {
        if ok_wk && ok_wq && ok_bk && ok_bq {
            assert forall|right: CastlingRight| #[trigger] pos.castling_rights.holds(right) implies pos.board.at(rook_square(right)) == Some(Piece::of(right_colour(right), 3)) by {
                match right {
                    CastlingRight::WhiteKing => {},
                    CastlingRight::WhiteQueen => {},
                    CastlingRight::BlackKing => {},
                    CastlingRight::BlackQueen => {},
                }
            }
        } else {
            if !ok_wk {
                assert(pos.castling_rights.holds(CastlingRight::WhiteKing));
            } else if !ok_wq {
                assert(pos.castling_rights.holds(CastlingRight::WhiteQueen));
            } else if !ok_bk {
                assert(pos.castling_rights.holds(CastlingRight::BlackKing));
            } else {
                assert(pos.castling_rights.holds(CastlingRight::BlackQueen));
            }
        }
    }
    ok_wk && ok_wq && ok_bk && ok_bq
}

/// Whether the en passant square, if any, is one a pawn of the other side has just passed.
pub fn has_sound_en_passant(pos: &Position) -> (r: bool)
    ensures
        r == en_passant_ok(*pos),
{
    match pos.en_passant_square {
        None => true,
        Some(e) => {
            let c = pos.colour_to_move;
            let o = c.flip();
            let _index = e.index();
            let rank = e.rank();
            let want: u8 = match c {
                Colour::White => 5,
                Colour::Black => 2,
            };
            if rank != want {
                return false;
            }
            if pos.board.has_piece_at(e) {
                return false;
            }
            let behind = e.advance(o);
            match pos.board.piece_at(behind) {
                Some(p) => p == Piece::pawn(o),
                None => false,
            }
        },
    }
}

/// Whether the engine can play from the position (see `playable`).
pub fn is_playable(pos: &Position) -> (r: bool)
    requires
        pos.wf(),
    ensures
        r == playable(*pos),
{
    if !has_one_king(&pos.board, Colour::White) || !has_one_king(&pos.board, Colour::Black) {
        return false;
    }
    if !has_pawns_in_range(&pos.board, Colour::White) || !has_pawns_in_range(&pos.board, Colour::Black) {
        return false;
    }
    if !has_consistent_rights(pos) || !has_sound_en_passant(pos) {
        return false;
    }
    let other = pos.opponent_colour();
    proof {
        lemma_one_king(pos.board, other);
    }
    !is_in_check(other, &pos.board)
}

/// With one king, the king square is its square, and the king bitboard is not empty.
pub proof fn lemma_one_king(board: Board, colour: Colour)
    requires
        board.wf(),
        one_king(board, colour),
    ensures
        0 <= king_square(board, colour) < 64,
        board.at(king_square(board, colour)) == Some(Piece::of(colour, 5)),
        forall|j: int|
            0 <= j < 64 && #[trigger] board.at(j) == Some(Piece::of(colour, 5)) ==> j
                == king_square(board, colour),
        board.piece_bb(Piece::of(colour, 5)) != 0,
{
    let k = choose|k: int|
        0 <= k < 64 && #[trigger] board.at(k) == Some(Piece::of(colour, 5)) && forall|j: int|
            0 <= j < 64 && #[trigger] board.at(j) == Some(Piece::of(colour, 5)) ==> j == k;
    let bb = board.piece_bb(Piece::of(colour, 5));
    assert(has_bit(bb, k));
    assert forall|j: int| 0 <= j < k implies !#[trigger] has_bit(bb, j) by {
        if has_bit(bb, j) {
            assert(board.at(j) == Some(Piece::of(colour, 5)));
        }
    }
    crate::bitboard::lemma_lowest_unique(bb, k);
    if bb == 0 {
        assert(has_bit(0u64, k));
    }
}

proof fn bv_castling_paths()
    by (bit_vector)
    ensures
        (0x60u64 >> 5u64) & 1u64 == 1u64,
        (0x60u64 >> 6u64) & 1u64 == 1u64,
        (0x0Eu64 >> 1u64) & 1u64 == 1u64,
        (0x0Eu64 >> 2u64) & 1u64 == 1u64,
        (0x0Eu64 >> 3u64) & 1u64 == 1u64,
        (0x6000000000000000u64 >> 61u64) & 1u64 == 1u64,
        (0x6000000000000000u64 >> 62u64) & 1u64 == 1u64,
        (0x0E00000000000000u64 >> 57u64) & 1u64 == 1u64,
        (0x0E00000000000000u64 >> 58u64) & 1u64 == 1u64,
        (0x0E00000000000000u64 >> 59u64) & 1u64 == 1u64,
{
}

/// A square that is not occupied holds no piece.
proof fn lemma_unoccupied_empty(board: Board, j: int)
    requires
        board.wf(),
        0 <= j < 64,
        !has_bit(occupied_bb(board), j),
    ensures
        board.at(j) is None,
{
    if board.at(j) is Some {
        let p = board.at(j)->0;
        assert(has_bit(board.colour_bb(p.colour_of()), j));
    }
}

/// What castling to a square needs of the board: the target and the rook's landing
/// square are empty, and the rook stands in its corner.
pub proof fn lemma_castling_target_facts(pos: Position, to: int)
    requires
        sound_position(pos),
        castling_target(pos.castling_rights, pos.colour_to_move, pos.board, to),
    ensures
        file_of(to) == 2 || file_of(to) == 6,
        0 <= castle_rook_from(to) < 64,
        0 <= castle_rook_to(to) < 64,
        rank_of(to) == (if pos.colour_to_move == Colour::White {
            0int
        } else {
            7int
        }),
        pos.board.at(to) is None,
        pos.board.at(castle_rook_to(to)) is None,
        pos.board.at(castle_rook_from(to)) == Some(Piece::of(pos.colour_to_move, 3)),
{
    let board = pos.board;
    let occ = occupied_bb(board);
    bv_castling_paths();
    if pos.colour_to_move == Colour::White {
        if to == 6 && castle_side(pos.castling_rights, CastlingRight::WhiteKing, board, WHITE_KING_CASTLING_PATH, 5) {
            assert(has_bit(WHITE_KING_CASTLING_PATH, 5) && has_bit(WHITE_KING_CASTLING_PATH, 6));
            assert(!has_bit(occ & WHITE_KING_CASTLING_PATH, 5) && !has_bit(occ & WHITE_KING_CASTLING_PATH, 6));
            lemma_unoccupied_empty(board, 5);
            lemma_unoccupied_empty(board, 6);
            assert(pos.castling_rights.holds(CastlingRight::WhiteKing));
        } else {
            assert(has_bit(WHITE_QUEEN_CASTLING_PATH, 2) && has_bit(WHITE_QUEEN_CASTLING_PATH, 3));
            assert(!has_bit(occ & WHITE_QUEEN_CASTLING_PATH, 2) && !has_bit(occ & WHITE_QUEEN_CASTLING_PATH, 3));
            lemma_unoccupied_empty(board, 2);
            lemma_unoccupied_empty(board, 3);
            assert(pos.castling_rights.holds(CastlingRight::WhiteQueen));
        }
    } else {
        if to == 62 && castle_side(pos.castling_rights, CastlingRight::BlackKing, board, BLACK_KING_CASTLING_PATH, 61) {
            assert(has_bit(BLACK_KING_CASTLING_PATH, 61) && has_bit(BLACK_KING_CASTLING_PATH, 62));
            assert(!has_bit(occ & BLACK_KING_CASTLING_PATH, 61) && !has_bit(occ & BLACK_KING_CASTLING_PATH, 62));
            lemma_unoccupied_empty(board, 61);
            lemma_unoccupied_empty(board, 62);
            assert(pos.castling_rights.holds(CastlingRight::BlackKing));
        } else {
            assert(has_bit(BLACK_QUEEN_CASTLING_PATH, 58) && has_bit(BLACK_QUEEN_CASTLING_PATH, 59));
            assert(!has_bit(occ & BLACK_QUEEN_CASTLING_PATH, 58) && !has_bit(occ & BLACK_QUEEN_CASTLING_PATH, 59));
            lemma_unoccupied_empty(board, 58);
            lemma_unoccupied_empty(board, 59);
            assert(pos.castling_rights.holds(CastlingRight::BlackQueen));
        }
    }
}

/// A move the generator lists in a sound position fits it, keeps its board well formed,
/// and meets what making it asks for.
pub proof fn lemma_generated_fits(pos: Position, m: Move)
    requires
        sound_position(pos),
        generated(pos, m, true),
        0 <= m.from.idx() < 64,
        0 <= m.to.idx() < 64,
    ensures
        move_fits(pos, m),
        move_keeps_board(pos.board, m, pos.colour_to_move),
        capture_square_ok(m),
        kind_of(placed_piece(m)) == 0 && dist(rank_of(m.from.idx()), rank_of(m.to.idx())) == 2
            ==> (pos.colour_to_move == Colour::White ==> m.from.idx() < 56) && (
        pos.colour_to_move == Colour::Black ==> m.from.idx() >= 8),
        castle_move(m) ==> file_of(m.to.idx()) == 2 || file_of(m.to.idx()) == 6,
        castles(m) ==> castle_move(m),
{
    let board = pos.board;
    let c = pos.colour_to_move;
    let from = m.from.idx();
    let to = m.to.idx();
    crate::piece::lemma_piece_of_colour_and_kind(m.piece);
    crate::piece::lemma_of_has_colour_and_kind(c, 0);
    crate::piece::lemma_of_has_colour_and_kind(c, 3);
    crate::piece::lemma_of_has_colour_and_kind(c, 5);
    crate::piece::lemma_of_has_colour_and_kind(c.opposite(), 0);
    if let Some(p) = m.promotion_piece {
        crate::piece::lemma_piece_of_colour_and_kind(p);
    }
    if m.is_en_passant {
        assert(rank_of(from) == rank_of(to) + (if c == Colour::White {
            -1int
        } else {
            1int
        }));
        assert(!castles(m));
    } else {
        lemma_piece_attack_irreflexive(m.piece, from, occupied_bb(board));
        if attacks_on(board, m.piece, from, to) && !has_bit(board.colour_bb(c), to) {
            assert(from != to);
            if kind_of(m.piece) == 5 {
                assert(dist(file_of(from), file_of(to)) <= 1);
            }
        } else if kind_of(m.piece) == 0 && pawn_advance(board, from, c, to) {
            assert(from != to);
        } else {
            lemma_castling_target_facts(pos, to);
            assert(from != to);
        }
    }
}

/// The piece a listed move takes does not belong to the side to move, and it is the
/// opponent's king only if that king is in check.
pub proof fn lemma_capture_facts(pos: Position, m: Move)
    requires
        sound_position(pos),
        generated(pos, m, true),
        !m.is_en_passant,
        0 <= m.from.idx() < 64,
        0 <= m.to.idx() < 64,
    ensures
        pos.board.at(m.to.idx()) is Some ==> pos.board.at(m.to.idx())->0.colour_of()
            == pos.colour_to_move.opposite(),
        pos.board.at(m.to.idx()) == Some(Piece::of(pos.colour_to_move.opposite(), 5)) ==> in_check(
            pos.board,
            pos.colour_to_move.opposite(),
        ),
        castles(m) ==> kind_of(m.piece) == 5 && castling_target(
            pos.castling_rights,
            pos.colour_to_move,
            pos.board,
            m.to.idx(),
        ),
        kind_of(placed_piece(m)) == 0 && dist(rank_of(m.from.idx()), rank_of(m.to.idx())) == 2
            ==> rank_of(m.from.idx()) == super::start_rank(pos.colour_to_move) && m.to.idx()
            == advanced(advanced(m.from.idx(), pos.colour_to_move), pos.colour_to_move)
            && pos.board.at(advanced(m.from.idx(), pos.colour_to_move)) is None && pos.board.at(
            m.to.idx(),
        ) is None,
{
    let board = pos.board;
    let c = pos.colour_to_move;
    let from = m.from.idx();
    let to = m.to.idx();
    crate::piece::lemma_piece_of_colour_and_kind(m.piece);
    crate::colour::lemma_flip_involutive(c);
    if let Some(p) = m.promotion_piece {
        crate::piece::lemma_piece_of_colour_and_kind(p);
    }
    if attacks_on(board, m.piece, from, to) && !has_bit(board.colour_bb(c), to) {
        if board.at(to) is Some {
            let q = board.at(to)->0;
            assert(has_bit(board.colour_bb(q.colour_of()), to));
        }
        if board.at(to) == Some(Piece::of(c.opposite(), 5)) {
            lemma_one_king(board, c.opposite());
            assert(attacker_at(board, c, to, from));
            assert(attacked_by(board, to, c));
        }
        if kind_of(m.piece) == 5 {
            assert(dist(file_of(from), file_of(to)) <= 1);
        }
        if kind_of(m.piece) == 0 {
            assert(dist(rank_of(from), rank_of(to)) == 1);
        }
    } else if kind_of(m.piece) == 0 && pawn_advance(board, from, c, to) {
    } else {
        lemma_castling_target_facts(pos, to);
    }
}

/// Making a listed move in a playable position gives a sound position.
pub proof fn lemma_move_keeps_sound(pos: Position, m: Move, after: Position)
    requires
        playable(pos),
        generated(pos, m, true),
        0 <= m.from.idx() < 64,
        0 <= m.to.idx() < 64,
        crate::position::moved_fields(pos, m, after),
        after.zobrist == pos.zobrist,
    ensures
        sound_position(after),
{
    let board = pos.board;
    let b2 = after.board;
    let c = pos.colour_to_move;
    let o = c.opposite();
    let from = m.from.idx();
    let to = m.to.idx();
    lemma_generated_fits(pos, m);
    crate::colour::lemma_flip_involutive(c);
    crate::piece::lemma_piece_of_colour_and_kind(m.piece);
    crate::piece::lemma_of_has_colour_and_kind(c, 0);
    crate::piece::lemma_of_has_colour_and_kind(c, 3);
    crate::piece::lemma_of_has_colour_and_kind(c, 5);
    crate::piece::lemma_of_has_colour_and_kind(o, 0);
    crate::piece::lemma_of_has_colour_and_kind(o, 3);
    crate::piece::lemma_of_has_colour_and_kind(o, 5);
    if let Some(p) = m.promotion_piece {
        crate::piece::lemma_piece_of_colour_and_kind(p);
    }
    lemma_one_king(board, c);
    lemma_one_king(board, o);
    let kc = king_square(board, c);
    let ko = king_square(board, o);
    assert(b2.wf());
    assert(after.table() == pos.table());
    if m.is_en_passant {
        let k = advanced(to, o);
        assert(capture_index(m) == Some(k));
        assert(!castle_move(m));
        assert(kc != from && kc != to && kc != k);
        assert(ko != from && ko != to && ko != k);
        assert(b2.at(kc) == board.at(kc));
        assert(b2.at(ko) == board.at(ko));
        assert(one_king(b2, c)) by {
            assert forall|j: int| 0 <= j < 64 && #[trigger] b2.at(j) == Some(Piece::of(c, 5)) implies j == kc by {
                assert(b2.at(j) == crate::position::board_after(board, m, c, j));
            }
        }
        assert(one_king(b2, o)) by {
            assert forall|j: int| 0 <= j < 64 && #[trigger] b2.at(j) == Some(Piece::of(o, 5)) implies j == ko by {
                assert(b2.at(j) == crate::position::board_after(board, m, c, j));
            }
        }
    } else {
        lemma_capture_facts(pos, m);
        if board.at(to) == Some(Piece::of(o, 5)) {
            assert(false);
        }
        assert(ko != to);
        if kind_of(m.piece) == 5 {
            assert(kc == from);
        } else {
            assert(kc != from);
            assert(kc != to);
        }
        if castle_move(m) {
            lemma_castling_target_facts(pos, to);
        }
        assert(one_king(b2, c)) by {
            let nk = if kind_of(placed_piece(m)) == 5 {
                to
            } else {
                kc
            };
            assert(b2.at(nk) == crate::position::board_after(board, m, c, nk));
            assert forall|j: int| 0 <= j < 64 && #[trigger] b2.at(j) == Some(Piece::of(c, 5)) implies j == nk by {
                assert(b2.at(j) == crate::position::board_after(board, m, c, j));
            }
        }
        assert(one_king(b2, o)) by {
            assert(b2.at(ko) == crate::position::board_after(board, m, c, ko));
            assert forall|j: int| 0 <= j < 64 && #[trigger] b2.at(j) == Some(Piece::of(o, 5)) implies j == ko by {
                assert(b2.at(j) == crate::position::board_after(board, m, c, j));
            }
        }
    }
    assert(pawns_in_range(b2, Colour::White)) by {
        assert forall|i: int| 0 <= i < 64 && #[trigger] b2.at(i) == Some(Piece::of(Colour::White, 0)) implies i < 56 by {
            assert(b2.at(i) == crate::position::board_after(board, m, c, i));
            if m.is_en_passant {
            } else if castle_move(m) {
                lemma_castling_target_facts(pos, to);
            }
        }
    }
    assert(pawns_in_range(b2, Colour::Black)) by {
        assert forall|i: int| 0 <= i < 64 && #[trigger] b2.at(i) == Some(Piece::of(Colour::Black, 0)) implies i >= 8 by {
            assert(b2.at(i) == crate::position::board_after(board, m, c, i));
            if m.is_en_passant {
            } else if castle_move(m) {
                lemma_castling_target_facts(pos, to);
            }
        }
    }
    assert(rights_consistent(after)) by {
        assert forall|right: CastlingRight| #[trigger] after.castling_rights.holds(right) implies b2.at(rook_square(right)) == Some(Piece::of(right_colour(right), 3)) by {
            let i = rook_square(right);
            assert(pos.castling_rights.holds(right));
            assert(b2.at(i) == crate::position::board_after(board, m, c, i));
            if !m.is_en_passant && castle_move(m) {
                lemma_castling_target_facts(pos, to);
                assert(right_colour(right) != c);
            }
        }
    }
    assert(en_passant_ok(after)) by {
        if crate::position::double_pawn_advance(m) {
            if !m.is_en_passant {
                lemma_capture_facts(pos, m);
            }
            let e = advanced(from, c);
            assert(b2.at(e) == crate::position::board_after(board, m, c, e));
            assert(b2.at(to) == crate::position::board_after(board, m, c, to));
        }
    }
}

/// The position a move leads to, as far as the move generator reads it: the board as
/// `board_after` has it, the other side to move, the castling rights left, the en passant
/// square of a double pawn advance and the half-move clock. The rest is the position's.
pub open spec fn moved(pos: Position, m: Move) -> Position {
    let c = pos.colour_to_move;
    Position {
        board: choose|b: Board|
            b.wf() && forall|i: int|
                0 <= i < 64 ==> #[trigger] b.at(i) == board_after(pos.board, m, c, i),
        colour_to_move: c.opposite(),
        castling_rights: choose|r: CastlingRights|
            r.code() < 16 && forall|right: CastlingRight| #[trigger]
                r.holds(right) == (pos.castling_rights.holds(right) && !(kind_of(placed_piece(m))
                    == 5 && right_colour(right) == c) && rook_square(right) != m.from.idx()
                    && rook_square(right) != m.to.idx()),
        en_passant_square: if double_pawn_advance(m) {
            Some(square_of(advanced(m.from.idx(), c)))
        } else {
            None
        },
        half_move_clock: if capture_index(m) is Some || kind_of(placed_piece(m)) == 0 {
            0
        } else {
            (pos.half_move_clock + 1) as u8
        },
        ..pos
    }
}

/// A position made by a move agrees with `moved` on what the generator reads.
pub proof fn lemma_moved_same(pos: Position, m: Move, after: Position)
    requires
        moved_fields(pos, m, after),
        after.board.wf(),
        double_pawn_advance(m) ==> 0 <= advanced(m.from.idx(), pos.colour_to_move) < 64,
    ensures
        same_state(after, moved(pos, m)),
{
    let c = pos.colour_to_move;
    let mm = moved(pos, m);
    assert(mm.board.wf() && forall|i: int| 0 <= i < 64 ==> #[trigger] mm.board.at(i) == board_after(pos.board, m, c, i)) by {
        assert(after.board.wf() && forall|i: int| 0 <= i < 64 ==> #[trigger] after.board.at(i) == board_after(pos.board, m, c, i));
    }
    assert forall|i: int| 0 <= i < 64 implies #[trigger] after.board.at(i) == mm.board.at(i) by {
        assert(after.board.at(i) == board_after(pos.board, m, c, i));
        assert(mm.board.at(i) == board_after(pos.board, m, c, i));
    }
    Board::lemma_determined(after.board, mm.board);
    let holds = |right: CastlingRight| (pos.castling_rights.holds(right) && !(kind_of(placed_piece(m)) == 5 && right_colour(right) == c) && rook_square(right) != m.from.idx() && rook_square(right) != m.to.idx());
    assert(after.castling_rights.code() < 16 && forall|right: CastlingRight| #[trigger] after.castling_rights.holds(right) == holds(right));
    assert(mm.castling_rights.code() < 16 && forall|right: CastlingRight| #[trigger] mm.castling_rights.holds(right) == holds(right));
    CastlingRights::lemma_ext(after.castling_rights, mm.castling_rights);
    if double_pawn_advance(m) {
        lemma_square_of(advanced(m.from.idx(), c));
    }
}

/// The move leaves the side that made it out of check.
pub open spec fn legal_move(pos: Position, m: Move) -> bool {
    !in_check(moved(pos, m).board, pos.colour_to_move)
}

/// The leaves `depth` plies below the position that the first `n` moves the generator
/// lists lead to, through legal moves only.
pub open spec fn perft_nodes(pos: Position, depth: nat, n: int) -> nat
    decreases depth, n,
{
    if depth == 0 || n <= 0 {
        0
    } else {
        let m = generated_moves(pos, true)[n - 1];
        let child = moved(pos, m);
        perft_nodes(pos, depth, n - 1) + if legal_move(pos, m) {
            if depth == 1 {
                1nat
            } else {
                perft_nodes(child, (depth - 1) as nat, generated_moves(child, true).len() as int)
            }
        } else {
            0nat
        }
    }
}

/// The leaves of the tree of legal moves `depth` plies deep from the position.
pub open spec fn perft_count(pos: Position, depth: nat) -> nat {
    if depth == 0 {
        1
    } else {
        perft_nodes(pos, depth, generated_moves(pos, true).len() as int)
    }
}

/// Positions that agree on what the generator reads have the same leaf counts below
/// their first `n` moves.
proof fn lemma_perft_nodes_same(p: Position, q: Position, depth: nat, n: int)
    requires
        same_state(p, q),
    ensures
        perft_nodes(p, depth, n) == perft_nodes(q, depth, n),
    decreases depth, n,
{
    lemma_generated_moves_same(p, q, true);
    if depth > 0 && n > 0 {
        lemma_perft_nodes_same(p, q, depth, n - 1);
        let m = generated_moves(p, true)[n - 1];
        let cp = moved(p, m);
        let cq = moved(q, m);
        assert(same_state(cp, cq));
        if depth > 1 {
            lemma_generated_moves_same(cp, cq, true);
            lemma_perft_nodes_same(cp, cq, (depth - 1) as nat, generated_moves(cp, true).len() as int);
        }
    }
}

/// Positions that agree on what the generator reads have the same leaf counts.
pub proof fn lemma_perft_same(p: Position, q: Position, depth: nat)
    requires
        same_state(p, q),
    ensures
        perft_count(p, depth) == perft_count(q, depth),
{
    lemma_generated_moves_same(p, q, true);
    lemma_perft_nodes_same(p, q, depth, generated_moves(p, true).len() as int);
}

/// Counting more moves counts no fewer leaves.
proof fn lemma_perft_nodes_grow(pos: Position, depth: nat, a: int, b: int)
    requires
        0 <= a <= b,
    ensures
        perft_nodes(pos, depth, a) <= perft_nodes(pos, depth, b),
    decreases b - a,
{
    if a < b {
        lemma_perft_nodes_grow(pos, depth, a, b - 1);
    }
}

/// The position `after` is `before` again, but perhaps for its en passant square, which
/// may have gone.
pub open spec fn kept(before: Position, after: Position) -> bool {
    &&& after.board == before.board
    &&& after.colour_to_move == before.colour_to_move
    &&& after.castling_rights == before.castling_rights
    &&& (after.en_passant_square == before.en_passant_square || after.en_passant_square is None)
    &&& after.half_move_clock == before.half_move_clock
    &&& after.full_move_counter == before.full_move_counter
    &&& key_items(after.key_history) == key_items(before.key_history)
    &&& after.zobrist == before.zobrist
}

/// Counts the leaves of the tree of legal moves `depth` plies deep (see `perft_count`),
/// making and taking back each move on the position, which is left as it was but perhaps
/// for its en passant square.
pub fn perft(pos: &mut Position, depth: u8) -> (nodes: u128)
    requires
        playable(*old(pos)),
        old(pos).half_move_clock + depth <= 255,
        old(pos).full_move_counter + depth <= 255,
        key_items(old(pos).key_history).len() + depth < list_limit(),
        perft_count(*old(pos), depth as nat) <= u128::MAX,
    ensures
        nodes == perft_count(*old(pos), depth as nat),
        kept(*old(pos), *final(pos)),
        playable(*final(pos)),
    decreases depth,
{
    if depth == 0 {
        return 1;
    }
    let ghost start = *pos;
    let moves = generate_all_moves(pos);
    let n = moves.len();
    let mut nodes: u128 = 0;
    let mut i: usize = 0;
    proof {
        lemma_perft_nodes_grow(start, depth as nat, 0, n as int);
    }
    while i < n
        invariant
            0 < depth,
            i <= n,
            n == generated_moves(start, true).len(),
            move_items(moves) == generated_moves(start, true),
            playable(start),
            start.half_move_clock + depth <= 255,
            start.full_move_counter + depth <= 255,
            key_items(start.key_history).len() + depth < list_limit(),
            perft_nodes(start, depth as nat, n as int) <= u128::MAX,
            kept(start, *pos),
            playable(*pos),
            nodes == perft_nodes(start, depth as nat, i as int),
        decreases n - i,
    {
        let mv = moves.get(i);
        let _from = mv.from.index();
        let _to = mv.to.index();
        let ghost pre = *pos;
        proof {
            assert(generated_moves(start, true)[i as int] == mv);
            assert(generated_moves(start, true).contains(mv));
            super::lemma_generated_sound(start, true, mv);
            lemma_generated_fits(start, mv);
            lemma_perft_nodes_grow(start, depth as nat, i + 1, n as int);
        }
        pos.do_move(&mv);
        let ghost child = *pos;
        proof {
            assert(moved_fields(start, mv, child));
            lemma_move_keeps_sound(start, mv, child);
            lemma_one_king(child.board, start.colour_to_move);
            lemma_moved_same(start, mv, child);
        }
        let mover = pos.opponent_colour();
        let checked = is_in_check(mover, &pos.board);
        if !checked {
            proof {
                lemma_perft_same(child, moved(start, mv), (depth - 1) as nat);
                assert(playable(child));
            }
            let count = perft(pos, depth - 1);
            proof {
                if depth > 1 {
                    lemma_generated_moves_same(child, moved(start, mv), true);
                }
            }
            nodes = nodes + count;
        }
        let ghost mid = Position { en_passant_square: child.en_passant_square, ..*pos };
        proof {
            assert(moved_fields(pre, mv, mid));
            assert(did_move(pre, mv, mid));
        }
        pos.undo_move(&mv);
        proof {
            assert(crate::position::undid_move(mid, mv, *pos));
            crate::position::lemma_undo_restores(pre, mv, mid, *pos);
        }
        i = i + 1;
    }
    nodes
}

/// The legal moves among the first `n` the generator lists, in its order, each with the
/// leaves `depth - 1` plies below the position it leads to.
pub open spec fn divide_lines(pos: Position, depth: nat, n: int) -> Seq<(Move, nat)>
    decreases n,
{
    if n <= 0 {
        Seq::empty()
    } else {
        let m = generated_moves(pos, true)[n - 1];
        divide_lines(pos, depth, n - 1) + if legal_move(pos, m) {
            seq![(m, perft_count(moved(pos, m), (depth - 1) as nat))]
        } else {
            Seq::empty()
        }
    }
}

/// Counts as `perft` does, and gives besides, for each legal move in the order the
/// generator lists them, the leaves below it.
pub fn divide(pos: &mut Position, depth: u8) -> (result: (u128, Vec<(Move, u128)>))
    requires
        playable(*old(pos)),
        old(pos).half_move_clock + depth <= 255,
        old(pos).full_move_counter + depth <= 255,
        key_items(old(pos).key_history).len() + depth < list_limit(),
        perft_count(*old(pos), depth as nat) <= u128::MAX,
    ensures
        result.0 == perft_count(*old(pos), depth as nat),
        depth == 0 ==> result.1@.len() == 0,
        depth > 0 ==> {
            let lines = divide_lines(*old(pos), depth as nat, generated_moves(*old(pos), true).len() as int);
            &&& result.1@.len() == lines.len()
            &&& forall|k: int|
                0 <= k < lines.len() ==> (#[trigger] result.1@[k]).0 == lines[k].0 && result.1@[k].1
                    == lines[k].1
        },
        kept(*old(pos), *final(pos)),
        playable(*final(pos)),
{
    let mut lines: Vec<(Move, u128)> = Vec::new();
    if depth == 0 {
        return (1, lines);
    }
    let ghost start = *pos;
    let moves = generate_all_moves(pos);
    let n = moves.len();
    let mut nodes: u128 = 0;
    let mut i: usize = 0;
    proof {
        lemma_perft_nodes_grow(start, depth as nat, 0, n as int);
    }
    while i < n
        invariant
            0 < depth,
            i <= n,
            n == generated_moves(start, true).len(),
            move_items(moves) == generated_moves(start, true),
            playable(start),
            start.half_move_clock + depth <= 255,
            start.full_move_counter + depth <= 255,
            key_items(start.key_history).len() + depth < list_limit(),
            perft_nodes(start, depth as nat, n as int) <= u128::MAX,
            kept(start, *pos),
            playable(*pos),
            nodes == perft_nodes(start, depth as nat, i as int),
            lines@.len() == divide_lines(start, depth as nat, i as int).len(),
            forall|k: int|
                0 <= k < lines@.len() ==> (#[trigger] lines@[k]).0 == divide_lines(
                    start,
                    depth as nat,
                    i as int,
                )[k].0 && lines@[k].1 == divide_lines(start, depth as nat, i as int)[k].1,
        decreases n - i,
    {
        let mv = moves.get(i);
        let _from = mv.from.index();
        let _to = mv.to.index();
        let ghost pre = *pos;
        let ghost before_lines = divide_lines(start, depth as nat, i as int);
        proof {
            assert(generated_moves(start, true)[i as int] == mv);
            assert(generated_moves(start, true).contains(mv));
            super::lemma_generated_sound(start, true, mv);
            lemma_generated_fits(start, mv);
            lemma_perft_nodes_grow(start, depth as nat, i + 1, n as int);
        }
        pos.do_move(&mv);
        let ghost child = *pos;
        proof {
            assert(moved_fields(start, mv, child));
            lemma_move_keeps_sound(start, mv, child);
            lemma_one_king(child.board, start.colour_to_move);
            lemma_moved_same(start, mv, child);
        }
        let mover = pos.opponent_colour();
        let checked = is_in_check(mover, &pos.board);
        if !checked {
            proof {
                lemma_perft_same(child, moved(start, mv), (depth - 1) as nat);
                assert(playable(child));
            }
            let count = perft(pos, depth - 1);
            proof {
                if depth > 1 {
                    lemma_generated_moves_same(child, moved(start, mv), true);
                }
            }
            nodes = nodes + count;
            lines.push((mv, count));
        }
        proof {
            assert(divide_lines(start, depth as nat, i + 1) =~= before_lines + if !checked {
                seq![(mv, perft_count(moved(start, mv), (depth - 1) as nat))]
            } else {
                Seq::empty()
            });
        }
        let ghost mid = Position { en_passant_square: child.en_passant_square, ..*pos };
        proof {
            assert(moved_fields(pre, mv, mid));
            assert(did_move(pre, mv, mid));
        }
        pos.undo_move(&mv);
        proof {
            assert(crate::position::undid_move(mid, mv, *pos));
            crate::position::lemma_undo_restores(pre, mv, mid, *pos);
        }
        i = i + 1;
    }
    (nodes, lines)
}

/// The sum of the leaf counts of divide lines.
pub open spec fn lines_total(lines: Seq<(Move, nat)>) -> nat
    decreases lines.len(),
{
    if lines.len() == 0 {
        0
    } else {
        lines_total(lines.drop_last()) + lines.last().1
    }
}

/// The leaf counts `divide` gives per move add up to the count `perft` gives.
pub proof fn lemma_divide_sums_to_perft(pos: Position, depth: nat, n: int)
    requires
        depth >= 1,
    ensures
        lines_total(divide_lines(pos, depth, n)) == perft_nodes(pos, depth, n),
    decreases n,
{
    if n > 0 {
        lemma_divide_sums_to_perft(pos, depth, n - 1);
        let m = generated_moves(pos, true)[n - 1];
        let prev = divide_lines(pos, depth, n - 1);
        if legal_move(pos, m) {
            let line = seq![(m, perft_count(moved(pos, m), (depth - 1) as nat))];
            assert((prev + line).drop_last() =~= prev);
        } else {
            assert(prev + Seq::<(Move, nat)>::empty() =~= prev);
        }
    }
}

} // verus!
