pub mod board;
pub mod castling;
pub mod fen;
pub mod zobrist;

pub use board::Board;
pub use castling::{CastlingRight, CastlingRights};

use crate::bitboard::has_bit;
use crate::collections::{key_items, list_limit, KeyHistory};
use crate::colour::Colour;
use crate::movegen::attacks::{get_en_passant_attacks, pawn_attack};
use crate::movegen::moves::{capture_index, capture_square_ok, castles, Move};
use crate::piece::{kind_of, Piece};
use crate::square::{advanced, dist, file_of, rank_of, Square};
use castling::{right_colour, rook_square};
use std::rc::Rc;
use vstd::prelude::*;
use zobrist::Zobrist;

verus! {

broadcast use crate::bitboard::group_bitboard;

/// Most positions remembered to detect repetitions, inline.
pub const MAX_HISTORY: usize = 256;

/// A chess position: the board, the side to move, the castling rights, the en passant
/// square, the two move counters, and the keys of the positions played before.
#[derive(Debug)]
pub struct Position {
    pub board: Board,
    pub colour_to_move: Colour,
    pub castling_rights: CastlingRights,
    pub en_passant_square: Option<Square>,
    pub half_move_clock: u8,
    pub full_move_counter: u8,
    pub key_history: KeyHistory,
    pub zobrist: Rc<Zobrist>,
}

/// The piece that stands on the target square after a move: the promotion piece, if any.
pub open spec fn placed_piece(mv: Move) -> Piece {
    match mv.promotion_piece {
        Some(p) => p,
        None => mv.piece,
    }
}

/// The corner square the rook leaves when the king castles to `to`.
pub open spec fn castle_rook_from(to: int) -> int {
    if file_of(to) == 2 {
        to - 2
    } else {
        to + 1
    }
}

/// The square the rook lands on when the king castles to `to`.
pub open spec fn castle_rook_to(to: int) -> int {
    if file_of(to) == 2 {
        to + 1
    } else {
        to - 1
    }
}

/// Making the move with the king: castling, as the king's target file shows.
pub open spec fn castle_move(mv: Move) -> bool {
    kind_of(placed_piece(mv)) == 5 && castles(mv)
}

/// The piece on square `i` after `colour` makes `mv` on `board`: the captured piece goes,
/// a castling rook moves, the moving (or promoted) piece lands on the target square and
/// leaves its square.
pub open spec fn board_after(board: Board, mv: Move, colour: Colour, i: int) -> Option<Piece> {
    if i == mv.from.idx() {
        None
    } else if i == mv.to.idx() {
        Some(placed_piece(mv))
    } else if castle_move(mv) && i == castle_rook_from(mv.to.idx()) {
        None
    } else if castle_move(mv) && i == castle_rook_to(mv.to.idx()) {
        Some(Piece::of(colour, 3))
    } else if capture_index(mv) == Some(i) {
        None
    } else {
        board.at(i)
    }
}

/// The piece that goes back to the source square when a move is taken back.
pub open spec fn returned_piece(mv: Move) -> Piece {
    match mv.promotion_piece {
        Some(p) => Piece::of(p.colour_of(), 0),
        None => mv.piece,
    }
}

/// The piece on square `i` after the move `mv` of `colour` is taken back on `board`.
pub open spec fn board_before(board: Board, mv: Move, colour: Colour, i: int) -> Option<Piece> {
    if capture_index(mv) == Some(i) {
        mv.captured_piece
    } else if i == mv.to.idx() {
        None
    } else if i == mv.from.idx() {
        Some(returned_piece(mv))
    } else if castles(mv) && i == castle_rook_to(mv.to.idx()) {
        None
    } else if castles(mv) && i == castle_rook_from(mv.to.idx()) {
        Some(Piece::of(colour, 3))
    } else {
        board.at(i)
    }
}

/// Making the move puts pieces only on squares that are empty at that moment (or hold the
/// same piece), so that the board stays well formed.
pub open spec fn move_keeps_board(board: Board, mv: Move, colour: Colour) -> bool {
    &&& castle_move(mv) ==> {
        let rt = castle_rook_to(mv.to.idx());
        board.at(rt) is None || board.at(rt) == Some(Piece::of(colour, 3)) || capture_index(mv)
            == Some(rt)
    }
    &&& (board.at(mv.to.idx()) is None || board.at(mv.to.idx()) == Some(placed_piece(mv))
        || capture_index(mv) == Some(mv.to.idx()) || (castle_move(mv) && mv.to.idx()
        == castle_rook_from(mv.to.idx())))
}

/// The piece on square `i` once a castling rook has gone back, while taking `mv` back.
pub open spec fn before_return(board: Board, mv: Move, colour: Colour, i: int) -> Option<Piece> {
    if castles(mv) && i == castle_rook_to(mv.to.idx()) {
        None
    } else if castles(mv) && i == castle_rook_from(mv.to.idx()) {
        Some(Piece::of(colour, 3))
    } else {
        board.at(i)
    }
}

/// The piece on square `i` once the moved piece has gone back, while taking `mv` back.
pub open spec fn before_restore(board: Board, mv: Move, colour: Colour, i: int) -> Option<Piece> {
    if i == mv.to.idx() {
        None
    } else if i == mv.from.idx() {
        Some(returned_piece(mv))
    } else {
        before_return(board, mv, colour, i)
    }
}

/// Taking the move back puts pieces only on squares that are empty at that moment (or
/// hold the same piece).
pub open spec fn unmove_keeps_board(board: Board, mv: Move, colour: Colour) -> bool {
    &&& castles(mv) ==> {
        let rf = castle_rook_from(mv.to.idx());
        board.at(rf) is None || board.at(rf) == Some(Piece::of(colour, 3))
    }
    &&& {
        let f = mv.from.idx();
        before_return(board, mv, colour, f) is None || before_return(board, mv, colour, f) == Some(
            returned_piece(mv),
        )
    }
    &&& match capture_index(mv) {
        Some(k) => before_restore(board, mv, colour, k) is None || before_restore(
            board,
            mv,
            colour,
            k,
        ) == mv.captured_piece,
        None => true,
    }
}

/// A pawn of `colour` could capture en passant onto square `ep`.
pub open spec fn en_passant_capturable(board: Board, ep: int, colour: Colour) -> bool {
    exists|j: int|
        #![trigger has_bit(board.piece_bb(Piece::of(colour, 0)), j)]
        pawn_attack(ep, colour.opposite(), j) && has_bit(board.piece_bb(Piece::of(colour, 0)), j)
}

/// The exclusive or of the numbers of piece `p` on the squares below `n` whose bits are
/// set in the bitboard `b`.
pub open spec fn bitboard_key(z: Zobrist, p: int, b: u64, n: nat) -> u64
    decreases n,
{
    if n == 0 {
        0
    } else {
        let k = bitboard_key(z, p, b, (n - 1) as nat);
        if has_bit(b, n - 1) {
            k ^ z.piece_square@[p]@[n - 1]
        } else {
            k
        }
    }
}

/// The exclusive or of the numbers of the pieces below `n` (by index) on the squares of
/// their bitboards.
pub open spec fn pieces_key(z: Zobrist, board: Board, n: nat) -> u64
    decreases n,
{
    if n == 0 {
        0
    } else {
        pieces_key(z, board, (n - 1) as nat) ^ bitboard_key(
            z,
            n - 1,
            board.piece_bb(Piece::from_idx(n - 1)),
            64,
        )
    }
}

/// Squares with no bit of the bitboard add nothing to its key.
proof fn lemma_bitboard_key_gap(z: Zobrist, p: int, b: u64, m: nat, s: nat)
    requires
        m <= s,
        forall|j: int| m <= j < s ==> !#[trigger] has_bit(b, j),
    ensures
        bitboard_key(z, p, b, s) == bitboard_key(z, p, b, m),
    decreases s - m,
{
    if s > m {
        lemma_bitboard_key_gap(z, p, b, m, (s - 1) as nat);
    }
}

/// The key of a position: the numbers of its pieces, of black to move, of its castling
/// rights and, when a pawn could capture there, of the en passant file.
pub open spec fn position_key(
    z: Zobrist,
    board: Board,
    colour: Colour,
    rights: CastlingRights,
    ep: Option<Square>,
) -> u64 {
    let k1 = pieces_key(z, board, 12);
    let k2 = if colour == Colour::Black {
        k1 ^ z.colour_to_move
    } else {
        k1
    };
    let k3 = k2 ^ z.castling_rights@[rights.code()];
    match ep {
        Some(s) => if en_passant_capturable(board, s.idx(), colour) {
            k3 ^ z.en_passant_files@[file_of(s.idx())]
        } else {
            k3
        },
        None => k3,
    }
}

proof fn bv_xor_swap(k: u64, a: u64, b: u64, e: u64)
    by (bit_vector)
    ensures
        ((k ^ a) ^ e) ^ ((k ^ b) ^ e) == a ^ b,
        (k ^ a) ^ (k ^ b) == a ^ b,
{
}

/// The key depends on the castling rights as their own number says: two keys that differ
/// only in the castling rights differ by the exclusive or of the numbers of the two sets of
/// rights, whatever the rest of the position.
pub proof fn lemma_key_castling(
    z: Zobrist,
    board: Board,
    colour: Colour,
    r1: CastlingRights,
    r2: CastlingRights,
    ep: Option<Square>,
)
    ensures
        position_key(z, board, colour, r1, ep) ^ position_key(z, board, colour, r2, ep)
            == z.castling_rights@[r1.code()] ^ z.castling_rights@[r2.code()],
{
    let k1 = pieces_key(z, board, 12);
    let k2 = if colour == Colour::Black {
        k1 ^ z.colour_to_move
    } else {
        k1
    };
    bv_xor_swap(k2, z.castling_rights@[r1.code()], z.castling_rights@[r2.code()], 0);
    match ep {
        Some(s) => if en_passant_capturable(board, s.idx(), colour) {
            bv_xor_swap(
                k2,
                z.castling_rights@[r1.code()],
                z.castling_rights@[r2.code()],
                z.en_passant_files@[file_of(s.idx())],
            );
        },
        None => {},
    }
}

/// Two positions on the same key table that differ at most in their castling rights
/// have keys (see `Position::compute_key`) that differ by the exclusive or of the
/// table's numbers of their two sets of castling rights.
pub proof fn lemma_position_key_castling(p: Position, q: Position)
    requires
        p.table() == q.table(),
        p.board == q.board,
        p.colour_to_move == q.colour_to_move,
        p.en_passant_square == q.en_passant_square,
    ensures
        p.key() ^ q.key() == p.table().castling_rights@[p.castling_rights.code()]
            ^ p.table().castling_rights@[q.castling_rights.code()],
{
    lemma_key_castling(
        p.table(),
        p.board,
        p.colour_to_move,
        p.castling_rights,
        q.castling_rights,
        p.en_passant_square,
    );
}

/// A double advance of a pawn, after which the square passed over is the en passant square.
pub open spec fn double_pawn_advance(mv: Move) -> bool {
    kind_of(placed_piece(mv)) == 0 && dist(rank_of(mv.from.idx()), rank_of(mv.to.idx())) == 2
}

/// `after` is `before` once the side to move has made `mv`: the board as `board_after`
/// says, the other side to move, the castling rights of the king and of the rooks' corners
/// gone, the en passant square after a double pawn advance, the clocks and the key history.
pub open spec fn did_move(before: Position, mv: Move, after: Position) -> bool {
    &&& moved_fields(before, mv, after)
    &&& key_items(after.key_history) == key_items(before.key_history).push(before.key())
    &&& after.zobrist == before.zobrist
}

/// What `did_move` says of all but the key history: the board, side to move, castling
/// rights, en passant square and clocks after the move. None of it depends on the en
/// passant square before the move.
pub open spec fn moved_fields(before: Position, mv: Move, after: Position) -> bool {
    let colour = before.colour_to_move;
    &&& forall|i: int|
        0 <= i < 64 ==> #[trigger] after.board.at(i) == board_after(before.board, mv, colour, i)
    &&& before.board.wf() && move_keeps_board(before.board, mv, colour) ==> after.board.wf()
    &&& after.colour_to_move == colour.opposite()
    &&& forall|right: CastlingRight|
        #[trigger] after.castling_rights.holds(right) == (before.castling_rights.holds(right)
            && !(kind_of(placed_piece(mv)) == 5 && right_colour(right) == colour) && rook_square(
            right,
        ) != mv.from.idx() && rook_square(right) != mv.to.idx())
    &&& after.castling_rights.code() < 16
    &&& double_pawn_advance(mv) ==> after.en_passant_square is Some
        && after.en_passant_square->0.idx() == advanced(mv.from.idx(), colour)
    &&& !double_pawn_advance(mv) ==> after.en_passant_square is None
    &&& after.half_move_clock == if capture_index(mv) is Some || kind_of(placed_piece(mv)) == 0 {
        0
    } else {
        before.half_move_clock + 1
    }
    &&& after.full_move_counter == if colour == Colour::Black {
        before.full_move_counter + 1
    } else {
        before.full_move_counter as int
    }
}

/// `after` is `before` once `mv` is taken back: the board as `board_before` says, the
/// other side to move, the castling rights and half-move clock the move kept, the en
/// passant square of an en passant capture, the move counter and the key history.
pub open spec fn undid_move(before: Position, mv: Move, after: Position) -> bool {
    let mover = before.colour_to_move.opposite();
    &&& forall|i: int|
        0 <= i < 64 ==> #[trigger] after.board.at(i) == board_before(before.board, mv, mover, i)
    &&& before.board.wf() && unmove_keeps_board(before.board, mv, mover) ==> after.board.wf()
    &&& after.colour_to_move == mover
    &&& after.castling_rights == mv.castling_rights
    &&& after.half_move_clock == mv.half_move_clock
    &&& after.en_passant_square == if mv.captured_piece is Some && mv.is_en_passant {
        Some(mv.to)
    } else {
        None
    }
    &&& after.full_move_counter == if mover == Colour::Black {
        before.full_move_counter - 1
    } else {
        before.full_move_counter as int
    }
    &&& key_items(before.key_history).len() > 0 ==> key_items(after.key_history) == key_items(
        before.key_history,
    ).drop_last()
    &&& key_items(before.key_history).len() == 0 ==> key_items(after.key_history) == key_items(
        before.key_history,
    )
    &&& after.zobrist == before.zobrist
}

/// `mv` is a move of the side to move that fits the position: its piece stands on its
/// source square, the captured piece on the capture square, the target square is free
/// otherwise, a promotion turns a pawn into a knight, bishop, rook or queen of the same
/// colour, castling finds its rook in the corner and the way for it free, and the move
/// keeps the castling rights and half-move clock of the position.
pub open spec fn move_fits(pos: Position, mv: Move) -> bool {
    let colour = pos.colour_to_move;
    let board = pos.board;
    let from = mv.from.idx();
    let to = mv.to.idx();
    &&& 0 <= from < 64
    &&& 0 <= to < 64
    &&& from != to
    &&& board.at(from) == Some(mv.piece)
    &&& mv.piece.colour_of() == colour
    &&& mv.promotion_piece matches Some(p) ==> kind_of(mv.piece) == 0 && p.colour_of() == colour
        && 1 <= kind_of(p) <= 4
    &&& mv.captured_piece is None ==> board.at(to) is None
    &&& mv.captured_piece matches Some(c) ==> {
        let k = capture_index(mv)->0;
        &&& 0 <= k < 64
        &&& board.at(k) == Some(c)
        &&& k != from
        &&& mv.is_en_passant ==> k != to && board.at(to) is None
    }
    &&& castles(mv) ==> {
        &&& file_of(to) == 2 || file_of(to) == 6
        &&& mv.captured_piece is None
        &&& 0 <= castle_rook_from(to) < 64
        &&& 0 <= castle_rook_to(to) < 64
        &&& board.at(castle_rook_from(to)) == Some(Piece::of(colour, 3))
        &&& board.at(castle_rook_to(to)) is None
        &&& from != castle_rook_from(to)
        &&& from != castle_rook_to(to)
    }
    &&& mv.castling_rights == pos.castling_rights
    &&& mv.half_move_clock == pos.half_move_clock
}

/// Taking back a move that fits the position gives the position back: the same board,
/// side to move, castling rights, clocks and key history. The en passant square comes
/// back only as the target of an en passant capture (and is none otherwise), so the whole
/// position comes back where its en passant square was just that.
pub proof fn lemma_undo_restores(before: Position, mv: Move, mid: Position, after: Position)
    requires
        before.wf(),
        move_fits(before, mv),
        capture_square_ok(mv),
        did_move(before, mv, mid),
        undid_move(mid, mv, after),
    ensures
        after.board == before.board,
        after.colour_to_move == before.colour_to_move,
        after.castling_rights == before.castling_rights,
        after.en_passant_square == if mv.captured_piece is Some && mv.is_en_passant {
            Some(mv.to)
        } else {
            None
        },
        after.half_move_clock == before.half_move_clock,
        after.full_move_counter == before.full_move_counter,
        key_items(after.key_history) == key_items(before.key_history),
        after.zobrist == before.zobrist,
        after.wf(),
{
    let colour = before.colour_to_move;
    let b0 = before.board;
    let b1 = mid.board;
    crate::colour::lemma_flip_involutive(colour);
    crate::piece::lemma_piece_of_colour_and_kind(mv.piece);
    if let Some(p) = mv.promotion_piece {
        crate::piece::lemma_piece_of_colour_and_kind(p);
    }
    crate::piece::lemma_of_has_colour_and_kind(colour, 0);
    crate::piece::lemma_of_has_colour_and_kind(colour, 3);
    assert(castle_move(mv) == castles(mv));
    assert(returned_piece(mv) == mv.piece);
    assert(move_keeps_board(b0, mv, colour));
    assert(b1.wf());
    assert forall|i: int| 0 <= i < 64 implies #[trigger] b1.at(i) == board_after(b0, mv, colour, i) by {}
    assert(unmove_keeps_board(b1, mv, colour)) by {
        let _ = b1.at(mv.from.idx());
        let _ = b1.at(mv.to.idx());
        if castles(mv) {
            let _ = b1.at(castle_rook_from(mv.to.idx()));
            let _ = b1.at(castle_rook_to(mv.to.idx()));
        }
        if let Some(k) = capture_index(mv) {
            let _ = b1.at(k);
        }
    }
    assert(after.board.wf());
    assert forall|i: int| 0 <= i < 64 implies #[trigger] after.board.at(i) == b0.at(i) by {
        let _ = b1.at(i);
        assert(after.board.at(i) == board_before(b1, mv, colour, i));
    }
    Board::lemma_determined(after.board, b0);
}

/// How many of the keys `offset`, `offset + 2`, ... places back from the end of `keys`,
/// going no further back than `max_back`, equal `key`.
pub open spec fn repetitions(keys: Seq<u64>, key: u64, max_back: int, offset: int) -> nat
    decreases max_back + 2 - offset,
{
    if offset > max_back || offset <= 0 {
        0
    } else {
        (if keys[keys.len() - offset] == key {
            1nat
        } else {
            0nat
        }) + repetitions(keys, key, max_back, offset + 2)
    }
}

impl Position {
    /// The table of random numbers keys are made of.
    pub open spec fn table(self) -> Zobrist {
        *self.zobrist
    }

    /// The key of the position.
    pub open spec fn key(self) -> u64 {
        position_key(
            self.table(),
            self.board,
            self.colour_to_move,
            self.castling_rights,
            self.en_passant_square,
        )
    }

    /// The board is well formed and the key table is filled.
    pub open spec fn wf(self) -> bool {
        self.board.wf() && self.table().filled()
    }

    pub fn new(
        board: Board,
        colour_to_move: Colour,
        castling_rights: CastlingRights,
        en_passant_square: Option<Square>,
        half_move_clock: u8,
        full_move_counter: u8,
    ) -> (r: Position)
        ensures
            r.board == board,
            r.colour_to_move == colour_to_move,
            r.castling_rights == castling_rights,
            r.en_passant_square == en_passant_square,
            r.half_move_clock == half_move_clock,
            r.full_move_counter == full_move_counter,
            key_items(r.key_history) == Seq::<u64>::empty(),
            r.table().filled(),
    {
        Position {
            board,
            colour_to_move,
            castling_rights,
            en_passant_square,
            half_move_clock,
            full_move_counter,
            key_history: KeyHistory::new(),
            zobrist: Rc::new(Zobrist::new()),
        }
    }

    pub fn opponent_colour(&self) -> (r: Colour)
        ensures
            r == self.colour_to_move.opposite(),
    {
        self.colour_to_move.flip()
    }

    /// Computes the key of the position.
    pub fn compute_key(&self) -> (r: u64)
        requires
            self.table().filled(),
        ensures
            r == self.key(),
    {
        let z: &Zobrist = &self.zobrist;
        let pieces = Piece::pieces();
        let mut key: u64 = 0;
        let mut p: usize = 0;
        while p < 12
            invariant
                p <= 12,
                key == pieces_key(*z, self.board, p as nat),
                z == self.table(),
                forall|i: int| 0 <= i < 12 ==> #[trigger] pieces@[i] == Piece::from_idx(i),
            decreases 12 - p,
        {
            let piece = pieces[p];
            let b0 = self.board.pieces(piece);
            let mut bitboard = b0;
            let ghost mut m: nat = 0;
            let mut piece_key: u64 = 0;
            while bitboard != 0
                invariant
                    p < 12,
                    m <= 64,
                    forall|j: int| #[trigger] has_bit(bitboard, j) == (has_bit(b0, j) && j >= m),
                    piece_key == bitboard_key(*z, p as int, b0, m),
                decreases 64 - m,
            {
                let ghost before = bitboard;
                let square = Square::next(&mut bitboard);
                let s = square.index() as usize;
                proof {
                    assert(has_bit(b0, s as int) && s >= m);
                    assert forall|j: int| m <= j < s implies !#[trigger] has_bit(b0, j) by {
                        assert(!has_bit(before, j));
                    }
                    lemma_bitboard_key_gap(*z, p as int, b0, m, s as nat);
                    m = (s + 1) as nat;
                }
                piece_key = piece_key ^ z.piece_square[p][s];
            }
            proof {
                assert forall|j: int| m <= j < 64 implies !#[trigger] has_bit(b0, j) by {
                    assert(!has_bit(bitboard, j));
                }
                lemma_bitboard_key_gap(*z, p as int, b0, m, 64);
            }
            key = key ^ piece_key;
            p = p + 1;
        }
        if self.colour_to_move == Colour::Black {
            key = key ^ z.colour_to_move;
        }
        key = key ^ z.castling_rights[self.castling_rights.index()];
        match self.en_passant_square {
            Some(square) => {
                let attackers = get_en_passant_attacks(square, self.colour_to_move, &self.board);
                proof {
                    if attackers != 0 {
                        crate::bitboard::lemma_no_bits_zero_contra(attackers);
                    } else {
                        assert forall|j: int| !(pawn_attack(square.idx(), self.colour_to_move.opposite(), j) && #[trigger] has_bit(self.board.piece_bb(Piece::of(self.colour_to_move, 0)), j)) by {
                            assert(!has_bit(attackers, j));
                        }
                    }
                }
                if attackers != 0 {
                    key = key ^ z.en_passant_files[square.file() as usize];
                }
            },
            None => {},
        }
        key
    }

    /// Makes a move for the side to move.
    pub fn do_move(&mut self, mv: &Move)
        requires
            old(self).table().filled(),
            old(self).half_move_clock < 255,
            old(self).colour_to_move == Colour::Black ==> old(self).full_move_counter < 255,
            key_items(old(self).key_history).len() < list_limit(),
            capture_square_ok(*mv),
            kind_of(placed_piece(*mv)) == 0 && dist(rank_of(mv.from.idx()), rank_of(mv.to.idx()))
                == 2 ==> (old(self).colour_to_move == Colour::White ==> mv.from.idx() < 56) && (
            old(self).colour_to_move == Colour::Black ==> mv.from.idx() >= 8),
            castle_move(*mv) ==> file_of(mv.to.idx()) == 2 || file_of(mv.to.idx()) == 6,
        ensures
            did_move(*old(self), *mv, *final(self)),
    {
        let _to_index = mv.to.index();
        let _from_index = mv.from.index();
        let key = self.compute_key();
        self.key_history.push(key);
        self.half_move_clock = self.half_move_clock + 1;
        self.en_passant_square = None;
        let colour = self.colour_to_move;
        let ghost b0 = self.board;

        match mv.capture_square() {
            Some(capture_square) => {
                self.board.remove_piece(capture_square);
                self.half_move_clock = 0;
            },
            None => {},
        }
        let ghost b1 = self.board;

        let piece = match mv.promotion_piece {
            Some(p) => p,
            None => mv.piece,
        };

        if piece.is_pawn() {
            self.half_move_clock = 0;

            if mv.rank_diff() == 2 {
                self.en_passant_square = Some(mv.from.advance(colour));
            }
        }

        let ghost cr0 = self.castling_rights;
        if piece.is_king() {
            self.castling_rights.remove_for_colour(colour);

            if mv.is_castling() {
                let rook = Piece::rook(colour);
                let rank = mv.to.rank();
                let (rook_to, rook_from) = if mv.to.file() == 2 {
                    (Square::from_file_and_rank(3, rank), Square::from_file_and_rank(0, rank))
                } else {
                    (Square::from_file_and_rank(5, rank), Square::from_file_and_rank(7, rank))
                };
                proof {
                    assert(rook_to.idx() == castle_rook_to(mv.to.idx()));
                    assert(rook_from.idx() == castle_rook_from(mv.to.idx()));
                    if b0.wf() && move_keeps_board(b0, *mv, colour) {
                        assert(self.board.wf());
                        let _ = self.board.at(rook_to.idx());
                    }
                }
                self.board.put_piece(rook, rook_to);
                self.board.remove_piece(rook_from);
            }
        }
        let ghost b2 = self.board;

        let ghost cr1 = self.castling_rights;
        if mv.from.is_corner() {
            self.castling_rights.remove_for_square(mv.from);
        }
        let ghost cr2 = self.castling_rights;
        if mv.to.is_corner() {
            self.castling_rights.remove_for_square(mv.to);
        }
        proof {
            assert forall|right: CastlingRight| #[trigger] self.castling_rights.holds(right) == (cr0.holds(right) && !(kind_of(piece) == 5 && right_colour(right) == colour) && rook_square(right) != mv.from.idx() && rook_square(right) != mv.to.idx()) by {
                assert(cr1.holds(right) == (cr0.holds(right) && !(kind_of(piece) == 5 && right_colour(right) == colour)));
                if mv.from.idx() == 0 || mv.from.idx() == 7 || mv.from.idx() == 56 || mv.from.idx() == 63 {
                    assert(cr2.holds(right) == (cr1.holds(right) && rook_square(right) != mv.from.idx()));
                } else {
                    assert(cr2 == cr1);
                    assert(rook_square(right) != mv.from.idx());
                }
                assert(self.castling_rights.holds(right) == (cr2.holds(right) && rook_square(right) != mv.to.idx()));
            }
        }

        proof {
            if b0.wf() && move_keeps_board(b0, *mv, colour) {
                assert(b1.wf());
                assert(self.board.wf());
                let _ = b1.at(mv.to.idx());
                assert(piece == placed_piece(*mv));
                assert(self.board.at(mv.to.idx()) == b1.at(mv.to.idx()));
                assert(b1.at(mv.to.idx()) is None || b1.at(mv.to.idx()) == Some(piece) || (castle_move(*mv) && mv.to.idx() == castle_rook_from(mv.to.idx())));
                assert(self.board.at(mv.to.idx()) is None || self.board.at(mv.to.idx()) == Some(piece));
            }
        }
        self.board.put_piece(piece, mv.to);
        let ghost b3 = self.board;
        proof {
            if b0.wf() && move_keeps_board(b0, *mv, colour) {
                assert(b3.wf());
            }
        }
        self.board.remove_piece(mv.from);

        if colour == Colour::Black {
            self.full_move_counter = self.full_move_counter + 1;
        }

        self.colour_to_move = colour.flip();
        let _code = self.castling_rights.index();
        proof {
            assert forall|i: int| 0 <= i < 64 implies #[trigger] self.board.at(i) == board_after(
                b0,
                *mv,
                colour,
                i,
            ) by {
                let _ = b1.at(i);
                let _ = b2.at(i);
                let _ = b3.at(i);
            }
        }
    }

    /// Takes back a move made by the side that moved last.
    pub fn undo_move(&mut self, mv: &Move)
        requires
            capture_square_ok(*mv),
            castles(*mv) ==> file_of(mv.to.idx()) == 2 || file_of(mv.to.idx()) == 6,
            old(self).colour_to_move == Colour::White ==> old(self).full_move_counter >= 1,
        ensures
            undid_move(*old(self), *mv, *final(self)),
    {
        let _to_index = mv.to.index();
        let _from_index = mv.from.index();
        let mover = self.colour_to_move.flip();
        let ghost b0 = self.board;
        if mv.is_castling() {
            let rook = Piece::rook(mover);
            let rank = mv.to.rank();
            let (rook_to, rook_from) = if mv.to.file() == 2 {
                (Square::from_file_and_rank(3, rank), Square::from_file_and_rank(0, rank))
            } else {
                (Square::from_file_and_rank(5, rank), Square::from_file_and_rank(7, rank))
            };
            proof {
                assert(rook_to.idx() == castle_rook_to(mv.to.idx()));
                assert(rook_from.idx() == castle_rook_from(mv.to.idx()));
            }
            self.board.put_piece(rook, rook_from);
            self.board.remove_piece(rook_to);
        }
        let ghost b1 = self.board;
        proof {
            if b0.wf() && unmove_keeps_board(b0, *mv, mover) {
                assert(b1.wf());
                assert(b1.at(mv.from.idx()) == before_return(b0, *mv, mover, mv.from.idx()));
            }
        }

        let piece = match mv.promotion_piece {
            Some(p) => Piece::pawn(p.colour()),
            None => mv.piece,
        };
        self.board.put_piece(piece, mv.from);
        self.board.remove_piece(mv.to);
        let ghost b2 = self.board;

        self.castling_rights = mv.castling_rights;
        self.half_move_clock = mv.half_move_clock;
        self.en_passant_square = None;

        match mv.capture_square() {
            Some(capture_square) => {
                proof {
                    if b0.wf() && unmove_keeps_board(b0, *mv, mover) {
                        assert(b2.wf());
                        let k = capture_square.idx();
                        let _ = b1.at(k);
                        assert(b2.at(k) == before_restore(b0, *mv, mover, k));
                    }
                }
                match mv.captured_piece {
                    Some(captured) => {
                        self.board.put_piece(captured, capture_square);
                    },
                    None => {},
                }
                if mv.is_en_passant {
                    self.en_passant_square = Some(mv.to);
                }
            },
            None => {},
        }

        self.colour_to_move = mover;

        if self.colour_to_move == Colour::Black {
            self.full_move_counter = self.full_move_counter - 1;
        }

        let _popped = self.key_history.pop();
        proof {
            assert forall|i: int| 0 <= i < 64 implies #[trigger] self.board.at(i) == board_before(
                b0,
                *mv,
                mover,
                i,
            ) by {
                let _ = b1.at(i);
                let _ = b2.at(i);
            }
        }
    }

    /// The position occurred twice before with the same side to move, within the moves
    /// since the last capture or pawn move.
    pub fn is_threefold_repetition(&self) -> (r: bool)
        requires
            self.table().filled(),
        ensures
            r == (self.half_move_clock >= 8 && repetitions(
                key_items(self.key_history),
                self.key(),
                if key_items(self.key_history).len() < self.half_move_clock {
                    key_items(self.key_history).len() as int
                } else {
                    self.half_move_clock as int
                },
                2,
            ) >= 2),
    {
        if self.half_move_clock < 8 {
            return false;
        }
        let current_key = self.compute_key();
        let len = self.key_history.len();
        let hmc = self.half_move_clock as usize;
        let max_back = if len < hmc {
            len
        } else {
            hmc
        };
        let ghost keys = key_items(self.key_history);
        let mut found_first_repetition = false;
        let mut offset: usize = 2;
        while offset <= max_back
            invariant
                2 <= offset <= max_back + 2,
                offset % 2 == 0,
                max_back <= len,
                max_back <= 255,
                len == keys.len(),
                current_key == self.key(),
                self.half_move_clock >= 8,
                max_back == if keys.len() < self.half_move_clock {
                    keys.len() as int
                } else {
                    self.half_move_clock as int
                },
                keys == key_items(self.key_history),
                repetitions(keys, current_key, max_back as int, 2) == (if found_first_repetition {
                    1nat
                } else {
                    0nat
                }) + repetitions(keys, current_key, max_back as int, offset as int),
            decreases max_back + 2 - offset,
        {
            if self.key_history.get(len - offset) == current_key {
                if found_first_repetition {
                    proof {
                        assert(keys[keys.len() - offset] == current_key);
                        assert(repetitions(keys, current_key, max_back as int, offset as int) == 1
                            + repetitions(keys, current_key, max_back as int, offset + 2));
                        assert(repetitions(keys, current_key, max_back as int, 2) >= 2);
                        assert(current_key == self.key());
                        assert(max_back == if keys.len() < self.half_move_clock {
                            keys.len() as int
                        } else {
                            self.half_move_clock as int
                        });
                    }
                    return true;
                }
                found_first_repetition = true;
            }
            offset = offset + 2;
        }
        false
    }
}

/// A key `offset` places back from the end of `keys`, for some even `offset` from 2 up to
/// both `max_back` and `ply`, equals `key`: the position repeats one reached within the
/// last `ply` plies.
pub open spec fn recent_repetition(keys: Seq<u64>, key: u64, max_back: int, ply: int) -> bool {
    exists|o: int|
        2 <= o <= max_back && o <= ply && o % 2 == 0 && #[trigger] keys[keys.len() - o] == key
}

/// How far back repetitions are looked for: the keys since the last capture or pawn move.
pub open spec fn lookback(pos: Position) -> int {
    let n = key_items(pos.key_history).len();
    if n < pos.half_move_clock {
        n as int
    } else {
        pos.half_move_clock as int
    }
}

/// The search counts the position as drawn by repetition: it repeats a position reached
/// within the last `ply` plies, or two positions played before.
pub open spec fn repetition_draw(pos: Position, ply: int) -> bool {
    let keys = key_items(pos.key_history);
    recent_repetition(keys, pos.key(), lookback(pos), ply) || repetitions(
        keys,
        pos.key(),
        lookback(pos),
        2,
    ) >= 2
}

impl Position {
    /// A hundred plies have gone by without a capture or a pawn move.
    pub fn is_fifty_move_draw(&self) -> (r: bool)
        ensures
            r == (self.half_move_clock >= 100),
    {
        self.half_move_clock >= 100
    }

    /// Whether the search counts the position as drawn by repetition (see
    /// `repetition_draw`), `ply` plies below its root.
    pub fn is_repetition_draw(&self, ply: u8) -> (r: bool)
        requires
            self.table().filled(),
        ensures
            r == repetition_draw(*self, ply as int),
    {
        let current_key = self.compute_key();
        let len = self.key_history.len();
        let hmc = self.half_move_clock as usize;
        let max_back = if len < hmc {
            len
        } else {
            hmc
        };
        let ghost keys = key_items(self.key_history);
        let mut found_once = false;
        let mut offset: usize = 2;
        while offset <= max_back
            invariant
                2 <= offset <= max_back + 2,
                offset % 2 == 0,
                max_back <= len,
                max_back <= 255,
                len == keys.len(),
                current_key == self.key(),
                max_back == lookback(*self),
                keys == key_items(self.key_history),
                forall|o: int|
                    2 <= o < offset && o <= ply && o % 2 == 0 ==> #[trigger] keys[keys.len() - o]
                        != current_key,
                repetitions(keys, current_key, max_back as int, 2) == (if found_once {
                    1nat
                } else {
                    0nat
                }) + repetitions(keys, current_key, max_back as int, offset as int),
            decreases max_back + 2 - offset,
        {
            if self.key_history.get(len - offset) == current_key {
                proof {
                    assert(keys[keys.len() - offset] == current_key);
                    assert(repetitions(keys, current_key, max_back as int, offset as int) == 1
                        + repetitions(keys, current_key, max_back as int, offset + 2));
                }
                if offset <= ply as usize || found_once {
                    return true;
                }
                found_once = true;
            }
            offset = offset + 2;
        }
        proof {
            assert(!recent_repetition(keys, current_key, max_back as int, ply as int)) by {
                if recent_repetition(keys, current_key, max_back as int, ply as int) {
                    let o = choose|o: int|
                        2 <= o <= max_back && o <= ply && o % 2 == 0 && #[trigger] keys[keys.len()
                            - o] == current_key;
                    assert(o < offset);
                }
            }
        }
        false
    }

    /// Passes the move to the other side: the key of the position is remembered and the
    /// en passant square goes. Gives the en passant square there was, for
    /// `undo_null_move`.
    pub fn do_null_move(&mut self) -> (r: Option<Square>)
        requires
            old(self).table().filled(),
            key_items(old(self).key_history).len() < list_limit(),
        ensures
            r == old(self).en_passant_square,
            final(self).board == old(self).board,
            final(self).colour_to_move == old(self).colour_to_move.opposite(),
            final(self).castling_rights == old(self).castling_rights,
            final(self).en_passant_square is None,
            final(self).half_move_clock == old(self).half_move_clock,
            final(self).full_move_counter == old(self).full_move_counter,
            key_items(final(self).key_history) == key_items(old(self).key_history).push(
                old(self).key(),
            ),
            final(self).zobrist == old(self).zobrist,
    {
        let key = self.compute_key();
        self.key_history.push(key);
        let en_passant_square = self.en_passant_square;
        self.en_passant_square = None;
        self.colour_to_move = self.colour_to_move.flip();
        en_passant_square
    }

    /// Takes back a pass: the side to move and the en passant square are those before it,
    /// and its key is forgotten.
    pub fn undo_null_move(&mut self, en_passant_square: Option<Square>)
        ensures
            final(self).board == old(self).board,
            final(self).colour_to_move == old(self).colour_to_move.opposite(),
            final(self).castling_rights == old(self).castling_rights,
            final(self).en_passant_square == en_passant_square,
            final(self).half_move_clock == old(self).half_move_clock,
            final(self).full_move_counter == old(self).full_move_counter,
            key_items(old(self).key_history).len() > 0 ==> key_items(final(self).key_history)
                == key_items(old(self).key_history).drop_last(),
            final(self).zobrist == old(self).zobrist,
    {
        self.key_history.pop();
        self.en_passant_square = en_passant_square;
        self.colour_to_move = self.colour_to_move.flip();
    }
}

/// A pass taken back leaves the position as it was: the side to move, the en passant
/// square and the key history are those before the pass, and the rest never changed.
pub proof fn lemma_null_move_restores(before: Position, passed: Position, after: Position, ep: Option<Square>)
    requires
        ep == before.en_passant_square,
        passed.board == before.board,
        passed.colour_to_move == before.colour_to_move.opposite(),
        passed.castling_rights == before.castling_rights,
        passed.half_move_clock == before.half_move_clock,
        passed.full_move_counter == before.full_move_counter,
        key_items(passed.key_history) == key_items(before.key_history).push(before.key()),
        passed.zobrist == before.zobrist,
        after.board == passed.board,
        after.colour_to_move == passed.colour_to_move.opposite(),
        after.castling_rights == passed.castling_rights,
        after.en_passant_square == ep,
        after.half_move_clock == passed.half_move_clock,
        after.full_move_counter == passed.full_move_counter,
        key_items(passed.key_history).len() > 0 ==> key_items(after.key_history) == key_items(
            passed.key_history,
        ).drop_last(),
        after.zobrist == passed.zobrist,
    ensures
        after.board == before.board,
        after.colour_to_move == before.colour_to_move,
        after.castling_rights == before.castling_rights,
        after.en_passant_square == before.en_passant_square,
        after.half_move_clock == before.half_move_clock,
        after.full_move_counter == before.full_move_counter,
        key_items(after.key_history) == key_items(before.key_history),
        after.zobrist == before.zobrist,
{
    crate::colour::lemma_flip_involutive(before.colour_to_move);
    assert(key_items(before.key_history).push(before.key()).drop_last() =~= key_items(
        before.key_history,
    ));
}

/// Calls `Rc::clone`: another pointer to the same table, which holds the same value.
#[verifier::external_body]
fn share(table: &Rc<Zobrist>) -> (r: Rc<Zobrist>)
    ensures
        *r == **table,
{
    Rc::clone(table)
}

impl Position {
    /// A copy of the position, sharing its key table.
    pub fn duplicate(&self) -> (r: Position)
        ensures
            r.board == self.board,
            r.colour_to_move == self.colour_to_move,
            r.castling_rights == self.castling_rights,
            r.en_passant_square == self.en_passant_square,
            r.half_move_clock == self.half_move_clock,
            r.full_move_counter == self.full_move_counter,
            key_items(r.key_history) == key_items(self.key_history),
            r.table() == self.table(),
    {
        Position {
            board: self.board,
            colour_to_move: self.colour_to_move,
            castling_rights: self.castling_rights,
            en_passant_square: self.en_passant_square,
            half_move_clock: self.half_move_clock,
            full_move_counter: self.full_move_counter,
            key_history: self.key_history.duplicate(),
            zobrist: share(&self.zobrist),
        }
    }
}

} // verus!
