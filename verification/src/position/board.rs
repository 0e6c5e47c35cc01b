use crate::bitboard::{count_ones, group_bitboard, has_bit, lemma_bits_ext, popcount, single};
use crate::colour::Colour;
use crate::piece::Piece;
use crate::square::Square;
use vstd::array::{spec_array_fill_for_copy_type, spec_array_update};
use vstd::prelude::*;

verus! {

broadcast use {group_bitboard, vstd::array::group_array_axioms};

/// The pieces on the 64 squares, kept three ways: a piece per square, a bitboard per
/// piece and a bitboard per colour.
#[derive(Debug, Clone, Copy)]
pub struct Board {
    squares: [Option<Piece>; 64],
    pieces: [u64; 12],
    colours: [u64; 2],
}

impl Board {
    /// The piece on square `i`, if any.
    pub closed spec fn at(self, i: int) -> Option<Piece> {
        self.squares@[i]
    }

    /// The bitboard kept for a piece.
    pub closed spec fn piece_bb(self, p: Piece) -> u64 {
        self.pieces@[p.idx()]
    }

    /// The bitboard kept for a colour.
    pub closed spec fn colour_bb(self, c: Colour) -> u64 {
        self.colours@[c.idx()]
    }

    /// The three views agree: a bit of a piece's bitboard is set exactly where that piece
    /// stands, and a bit of a colour's bitboard exactly where a piece of that colour stands.
    pub open spec fn wf(self) -> bool {
        &&& forall|i: int, p: Piece|
            #![trigger has_bit(self.piece_bb(p), i)]
            0 <= i < 64 ==> (has_bit(self.piece_bb(p), i) <==> self.at(i) == Some(p))
        &&& forall|i: int, c: Colour|
            #![trigger has_bit(self.colour_bb(c), i)]
            0 <= i < 64 ==> (has_bit(self.colour_bb(c), i) <==> (self.at(i) is Some && self.at(
                i,
            )->0.colour_of() == c))
    }

    /// The board with no piece on it.
    pub closed spec fn blank() -> Board {
        Board {
            squares: spec_array_fill_for_copy_type(None),
            pieces: spec_array_fill_for_copy_type(0),
            colours: spec_array_fill_for_copy_type(0),
        }
    }

    /// The board after `piece` is put on square `i`: the square holds the piece, and the
    /// square's bit is added to the bitboards of the piece and of its colour.
    pub closed spec fn with_piece(self, piece: Piece, i: int) -> Board {
        Board {
            squares: spec_array_update(self.squares, i, Some(piece)),
            pieces: spec_array_update(
                self.pieces,
                piece.idx(),
                self.pieces@[piece.idx()] | single(i),
            ),
            colours: spec_array_update(
                self.colours,
                piece.colour_of().idx(),
                self.colours@[piece.colour_of().idx()] | single(i),
            ),
        }
    }

    /// What the blank board holds: nothing.
    pub proof fn lemma_blank()
        ensures
            Board::blank().wf(),
            forall|i: int| 0 <= i < 64 ==> #[trigger] Board::blank().at(i) == None::<Piece>,
            forall|p: Piece| #[trigger] Board::blank().piece_bb(p) == 0,
            forall|c: Colour| #[trigger] Board::blank().colour_bb(c) == 0,
    {
        let b = Board::blank();
        assert forall|p: Piece| #[trigger] b.piece_bb(p) == 0 by {
            assert(b.pieces@[p.idx()] == 0);
        }
        assert forall|c: Colour| #[trigger] b.colour_bb(c) == 0 by {
            assert(b.colours@[c.idx()] == 0);
        }
        assert forall|i: int| 0 <= i < 64 implies #[trigger] b.at(i) == None::<Piece> by {
            assert(b.squares@[i] == None::<Piece>);
        }
    }

    /// What a board holds after a piece is put on a square; the board stays well formed
    /// where the square was empty or held that piece already.
    pub proof fn lemma_with_piece(self, piece: Piece, i: int)
        requires
            0 <= i < 64,
        ensures
            forall|j: int|
                #![trigger self.with_piece(piece, i).at(j)]
                0 <= j < 64 ==> self.with_piece(piece, i).at(j) == if j == i {
                    Some(piece)
                } else {
                    self.at(j)
                },
            forall|p: Piece|
                #![trigger self.with_piece(piece, i).piece_bb(p)]
                self.with_piece(piece, i).piece_bb(p) == if p == piece {
                    self.piece_bb(p) | single(i)
                } else {
                    self.piece_bb(p)
                },
            forall|c: Colour|
                #![trigger self.with_piece(piece, i).colour_bb(c)]
                self.with_piece(piece, i).colour_bb(c) == if c == piece.colour_of() {
                    self.colour_bb(c) | single(i)
                } else {
                    self.colour_bb(c)
                },
            self.wf() && (self.at(i) is None || self.at(i) == Some(piece)) ==> self.with_piece(
                piece,
                i,
            ).wf(),
    {
        let b = self.with_piece(piece, i);
        assert forall|p: Piece| #[trigger] b.piece_bb(p) == if p == piece {
            self.piece_bb(p) | single(i)
        } else {
            self.piece_bb(p)
        } by {
            assert(p == piece <==> p.idx() == piece.idx());
        }
        assert forall|c: Colour| #[trigger] b.colour_bb(c) == if c == piece.colour_of() {
            self.colour_bb(c) | single(i)
        } else {
            self.colour_bb(c)
        } by {
            assert(c == piece.colour_of() <==> c.idx() == piece.colour_of().idx());
        }
        if self.wf() && (self.at(i) is None || self.at(i) == Some(piece)) {
            assert forall|j: int, q: Piece| 0 <= j < 64 implies (#[trigger] has_bit(
                b.piece_bb(q),
                j,
            ) <==> b.at(j) == Some(q)) by {
                assert(has_bit(self.piece_bb(q), j) <==> self.at(j) == Some(q));
            }
            assert forall|j: int, d: Colour| 0 <= j < 64 implies (#[trigger] has_bit(
                b.colour_bb(d),
                j,
            ) <==> (b.at(j) is Some && b.at(j)->0.colour_of() == d)) by {
                assert(has_bit(self.colour_bb(d), j) <==> (self.at(j) is Some && self.at(
                    j,
                )->0.colour_of() == d));
            }
        }
    }

    /// Two well-formed boards with the same piece on every square are the same board.
    pub proof fn lemma_determined(a: Board, b: Board)
        requires
            a.wf(),
            b.wf(),
            forall|i: int| 0 <= i < 64 ==> #[trigger] a.at(i) == b.at(i),
        ensures
            a == b,
    {
        assert(a.squares@.len() == 64 && b.squares@.len() == 64);
        assert forall|i: int| 0 <= i < 64 implies a.squares@[i] == b.squares@[i] by {
            assert(a.at(i) == b.at(i));
        }
        assert(a.squares@ =~= b.squares@);
        assert(a.squares =~= b.squares);
        assert forall|k: int| 0 <= k < 12 implies #[trigger] a.pieces@[k] == b.pieces@[k] by {
            let p = Piece::from_idx(k);
            assert(p.idx() == k);
            assert forall|i: int| 0 <= i < 64 implies #[trigger] has_bit(a.pieces@[k], i)
                == has_bit(b.pieces@[k], i) by {
                assert(has_bit(a.piece_bb(p), i) == has_bit(b.piece_bb(p), i));
            }
            lemma_bits_ext(a.pieces@[k], b.pieces@[k]);
        }
        assert(a.pieces@.len() == 12 && b.pieces@.len() == 12);
        assert(a.pieces@ =~= b.pieces@);
        assert(a.pieces =~= b.pieces);
        assert forall|k: int| 0 <= k < 2 implies #[trigger] a.colours@[k] == b.colours@[k] by {
            let c = if k == 0 {
                Colour::White
            } else {
                Colour::Black
            };
            assert forall|i: int| 0 <= i < 64 implies #[trigger] has_bit(a.colours@[k], i)
                == has_bit(b.colours@[k], i) by {
                assert(has_bit(a.colour_bb(c), i) == has_bit(b.colour_bb(c), i));
            }
            lemma_bits_ext(a.colours@[k], b.colours@[k]);
        }
        assert(a.colours@.len() == 2 && b.colours@.len() == 2);
        assert(a.colours@ =~= b.colours@);
        assert(a.colours =~= b.colours);
    }

    pub fn empty() -> (r: Board)
        ensures
            r == Board::blank(),
            r.wf(),
            forall|i: int| 0 <= i < 64 ==> #[trigger] r.at(i) == None::<Piece>,
            forall|p: Piece| #[trigger] r.piece_bb(p) == 0,
            forall|c: Colour| #[trigger] r.colour_bb(c) == 0,
    {
        let r = Board { squares: [None; 64], pieces: [0; 12], colours: [0; 2] };
        proof {
            let b = Board::blank();
            assert(r.squares =~= b.squares);
            assert(r.pieces =~= b.pieces);
            assert(r.colours =~= b.colours);
            Board::lemma_blank();
        }
        r
    }

    pub fn pieces(&self, piece: Piece) -> (r: u64)
        ensures
            r == self.piece_bb(piece),
    {
        self.pieces[piece.index()]
    }

    pub fn pieces_by_colour(&self, colour: Colour) -> (r: u64)
        ensures
            r == self.colour_bb(colour),
    {
        self.colours[colour.index()]
    }

    pub fn count_pieces(&self, piece: Piece) -> (r: u32)
        ensures
            r == popcount(self.piece_bb(piece)),
            r <= 64,
    {
        count_ones(self.pieces[piece.index()])
    }

    /// Puts a piece on a square. The square is expected to be empty, or to hold the same
    /// piece already: the bitboards of a piece already there are left as they are.
    pub fn put_piece(&mut self, piece: Piece, square: Square)
        ensures
            *final(self) == old(self).with_piece(piece, square.idx()),
            forall|i: int|
                #![trigger final(self).at(i)]
                0 <= i < 64 ==> final(self).at(i) == if i == square.idx() {
                    Some(piece)
                } else {
                    old(self).at(i)
                },
            forall|p: Piece|
                #![trigger final(self).piece_bb(p)]
                final(self).piece_bb(p) == if p == piece {
                    old(self).piece_bb(p) | single(square.idx())
                } else {
                    old(self).piece_bb(p)
                },
            forall|c: Colour|
                #![trigger final(self).colour_bb(c)]
                final(self).colour_bb(c) == if c == piece.colour_of() {
                    old(self).colour_bb(c) | single(square.idx())
                } else {
                    old(self).colour_bb(c)
                },
            old(self).wf() && (old(self).at(square.idx()) is None || old(self).at(square.idx())
                == Some(piece)) ==> final(self).wf(),
    {
        let i = square.index() as usize;
        let bit = square.u64();
        let p = piece.index();
        let c = piece.colour().index();
        let ghost old_board = *self;
        self.squares[i] = Some(piece);
        self.pieces[p] = self.pieces[p] | bit;
        self.colours[c] = self.colours[c] | bit;
        proof {
            let w = old_board.with_piece(piece, square.idx());
            assert(self.squares =~= w.squares);
            assert(self.pieces =~= w.pieces);
            assert(self.colours =~= w.colours);
            if old_board.wf() && (old_board.at(square.idx()) is None || old_board.at(square.idx())
                == Some(piece)) {
                assert forall|j: int, q: Piece| 0 <= j < 64 implies (#[trigger] has_bit(self.piece_bb(q), j) <==> self.at(j) == Some(q)) by {
                    assert(has_bit(old_board.piece_bb(q), j) <==> old_board.at(j) == Some(q));
                }
                assert forall|j: int, d: Colour| 0 <= j < 64 implies (#[trigger] has_bit(self.colour_bb(d), j) <==> (self.at(j) is Some && self.at(j)->0.colour_of() == d)) by {
                    assert(has_bit(old_board.colour_bb(d), j) <==> (old_board.at(j) is Some && old_board.at(j)->0.colour_of() == d));
                }
            }
        }
    }

    /// Whether the board's views agree (see `wf`): the board is compared with the one built
    /// afresh from its squares.
    pub fn is_consistent(&self) -> (r: bool)
        ensures
            r == self.wf(),
    {
        let mut rebuilt = Board::empty();
        let mut i: u8 = 0;
        while i < 64
            invariant
                i <= 64,
                rebuilt.wf(),
                forall|j: int| 0 <= j < i ==> #[trigger] rebuilt.at(j) == self.at(j),
                forall|j: int| i <= j < 64 ==> #[trigger] rebuilt.at(j) is None,
            decreases 64 - i,
        {
            match self.squares[i as usize] {
                Some(p) => {
                    rebuilt.put_piece(p, Square::from_index(i));
                },
                None => {},
            }
            i = i + 1;
        }
        let mut k: usize = 0;
        while k < 12
            invariant
                k <= 12,
                rebuilt.wf(),
                forall|j: int| 0 <= j < 64 ==> #[trigger] rebuilt.at(j) == self.at(j),
                forall|m: int| 0 <= m < k ==> self.pieces@[m] == rebuilt.pieces@[m],
            decreases 12 - k,
        {
            if self.pieces[k] != rebuilt.pieces[k] {
                proof {
                    if self.wf() {
                        Board::lemma_determined(*self, rebuilt);
                    }
                }
                return false;
            }
            k = k + 1;
        }
        let mut c: usize = 0;
        while c < 2
            invariant
                c <= 2,
                rebuilt.wf(),
                forall|j: int| 0 <= j < 64 ==> #[trigger] rebuilt.at(j) == self.at(j),
                forall|m: int| 0 <= m < 12 ==> self.pieces@[m] == rebuilt.pieces@[m],
                forall|m: int| 0 <= m < c ==> self.colours@[m] == rebuilt.colours@[m],
            decreases 2 - c,
        {
            if self.colours[c] != rebuilt.colours[c] {
                proof {
                    if self.wf() {
                        Board::lemma_determined(*self, rebuilt);
                    }
                }
                return false;
            }
            c = c + 1;
        }
        proof {
            assert forall|j: int| 0 <= j < 64 implies self.squares@[j] == rebuilt.squares@[j] by {
                assert(rebuilt.at(j) == self.at(j));
            }
            assert(self.squares@ =~= rebuilt.squares@);
            assert(self.squares =~= rebuilt.squares);
            assert(self.pieces@ =~= rebuilt.pieces@);
            assert(self.pieces =~= rebuilt.pieces);
            assert(self.colours@ =~= rebuilt.colours@);
            assert(self.colours =~= rebuilt.colours);
            assert(*self == rebuilt);
        }
        true
    }

    pub fn piece_at(&self, square: Square) -> (r: Option<Piece>)
        ensures
            r == self.at(square.idx()),
    {
        self.squares[square.index() as usize]
    }

    pub fn has_piece_at(&self, square: Square) -> (r: bool)
        ensures
            r == self.at(square.idx()) is Some,
    {
        self.piece_at(square).is_some()
    }

    /// Takes whatever piece stands on a square off the board.
    pub fn remove_piece(&mut self, square: Square)
        ensures
            forall|i: int|
                #![trigger final(self).at(i)]
                0 <= i < 64 ==> final(self).at(i) == if i == square.idx() {
                    None
                } else {
                    old(self).at(i)
                },
            forall|p: Piece|
                #![trigger final(self).piece_bb(p)]
                final(self).piece_bb(p) == if old(self).at(square.idx()) == Some(p) {
                    old(self).piece_bb(p) & !single(square.idx())
                } else {
                    old(self).piece_bb(p)
                },
            forall|c: Colour|
                #![trigger final(self).colour_bb(c)]
                final(self).colour_bb(c) == if old(self).at(square.idx()) is Some && old(
                    self,
                ).at(square.idx())->0.colour_of() == c {
                    old(self).colour_bb(c) & !single(square.idx())
                } else {
                    old(self).colour_bb(c)
                },
            old(self).wf() ==> final(self).wf(),
    {
        let i = square.index() as usize;
        let piece = match self.squares[i] {
            Some(piece) => piece,
            None => {
                return;
            },
        };
        let bit = square.u64();
        let p = piece.index();
        let c = piece.colour().index();
        let ghost old_board = *self;
        self.squares[i] = None;
        self.pieces[p] = self.pieces[p] & !bit;
        self.colours[c] = self.colours[c] & !bit;
        proof {
            if old_board.wf() {
                assert forall|j: int, q: Piece| 0 <= j < 64 implies (#[trigger] has_bit(self.piece_bb(q), j) <==> self.at(j) == Some(q)) by {
                    assert(has_bit(old_board.piece_bb(q), j) <==> old_board.at(j) == Some(q));
                }
                assert forall|j: int, d: Colour| 0 <= j < 64 implies (#[trigger] has_bit(self.colour_bb(d), j) <==> (self.at(j) is Some && self.at(j)->0.colour_of() == d)) by {
                    assert(has_bit(old_board.colour_bb(d), j) <==> (old_board.at(j) is Some && old_board.at(j)->0.colour_of() == d));
                }
            }
        }
    }

    /// The squares that hold a piece.
    pub fn occupancy(&self) -> (r: u64)
        ensures
            r == self.colour_bb(Colour::White) | self.colour_bb(Colour::Black),
            self.wf() ==> forall|i: int|
                #![trigger has_bit(r, i)]
                has_bit(r, i) == (0 <= i < 64 && self.at(i) is Some),
    {
        let r = self.colours[0] | self.colours[1];
        proof {
            if self.wf() {
                assert forall|i: int| #![trigger has_bit(r, i)] has_bit(r, i) == (0 <= i < 64 && self.at(i) is Some) by {
                    if 0 <= i < 64 {
                        assert(has_bit(self.colour_bb(Colour::White), i) == has_bit(self.colours@[0], i));
                        assert(has_bit(self.colour_bb(Colour::Black), i) == has_bit(self.colours@[1], i));
                        if self.at(i) is Some {
                            let q = self.at(i)->0;
                            assert(has_bit(self.colour_bb(q.colour_of()), i));
                        }
                    }
                }
            }
        }
        r
    }

    /// Whether any of the given squares holds a piece.
    pub fn has_occupancy_at(&self, squares: u64) -> (r: bool)
        ensures
            r == ((self.colour_bb(Colour::White) | self.colour_bb(Colour::Black)) & squares != 0),
    {
        self.occupancy() & squares != 0
    }
}

/// How the three views of a well-formed board agree, in bitwise form: the piece bitboards
/// are pairwise disjoint, the two colour bitboards are disjoint, each colour bitboard is
/// the union of the bitboards of that colour's pieces, and a square holds a piece exactly
/// when the square's bit is set in that piece's bitboard.
pub proof fn lemma_board_bitwise(b: Board)
    requires
        b.wf(),
    ensures
        forall|p: Piece, q: Piece|
            #![trigger b.piece_bb(p), b.piece_bb(q)]
            p != q ==> b.piece_bb(p) & b.piece_bb(q) == 0,
        b.colour_bb(Colour::White) & b.colour_bb(Colour::Black) == 0,
        forall|c: Colour|
            #[trigger] b.colour_bb(c) == b.piece_bb(Piece::of(c, 0)) | b.piece_bb(Piece::of(c, 1))
                | b.piece_bb(Piece::of(c, 2)) | b.piece_bb(Piece::of(c, 3)) | b.piece_bb(
                Piece::of(c, 4),
            ) | b.piece_bb(Piece::of(c, 5)),
        forall|i: int, p: Piece|
            #![trigger b.at(i), b.piece_bb(p)]
            0 <= i < 64 ==> (b.at(i) == Some(p) <==> b.piece_bb(p) & single(i) != 0),
{
    assert forall|p: Piece, q: Piece| p != q implies #[trigger] b.piece_bb(p) & #[trigger] b.piece_bb(q) == 0 by {
        assert forall|i: int| 0 <= i < 64 implies !#[trigger] has_bit(b.piece_bb(p) & b.piece_bb(q), i) by {
            assert(has_bit(b.piece_bb(p), i) <==> b.at(i) == Some(p));
            assert(has_bit(b.piece_bb(q), i) <==> b.at(i) == Some(q));
        }
        crate::bitboard::lemma_no_bits_zero(b.piece_bb(p) & b.piece_bb(q));
    }
    let w = b.colour_bb(Colour::White);
    let k = b.colour_bb(Colour::Black);
    assert forall|i: int| 0 <= i < 64 implies !#[trigger] has_bit(w & k, i) by {
        assert(has_bit(w, i) <==> (b.at(i) is Some && b.at(i)->0.colour_of() == Colour::White));
        assert(has_bit(k, i) <==> (b.at(i) is Some && b.at(i)->0.colour_of() == Colour::Black));
    }
    crate::bitboard::lemma_no_bits_zero(w & k);
    assert forall|c: Colour|
        #[trigger] b.colour_bb(c) == b.piece_bb(Piece::of(c, 0)) | b.piece_bb(Piece::of(c, 1))
            | b.piece_bb(Piece::of(c, 2)) | b.piece_bb(Piece::of(c, 3)) | b.piece_bb(
            Piece::of(c, 4),
        ) | b.piece_bb(Piece::of(c, 5)) by {
        let u = b.piece_bb(Piece::of(c, 0)) | b.piece_bb(Piece::of(c, 1)) | b.piece_bb(
            Piece::of(c, 2),
        ) | b.piece_bb(Piece::of(c, 3)) | b.piece_bb(Piece::of(c, 4)) | b.piece_bb(
            Piece::of(c, 5),
        );
        assert forall|i: int| 0 <= i < 64 implies #[trigger] has_bit(b.colour_bb(c), i) == has_bit(u, i) by {
            assert(has_bit(b.colour_bb(c), i) <==> (b.at(i) is Some && b.at(i)->0.colour_of() == c));
            if b.at(i) is Some {
                let p = b.at(i)->0;
                crate::piece::lemma_piece_of_colour_and_kind(p);
                assert(has_bit(b.piece_bb(p), i));
            }
            assert forall|kind: int| 0 <= kind < 6 implies (#[trigger] has_bit(b.piece_bb(Piece::of(c, kind)), i) <==> b.at(i) == Some(Piece::of(c, kind))) by {}
            crate::piece::lemma_of_has_colour_and_kind(c, 0);
            crate::piece::lemma_of_has_colour_and_kind(c, 1);
            crate::piece::lemma_of_has_colour_and_kind(c, 2);
            crate::piece::lemma_of_has_colour_and_kind(c, 3);
            crate::piece::lemma_of_has_colour_and_kind(c, 4);
            crate::piece::lemma_of_has_colour_and_kind(c, 5);
        }
        lemma_bits_ext(b.colour_bb(c), u);
    }
    assert forall|i: int, p: Piece| 0 <= i < 64 implies (#[trigger] b.at(i) == Some(p) <==> #[trigger] b.piece_bb(p)
        & single(i) != 0) by {
        assert(has_bit(b.piece_bb(p), i) <==> b.at(i) == Some(p));
        if b.piece_bb(p) & single(i) != 0 {
            crate::bitboard::lemma_no_bits_zero_contra(b.piece_bb(p) & single(i));
        } else {
            assert(!has_bit(0u64, i));
        }
    }
}

} // verus!
