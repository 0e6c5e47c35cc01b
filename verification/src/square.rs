use crate::bitboard::{count_below, group_bitboard, has_bit, lemma_no_bits_zero, popcount, single};
use crate::colour::Colour;
use crate::text::{chars_of, concat3};
use vstd::prelude::*;
use vstd::string::StringExecFns;

verus! {

broadcast use {
    group_bitboard,
    vstd::std_specs::bits::axiom_u64_trailing_zeros,
    vstd::std_specs::bits::axiom_u64_leading_zeros,
};

/// Squares of the first and the eighth rank.
pub const BACK_RANKS: u64 = 0xFF000000000000FFu64;

/// The four corner squares.
pub const CORNERS: u64 = 0x8100000000000081u64;

/// File of a square index (0 for the a-file .. 7 for the h-file).
pub open spec fn file_of(i: int) -> int {
    i % 8
}

/// Rank of a square index (0 for the first rank .. 7 for the eighth).
pub open spec fn rank_of(i: int) -> int {
    i / 8
}

/// Distance between two numbers.
pub open spec fn dist(a: int, b: int) -> int {
    if a >= b {
        a - b
    } else {
        b - a
    }
}

/// A square of the board, numbered 0 (a1) to 63 (h8), rank by rank.
#[derive(Debug, Clone, Copy, PartialEq, Eq, Structural)]
pub struct Square(u8);

proof fn bv_file_rank(f: u8, r: u8)
    by (bit_vector)
    requires
        f < 8,
        r < 8,
    ensures
        (r << 3u8) | f == r * 8 + f,
{
}

proof fn bv_file_rank_of(x: u8)
    by (bit_vector)
    requires
        x < 64,
    ensures
        x & 7 == x % 8,
        x >> 3u8 == x / 8,
{
}

proof fn bv_back_ranks(i: u64)
    by (bit_vector)
    requires
        i < 64,
    ensures
        (0xFF000000000000FFu64 >> i) & 1u64 == 1u64 <==> (i < 8 || i >= 56),
        (0x8100000000000081u64 >> i) & 1u64 == 1u64 <==> (i == 0 || i == 7 || i == 56 || i
            == 63),
{
}

/// The single bit of square `i` meets `mask` exactly when bit `i` of `mask` is set.
proof fn lemma_single_meets(i: int, mask: u64)
    requires
        0 <= i < 64,
    ensures
        (single(i) & mask != 0) == has_bit(mask, i),
{
    if has_bit(mask, i) {
        assert(has_bit(single(i) & mask, i));
    } else {
        assert forall|j: int| 0 <= j < 64 implies !#[trigger] has_bit(single(i) & mask, j) by {}
        lemma_no_bits_zero(single(i) & mask);
    }
}

impl Square {
    #[verifier::type_invariant]
    spec fn inv(self) -> bool {
        self.0 < 64
    }

    /// The index of the square, 0 (a1) to 63 (h8).
    pub closed spec fn idx(self) -> int {
        self.0 as int
    }

    pub fn from_index(index: u8) -> (r: Square)
        requires
            index < 64,
        ensures
            r.idx() == index,
    {
        Square(index)
    }

    pub fn from_file_and_rank(file: u8, rank: u8) -> (r: Square)
        requires
            file < 8,
            rank < 8,
        ensures
            r.idx() == rank * 8 + file,
    {
        proof {
            bv_file_rank(file, rank);
        }
        Square(rank << 3 | file)
    }

    /// The lowest square of a non-empty bitboard.
    pub fn first(squares: u64) -> (r: Square)
        requires
            squares != 0,
        ensures
            has_bit(squares, r.idx()),
            forall|j: int| 0 <= j < r.idx() ==> !#[trigger] has_bit(squares, j),
    {
        let t = squares.trailing_zeros();
        proof {
            assert forall|j: int| 0 <= j < t implies !#[trigger] has_bit(squares, j) by {
                assert((squares >> (j as u64)) & 1u64 == 0u64);
            }
        }
        Square(t as u8)
    }

    /// The highest square of a non-empty bitboard.
    pub fn last(squares: u64) -> (r: Square)
        requires
            squares != 0,
        ensures
            has_bit(squares, r.idx()),
            forall|j: int| r.idx() < j < 64 ==> !#[trigger] has_bit(squares, j),
    {
        let l = squares.leading_zeros();
        proof {
            assert forall|j: int| 63 - l < j < 64 implies !#[trigger] has_bit(squares, j) by {
                assert((squares >> (j as u64)) & 1u64 == 0u64);
            }
            assert((squares >> ((63 - l) as u64)) & 1u64 != 0u64);
            assert(((squares >> ((63 - l) as u64)) & 1u64) <= 1u64) by (bit_vector);
        }
        Square(63 - l as u8)
    }

    /// The square of a bitboard that holds exactly one square.
    pub fn from_u64(squares: u64) -> (r: Square)
        requires
            exists|i: int| 0 <= i < 64 && squares == single(i),
        ensures
            squares == single(r.idx()),
    {
        proof {
            let i = choose|i: int| 0 <= i < 64 && squares == single(i);
            assert(has_bit(squares, i));
        }
        let r = Self::last(squares);
        proof {
            assert(has_bit(squares, r.idx()));
        }
        r
    }

    /// Takes the lowest square out of a non-empty bitboard.
    pub fn next(squares: &mut u64) -> (r: Square)
        requires
            *old(squares) != 0,
        ensures
            has_bit(*old(squares), r.idx()),
            forall|j: int| 0 <= j < r.idx() ==> !#[trigger] has_bit(*old(squares), j),
            *final(squares) == *old(squares) ^ single(r.idx()),
            forall|j: int| #[trigger]
                has_bit(*final(squares), j) == (has_bit(*old(squares), j) && j != r.idx()),
    {
        let square = Self::first(*squares);
        let b = square.u64();
        *squares = *squares ^ b;
        square
    }

    pub fn index(&self) -> (r: u8)
        ensures
            r == self.idx(),
            r < 64,
    {
        proof {
            use_type_invariant(self);
        }
        self.0
    }

    /// The bitboard with only this square set.
    pub fn u64(&self) -> (r: u64)
        ensures
            r == single(self.idx()),
            forall|j: int| #[trigger] has_bit(r, j) == (j == self.idx()),
            popcount(r) == 1,
    {
        proof {
            use_type_invariant(self);
            lemma_count_below_single(self.idx(), 64);
            assert forall|j: int| #[trigger] has_bit(single(self.idx()), j) == (j == self.idx()) by {
                crate::bitboard::lemma_has_bit_single(self.idx(), j);
            }
        }
        1u64 << self.0
    }

    pub fn file(&self) -> (r: u8)
        ensures
            r == file_of(self.idx()),
            r < 8,
    {
        proof {
            use_type_invariant(self);
            bv_file_rank_of(self.0);
        }
        self.0 & 7
    }

    pub fn rank(&self) -> (r: u8)
        ensures
            r == rank_of(self.idx()),
            r < 8,
    {
        proof {
            use_type_invariant(self);
            bv_file_rank_of(self.0);
        }
        self.0 >> 3
    }

    /// Number of files between this square and another.
    pub fn file_diff(&self, other: Square) -> (r: u8)
        ensures
            r == dist(file_of(self.idx()), file_of(other.idx())),
    {
        let a = self.file();
        let b = other.file();
        if a >= b {
            a - b
        } else {
            b - a
        }
    }

    /// Number of ranks between this square and another.
    pub fn rank_diff(&self, other: Square) -> (r: u8)
        ensures
            r == dist(rank_of(self.idx()), rank_of(other.idx())),
    {
        let a = self.rank();
        let b = other.rank();
        if a >= b {
            a - b
        } else {
            b - a
        }
    }

    /// The square one rank further up the board from the point of view of `colour`.
    pub fn advance(&self, colour: Colour) -> (r: Square)
        requires
            colour == Colour::White ==> self.idx() < 56,
            colour == Colour::Black ==> self.idx() >= 8,
        ensures
            r.idx() == advanced(self.idx(), colour),
    {
        proof {
            use_type_invariant(self);
        }
        match colour {
            Colour::White => Square(self.0 + 8),
            _ => Square(self.0 - 8),
        }
    }

    pub fn is_back_rank(&self) -> (r: bool)
        ensures
            r == (rank_of(self.idx()) == 0 || rank_of(self.idx()) == 7),
    {
        let i = self.index();
        let b = self.u64();
        proof {
            bv_back_ranks(i as u64);
            lemma_single_meets(i as int, BACK_RANKS);
        }
        b & BACK_RANKS != 0
    }

    pub fn is_corner(&self) -> (r: bool)
        ensures
            r == (self.idx() == 0 || self.idx() == 7 || self.idx() == 56 || self.idx() == 63),
    {
        let i = self.index();
        let b = self.u64();
        proof {
            bv_back_ranks(i as u64);
            lemma_single_meets(i as int, CORNERS);
        }
        b & CORNERS != 0
    }

    /// Reads a square in algebraic notation (file letter then rank digit, as in "e4").
    pub fn from_chars(chars: &[char]) -> (r: Option<Square>)
        ensures
            r is Some <==> parse_square(chars@) is Some,
            r matches Some(sq) ==> parse_square(chars@) == Some(sq.idx()),
    {
        if chars.len() != 2 {
            return None;
        }
        let file = chars[0];
        let rank = chars[1];
        if !('a' <= file && file <= 'h') || !('1' <= rank && rank <= '8') {
            return None;
        }
        let f = (file as u32 - 'a' as u32) as u8;
        let r = (rank as u32 - '1' as u32) as u8;
        Some(Self::from_file_and_rank(f, r))
    }

    /// Reads a square in algebraic notation, with the error text of the engine. A text of
    /// one character that takes two bytes in UTF-8 is left out: it has two bytes, as a
    /// square's name has, but no second character to read.
    pub fn parse(square: &str) -> (r: Result<Square, String>)
        requires
            !lone_two_byte_char(square@),
        ensures
            match r {
                Ok(sq) => parse_square(square@) == Some(sq.idx()),
                Err(e) => parse_square(square@) is None && e@ == "invalid square '"@ + square@
                    + "'"@,
            },
    {
        let chars = chars_of(square);
        match Self::from_chars(chars.as_slice()) {
            Some(sq) => Ok(sq),
            None => Err(concat3("invalid square '", square, "'")),
        }
    }
}

/// The index one rank further up from the point of view of `colour`.
pub open spec fn advanced(i: int, colour: Colour) -> int {
    match colour {
        Colour::White => i + 8,
        Colour::Black => i - 8,
    }
}

/// The index of the square named by two characters in algebraic notation, if they name one.
pub open spec fn parse_square(s: Seq<char>) -> Option<int> {
    if s.len() == 2 && 'a' <= s[0] <= 'h' && '1' <= s[1] <= '8' {
        Some((s[1] as int - '1' as int) * 8 + (s[0] as int - 'a' as int))
    } else {
        None
    }
}

/// The squares of the a-file.
pub const FILE_A: u64 = 0x0101010101010101u64;

proof fn bv_file_mask(f: u64, j: u64)
    by (bit_vector)
    requires
        f < 8,
        j < 64,
    ensures
        ((0x0101010101010101u64 << f) >> j) & 1u64 == 1u64 <==> j % 8 == f,
{
}

/// The squares of a file (0 is the a-file).
pub fn file_mask(file: u8) -> (r: u64)
    requires
        file < 8,
    ensures
        forall|j: int| #[trigger] has_bit(r, j) == (0 <= j < 64 && file_of(j) == file),
{
    let r = FILE_A << file;
    proof {
        assert forall|j: int| #[trigger] has_bit(r, j) == (0 <= j < 64 && file_of(j) == file) by {
            if 0 <= j < 64 {
                bv_file_mask(file as u64, j as u64);
            }
        }
    }
    r
}

/// The bits of `BACK_RANKS` are the squares of the first and the eighth rank.
pub proof fn lemma_back_ranks()
    ensures
        forall|j: int| #[trigger]
            has_bit(BACK_RANKS, j) == (0 <= j < 64 && (rank_of(j) == 0 || rank_of(j) == 7)),
{
    assert forall|j: int| #[trigger]
        has_bit(BACK_RANKS, j) == (0 <= j < 64 && (rank_of(j) == 0 || rank_of(j) == 7)) by {
        if 0 <= j < 64 {
            bv_back_ranks(j as u64);
        }
    }
}

/// The text is one character that takes two bytes in UTF-8.
pub open spec fn lone_two_byte_char(s: Seq<char>) -> bool {
    s.len() == 1 && 0x80 <= (s[0] as u32) && (s[0] as u32) < 0x800
}

/// The square with index `i`.
pub closed spec fn square_of(i: int) -> Square {
    Square(i as u8)
}

/// `square_of` gives the square of an index, and every square is that of its index.
pub proof fn lemma_square_of(i: int)
    requires
        0 <= i < 64,
    ensures
        square_of(i).idx() == i,
        forall|sq: Square| #[trigger] sq.idx() == i ==> sq == square_of(i),
{
}

/// Squares with the same index are the same square.
pub proof fn lemma_idx_injective(a: Square, b: Square)
    ensures
        a.idx() == b.idx() ==> a == b,
{
}

/// Counting the bits of a square's bitboard below `n`: one once `n` passes the square.
proof fn lemma_count_below_single(i: int, n: nat)
    requires
        0 <= i < 64,
        n <= 64,
    ensures
        count_below(single(i), n) == if n > i {
            1nat
        } else {
            0nat
        },
    decreases n,
{
    if n > 0 {
        lemma_count_below_single(i, (n - 1) as nat);
        assert(has_bit(single(i), n - 1) == (n - 1 == i));
    }
}

/// A square's bitboard (see `Square::u64`) has exactly one bit set, the square's own: so
/// `Square::first` and `Square::last` of it give the square back.
pub proof fn lemma_square_bitboard(sq: Square)
    requires
        0 <= sq.idx() < 64,
    ensures
        single(sq.idx()) == 1u64 << (sq.idx() as u64),
        popcount(single(sq.idx())) == 1,
        forall|j: int| #[trigger] has_bit(single(sq.idx()), j) <==> j == sq.idx(),
        forall|r: Square| #[trigger] has_bit(single(sq.idx()), r.idx()) ==> r == sq,
{
    lemma_count_below_single(sq.idx(), 64);
    assert forall|r: Square| #[trigger] has_bit(single(sq.idx()), r.idx()) implies r == sq by {
        lemma_idx_injective(r, sq);
    }
}

impl std::str::FromStr for Square {
    type Err = String;

    fn from_str(square: &str) -> (r: Result<Self, Self::Err>)
        ensures
            match r {
                Ok(sq) => !lone_two_byte_char(square@) && parse_square(square@) == Some(sq.idx()),
                Err(e) => (lone_two_byte_char(square@) || parse_square(square@) is None) && e@
                    == "invalid square '"@ + square@ + "'"@,
            },
    {
        let chars = chars_of(square);
        if chars.len() == 1 && 0x80 <= (chars[0] as u32) && (chars[0] as u32) < 0x800 {
            return Err(concat3("invalid square '", square, "'"));
        }
        Square::parse(square)
    }
}

} // verus!
