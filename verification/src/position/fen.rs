use super::board::Board;
use super::castling::{CastlingRight, CastlingRights};
use super::Position;
use crate::collections::key_items;
use crate::colour::Colour;
use crate::piece::Piece;
use crate::square::{file_of, lone_two_byte_char, parse_square, rank_of, Square};
use crate::text::{
    char_to_string, chars_of, concat3, decimal, parse_u8, read_u8, split_words, string_of,
    to_decimal, words,
};
use vstd::prelude::*;
use vstd::string::StringExecFns;

verus! {

/// The position at the start of a game.
pub const START_POS_FEN: &'static str = "rnbqkbnr/pppppppp/8/8/8/8/PPPPPPPP/RNBQKBNR w KQkq - 0 1";

/// What reading a piece of text comes to: a value, an error the engine reports, or text
/// the engine cannot read at all.
pub enum Outcome<T> {
    Value(T),
    Refused(Seq<char>),
    Unreadable(Seq<char>),
}

/// What reading a piece of text gave.
pub enum Reading<T> {
    Value(T),
    Refused(String),
    Unreadable(String),
}

/// The reading gave the outcome: the same value, or an error with the same text.
pub open spec fn reads_as<T>(r: Reading<T>, o: Outcome<T>) -> bool {
    match (r, o) {
        (Reading::Value(a), Outcome::Value(b)) => a == b,
        (Reading::Refused(e), Outcome::Refused(m)) => e@ == m,
        (Reading::Unreadable(e), Outcome::Unreadable(m)) => e@ == m,
        _ => false,
    }
}

/// The fields of a position that a FEN record sets.
pub struct FenFields {
    pub board: Board,
    pub colour_to_move: Colour,
    pub castling: Set<CastlingRight>,
    pub en_passant: Option<int>,
    pub half_move_clock: u8,
    pub full_move_counter: u8,
}

/// The piece a FEN letter stands for.
pub open spec fn piece_for_char(c: char) -> Option<Piece> {
    if c == 'P' {
        Some(Piece::WP)
    } else if c == 'N' {
        Some(Piece::WN)
    } else if c == 'B' {
        Some(Piece::WB)
    } else if c == 'R' {
        Some(Piece::WR)
    } else if c == 'Q' {
        Some(Piece::WQ)
    } else if c == 'K' {
        Some(Piece::WK)
    } else if c == 'p' {
        Some(Piece::BP)
    } else if c == 'n' {
        Some(Piece::BN)
    } else if c == 'b' {
        Some(Piece::BB)
    } else if c == 'r' {
        Some(Piece::BR)
    } else if c == 'q' {
        Some(Piece::BQ)
    } else if c == 'k' {
        Some(Piece::BK)
    } else {
        None
    }
}

/// Where a scan of the board text stopped, if it did.
pub enum ScanStop {
    Going,
    BadPiece(char),
    OutOfRange,
}

/// The state of a scan of the board text: where it stopped, the index of the next square
/// (a byte, counted from a8 = 56 down the ranks), the board so far, and whether no piece
/// went on a square that held one.
pub struct BoardScan {
    pub stop: ScanStop,
    pub index: int,
    pub board: Board,
    pub clean: bool,
}

/// One character of the board text: a slash goes down to the start of the next rank, a
/// digit skips that many squares, a letter puts its piece on the square.
pub open spec fn scan_step(st: BoardScan, c: char) -> BoardScan {
    if !(st.stop is Going) {
        st
    } else if c == '/' {
        if st.index < 16 {
            BoardScan { stop: ScanStop::OutOfRange, ..st }
        } else {
            BoardScan { index: st.index - 16, ..st }
        }
    } else if '0' <= c <= '9' {
        let n = st.index + (c as int - '0' as int);
        if n > 255 {
            BoardScan { stop: ScanStop::OutOfRange, ..st }
        } else {
            BoardScan { index: n, ..st }
        }
    } else {
        match piece_for_char(c) {
            Some(p) => if st.index >= 64 {
                BoardScan { stop: ScanStop::OutOfRange, ..st }
            } else {
                BoardScan {
                    stop: ScanStop::Going,
                    index: st.index + 1,
                    board: st.board.with_piece(p, st.index),
                    clean: st.clean && st.board.at(st.index) is None,
                }
            },
            None => BoardScan { stop: ScanStop::BadPiece(c), ..st },
        }
    }
}

/// The scan after the first `k` characters of the board text.
pub open spec fn board_scan(s: Seq<char>, k: int) -> BoardScan
    decreases k,
{
    if k <= 0 {
        BoardScan { stop: ScanStop::Going, index: 56, board: Board::blank(), clean: true }
    } else {
        scan_step(board_scan(s, k - 1), s[k - 1])
    }
}

/// How many times `c` occurs in `s`.
pub open spec fn count_char(s: Seq<char>, c: char) -> nat
    decreases s.len(),
{
    if s.len() == 0 {
        0
    } else {
        count_char(s.drop_last(), c) + if s.last() == c {
            1nat
        } else {
            0nat
        }
    }
}

/// What the board text of a FEN record comes to.
pub open spec fn board_outcome(s: Seq<char>) -> Outcome<Board> {
    let rows = count_char(s, '/') + 1;
    if rows != 8 {
        Outcome::Refused("board must contain 8 rows, got "@ + decimal(rows))
    } else {
        let st = board_scan(s, s.len() as int);
        match st.stop {
            ScanStop::OutOfRange => Outcome::Unreadable("board squares out of range"@),
            ScanStop::BadPiece(c) => Outcome::Refused("invalid piece '"@ + seq![c] + "'"@),
            ScanStop::Going => if st.index != 8 {
                Outcome::Refused("board must contain 64 squares"@)
            } else {
                Outcome::Value(st.board)
            },
        }
    }
}

/// What the side-to-move text of a FEN record comes to.
pub open spec fn colour_outcome(s: Seq<char>) -> Outcome<Colour> {
    if s == seq!['w'] {
        Outcome::Value(Colour::White)
    } else if s == seq!['b'] {
        Outcome::Value(Colour::Black)
    } else {
        Outcome::Refused("invalid colour to move '"@ + s + "'"@)
    }
}

/// The FEN letter of a castling right.
pub open spec fn right_char(right: CastlingRight) -> char {
    match right {
        CastlingRight::WhiteKing => 'K',
        CastlingRight::WhiteQueen => 'Q',
        CastlingRight::BlackKing => 'k',
        CastlingRight::BlackQueen => 'q',
    }
}

/// The character is the FEN letter of a castling right.
pub open spec fn is_right_char(c: char) -> bool {
    c == 'K' || c == 'Q' || c == 'k' || c == 'q'
}

/// What the castling text of a FEN record comes to: the rights it names.
pub open spec fn castling_outcome(s: Seq<char>) -> Outcome<Set<CastlingRight>> {
    if s == seq!['-'] {
        Outcome::Value(Set::empty())
    } else if forall|k: int| 0 <= k < s.len() ==> is_right_char(#[trigger] s[k]) {
        Outcome::Value(Set::new(|right: CastlingRight| s.contains(right_char(right))))
    } else {
        Outcome::Refused("invalid castling rights"@)
    }
}

/// What the en passant text of a FEN record comes to: no square, or a square of the third
/// or the sixth rank.
pub open spec fn en_passant_outcome(s: Seq<char>) -> Outcome<Option<int>> {
    if s == seq!['-'] {
        Outcome::Value(None)
    } else if lone_two_byte_char(s) {
        Outcome::Unreadable("invalid en passant square"@)
    } else {
        match parse_square(s) {
            None => Outcome::Refused("invalid en passant square"@),
            Some(i) => if rank_of(i) != 2 && rank_of(i) != 5 {
                Outcome::Refused("invalid en passant square"@)
            } else {
                Outcome::Value(Some(i))
            },
        }
    }
}

/// What a move counter text of a FEN record comes to: a byte in decimal.
pub open spec fn counter_outcome(s: Seq<char>) -> Outcome<u8> {
    match parse_u8(s) {
        Some(n) => Outcome::Value(n),
        None => Outcome::Unreadable("invalid move counter '"@ + s + "'"@),
    }
}

/// What a FEN record comes to: its six fields are read in order, and the first that fails
/// decides.
pub open spec fn fen_outcome(s: Seq<char>) -> Outcome<FenFields> {
    let parts = words(s);
    if parts.len() != 6 {
        Outcome::Refused("FEN must contain 6 parts, got "@ + decimal(parts.len()))
    } else {
        match board_outcome(parts[0]) {
            Outcome::Refused(e) => Outcome::Refused(e),
            Outcome::Unreadable(e) => Outcome::Unreadable(e),
            Outcome::Value(board) => match colour_outcome(parts[1]) {
                Outcome::Refused(e) => Outcome::Refused(e),
                Outcome::Unreadable(e) => Outcome::Unreadable(e),
                Outcome::Value(colour) => match castling_outcome(parts[2]) {
                    Outcome::Refused(e) => Outcome::Refused(e),
                    Outcome::Unreadable(e) => Outcome::Unreadable(e),
                    Outcome::Value(castling) => match en_passant_outcome(parts[3]) {
                        Outcome::Refused(e) => Outcome::Refused(e),
                        Outcome::Unreadable(e) => Outcome::Unreadable(e),
                        Outcome::Value(ep) => match counter_outcome(parts[4]) {
                            Outcome::Refused(e) => Outcome::Refused(e),
                            Outcome::Unreadable(e) => Outcome::Unreadable(e),
                            Outcome::Value(half) => match counter_outcome(parts[5]) {
                                Outcome::Refused(e) => Outcome::Refused(e),
                                Outcome::Unreadable(e) => Outcome::Unreadable(e),
                                Outcome::Value(full) => Outcome::Value(
                                    FenFields {
                                        board,
                                        colour_to_move: colour,
                                        castling,
                                        en_passant: ep,
                                        half_move_clock: half,
                                        full_move_counter: full,
                                    },
                                ),
                            },
                        },
                    },
                },
            },
        }
    }
}

/// The position holds the fields of the record, with no history.
pub open spec fn has_fields(pos: Position, f: FenFields) -> bool {
    &&& pos.board == f.board
    &&& pos.colour_to_move == f.colour_to_move
    &&& forall|right: CastlingRight| #[trigger]
        pos.castling_rights.holds(right) <==> f.castling.contains(right)
    &&& match pos.en_passant_square {
        Some(sq) => f.en_passant == Some(sq.idx()),
        None => f.en_passant is None,
    }
    &&& pos.half_move_clock == f.half_move_clock
    &&& pos.full_move_counter == f.full_move_counter
    &&& key_items(pos.key_history) == Seq::<u64>::empty()
    &&& pos.table().filled()
}

/// Once the scan has stopped, it stays where it stopped.
proof fn lemma_scan_stays(s: Seq<char>, k: int, m: int)
    requires
        0 <= k <= m,
        !(board_scan(s, k).stop is Going),
    ensures
        board_scan(s, m) == board_scan(s, k),
    decreases m - k,
{
    if m > k {
        lemma_scan_stays(s, k, m - 1);
    }
}

/// Counts the slashes of a text.
fn count_slashes(s: &[char]) -> (r: usize)
    ensures
        r == count_char(s@, '/'),
{
    let mut r: usize = 0;
    let mut i: usize = 0;
    while i < s.len()
        invariant
            i <= s@.len(),
            r <= i,
            r == count_char(s@.take(i as int), '/'),
        decreases s@.len() - i,
    {
        proof {
            assert(s@.take(i + 1).drop_last() =~= s@.take(i as int));
        }
        if s[i] == '/' {
            r = r + 1;
        }
        i = i + 1;
    }
    proof {
        assert(s@.take(s@.len() as int) =~= s@);
    }
    r
}

/// The piece a FEN letter stands for.
fn piece_for(c: char) -> (r: Option<Piece>)
    ensures
        r == piece_for_char(c),
{
    match c {
        'P' => Some(Piece::WP),
        'N' => Some(Piece::WN),
        'B' => Some(Piece::WB),
        'R' => Some(Piece::WR),
        'Q' => Some(Piece::WQ),
        'K' => Some(Piece::WK),
        'p' => Some(Piece::BP),
        'n' => Some(Piece::BN),
        'b' => Some(Piece::BB),
        'r' => Some(Piece::BR),
        'q' => Some(Piece::BQ),
        'k' => Some(Piece::BK),
        _ => None,
    }
}

/// Reads the board text of a FEN record, rank 8 first, each rank from the a-file on.
pub fn read_board(s: &[char]) -> (r: Reading<Board>)
    ensures
        reads_as(r, board_outcome(s@)),
        r matches Reading::Value(b) ==> (board_scan(s@, s@.len() as int).clean ==> b.wf()),
{
    let slashes = count_slashes(s);
    if slashes != 7 {
        let rows = to_decimal(slashes as u128 + 1);
        let mut message = String::from_str("board must contain 8 rows, got ");
        message.append(rows.as_str());
        return Reading::Refused(message);
    }
    let mut board = Board::empty();
    let mut index: u8 = 56;
    let mut i: usize = 0;
    proof {
        Board::lemma_blank();
    }
    while i < s.len()
        invariant
            i <= s@.len(),
            count_char(s@, '/') == 7,
            board_scan(s@, i as int).stop is Going,
            board_scan(s@, i as int).index == index,
            board_scan(s@, i as int).board == board,
            board_scan(s@, i as int).clean ==> board.wf(),
        decreases s@.len() - i,
    {
        let c = s[i];
        let ghost st = board_scan(s@, i as int);
        assert(board_scan(s@, i + 1) == scan_step(st, c));
        if c == '/' {
            if index < 16 {
                proof {
                    lemma_scan_stays(s@, i + 1, s@.len() as int);
                }
                return Reading::Unreadable(String::from_str("board squares out of range"));
            }
            index = index - 16;
        } else if '0' <= c && c <= '9' {
            let d = (c as u32 - '0' as u32) as u8;
            if index as u32 + d as u32 > 255 {
                proof {
                    lemma_scan_stays(s@, i + 1, s@.len() as int);
                }
                return Reading::Unreadable(String::from_str("board squares out of range"));
            }
            index = index + d;
        } else {
            match piece_for(c) {
                Some(piece) => {
                    if index >= 64 {
                        proof {
                            lemma_scan_stays(s@, i + 1, s@.len() as int);
                        }
                        return Reading::Unreadable(String::from_str("board squares out of range"));
                    }
                    board.put_piece(piece, Square::from_index(index));
                    index = index + 1;
                },
                None => {
                    proof {
                        lemma_scan_stays(s@, i + 1, s@.len() as int);
                    }
                    let text = char_to_string(c);
                    return Reading::Refused(concat3("invalid piece '", text.as_str(), "'"));
                },
            }
        }
        i = i + 1;
    }
    if index != 8 {
        return Reading::Refused(String::from_str("board must contain 64 squares"));
    }
    Reading::Value(board)
}

/// Reads the side to move of a FEN record: "w" or "b".
pub fn read_colour(s: &[char]) -> (r: Reading<Colour>)
    ensures
        reads_as(r, colour_outcome(s@)),
{
    if s.len() == 1 && s[0] == 'w' {
        assert(s@ =~= seq!['w']);
        return Reading::Value(Colour::White);
    }
    if s.len() == 1 && s[0] == 'b' {
        assert(s@ =~= seq!['b']);
        return Reading::Value(Colour::Black);
    }
    assert(s@ != seq!['w']) by {
        if s@ == seq!['w'] {
            assert(s@[0] == 'w');
        }
    }
    assert(s@ != seq!['b']) by {
        if s@ == seq!['b'] {
            assert(s@[0] == 'b');
        }
    }
    let text = string_of(s);
    Reading::Refused(concat3("invalid colour to move '", text.as_str(), "'"))
}

/// Reads the castling rights of a FEN record: "-", or letters among K, Q, k and q.
pub fn read_castling(s: &[char]) -> (r: Reading<CastlingRights>)
    ensures
        match (r, castling_outcome(s@)) {
            (Reading::Value(rights), Outcome::Value(set)) => forall|right: CastlingRight|
                #[trigger] rights.holds(right) <==> set.contains(right),
            (Reading::Refused(e), Outcome::Refused(m)) => e@ == m,
            _ => false,
        },
{
    if s.len() == 1 && s[0] == '-' {
        assert(s@ =~= seq!['-']);
        return Reading::Value(CastlingRights::none());
    }
    assert(s@ != seq!['-']) by {
        if s@ == seq!['-'] {
            assert(s@[0] == '-');
        }
    }
    let mut rights = CastlingRights::none();
    let mut i: usize = 0;
    while i < s.len()
        invariant
            i <= s@.len(),
            s@ != seq!['-'],
            forall|k: int| 0 <= k < i ==> is_right_char(#[trigger] s@[k]),
            forall|right: CastlingRight|
                #[trigger] rights.holds(right) <==> s@.take(i as int).contains(right_char(right)),
        decreases s@.len() - i,
    {
        let c = s[i];
        let right = match c {
            'K' => CastlingRight::WhiteKing,
            'Q' => CastlingRight::WhiteQueen,
            'k' => CastlingRight::BlackKing,
            'q' => CastlingRight::BlackQueen,
            _ => {
                return Reading::Refused(String::from_str("invalid castling rights"));
            },
        };
        let ghost before = rights;
        rights.add(right);
        proof {
            let prev = s@.take(i as int);
            let next = s@.take(i + 1);
            assert(next =~= prev.push(c));
            assert(right_char(right) == c);
            assert forall|other: CastlingRight| #[trigger]
                rights.holds(other) <==> next.contains(right_char(other)) by {
                if other == right {
                    assert(next[i as int] == c);
                } else {
                    assert(right_char(other) != c);
                    if next.contains(right_char(other)) {
                        let k = choose|k: int| 0 <= k < next.len() && next[k] == right_char(other);
                        assert(prev[k] == right_char(other));
                    }
                    if prev.contains(right_char(other)) {
                        let k = choose|k: int| 0 <= k < prev.len() && prev[k] == right_char(other);
                        assert(next[k] == right_char(other));
                    }
                }
            }
        }
        i = i + 1;
    }
    proof {
        assert(s@.take(s@.len() as int) =~= s@);
    }
    Reading::Value(rights)
}

/// Reads the en passant square of a FEN record: "-", or a square of the third or the
/// sixth rank.
pub fn read_en_passant(s: &[char]) -> (r: Reading<Option<Square>>)
    ensures
        match (r, en_passant_outcome(s@)) {
            (Reading::Value(None), Outcome::Value(None)) => true,
            (Reading::Value(Some(sq)), Outcome::Value(Some(i))) => sq.idx() == i,
            (Reading::Refused(e), Outcome::Refused(m)) => e@ == m,
            (Reading::Unreadable(e), Outcome::Unreadable(m)) => e@ == m,
            _ => false,
        },
{
    if s.len() == 1 && s[0] == '-' {
        assert(s@ =~= seq!['-']);
        return Reading::Value(None);
    }
    assert(s@ != seq!['-']) by {
        if s@ == seq!['-'] {
            assert(s@[0] == '-');
        }
    }
    if s.len() == 1 && 0x80 <= (s[0] as u32) && (s[0] as u32) < 0x800 {
        return Reading::Unreadable(String::from_str("invalid en passant square"));
    }
    match Square::from_chars(s) {
        None => Reading::Refused(String::from_str("invalid en passant square")),
        Some(square) => {
            if square.rank() != 2 && square.rank() != 5 {
                Reading::Refused(String::from_str("invalid en passant square"))
            } else {
                Reading::Value(Some(square))
            }
        },
    }
}

/// Reads a move counter of a FEN record: a byte in decimal.
pub fn read_counter(s: &[char]) -> (r: Reading<u8>)
    ensures
        reads_as(r, counter_outcome(s@)),
{
    match read_u8(s) {
        Some(n) => Reading::Value(n),
        None => {
            let text = string_of(s);
            Reading::Unreadable(concat3("invalid move counter '", text.as_str(), "'"))
        },
    }
}

/// Reads a position in Forsyth-Edwards Notation: six fields split by white space, the
/// board, the side to move, the castling rights, the en passant square and the two move
/// counters. The first field that fails decides the error.
pub fn read_fen(fen: &str) -> (r: Reading<Position>)
    ensures
        match (r, fen_outcome(fen@)) {
            (Reading::Value(pos), Outcome::Value(f)) => has_fields(pos, f),
            (Reading::Refused(e), Outcome::Refused(m)) => e@ == m,
            (Reading::Unreadable(e), Outcome::Unreadable(m)) => e@ == m,
            _ => false,
        },
{
    let chars = chars_of(fen);
    let parts = split_words(chars.as_slice());
    if parts.len() != 6 {
        let count = to_decimal(parts.len() as u128);
        let mut message = String::from_str("FEN must contain 6 parts, got ");
        message.append(count.as_str());
        return Reading::Refused(message);
    }
    assert(parts@[0]@ == words(fen@)[0]);
    assert(parts@[1]@ == words(fen@)[1]);
    assert(parts@[2]@ == words(fen@)[2]);
    assert(parts@[3]@ == words(fen@)[3]);
    assert(parts@[4]@ == words(fen@)[4]);
    assert(parts@[5]@ == words(fen@)[5]);
    let board = match read_board(parts[0].as_slice()) {
        Reading::Value(board) => board,
        Reading::Refused(e) => {
            return Reading::Refused(e);
        },
        Reading::Unreadable(e) => {
            return Reading::Unreadable(e);
        },
    };
    let colour = match read_colour(parts[1].as_slice()) {
        Reading::Value(colour) => colour,
        Reading::Refused(e) => {
            return Reading::Refused(e);
        },
        Reading::Unreadable(e) => {
            return Reading::Unreadable(e);
        },
    };
    let castling = match read_castling(parts[2].as_slice()) {
        Reading::Value(rights) => rights,
        Reading::Refused(e) => {
            return Reading::Refused(e);
        },
        Reading::Unreadable(e) => {
            return Reading::Unreadable(e);
        },
    };
    let en_passant = match read_en_passant(parts[3].as_slice()) {
        Reading::Value(square) => square,
        Reading::Refused(e) => {
            return Reading::Refused(e);
        },
        Reading::Unreadable(e) => {
            return Reading::Unreadable(e);
        },
    };
    let half = match read_counter(parts[4].as_slice()) {
        Reading::Value(n) => n,
        Reading::Refused(e) => {
            return Reading::Refused(e);
        },
        Reading::Unreadable(e) => {
            return Reading::Unreadable(e);
        },
    };
    let full = match read_counter(parts[5].as_slice()) {
        Reading::Value(n) => n,
        Reading::Refused(e) => {
            return Reading::Refused(e);
        },
        Reading::Unreadable(e) => {
            return Reading::Unreadable(e);
        },
    };
    Reading::Value(Position::new(board, colour, castling, en_passant, half, full))
}

/// The kind of piece that starts a game on a file of the back rank, as in `kind_of`:
/// rook, knight, bishop, queen, king, bishop, knight, rook.
pub open spec fn back_rank_kind(file: int) -> int {
    if file == 0 || file == 7 {
        3
    } else if file == 1 || file == 6 {
        1
    } else if file == 2 || file == 5 {
        2
    } else if file == 3 {
        4
    } else {
        5
    }
}

/// The piece on square `i` at the start of a game.
pub open spec fn start_piece(i: int) -> Option<Piece> {
    let rank = rank_of(i);
    let file = file_of(i);
    if rank == 0 {
        Some(Piece::of(Colour::White, back_rank_kind(file)))
    } else if rank == 1 {
        Some(Piece::of(Colour::White, 0))
    } else if rank == 6 {
        Some(Piece::of(Colour::Black, 0))
    } else if rank == 7 {
        Some(Piece::of(Colour::Black, back_rank_kind(file)))
    } else {
        None
    }
}

fn back_rank_piece(colour: Colour, file: u8) -> (r: Piece)
    requires
        file < 8,
    ensures
        r == Piece::of(colour, back_rank_kind(file as int)),
{
    if file == 0 || file == 7 {
        Piece::rook(colour)
    } else if file == 1 || file == 6 {
        Piece::knight(colour)
    } else if file == 2 || file == 5 {
        Piece::bishop(colour)
    } else if file == 3 {
        Piece::queen(colour)
    } else {
        Piece::king(colour)
    }
}

impl Position {
    /// The position at the start of a game, as `START_POS_FEN` records it.
    pub fn startpos() -> (r: Position)
        ensures
            r.board.wf(),
            forall|i: int| 0 <= i < 64 ==> #[trigger] r.board.at(i) == start_piece(i),
            r.colour_to_move == Colour::White,
            forall|right: CastlingRight| #[trigger] r.castling_rights.holds(right),
            r.en_passant_square is None,
            r.half_move_clock == 0,
            r.full_move_counter == 1,
            key_items(r.key_history) == Seq::<u64>::empty(),
            r.table().filled(),
    {
        let mut board = Board::empty();
        let mut file: u8 = 0;
        while file < 8
            invariant
                file <= 8,
                board.wf(),
                forall|i: int|
                    0 <= i < 64 ==> #[trigger] board.at(i) == if file_of(i) < file {
                        start_piece(i)
                    } else {
                        None
                    },
            decreases 8 - file,
        {
            let squares = [
                (back_rank_piece(Colour::White, file), Square::from_file_and_rank(file, 0)),
                (Piece::pawn(Colour::White), Square::from_file_and_rank(file, 1)),
                (Piece::pawn(Colour::Black), Square::from_file_and_rank(file, 6)),
                (back_rank_piece(Colour::Black, file), Square::from_file_and_rank(file, 7)),
            ];
            let ghost before = board;
            let mut k: usize = 0;
            while k < 4
                invariant
                    k <= 4,
                    file < 8,
                    board.wf(),
                    forall|j: int| 0 <= j < 4 ==> (#[trigger] squares@[j]).1.idx() == rank_of_slot(j) * 8 + file,
                    forall|j: int| 0 <= j < 4 ==> Some((#[trigger] squares@[j]).0) == start_piece(rank_of_slot(j) * 8 + file),
                    forall|i: int|
                        0 <= i < 64 ==> #[trigger] board.at(i) == if file_of(i) < file || (
                        file_of(i) == file && slot_of_rank(rank_of(i)) < k) {
                            start_piece(i)
                        } else {
                            None
                        },
                decreases 4 - k,
            {
                let (piece, square) = squares[k];
                board.put_piece(piece, square);
                k = k + 1;
            }
            file = file + 1;
        }
        let r = Position::new(
            board,
            Colour::White,
            CastlingRights::all(),
            None,
            0,
            1,
        );
        r
    }
}

/// The rank of the `j`-th square filled on a file at the start: 0, 1, 6, 7.
pub open spec fn rank_of_slot(j: int) -> int {
    if j == 0 {
        0
    } else if j == 1 {
        1
    } else if j == 2 {
        6
    } else {
        7
    }
}

/// Which of the four filled ranks a rank is, or 4 for an empty one.
pub open spec fn slot_of_rank(rank: int) -> int {
    if rank == 0 {
        0
    } else if rank == 1 {
        1
    } else if rank == 6 {
        2
    } else if rank == 7 {
        3
    } else {
        4
    }
}

impl std::str::FromStr for Position {
    type Err = String;

    /// Reads a position from a FEN record; text that `read_fen` finds unreadable is
    /// reported as an error too.
    fn from_str(fen: &str) -> (r: Result<Position, String>)
        ensures
            match (r, fen_outcome(fen@)) {
                (Ok(pos), Outcome::Value(f)) => has_fields(pos, f),
                (Err(e), Outcome::Refused(m)) => e@ == m,
                (Err(e), Outcome::Unreadable(m)) => e@ == m,
                _ => false,
            },
    {
        match read_fen(fen) {
            Reading::Value(pos) => Ok(pos),
            Reading::Refused(e) => Err(e),
            Reading::Unreadable(e) => Err(e),
        }
    }
}

} // verus!
