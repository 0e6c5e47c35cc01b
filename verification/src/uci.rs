use crate::colour::Colour;
use crate::piece::{kind_of, Piece};
use crate::position::fen::START_POS_FEN;
use crate::square::{file_of, parse_square, rank_of, Square};
use crate::text::{chars_of, parse_u8, read_u8, split_words, string_of, words};
use vstd::string::StringExecFns;
use crate::collections::{key_items, list_limit, move_items};
use crate::movegen::attacks::is_in_check;
use crate::movegen::moves::Move;
use crate::movegen::perft::{
    is_playable, kept, lemma_generated_fits, lemma_move_keeps_sound, lemma_moved_same,
    lemma_one_king, legal_move, moved, playable,
};
use crate::movegen::{
    generate_all_moves, generated_moves, lemma_generated_moves_same, lemma_generated_sound,
    same_state,
};
use crate::position::fen::{fen_outcome, has_fields, read_fen, Reading};
use crate::position::{did_move, lemma_undo_restores, moved_fields, undid_move, Position};
use vstd::prelude::*;

verus! {

/// What a `go` command asks of the search.
#[derive(Debug, Clone, Copy, PartialEq, Eq, Structural)]
pub struct SearchParams {
    pub depth: u8,
}

/// A move as the protocol writes it: its two squares and the piece a pawn promotes to.
#[derive(Debug, Clone, Copy, PartialEq, Eq, Structural)]
pub struct UciMove {
    pub from: Square,
    pub to: Square,
    pub promotion_piece: Option<Piece>,
}

/// The commands the engine understands.
#[derive(Debug, PartialEq, Eq)]
pub enum UciCommand {
    Init,
    IsReady,
    NewGame,
    Position(String, Vec<UciMove>),
    Go(SearchParams),
    Stop,
    Quit,
}

/// A move's squares, by index, and its promotion piece.
pub type MoveView = (int, int, Option<Piece>);

/// What a command says, with text as characters and moves as their views.
pub enum CommandMeaning {
    Init,
    IsReady,
    NewGame,
    Position(Seq<char>, Seq<MoveView>),
    Go(u8),
    Stop,
    Quit,
}

impl View for UciMove {
    type V = MoveView;

    open spec fn view(&self) -> MoveView {
        (self.from.idx(), self.to.idx(), self.promotion_piece)
    }
}

impl View for UciCommand {
    type V = CommandMeaning;

    open spec fn view(&self) -> CommandMeaning {
        match self {
            UciCommand::Init => CommandMeaning::Init,
            UciCommand::IsReady => CommandMeaning::IsReady,
            UciCommand::NewGame => CommandMeaning::NewGame,
            UciCommand::Position(fen, moves) => CommandMeaning::Position(
                fen@,
                moves@.map_values(|m: UciMove| m@),
            ),
            UciCommand::Go(params) => CommandMeaning::Go(params.depth),
            UciCommand::Stop => CommandMeaning::Stop,
            UciCommand::Quit => CommandMeaning::Quit,
        }
    }
}

/// The kind of piece a promotion letter stands for: knight, bishop, rook or queen.
pub open spec fn promotion_kind(c: char) -> Option<int> {
    if c == 'n' {
        Some(1)
    } else if c == 'b' {
        Some(2)
    } else if c == 'r' {
        Some(3)
    } else if c == 'q' {
        Some(4)
    } else {
        None
    }
}

/// The move a text names: the squares in its first two pairs of characters and, after
/// them, a promotion letter, the promoted piece white unless it lands on the first rank.
/// Anything after the fifth character is not read.
pub open spec fn read_uci_move(s: Seq<char>) -> Option<MoveView> {
    if s.len() >= 4 && parse_square(s.subrange(0, 2)) is Some && parse_square(s.subrange(2, 4)) is Some {
        let from = parse_square(s.subrange(0, 2))->0;
        let to = parse_square(s.subrange(2, 4))->0;
        if s.len() > 4 {
            match promotion_kind(s[4]) {
                Some(k) => Some(
                    (
                        from,
                        to,
                        Some(
                            Piece::of(
                                if rank_of(to) == 0 {
                                    Colour::Black
                                } else {
                                    Colour::White
                                },
                                k,
                            ),
                        ),
                    ),
                ),
                None => None,
            }
        } else {
            Some((from, to, None))
        }
    } else {
        None
    }
}

impl UciMove {
    /// Reads a move in the protocol's notation, such as "e2e4" or "e7e8q".
    pub fn read(s: &[char]) -> (r: Option<UciMove>)
        ensures
            match r {
                Some(m) => read_uci_move(s@) == Some(m@),
                None => read_uci_move(s@) is None,
            },
    {
        if s.len() < 4 {
            return None;
        }
        let first = vec![s[0], s[1]];
        let second = vec![s[2], s[3]];
        proof {
            assert(s@.subrange(0, 2) =~= first@);
            assert(s@.subrange(2, 4) =~= second@);
        }
        let from = match Square::from_chars(first.as_slice()) {
            Some(sq) => sq,
            None => {
                return None;
            },
        };
        let to = match Square::from_chars(second.as_slice()) {
            Some(sq) => sq,
            None => {
                return None;
            },
        };
        if s.len() > 4 {
            let letter = s[4];
            let colour = if to.rank() == 0 {
                Colour::Black
            } else {
                Colour::White
            };
            let piece = if letter == 'n' {
                Piece::knight(colour)
            } else if letter == 'b' {
                Piece::bishop(colour)
            } else if letter == 'r' {
                Piece::rook(colour)
            } else if letter == 'q' {
                Piece::queen(colour)
            } else {
                return None;
            };
            Some(UciMove { from, to, promotion_piece: Some(piece) })
        } else {
            Some(UciMove { from, to, promotion_piece: None })
        }
    }
}

/// Whether the characters spell the literal.
fn is_word(w: &[char], literal: &str) -> (r: bool)
    ensures
        r == (w@ == literal@),
{
    let lit = chars_of(literal);
    if w.len() != lit.len() {
        return false;
    }
    let mut i: usize = 0;
    while i < w.len()
        invariant
            i <= w.len(),
            w.len() == lit@.len(),
            lit@ == literal@,
            forall|k: int| 0 <= k < i ==> w@[k] == lit@[k],
        decreases w.len() - i,
    {
        if w[i] != lit[i] {
            return false;
        }
        i = i + 1;
    }
    proof {
        assert(w@ =~= lit@);
    }
    true
}

/// Where the words of a `position` command go: nowhere yet, to the FEN, or to the moves.
pub enum Token {
    Nothing,
    Fen,
    Moves,
}

/// What reading the words of a `position` command has gathered so far.
pub struct PositionScan {
    pub token: Token,
    pub fen: Seq<char>,
    pub moves: Seq<MoveView>,
    pub failed: bool,
}

/// The scan of the first `n` words of a `position` command. "startpos" sets the FEN to
/// that of the start position, "fen" sends the words that follow to the FEN, which joins
/// them with single spaces, and "moves" sends them to the moves, each of which must read
/// as one. Other words are passed over.
pub open spec fn position_scan(args: Seq<Seq<char>>, n: int) -> PositionScan
    decreases n,
{
    if n <= 0 {
        PositionScan { token: Token::Nothing, fen: Seq::empty(), moves: Seq::empty(), failed: false }
    } else {
        let prev = position_scan(args, n - 1);
        let a = args[n - 1];
        if prev.failed {
            prev
        } else if a == "fen"@ {
            PositionScan { token: Token::Fen, ..prev }
        } else if a == "moves"@ {
            PositionScan { token: Token::Moves, ..prev }
        } else if a == "startpos"@ {
            PositionScan { fen: START_POS_FEN@, ..prev }
        } else {
            match prev.token {
                Token::Fen => PositionScan {
                    fen: if prev.fen.len() == 0 {
                        a
                    } else {
                        prev.fen + " "@ + a
                    },
                    ..prev
                },
                Token::Moves => match read_uci_move(a) {
                    Some(m) => PositionScan { moves: prev.moves.push(m), ..prev },
                    None => PositionScan { failed: true, ..prev },
                },
                Token::Nothing => prev,
            }
        }
    }
}

/// The `position` command the words after "position" make, if they make one: a FEN and
/// the moves to play from it.
pub open spec fn position_command(args: Seq<Seq<char>>) -> Option<CommandMeaning> {
    let scan = position_scan(args, args.len() as int);
    if scan.failed || scan.fen.len() == 0 {
        None
    } else {
        Some(CommandMeaning::Position(scan.fen, scan.moves))
    }
}

/// The depth a `go` command asks for, reading its words from the `i`-th on with `depth`
/// so far: "depth" takes the word after it as the new depth, which must be a byte; other
/// words are passed over.
pub open spec fn go_depth(args: Seq<Seq<char>>, i: int, depth: u8) -> Option<u8>
    decreases args.len() - i,
{
    if i < 0 || i >= args.len() {
        Some(depth)
    } else if args[i] == "depth"@ {
        if i + 1 < args.len() {
            match parse_u8(args[i + 1]) {
                Some(d) => go_depth(args, i + 2, d),
                None => None,
            }
        } else {
            None
        }
    } else {
        go_depth(args, i + 1, depth)
    }
}

/// The command a line of text makes, if any: its first word names the command, and the
/// words after it are its arguments.
pub open spec fn command_meaning(s: Seq<char>) -> Option<CommandMeaning> {
    let parts = words(s);
    if parts.len() == 0 {
        None
    } else {
        let name = parts[0];
        let args = parts.drop_first();
        if name == "uci"@ {
            Some(CommandMeaning::Init)
        } else if name == "isready"@ {
            Some(CommandMeaning::IsReady)
        } else if name == "ucinewgame"@ {
            Some(CommandMeaning::NewGame)
        } else if name == "position"@ {
            position_command(args)
        } else if name == "go"@ {
            match go_depth(args, 0, 1) {
                Some(d) => Some(CommandMeaning::Go(d)),
                None => None,
            }
        } else if name == "stop"@ {
            Some(CommandMeaning::Stop)
        } else if name == "quit"@ {
            Some(CommandMeaning::Quit)
        } else {
            None
        }
    }
}

/// Adds the characters of `w` at the end of `v`.
fn append_chars(v: &mut Vec<char>, w: &[char])
    ensures
        final(v)@ == old(v)@ + w@,
{
    let mut i: usize = 0;
    while i < w.len()
        invariant
            i <= w.len(),
            v@ == old(v)@ + w@.subrange(0, i as int),
        decreases w.len() - i,
    {
        v.push(w[i]);
        i = i + 1;
        proof {
            assert(w@.subrange(0, i as int) =~= w@.subrange(0, i - 1).push(w@[i - 1]));
        }
    }
    proof {
        assert(w@.subrange(0, w@.len() as int) =~= w@);
    }
}

/// The views of a list of moves.
pub open spec fn move_views(moves: Seq<UciMove>) -> Seq<MoveView> {
    moves.map_values(|m: UciMove| m@)
}

/// Reads the arguments of a `position` command, the words of `parts` after the first.
fn read_position(parts: &Vec<Vec<char>>, Ghost(args): Ghost<Seq<Seq<char>>>) -> (r: Option<UciCommand>)
    requires
        parts@.len() == args.len() + 1,
        forall|k: int| 0 <= k < args.len() ==> #[trigger] args[k] == parts@[k + 1]@,
    ensures
        match r {
            Some(c) => position_command(args) == Some(c@),
            None => position_command(args) is None,
        },
{
    let mut token = Token::Nothing;
    let mut fen: Vec<char> = Vec::new();
    let mut moves: Vec<UciMove> = Vec::new();
    let mut i: usize = 1;
    while i < parts.len()
        invariant
            1 <= i <= parts@.len(),
            parts@.len() == args.len() + 1,
            forall|k: int| 0 <= k < args.len() ==> #[trigger] args[k] == parts@[k + 1]@,
            !position_scan(args, i - 1).failed,
            position_scan(args, i - 1).token == token,
            position_scan(args, i - 1).fen == fen@,
            position_scan(args, i - 1).moves == move_views(moves@),
        decreases parts@.len() - i,
    {
        let a = parts[i].as_slice();
        proof {
            assert(args[i - 1] == a@);
        }
        if is_word(a, "fen") {
            token = Token::Fen;
        } else if is_word(a, "moves") {
            token = Token::Moves;
        } else if is_word(a, "startpos") {
            fen = chars_of(START_POS_FEN);
        } else {
            match token {
                Token::Fen => {
                    if fen.len() == 0 {
                        append_chars(&mut fen, a);
                    } else {
                        let space = chars_of(" ");
                        append_chars(&mut fen, space.as_slice());
                        append_chars(&mut fen, a);
                    }
                },
                Token::Moves => {
                    match UciMove::read(a) {
                        Some(m) => {
                            proof {
                                assert(move_views(moves@.push(m)) =~= move_views(moves@).push(m@));
                            }
                            moves.push(m);
                        },
                        None => {
                            proof {
                                assert(position_scan(args, i as int).failed);
                                lemma_scan_failed_stays(args, i as int, args.len() as int);
                            }
                            return None;
                        },
                    }
                },
                Token::Nothing => {},
            }
        }
        i = i + 1;
    }
    proof {
        assert(i - 1 == args.len());
    }
    if fen.len() == 0 {
        return None;
    }
    Some(UciCommand::Position(string_of(fen.as_slice()), moves))
}

/// Once a move fails to read, the scan stays failed.
proof fn lemma_scan_failed_stays(args: Seq<Seq<char>>, k: int, n: int)
    requires
        0 <= k <= n,
        position_scan(args, k).failed,
    ensures
        position_scan(args, n).failed,
    decreases n - k,
{
    if k < n {
        lemma_scan_failed_stays(args, k, n - 1);
    }
}

/// Reads the arguments of a `go` command from the `i`-th word of `parts` on (counting
/// from the word after the command's name), with the depth read so far.
fn read_go(parts: &Vec<Vec<char>>, Ghost(args): Ghost<Seq<Seq<char>>>) -> (r: Option<u8>)
    requires
        parts@.len() == args.len() + 1,
        forall|k: int| 0 <= k < args.len() ==> #[trigger] args[k] == parts@[k + 1]@,
    ensures
        r == go_depth(args, 0, 1),
{
    let mut depth: u8 = 1;
    let mut i: usize = 1;
    while i < parts.len()
        invariant
            1 <= i <= parts@.len() + 1,
            parts@.len() == args.len() + 1,
            forall|k: int| 0 <= k < args.len() ==> #[trigger] args[k] == parts@[k + 1]@,
            go_depth(args, 0, 1) == go_depth(args, i - 1, depth),
        decreases parts@.len() + 1 - i,
    {
        let a = parts[i].as_slice();
        proof {
            assert(args[i - 1] == a@);
        }
        if is_word(a, "depth") {
            if i + 1 >= parts.len() {
                return None;
            }
            let next = parts[i + 1].as_slice();
            proof {
                assert(args[i as int] == next@);
            }
            match read_u8(next) {
                Some(d) => {
                    depth = d;
                    i = i + 2;
                },
                None => {
                    return None;
                },
            }
        } else {
            i = i + 1;
        }
    }
    Some(depth)
}

/// Reads a line of the protocol as a command.
pub fn read_command(command: &str) -> (r: Option<UciCommand>)
    ensures
        match r {
            Some(c) => command_meaning(command@) == Some(c@),
            None => command_meaning(command@) is None,
        },
{
    let chars = chars_of(command);
    let parts = split_words(chars.as_slice());
    if parts.len() == 0 {
        return None;
    }
    let ghost all = words(command@);
    let ghost args = all.drop_first();
    proof {
        assert forall|k: int| 0 <= k < args.len() implies #[trigger] args[k] == parts@[k + 1]@ by {
            assert(args[k] == all[k + 1]);
        }
        assert(all[0] == parts@[0]@);
    }
    let name = parts[0].as_slice();
    if is_word(name, "uci") {
        Some(UciCommand::Init)
    } else if is_word(name, "isready") {
        Some(UciCommand::IsReady)
    } else if is_word(name, "ucinewgame") {
        Some(UciCommand::NewGame)
    } else if is_word(name, "position") {
        read_position(&parts, Ghost(args))
    } else if is_word(name, "go") {
        match read_go(&parts, Ghost(args)) {
            Some(depth) => Some(UciCommand::Go(SearchParams { depth })),
            None => None,
        }
    } else if is_word(name, "stop") {
        Some(UciCommand::Stop)
    } else if is_word(name, "quit") {
        Some(UciCommand::Quit)
    } else {
        None
    }
}

impl std::str::FromStr for UciMove {
    type Err = ();

    fn from_str(mv: &str) -> (r: Result<Self, Self::Err>)
        ensures
            match r {
                Ok(m) => read_uci_move(mv@) == Some(m@),
                Err(_) => read_uci_move(mv@) is None,
            },
    {
        let chars = chars_of(mv);
        match UciMove::read(chars.as_slice()) {
            Some(m) => Ok(m),
            None => Err(()),
        }
    }
}

impl std::str::FromStr for UciCommand {
    type Err = ();

    fn from_str(command: &str) -> (r: Result<Self, Self::Err>)
        ensures
            match r {
                Ok(c) => command_meaning(command@) == Some(c@),
                Err(_) => command_meaning(command@) is None,
            },
    {
        match read_command(command) {
            Some(c) => Ok(c),
            None => Err(()),
        }
    }
}

/// The listed move carries the squares and the promotion piece of the protocol's move.
pub open spec fn names(m: Move, u: MoveView) -> bool {
    m.from.idx() == u.0 && m.to.idx() == u.1 && m.promotion_piece == u.2
}

/// The first move among the first `n` the generator lists that the protocol's move names
/// and that is legal, if any.
pub open spec fn first_named(pos: Position, u: MoveView, n: int) -> Option<Move>
    decreases n,
{
    if n <= 0 {
        None
    } else {
        match first_named(pos, u, n - 1) {
            Some(m) => Some(m),
            None => {
                let m = generated_moves(pos, true)[n - 1];
                if names(m, u) && legal_move(pos, m) {
                    Some(m)
                } else {
                    None
                }
            },
        }
    }
}

/// The legal move the protocol's move names: the first the generator lists, if any.
pub open spec fn named_move(pos: Position, u: MoveView) -> Option<Move> {
    first_named(pos, u, generated_moves(pos, true).len() as int)
}

/// The position after the first `k` protocol moves are played from `pos`, each as the
/// move it names; one that names none is passed over.
pub open spec fn replay(pos: Position, ms: Seq<MoveView>, k: int) -> Position
    decreases k,
{
    if k <= 0 {
        pos
    } else {
        let p = replay(pos, ms, k - 1);
        match named_move(p, ms[k - 1]) {
            Some(m) => moved(p, m),
            None => p,
        }
    }
}

/// A move found among the first `k` stays the one found among more.
proof fn lemma_first_named_stays(pos: Position, u: MoveView, k: int, n: int)
    requires
        0 <= k <= n,
        first_named(pos, u, k) is Some,
    ensures
        first_named(pos, u, n) == first_named(pos, u, k),
    decreases n - k,
{
    if k < n {
        lemma_first_named_stays(pos, u, k, n - 1);
    }
}

/// A move found is listed by the generator, named by the protocol's move, and legal.
proof fn lemma_first_named_listed(pos: Position, u: MoveView, n: int)
    requires
        n <= generated_moves(pos, true).len(),
        first_named(pos, u, n) is Some,
    ensures
        ({
            let m = first_named(pos, u, n)->0;
            &&& generated_moves(pos, true).contains(m)
            &&& names(m, u)
            &&& legal_move(pos, m)
        }),
    decreases n,
{
    if n > 0 {
        if first_named(pos, u, n - 1) is Some {
            lemma_first_named_listed(pos, u, n - 1);
        } else {
            let m = generated_moves(pos, true)[n - 1];
            assert(0 <= n - 1 < generated_moves(pos, true).len());
            assert(generated_moves(pos, true)[n - 1] == m);
        }
    }
}

/// Positions that agree on what the generator reads name the same moves.
proof fn lemma_first_named_same(p: Position, q: Position, u: MoveView, n: int)
    requires
        same_state(p, q),
    ensures
        first_named(p, u, n) == first_named(q, u, n),
    decreases n,
{
    lemma_generated_moves_same(p, q, true);
    if n > 0 {
        lemma_first_named_same(p, q, u, n - 1);
    }
}

/// Whether a listed move carries the squares and promotion piece of a protocol move.
fn names_move(m: &Move, u: &UciMove) -> (r: bool)
    ensures
        r == names(*m, u@),
{
    let same_promotion = match (m.promotion_piece, u.promotion_piece) {
        (Some(a), Some(b)) => a == b,
        (None, None) => true,
        _ => false,
    };
    m.from.index() == u.from.index() && m.to.index() == u.to.index() && same_promotion
}

/// Finds the legal move a protocol move names (see `named_move`), trying each candidate on
/// the position, which is left as it was.
pub fn find_move(pos: &mut Position, mv: &UciMove) -> (r: Option<Move>)
    requires
        playable(*old(pos)),
        old(pos).half_move_clock < 255,
        old(pos).full_move_counter < 255,
        key_items(old(pos).key_history).len() + 1 < list_limit(),
    ensures
        r == named_move(*old(pos), mv@),
        kept(*old(pos), *final(pos)),
        final(pos).en_passant_square == old(pos).en_passant_square,
        playable(*final(pos)),
{
    let ghost start = *pos;
    let ep = pos.en_passant_square;
    let moves = generate_all_moves(pos);
    let n = moves.len();
    let mut i: usize = 0;
    while i < n
        invariant
            i <= n,
            start == *old(pos),
            n == generated_moves(start, true).len(),
            move_items(moves) == generated_moves(start, true),
            playable(start),
            start.half_move_clock < 255,
            start.full_move_counter < 255,
            key_items(start.key_history).len() + 1 < list_limit(),
            kept(start, *pos),
            playable(*pos),
            ep == start.en_passant_square,
            first_named(start, mv@, i as int) is None,
        decreases n - i,
    {
        let m = moves.get(i);
        if names_move(&m, mv) {
            let _from = m.from.index();
            let _to = m.to.index();
            let ghost pre = *pos;
            proof {
                assert(generated_moves(start, true)[i as int] == m);
                assert(generated_moves(start, true).contains(m));
                lemma_generated_sound(start, true, m);
                lemma_generated_fits(start, m);
            }
            pos.do_move(&m);
            let ghost child = *pos;
            proof {
                assert(moved_fields(start, m, child));
                lemma_move_keeps_sound(start, m, child);
                lemma_one_king(child.board, start.colour_to_move);
                lemma_moved_same(start, m, child);
            }
            let mover = pos.opponent_colour();
            let illegal = is_in_check(mover, &pos.board);
            let ghost mid = Position { en_passant_square: child.en_passant_square, ..*pos };
            proof {
                assert(moved_fields(pre, m, mid));
                assert(did_move(pre, m, mid));
            }
            pos.undo_move(&m);
            proof {
                assert(undid_move(mid, m, *pos));
                lemma_undo_restores(pre, m, mid, *pos);
            }
            if !illegal {
                pos.en_passant_square = ep;
                proof {
                    assert(first_named(start, mv@, i + 1) == Some(m));
                    lemma_first_named_stays(start, mv@, i + 1, n as int);
                }
                return Some(m);
            }
        }
        i = i + 1;
    }
    pos.en_passant_square = ep;
    None
}

/// Plays protocol moves from a position, each as the legal move it names (see `replay`),
/// and stops at the first that names none, or where a move counter has reached its limit.
/// Gives the number of moves played.
pub fn play_moves(pos: &mut Position, moves: &[UciMove]) -> (played: usize)
    requires
        playable(*old(pos)),
        key_items(old(pos).key_history).len() + moves@.len() + 1 < list_limit(),
    ensures
        played <= moves@.len(),
        forall|j: int|
            0 <= j < played ==> #[trigger] named_move(
                replay(*old(pos), move_views(moves@), j),
                move_views(moves@)[j],
            ) is Some,
        same_state(*final(pos), replay(*old(pos), move_views(moves@), played as int)),
        played < moves@.len() ==> named_move(
            replay(*old(pos), move_views(moves@), played as int),
            move_views(moves@)[played as int],
        ) is None || final(pos).half_move_clock == 255 || final(pos).full_move_counter == 255,
        playable(*final(pos)),
{
    let ghost start = *pos;
    let ghost views = move_views(moves@);
    let mut i: usize = 0;
    while i < moves.len()
        invariant
            i <= moves@.len(),
            start == *old(pos),
            views == move_views(moves@),
            views.len() == moves@.len(),
            key_items(pos.key_history).len() == key_items(start.key_history).len() + i,
            key_items(start.key_history).len() + moves@.len() + 1 < list_limit(),
            forall|j: int| 0 <= j < i ==> #[trigger] named_move(replay(start, views, j), views[j]) is Some,
            same_state(*pos, replay(start, views, i as int)),
            playable(*pos),
        decreases moves@.len() - i,
    {
        if pos.half_move_clock == 255 || pos.full_move_counter == 255 {
            return i;
        }
        let u = moves[i];
        let ghost here = replay(start, views, i as int);
        proof {
            assert(views[i as int] == u@);
        }
        let ghost before = *pos;
        let found = find_move(pos, &u);
        let ghost cur = *pos;
        proof {
            assert(same_state(before, here));
            assert(same_state(before, cur));
            lemma_generated_moves_same(before, here, true);
            lemma_generated_moves_same(before, cur, true);
            lemma_first_named_same(before, here, u@, generated_moves(before, true).len() as int);
            lemma_first_named_same(before, cur, u@, generated_moves(before, true).len() as int);
            assert(found == named_move(cur, u@));
            assert(found == named_move(here, views[i as int]));
        }
        match found {
            None => {
                return i;
            },
            Some(m) => {
                let _from = m.from.index();
                let _to = m.to.index();
                proof {
                    lemma_first_named_listed(cur, u@, generated_moves(cur, true).len() as int);
                    lemma_generated_sound(cur, true, m);
                    lemma_generated_fits(cur, m);
                }
                pos.do_move(&m);
                let ghost child = *pos;
                proof {
                    assert(moved_fields(cur, m, child));
                    lemma_move_keeps_sound(cur, m, child);
                    lemma_moved_same(cur, m, child);
                    assert(same_state(moved(cur, m), moved(here, m)));
                    assert(replay(start, views, i + 1) == moved(here, m));
                    assert(named_move(replay(start, views, i as int), views[i as int]) is Some);
                }
                i = i + 1;
            },
        }
    }
    i
}

/// Sets up the position of a `position` command: the one the FEN records, with the moves
/// played from it (see `play_moves`) where it is playable. A FEN that does not read
/// leaves the position as it was, and gives `None`; otherwise the number of moves played.
pub fn set_position(pos: &mut Position, fen: &str, moves: &[UciMove]) -> (r: Option<usize>)
    requires
        moves@.len() + 1 < list_limit(),
    ensures
        r is None <==> !(fen_outcome(fen@) is Value),
        r is None ==> *final(pos) == *old(pos),
        r matches Some(k) ==> exists|start: Position|
            #![trigger has_fields(start, fen_outcome(fen@)->Value_0)]
            has_fields(start, fen_outcome(fen@)->Value_0) && if playable(start) {
                &&& k <= moves@.len()
                &&& same_state(*final(pos), replay(start, move_views(moves@), k as int))
                &&& forall|j: int|
                    0 <= j < k ==> #[trigger] named_move(
                        replay(start, move_views(moves@), j),
                        move_views(moves@)[j],
                    ) is Some
                &&& k < moves@.len() ==> named_move(
                    replay(start, move_views(moves@), k as int),
                    move_views(moves@)[k as int],
                ) is None || final(pos).half_move_clock == 255 || final(pos).full_move_counter
                    == 255
                &&& playable(*final(pos))
            } else {
                k == 0 && *final(pos) == start
            },
{
    match read_fen(fen) {
        Reading::Value(parsed) => {
            *pos = parsed;
            let ghost start = *pos;
            if pos.board.is_consistent() && is_playable(pos) {
                let k = play_moves(pos, moves);
                Some(k)
            } else {
                Some(0)
            }
        },
        _ => None,
    }
}

/// The letter of a file, from 'a' for the first.
pub open spec fn file_letter(f: int) -> char {
    if f == 0 {
        'a'
    } else if f == 1 {
        'b'
    } else if f == 2 {
        'c'
    } else if f == 3 {
        'd'
    } else if f == 4 {
        'e'
    } else if f == 5 {
        'f'
    } else if f == 6 {
        'g'
    } else {
        'h'
    }
}

/// The digit of a rank, from '1' for the first.
pub open spec fn rank_digit(r: int) -> char {
    if r == 0 {
        '1'
    } else if r == 1 {
        '2'
    } else if r == 2 {
        '3'
    } else if r == 3 {
        '4'
    } else if r == 4 {
        '5'
    } else if r == 5 {
        '6'
    } else if r == 6 {
        '7'
    } else {
        '8'
    }
}

/// The name of a square in algebraic notation, such as "e4".
pub open spec fn square_name(i: int) -> Seq<char> {
    seq![file_letter(file_of(i)), rank_digit(rank_of(i))]
}

/// The letter of the piece a pawn promotes to: knight, bishop, rook or queen.
pub open spec fn promotion_letter(p: Piece) -> char {
    let k = kind_of(p);
    if k == 1 {
        'n'
    } else if k == 2 {
        'b'
    } else if k == 3 {
        'r'
    } else {
        'q'
    }
}

/// A move in the protocol's notation: its two squares and the promotion letter, if any.
pub open spec fn move_text(from: int, to: int, promotion: Option<Piece>) -> Seq<char> {
    square_name(from) + square_name(to) + match promotion {
        Some(p) => seq![promotion_letter(p)],
        None => Seq::<char>::empty(),
    }
}

/// The letter of a file.
fn file_char(f: u8) -> (r: char)
    requires
        f < 8,
    ensures
        r == file_letter(f as int),
{
    if f == 0 {
        'a'
    } else if f == 1 {
        'b'
    } else if f == 2 {
        'c'
    } else if f == 3 {
        'd'
    } else if f == 4 {
        'e'
    } else if f == 5 {
        'f'
    } else if f == 6 {
        'g'
    } else {
        'h'
    }
}

/// The digit of a rank.
fn rank_char(r: u8) -> (c: char)
    requires
        r < 8,
    ensures
        c == rank_digit(r as int),
{
    if r == 0 {
        '1'
    } else if r == 1 {
        '2'
    } else if r == 2 {
        '3'
    } else if r == 3 {
        '4'
    } else if r == 4 {
        '5'
    } else if r == 5 {
        '6'
    } else if r == 6 {
        '7'
    } else {
        '8'
    }
}

/// Writes a move in the protocol's notation (see `move_text`).
pub fn move_to_text(from: Square, to: Square, promotion: Option<Piece>) -> (r: String)
    ensures
        r@ == move_text(from.idx(), to.idx(), promotion),
{
    let mut chars: Vec<char> = Vec::new();
    chars.push(file_char(from.file()));
    chars.push(rank_char(from.rank()));
    chars.push(file_char(to.file()));
    chars.push(rank_char(to.rank()));
    match promotion {
        Some(p) => {
            let letter = if p == Piece::WN || p == Piece::BN {
                'n'
            } else if p == Piece::WB || p == Piece::BB {
                'b'
            } else if p == Piece::WR || p == Piece::BR {
                'r'
            } else {
                'q'
            };
            proof {
                crate::piece::lemma_piece_of_colour_and_kind(p);
            }
            chars.push(letter);
        },
        None => {},
    }
    proof {
        assert(chars@ =~= move_text(from.idx(), to.idx(), promotion));
    }
    string_of(chars.as_slice())
}

/// Reading the name of a square gives the square back.
proof fn lemma_square_name(i: int)
    requires
        0 <= i < 64,
    ensures
        parse_square(square_name(i)) == Some(i),
{
    let f = file_of(i);
    let r = rank_of(i);
    assert(0 <= f < 8 && 0 <= r < 8);
    assert(r * 8 + f == i);
}

/// What the engine writes as a move it reads back as the same move, for a promotion
/// piece of the colour the notation gives it: black on the first rank, white elsewhere.
pub proof fn lemma_move_text_reads_back(from: int, to: int, promotion: Option<Piece>)
    requires
        0 <= from < 64,
        0 <= to < 64,
        promotion matches Some(p) ==> 1 <= kind_of(p) <= 4 && p.colour_of() == (if rank_of(
            to,
        ) == 0 {
            Colour::Black
        } else {
            Colour::White
        }),
    ensures
        read_uci_move(move_text(from, to, promotion)) == Some((from, to, promotion)),
{
    let s = move_text(from, to, promotion);
    lemma_square_name(from);
    lemma_square_name(to);
    assert(s.subrange(0, 2) =~= square_name(from));
    assert(s.subrange(2, 4) =~= square_name(to));
    if let Some(p) = promotion {
        crate::piece::lemma_piece_of_colour_and_kind(p);
        assert(s[4] == promotion_letter(p));
    }
}

} // verus!
