use super::history::{history_update, lemma_update_bounded, HistoryTable};
use super::killers::{same_move, KillerMoves};
use super::movepicker::{MovePicker, MovePickerMode};
use super::pv::PvTable;
use super::quiescence::{self, board_weight, clamp, counters_allow, lemma_board_weight_nonneg, qvalue};
use super::report::Report;
use super::shallow::{
    lemma_child_exact, lemma_reply_at_most, lemma_same_move_generated, lemma_value_found, reply_value,
    shallow_node, shallow_value,
};
use super::stopper::Stopper;
use super::tt::{eval_in, eval_in_spec, eval_out, eval_out_spec, Bound, TranspositionTable};
use super::SCORE_LIMIT;
use crate::bitboard::{lemma_square_sum_bound, popcount};
use crate::collections::{key_items, list_limit, move_items, quiet_items, SmallList};
use crate::colour::Colour;
use crate::eval::{eval, EVAL_DRAW, EVAL_MATE, EVAL_MATE_THRESHOLD, MAX_DEPTH};
use crate::movegen::attacks::is_in_check;
use crate::movegen::moves::Move;
use crate::movegen::perft::{
    kept, legal_move, lemma_generated_fits, lemma_move_keeps_sound, lemma_moved_same, lemma_one_king,
    moved, playable,
};
use crate::movegen::{generate_all_moves, generated_moves, in_check, lemma_generated_sound};
use crate::piece::Piece;
use crate::position::{
    did_move, lemma_undo_restores, moved_fields, repetition_draw, undid_move, Board, Position,
};
use crate::square::Square;
use vstd::arithmetic::power2::pow2;
use vstd::prelude::*;

verus! {

/// The deepest iteration the search runs. The history bonus of a cut is the depth
/// squared, and `HISTORY_SCORE_MAX` is the square of this depth: up to it the bonus stays
/// within the history's bounds, so that every history update keeps the scores bounded and
/// its products within `i32` (see `lemma_update_bounded`). A deeper bonus would leave the
/// scores unbounded and let the update's product overflow.
pub const MAX_SEARCH_DEPTH: u8 = 128;

/// Quiet moves with a history score below this one, a quarter of the largest, may be
/// searched at reduced depth.
pub const LMR_HISTORY_THRESHOLD: i32 = 4096;

/// The largest stored evaluation the table holds: an evaluation within the search's range,
/// counted from the root.
pub const TT_EVAL_LIMIT: i32 = SCORE_LIMIT + 255;

/// The largest stored evaluation the search reads back: once counted from the node again,
/// it stays within the search's range.
pub const TT_READ_LIMIT: i32 = SCORE_LIMIT - 255;

/// What the search carries from node to node: its report, the killer moves, the history
/// scores and the principal variations.
pub struct SearchState {
    pub report: Report,
    pub killers: KillerMoves,
    pub history: HistoryTable,
    pub pv: PvTable,
}

/// Every principal variation fits below its ply: the one at ply `p` has at most
/// `256 - p` moves.
pub open spec fn pv_bounded(pv: PvTable) -> bool {
    forall|p: int| 0 <= p <= MAX_DEPTH ==> #[trigger] pv.line(p).len() <= 256 - p
}

/// The evaluations in the table lie within `TT_EVAL_LIMIT`.
pub open spec fn tt_bounded(tt: TranspositionTable) -> bool {
    forall|i: int|
        0 <= i < tt.size() ==> -TT_EVAL_LIMIT <= #[trigger] tt.slots()[i].eval <= TT_EVAL_LIMIT
}

impl SearchState {
    /// The tables are well formed, the history scores bounded and the principal variations
    /// fit.
    pub open spec fn wf(self) -> bool {
        &&& self.killers.wf()
        &&& self.history.wf()
        &&& self.history.bounded()
        &&& self.pv.wf()
        &&& pv_bounded(self.pv)
    }

    /// A fresh state: an empty report, no killers, no history, no variations.
    pub fn new() -> (r: SearchState)
        ensures
            r.wf(),
            r.report.depth == 0,
            r.report.nodes == 0,
            r.report.pv is None,
            r.report.tt_usage == 0,
            forall|p: int| 0 <= p < MAX_DEPTH ==> #[trigger] r.killers.killers(p)@ == seq![None::<Move>, None::<Move>],
            forall|p: Piece, to: int| 0 <= to < 64 ==> #[trigger] r.history.score(p, to) == 0,
            forall|p: int| 0 <= p <= MAX_DEPTH ==> #[trigger] r.pv.line(p) == Seq::<Move>::empty(),
    {
        let s = SearchState {
            report: Report::new(),
            killers: KillerMoves::new(),
            history: HistoryTable::new(),
            pv: PvTable::new(),
        };
        s
    }
}

/// The slot of `key` holds the result `value` of a search to `depth`, `ply` plies below
/// the root, with its bound and counted from the node (see `eval_out_spec`); or the slot
/// holds a deeper entry of the current search, which a store of that depth keeps.
pub open spec fn slot_holds(tt: TranspositionTable, key: u64, depth: int, ply: int, value: int, bound: Bound) -> bool {
    let e = tt.slots()[tt.slot_of(key)];
    ||| e.key == key && e.bound == bound && eval_out_spec(e.eval as int, ply) == value && e.depth
        == depth
    ||| e.age == tt.current_age() && e.depth > depth
}

/// The table backs a result `r` of a search of the position with key `key` to `depth`,
/// `ply` plies below the root, with the window from `alpha` to `beta`: the slot of the key
/// holds the key, from a search at least `depth` deep, with an evaluation (counted from the
/// node) that gives the result: an exact value equal to it, a lower bound of at least
/// `beta` for a result of `beta`, or an upper bound of at most `alpha` for a result of
/// `alpha`; or the slot holds an entry of the current search deeper than `depth`, which a
/// store of the result kept.
pub open spec fn backed(tt: TranspositionTable, key: u64, depth: int, ply: int, alpha: int, beta: int, r: int) -> bool {
    let e = tt.slots()[tt.slot_of(key)];
    let v = eval_out_spec(e.eval as int, ply);
    ||| e.key == key && e.depth >= depth && ((e.bound == Bound::Exact && v == r) || (e.bound
        == Bound::Lower && v >= beta && r == beta) || (e.bound == Bound::Upper && v <= alpha && r
        == alpha))
    ||| e.age == tt.current_age() && e.depth > depth
}

/// What a search of `p` to `depth`, `ply` plies below the root, with the window from
/// `alpha` to `beta`, may give, the table being `tt` when it ends: 0 where a limit stopped
/// it, `EVAL_DRAW` for a drawn position, for a position with no legal move but perhaps an
/// en passant capture a mate in `ply` if the side to move is in check and a draw if it is
/// not, and otherwise a result the table backs.
pub open spec fn search_outcome(stopper: Stopper, tt: TranspositionTable, p: Position, depth: int, ply: int, alpha: int, beta: int, r: int) -> bool {
    ||| !stopper.unlimited() && r == 0
    ||| drawn_at(p, ply) && r == EVAL_DRAW
    ||| no_legal_move_but_en_passant(p) && (if in_check(p.board, p.colour_to_move) {
        r == -EVAL_MATE + ply
    } else {
        r == EVAL_DRAW
    })
    ||| backed(tt, p.key(), depth, ply, alpha, beta, r)
}

/// The table is well formed and its evaluations bounded.
pub open spec fn table_ready(tt: TranspositionTable) -> bool {
    tt.wf() && tt_bounded(tt)
}

/// A store keeps the table ready.
proof fn lemma_store_keeps_bounded(old_tt: TranspositionTable, new_tt: TranspositionTable, key: u64, depth: u8, e: i32, bound: Bound, mv: Option<Move>)
    requires
        table_ready(old_tt),
        new_tt.wf(),
        new_tt.size() == old_tt.size(),
        -TT_EVAL_LIMIT <= e <= TT_EVAL_LIMIT,
        new_tt.slots() == {
            let i = old_tt.slot_of(key);
            let en = old_tt.slots()[i];
            if depth >= en.depth || en.age != old_tt.current_age() {
                old_tt.slots().update(
                    i,
                    super::tt::Entry { key, depth, eval: e, bound, mv, age: old_tt.current_age() },
                )
            } else {
                old_tt.slots()
            }
        },
    ensures
        table_ready(new_tt),
{
    old_tt.lemma_slot_in_range(key);
}

/// Stores a result of the node in the table, normalized to the root (see `eval_in`).
fn store_result(tt: &mut TranspositionTable, key: u64, depth: u8, value: i32, bound: Bound, mv: Option<Move>, ply: u8)
    requires
        table_ready(*old(tt)),
        -SCORE_LIMIT <= value <= SCORE_LIMIT,
    ensures
        table_ready(*final(tt)),
        final(tt).size() == old(tt).size(),
        final(tt).current_age() == old(tt).current_age(),
        final(tt).slots() == {
            let i = old(tt).slot_of(key);
            let en = old(tt).slots()[i];
            if depth >= en.depth || en.age != old(tt).current_age() {
                old(tt).slots().update(
                    i,
                    super::tt::Entry {
                        key,
                        depth,
                        eval: eval_in_spec(value as int, ply as int) as i32,
                        bound,
                        mv,
                        age: old(tt).current_age(),
                    },
                )
            } else {
                old(tt).slots()
            }
        },
        forall|k: u64| #[trigger] final(tt).slot_of(k) == old(tt).slot_of(k),
        slot_holds(*final(tt), key, depth as int, ply as int, value as int, bound),
{
    let stored = eval_in(value, ply);
    let ghost before = *tt;
    tt.store(key, depth, stored, bound, mv);
    proof {
        lemma_store_keeps_bounded(before, *tt, key, depth, stored, bound, mv);
        super::tt::lemma_eval_out_in(value as int, ply as int);
        before.lemma_slot_in_range(key);
    }
}

/// The side has a knight, bishop, rook or queen.
pub open spec fn non_pawn_material(board: Board, colour: Colour) -> bool {
    popcount(board.piece_bb(Piece::of(colour, 1))) + popcount(board.piece_bb(Piece::of(colour, 2)))
        + popcount(board.piece_bb(Piece::of(colour, 3))) + popcount(
        board.piece_bb(Piece::of(colour, 4)),
    ) > 0
}

/// Whether the side has a knight, bishop, rook or queen.
pub fn has_non_pawn_material(board: &Board, colour: Colour) -> (r: bool)
    ensures
        r == non_pawn_material(*board, colour),
{
    let knights = board.count_pieces(Piece::knight(colour));
    let bishops = board.count_pieces(Piece::bishop(colour));
    let rooks = board.count_pieces(Piece::rook(colour));
    let queens = board.count_pieces(Piece::queen(colour));
    (knights + bishops + rooks + queens) > 0
}

/// The base two logarithm of a positive byte, rounded down.
pub fn log2(n: u8) -> (r: u8)
    requires
        n > 0,
    ensures
        r <= 7,
        pow2(r as nat) <= n < 2 * pow2(r as nat),
{
    proof {
        vstd::arithmetic::power2::lemma2_to64();
    }
    if n >= 128 {
        7
    } else if n >= 64 {
        6
    } else if n >= 32 {
        5
    } else if n >= 16 {
        4
    } else if n >= 8 {
        3
    } else if n >= 4 {
        2
    } else if n >= 2 {
        1
    } else {
        0
    }
}

/// The number of earlier moves from which a late quiet move is pruned, by depth.
pub fn lmp_threshold(depth: u8) -> (r: u8)
    requires
        depth <= 4,
    ensures
        r == (if depth == 0 {
            0int
        } else if depth == 1 {
            5int
        } else if depth == 2 {
            9int
        } else if depth == 3 {
            14int
        } else {
            21int
        }),
{
    if depth == 0 {
        0
    } else if depth == 1 {
        5
    } else if depth == 2 {
        9
    } else if depth == 3 {
        14
    } else {
        21
    }
}

/// What the search may ask of a position `ply` plies below its root: that it can be
/// played from and that its key history has room for the plies left.
pub open spec fn node_ready(pos: Position, ply: int) -> bool {
    &&& playable(pos)
    &&& key_items(pos.key_history).len() + (MAX_DEPTH - ply) + 256 < list_limit()
}

/// A board weighs at most three a square.
proof fn lemma_board_weight_bound(b: Board)
    ensures
        0 <= board_weight(b) <= 192,
{
    lemma_square_sum_bound(|i: int| super::quiescence::square_weight(b.at(i)), 64, 3);
    lemma_board_weight_nonneg(b);
}

/// The state and table can be searched with.
pub open spec fn ready(ss: SearchState, tt: TranspositionTable) -> bool {
    ss.wf() && table_ready(tt)
}

/// A score after the maluses of a cut: each quiet move in `items` that moved piece `p` to
/// square `to` lowers it by `bonus` (see `history_update`), in the order of `items`.
pub open spec fn maluses(score: int, p: Piece, to: int, items: Seq<(Piece, Square)>, bonus: int) -> int
    decreases items.len(),
{
    if items.len() == 0 {
        score
    } else {
        let before = maluses(score, p, to, items.drop_last(), bonus);
        if items.last().0 == p && items.last().1.idx() == to {
            history_update(before, -bonus)
        } else {
            before
        }
    }
}

/// The history score of moving `p` to `to` after a cut by `mv` at `depth`, with the quiet
/// moves `searched` before it: the bonus of the square of the depth if the pair is that of
/// `mv`, then the malus of each searched pair that is it.
pub open spec fn score_after_cut(score: int, p: Piece, to: int, mv: Move, depth: int, searched: Seq<(Piece, Square)>) -> int {
    let bonus = depth * depth;
    let rewarded = if p == mv.piece && to == mv.to.idx() {
        history_update(score, bonus)
    } else {
        score
    };
    maluses(rewarded, p, to, searched, bonus)
}

/// Records a quiet move that caused a cut at `ply`: it becomes the first killer move of
/// the ply, and its history score rises by the square of the depth while those of the
/// quiet moves searched before it fall by as much.
fn reward_quiet_cut(ss: &mut SearchState, ply: u8, mv: &Move, depth: u8, searched: &SmallList<(Piece, Square)>)
    requires
        old(ss).wf(),
        ply < MAX_DEPTH,
        depth <= MAX_SEARCH_DEPTH,
    ensures
        final(ss).wf(),
        final(ss).report == old(ss).report,
        final(ss).pv == old(ss).pv,
        final(ss).killers.killers(ply as int)@ == {
            let old_pair = old(ss).killers.killers(ply as int)@;
            if old_pair[0] is None || !same_move(*mv, old_pair[0]->0) {
                seq![Some(*mv), old_pair[0]]
            } else {
                old_pair
            }
        },
        forall|p: int| 0 <= p < MAX_DEPTH && p != ply ==> #[trigger] final(ss).killers.killers(p) == old(ss).killers.killers(p),
        forall|p: Piece, to: int|
            0 <= to < 64 ==> #[trigger] final(ss).history.score(p, to) == score_after_cut(
                old(ss).history.score(p, to),
                p,
                to,
                *mv,
                depth as int,
                quiet_items(*searched),
            ),
{
    ss.killers.store(ply, mv);
    let ghost stored_killers = ss.killers;
    proof {
        assert((depth as int) * (depth as int) <= 16384) by (nonlinear_arith)
            requires
                depth <= 128,
        ;
    }
    let bonus: i32 = depth as i32 * depth as i32;
    let _to = mv.to.index();
    proof {
        assert(bonus <= 16384) by (nonlinear_arith)
            requires
                bonus == depth * depth,
                depth <= 128,
        ;
        assert(bonus >= 0) by (nonlinear_arith)
            requires
                bonus == depth * depth,
        ;
        lemma_update_bounded(ss.history.score(mv.piece, mv.to.idx()), bonus as int);
    }
    ss.history.store(bonus, mv.piece, mv.to);
    let ghost rewarded = ss.history;
    let ghost items = quiet_items(*searched);
    proof {
        assert forall|p: Piece, to: int| 0 <= to < 64 implies #[trigger] rewarded.score(p, to) == (
            if p == mv.piece && to == mv.to.idx() {
                history_update(old(ss).history.score(p, to), bonus as int)
            } else {
                old(ss).history.score(p, to)
            }) by {}
    }
    let n = searched.len();
    let mut i: usize = 0;
    while i < n
        invariant
            i <= n,
            n == items.len(),
            items == quiet_items(*searched),
            ss.wf(),
            0 <= bonus <= 16384,
            bonus == depth * depth,
            ss.report == old(ss).report,
            ss.pv == old(ss).pv,
            ss.killers == stored_killers,
            forall|p: Piece, to: int|
                0 <= to < 64 ==> #[trigger] ss.history.score(p, to) == maluses(
                    rewarded.score(p, to),
                    p,
                    to,
                    items.take(i as int),
                    bonus as int,
                ),
        decreases n - i,
    {
        let (piece, to) = searched.get(i);
        let _t = to.index();
        let ghost before = ss.history;
        proof {
            lemma_update_bounded(ss.history.score(piece, to.idx()), -bonus as int);
        }
        ss.history.store(-bonus, piece, to);
        proof {
            assert(items.take(i + 1).drop_last() =~= items.take(i as int));
            assert(items.take(i + 1).last() == (piece, to));
            assert forall|p: Piece, t: int| 0 <= t < 64 implies #[trigger] ss.history.score(p, t) == maluses(
                rewarded.score(p, t),
                p,
                t,
                items.take(i + 1),
                bonus as int,
            ) by {
                assert(before.score(p, t) == maluses(rewarded.score(p, t), p, t, items.take(i as int), bonus as int));
            }
        }
        i = i + 1;
    }
    proof {
        assert(items.take(n as int) =~= items);
    }
}

/// Searches the position a move led to, `ply + 1` plies below the root, and gives its
/// value for the side that moved. The first move of a node is searched with the full
/// window; a later one with a null window at `depth - 1 - reduction` plies, again at
/// `depth - 1` plies where a reduced search raised alpha, and with the full window where
/// the null window search fell inside the window.
fn search_child(
    ss: &mut SearchState,
    tt: &mut TranspositionTable,
    stopper: &Stopper,
    pos: &mut Position,
    depth: u8,
    alpha: i32,
    beta: i32,
    ply: u8,
    reduction: u8,
    first: bool,
) -> (r: i32)
    requires
        ready(*old(ss), *old(tt)),
        node_ready(*old(pos), ply + 1),
        -SCORE_LIMIT <= alpha < beta <= SCORE_LIMIT,
        ply + 1 < MAX_DEPTH,
        1 <= depth <= MAX_SEARCH_DEPTH,
        reduction < depth,
    ensures
        -SCORE_LIMIT <= r <= SCORE_LIMIT,
        ready(*final(ss), *final(tt)),
        kept(*old(pos), *final(pos)),
        playable(*final(pos)),
        stopper.unlimited() && depth == 1 && old(pos).en_passant_square is None && !drawn_at(
            *old(pos),
            ply + 1,
        ) && !in_check(old(pos).board, old(pos).colour_to_move) && counters_allow(*old(pos))
            ==> r == clamp(-qvalue(*old(pos)), alpha as int, beta as int),
        stopper.unlimited() && old(pos).en_passant_square is None && drawn_at(*old(pos), ply + 1)
            ==> r == EVAL_DRAW,
        first && stopper.unlimited() && !drawn_at(*old(pos), ply + 1) && beta - alpha > 1 && in_check(
            old(pos).board,
            old(pos).colour_to_move,
        ) && no_legal_move(*old(pos)) && old(pos).en_passant_square is None && ply + 2 < MAX_DEPTH
            && old(pos).full_move_counter < 255 ==> r == EVAL_MATE - (ply + 1),
        first && (depth - 1 > 0 || in_check(old(pos).board, old(pos).colour_to_move)) && ply + 2
            < MAX_DEPTH && old(pos).full_move_counter < 255 ==> search_outcome(
            *stopper,
            *final(tt),
            *old(pos),
            depth - 1,
            ply + 1,
            -beta,
            -alpha,
            -r,
        ),
        !first && (depth - 1 - reduction > 0 || in_check(old(pos).board, old(pos).colour_to_move))
            && ply + 2 < MAX_DEPTH && old(pos).full_move_counter < 255 ==> exists|c: Position, d: int, a: int|
            kept(*old(pos), c) && ((d == depth - 1 - reduction && a == -alpha - 1) || (d == depth - 1
                && a == -alpha - 1) || (d == depth - 1 && a == -beta)) && #[trigger] search_outcome(
                *stopper,
                *final(tt),
                c,
                d,
                ply + 1,
                a,
                -alpha,
                -r,
            ),
    decreases MAX_DEPTH - ply, 0int,
{
    let ghost start = *pos;
    let ghost exact = stopper.unlimited() && depth == 1 && start.en_passant_square is None
        && !drawn_at(start, ply + 1) && !crate::movegen::in_check(start.board, start.colour_to_move)
        && counters_allow(start);
    let ghost drawn_child = stopper.unlimited() && start.en_passant_square is None && drawn_at(
        start,
        ply + 1,
    );
    if first {
        return -search(ss, tt, stopper, pos, depth - 1, -beta, -alpha, ply + 1);
    }
    let ghost mut last_pos = *pos;
    let ghost mut last_depth: int = depth - reduction - 1;
    let ghost mut last_alpha: int = -alpha - 1;
    let mut eval = -search(ss, tt, stopper, pos, depth - reduction - 1, -alpha - 1, -alpha, ply + 1);
    proof {
        if exact {
            assert(crate::movegen::same_state(*pos, start));
            quiescence::lemma_qvalue_same(*pos, start);
            assert(pos.key() == start.key());
        }
        if drawn_child {
            lemma_kept_alike(start, *pos);
        }
    }
    if eval > alpha && reduction > 0 {
        proof {
            last_pos = *pos;
            last_depth = depth - 1;
        }
        eval = -search(ss, tt, stopper, pos, depth - 1, -alpha - 1, -alpha, ply + 1);
    }
    let ghost between = *pos;
    if eval > alpha && eval < beta {
        proof {
            last_pos = *pos;
            last_depth = depth - 1;
            last_alpha = -beta;
        }
        eval = -search(ss, tt, stopper, pos, depth - 1, -beta, -alpha, ply + 1);
        proof {
            if exact {
                assert(crate::movegen::same_state(between, start));
                assert(between.key() == start.key());
            }
            if drawn_child {
                lemma_kept_alike(start, between);
            }
        }
    }
    proof {
        assert(kept(start, last_pos));
        if (depth - 1 - reduction > 0 || crate::movegen::in_check(start.board, start.colour_to_move))
            && ply + 2 < MAX_DEPTH && start.full_move_counter < 255 {
            assert(search_outcome(*stopper, *tt, last_pos, last_depth, ply + 1, last_alpha, -alpha, -eval));
        }
    }
    eval
}

/// The search counts the position as drawn, `ply` plies below its root: by the fifty-move
/// rule or by repetition (see `repetition_draw`).
pub open spec fn drawn_at(pos: Position, ply: int) -> bool {
    pos.half_move_clock >= 100 || repetition_draw(pos, ply)
}

/// No move the generator lists for the position is legal.
pub open spec fn no_legal_move(pos: Position) -> bool {
    forall|m: Move| #[trigger] generated_moves(pos, true).contains(m) ==> !legal_move(pos, m)
}

/// A position kept from one without an en passant square agrees with it on what the
/// search reads: the generator's state, the key, the draws, the legal moves and the move
/// counters.
pub proof fn lemma_kept_alike(p: Position, q: Position)
    requires
        kept(p, q),
        p.en_passant_square is None,
    ensures
        crate::movegen::same_state(p, q),
        q.en_passant_square is None,
        p.key() == q.key(),
        forall|ply: int| #[trigger] drawn_at(q, ply) == drawn_at(p, ply),
        no_legal_move(q) == no_legal_move(p),
        counters_allow(q) == counters_allow(p),
        generated_moves(q, true) == generated_moves(p, true),
{
    crate::movegen::lemma_generated_moves_same(p, q, true);
    assert forall|m: Move| #[trigger] legal_move(q, m) == legal_move(p, m) by {
        assert(moved(q, m).board == moved(p, m).board);
    }
}

/// No move the generator lists for the position is legal, but perhaps an en passant
/// capture.
pub open spec fn no_legal_move_but_en_passant(pos: Position) -> bool {
    forall|m: Move|
        #[trigger] generated_moves(pos, true).contains(m) && !m.is_en_passant ==> !legal_move(pos, m)
}

/// When every move a picker made from a position's moves has been handed out and none is
/// legal in a position it was kept from, that position has no legal move but perhaps an
/// en passant capture.
proof fn lemma_none_legal(start: Position, base: Position, items: Seq<(Move, i32)>, first: Seq<(Move, i32)>)
    requires
        kept(start, base),
        items.to_multiset() == first.to_multiset(),
        first.len() == generated_moves(base, true).len(),
        forall|i: int| 0 <= i < first.len() ==> (#[trigger] first[i]).0 == generated_moves(base, true)[i],
        forall|j: int| 0 <= j < items.len() ==> !legal_move(start, (#[trigger] items[j]).0),
    ensures
        no_legal_move_but_en_passant(start),
{
    items.to_multiset_ensures();
    first.to_multiset_ensures();
    assert forall|m: Move| #[trigger] generated_moves(start, true).contains(m) && !m.is_en_passant implies !legal_move(start, m) by {
        crate::movegen::lemma_generated_without_en_passant(start, base, true, m);
        let g = generated_moves(base, true);
        let i = choose|i: int| 0 <= i < g.len() && g[i] == m;
        assert(first[i].0 == m);
        assert(first.contains(first[i]));
        assert(first.to_multiset().count(first[i]) > 0);
        assert(items.contains(first[i]));
        let j = choose|j: int| 0 <= j < items.len() && items[j] == first[i];
        assert(!legal_move(start, items[j].0));
    }
}

/// The moves the generator lists for a position kept from `start` are moves it lists for
/// `start` too, legal there exactly when they are legal in the kept position.
proof fn lemma_kept_moves_within(start: Position, base: Position, m: Move)
    requires
        kept(start, base),
        generated_moves(base, true).contains(m),
    ensures
        generated_moves(start, true).contains(m),
        legal_move(base, m) == legal_move(start, m),
{
    assert(moved(base, m).board == moved(start, m).board);
    if base.en_passant_square == start.en_passant_square {
        crate::movegen::lemma_generated_moves_same(base, start, true);
    } else {
        lemma_generated_sound(base, true, m);
        crate::movegen::lemma_generated_without_en_passant(base, start, true, m);
    }
}

/// Searches a position `ply` plies below the root to `depth` plies with the window from
/// `alpha` to `beta` (negamax alpha-beta with a transposition table, null-move, futility
/// and late-move pruning, late-move reductions and principal variation search), and
/// gives its value for the side to move: within the search's range, and a cut-off bound
/// where it falls outside the window. At depth 0 the captures and promotions are searched
/// (see `quiescence`), unless the side to move is in check. A search told to stop gives 0;
/// a position drawn by the fifty-move rule or by repetition gives `EVAL_DRAW`; a position
/// with no legal move gives a mate in `ply` or a draw. The position is left as it was but
/// perhaps for its en passant square. At the last ply the tables hold, and where the move
/// counter is at its limit, only the captures and promotions are searched. A side in check
/// one ply above the leaves is pruned nowhere: with the full window, the search gives the
/// best value of its legal moves (see `shallow_value`) brought into the window, wherever
/// the positions they lead to are settled at once (see `shallow_node`). Whatever the
/// depth, a result that is not a stop, a draw, or the mate or draw of a position without
/// a legal move is the one the table holds for the position when the search ends (see
/// `backed`): an exact value, or the window's bound with a bound of the table beyond it,
/// unless a deeper entry of the current search kept the position's slot.
#[verifier::rlimit(100)]
pub fn search(
    ss: &mut SearchState,
    tt: &mut TranspositionTable,
    stopper: &Stopper,
    pos: &mut Position,
    depth: u8,
    alpha: i32,
    beta: i32,
    ply: u8,
) -> (r: i32)
    requires
        ready(*old(ss), *old(tt)),
        node_ready(*old(pos), ply as int),
        -SCORE_LIMIT <= alpha < beta <= SCORE_LIMIT,
        ply < MAX_DEPTH,
        depth <= MAX_SEARCH_DEPTH,
    ensures
        -SCORE_LIMIT <= r <= SCORE_LIMIT,
        beta - alpha > 1 ==> r == 0 || r == -EVAL_MATE + ply || alpha <= r <= beta,
        ready(*final(ss), *final(tt)),
        kept(*old(pos), *final(pos)),
        playable(*final(pos)),
        stopper.unlimited() && drawn_at(*old(pos), ply as int) ==> r == EVAL_DRAW,
        stopper.unlimited() && !drawn_at(*old(pos), ply as int) && depth == 0 && !in_check(
            old(pos).board,
            old(pos).colour_to_move,
        ) && counters_allow(*old(pos)) ==> r == clamp(qvalue(*old(pos)), alpha as int, beta as int),
        stopper.unlimited() && !drawn_at(*old(pos), ply as int) && beta - alpha > 1 && in_check(
            old(pos).board,
            old(pos).colour_to_move,
        ) && no_legal_move(*old(pos)) && ply + 1 < MAX_DEPTH && old(pos).full_move_counter < 255
            ==> r == -EVAL_MATE + ply,
        stopper.unlimited() && !drawn_at(*old(pos), ply as int) && beta - alpha > 1 && !in_check(
            old(pos).board,
            old(pos).colour_to_move,
        ) && 1 <= depth && (depth <= 2 || !non_pawn_material(old(pos).board, old(pos).colour_to_move))
            && no_legal_move(*old(pos)) && ply + 1 < MAX_DEPTH && old(pos).full_move_counter < 255
            ==> r == EVAL_DRAW,
        stopper.unlimited() && !drawn_at(*old(pos), ply as int) && beta - alpha > 1 && in_check(
            old(pos).board,
            old(pos).colour_to_move,
        ) && depth <= 1 && shallow_node(*old(pos)) && old(pos).en_passant_square is None && ply + 1
            < MAX_DEPTH && old(pos).full_move_counter < 255 ==> (shallow_value(*old(pos), ply as int) matches Some(v)
            ==> r == clamp(v, alpha as int, beta as int)),
        (depth > 0 || in_check(old(pos).board, old(pos).colour_to_move)) && ply + 1 < MAX_DEPTH
            && old(pos).full_move_counter < 255 ==> search_outcome(
            *stopper,
            *final(tt),
            *old(pos),
            depth as int,
            ply as int,
            alpha as int,
            beta as int,
            r as int,
        ),
    decreases MAX_DEPTH - ply, 1int,
{
    let ghost start = *pos;
    ss.pv.clear(ply);
    if stopper.should_stop(&ss.report) {
        return 0;
    }
    if pos.is_fifty_move_draw() || pos.is_repetition_draw(ply) {
        return EVAL_DRAW;
    }
    let colour = pos.colour_to_move;
    let ghost mate_case = stopper.unlimited() && beta - alpha > 1 && (crate::movegen::in_check(
        start.board,
        colour,
    ) || (1 <= depth && (depth <= 2 || !non_pawn_material(start.board, colour)))) && no_legal_move(
        start,
    );
    let ghost exact = stopper.unlimited() && !drawn_at(start, ply as int) && beta - alpha > 1
        && crate::movegen::in_check(start.board, colour) && depth <= 1 && shallow_node(start)
        && start.en_passant_square is None && ply + 1 < MAX_DEPTH && start.full_move_counter < 255;
    let ghost mut acc: Option<int> = None;
    proof {
        lemma_one_king(pos.board, Colour::White);
        lemma_one_king(pos.board, Colour::Black);
        crate::piece::lemma_of_has_colour_and_kind(colour, 5);
        crate::piece::lemma_of_has_colour_and_kind(colour.opposite(), 5);
        lemma_board_weight_bound(pos.board);
    }
    let mut search_depth = depth;
    if search_depth == 0 {
        if !is_in_check(colour, &pos.board) {
            return quiescence::search(pos, alpha, beta, &mut ss.report);
        }
        search_depth = 1;
    }
    if ply + 1 >= MAX_DEPTH || pos.full_move_counter == 255 {
        return quiescence::search(pos, alpha, beta, &mut ss.report);
    }
    let is_pv_node = beta - alpha > 1;
    let key = pos.compute_key();
    let mut tt_move: Option<Move> = None;
    match tt.probe(key) {
        Some(entry) => {
            let stored = entry.eval;
            if -TT_READ_LIMIT <= stored && stored <= TT_READ_LIMIT && !is_pv_node && entry.depth
                >= search_depth {
                let value = eval_out(stored, ply);
                match entry.bound {
                    Bound::Exact => {
                        return value;
                    },
                    Bound::Lower => {
                        if value >= beta {
                            return beta;
                        }
                    },
                    Bound::Upper => {
                        if value <= alpha {
                            return alpha;
                        }
                    },
                }
            }
            tt_move = entry.mv;
        },
        None => {},
    }
    ss.report.count_node();
    let in_check = is_in_check(colour, &pos.board);
    let futility_base_eval: Option<i32> = if !is_pv_node && !in_check && ply > 0 && search_depth <= 5
        && alpha > -EVAL_MATE_THRESHOLD && beta < EVAL_MATE_THRESHOLD {
        let static_eval = eval(pos);
        let safe_to_prune = match tt_move {
            Some(mv) => mv.captured_piece.is_none(),
            None => true,
        };
        if safe_to_prune && static_eval - search_depth as i32 * 100 >= beta {
            store_result(tt, key, search_depth, beta, Bound::Lower, tt_move, ply);
            return beta;
        }
        if search_depth <= 3 {
            Some(static_eval)
        } else {
            None
        }
    } else {
        None
    };
    if search_depth >= 3 && !in_check && has_non_pawn_material(&pos.board, colour) {
        let ghost before_null = *pos;
        let en_passant = pos.do_null_move();
        let ghost null_child = *pos;
        proof {
            crate::colour::lemma_flip_involutive(colour);
            assert(playable(*pos));
        }
        let reduction: u8 = if search_depth > 6 {
            3
        } else {
            2
        };
        let value = -search(ss, tt, stopper, pos, search_depth - reduction - 1, -beta, -beta + 1, ply + 1);
        let ghost after_null = *pos;
        pos.undo_null_move(en_passant);
        proof {
            assert(key_items(null_child.key_history).len() > 0);
            assert(key_items(null_child.key_history).drop_last() =~= key_items(start.key_history));
            assert(kept(start, *pos));
        }
        if value >= beta {
            store_result(tt, key, search_depth, value, Bound::Lower, None, ply);
            return beta;
        }
    }
    let mut best = alpha;
    let mut tt_bound = Bound::Upper;
    let mut searched_quiets: SmallList<(Piece, Square)> = SmallList::<(Piece, Square)>::new();
    let mut has_searched_one = false;
    let mut move_number: u8 = 0;
    let moves = generate_all_moves(pos);
    proof {
        crate::movegen::lemma_generated_moves_len(start, true);
        crate::movegen::lemma_generated_moves_same(*pos, start, true);
    }
    // The move from the table is searched first, if it is a legal move of the position.
    let mut listed_tt_move: Option<Move> = None;
    if let Some(mv) = tt_move {
        let mut k: usize = 0;
        while k < moves.len()
            invariant
                k <= move_items(moves).len(),
                listed_tt_move is Some ==> generated_moves(start, true).contains(listed_tt_move->0),
                move_items(moves) == generated_moves(start, true),
            decreases move_items(moves).len() - k,
        {
            if moves.get(k) == mv {
                proof {
                    assert(generated_moves(start, true)[k as int] == mv);
                }
                listed_tt_move = Some(mv);
            }
            k = k + 1;
        }
    }
    tt_move = None;
    if let Some(mv) = listed_tt_move {
        let _from = mv.from.index();
        let _to = mv.to.index();
        let ghost pre = *pos;
        proof {
            lemma_generated_sound(start, true, mv);
            lemma_generated_fits(start, mv);
        }
        pos.do_move(&mv);
        let ghost child = *pos;
        proof {
            assert(moved_fields(start, mv, child));
            lemma_move_keeps_sound(start, mv, child);
            lemma_one_king(child.board, colour);
        }
        let illegal = is_in_check(colour, &pos.board);
        proof {
            if mate_case {
                lemma_moved_same(start, mv, child);
                assert(!legal_move(start, mv));
            }
            if exact {
                lemma_child_exact(start, pre, mv, child, ply + 1);
            }
        }
        if !illegal {
            proof {
                assert(playable(child));
            }
            let value = search_child(ss, tt, stopper, pos, search_depth, best, beta, ply, 0, true);
            proof {
                if exact {
                    let v = reply_value(start, mv, ply as int);
                    assert(value == v || value == clamp(v, best as int, beta as int));
                    lemma_reply_at_most(start, ply as int, mv);
                    acc = Some(v);
                }
            }
            let ghost mid = Position { en_passant_square: child.en_passant_square, ..*pos };
            proof {
                assert(moved_fields(pre, mv, mid));
                assert(did_move(pre, mv, mid));
            }
            pos.undo_move(&mv);
            proof {
                assert(undid_move(mid, mv, *pos));
                lemma_undo_restores(pre, mv, mid, *pos);
            }
            if value >= beta {
                if mv.is_quiet() {
                    reward_quiet_cut(ss, ply, &mv, search_depth, &searched_quiets);
                }
                store_result(tt, key, search_depth, value, Bound::Lower, Some(mv), ply);
                return beta;
            }
            if value > best {
                best = value;
                tt_bound = Bound::Exact;
                ss.pv.update(ply, mv);
            }
            if mv.is_quiet() {
                searched_quiets.push((mv.piece, mv.to));
            }
            has_searched_one = true;
            move_number = 1;
            tt_move = Some(mv);
        } else {
            let ghost mid = Position { en_passant_square: child.en_passant_square, ..*pos };
            proof {
                assert(moved_fields(pre, mv, mid));
                assert(did_move(pre, mv, mid));
            }
            pos.undo_move(&mv);
            proof {
                assert(undid_move(mid, mv, *pos));
                lemma_undo_restores(pre, mv, mid, *pos);
            }
        }
    }
    let ghost base = *pos;
    proof {
        crate::movegen::lemma_generated_moves_len(base, true);
        if exact {
            assert(crate::movegen::same_state(base, start));
            crate::movegen::lemma_generated_moves_same(base, start, true);
        }
        if mate_case {
            assert forall|m: Move| #[trigger] generated_moves(base, true).contains(m) implies !legal_move(base, m) by {
                lemma_kept_moves_within(start, base, m);
            }
        }
    }
    let mut picker = MovePicker::new(
        pos,
        MovePickerMode::AllMoves { killers: &ss.killers, history: &ss.history, ply },
    );
    let ghost first_items = picker.items();
    let mut done = false;
    while !done
        invariant
            ready(*ss, *tt),
            start == *old(pos),
            node_ready(start, ply as int),
            kept(start, base),
            kept(base, *pos),
            playable(base),
            playable(*pos),
            colour == start.colour_to_move,
            ply + 1 < MAX_DEPTH,
            1 <= search_depth <= MAX_SEARCH_DEPTH,
            -SCORE_LIMIT <= best < beta <= SCORE_LIMIT,
            alpha <= best,
            is_pv_node == (beta - alpha > 1),
            picker.wf(),
            picker.items().len() == generated_moves(base, true).len(),
            generated_moves(base, true).len() <= 16384 * 6 + 64,
            forall|i: int|
                0 <= i < picker.items().len() ==> generated_moves(base, true).contains(
                    (#[trigger] picker.items()[i]).0,
                ),
            quiet_items(searched_quiets).len() <= picker.handed_out() + 1,
            base.full_move_counter < 255,
            base.half_move_clock < 100,
            futility_base_eval matches Some(e) ==> -500_000 <= e <= 500_000,
            mate_case ==> no_legal_move(base) && move_number == 0,
            !(stopper.unlimited() && drawn_at(start, ply as int)),
            !(stopper.unlimited() && depth == 0 && !crate::movegen::in_check(start.board, colour)),
            mate_case == (stopper.unlimited() && beta - alpha > 1 && (crate::movegen::in_check(
                start.board,
                colour,
            ) || (1 <= depth && (depth <= 2 || !non_pawn_material(start.board, colour))))
                && no_legal_move(start)),
            done ==> picker.handed_out() >= picker.items().len(),
            exact == (stopper.unlimited() && !drawn_at(start, ply as int) && beta - alpha > 1
                && crate::movegen::in_check(start.board, colour) && depth <= 1 && shallow_node(start)
                && start.en_passant_square is None && ply + 1 < MAX_DEPTH && start.full_move_counter
                < 255),
            exact ==> search_depth == 1 && in_check && futility_base_eval is None,
            exact ==> generated_moves(base, true) == generated_moves(start, true),
            picker.items().to_multiset() == first_items.to_multiset(),
            key == start.key(),
            search_depth >= depth,
            tt_bound == (if best > alpha {
                Bound::Exact
            } else {
                Bound::Upper
            }),
            tt_move is Some ==> move_number > 0,
            move_number == 0 ==> forall|j: int|
                0 <= j < picker.handed_out() ==> !legal_move(start, (#[trigger] picker.items()[j]).0),
            first_items.len() == generated_moves(base, true).len(),
            forall|i: int|
                0 <= i < first_items.len() ==> (#[trigger] first_items[i]).0 == generated_moves(
                    base,
                    true,
                )[i],
            exact ==> forall|j: int|
                0 <= j < picker.handed_out() && legal_move(start, (#[trigger] picker.items()[j]).0)
                    ==> (acc matches Some(a) && reply_value(start, picker.items()[j].0, ply as int)
                    <= a),
            exact ==> (acc matches Some(a) ==> exists|m: Move|
                generated_moves(start, true).contains(m) && legal_move(start, m) && reply_value(
                    start,
                    m,
                    ply as int,
                ) == a),
            exact ==> ((acc is None) == (move_number == 0)),
            exact ==> (acc matches Some(a) ==> a < beta && best == (if a > alpha {
                a
            } else {
                alpha as int
            })),
            exact && acc is None ==> best == alpha,
            exact ==> (tt_move matches Some(t) ==> generated_moves(start, true).contains(t)
                && legal_move(start, t) && (acc matches Some(a) && reply_value(start, t, ply as int)
                <= a)),
        decreases picker.items().len() - picker.handed_out() + if done {
            0int
        } else {
            1int
        },
    {
        let ghost items_before = picker.items();
        let ghost h = picker.handed_out();
        let ghost acc_before = acc;
        let next = picker.pick();
        match next {
            None => {
                done = true;
            },
            Some(mv) => {
                proof {
                    let k = super::movepicker::first_min(items_before, h, items_before.len() as int);
                    super::movepicker::lemma_first_min(items_before, h, items_before.len() as int);
                    assert(mv == items_before[k].0);
                    assert(generated_moves(base, true).contains(mv));
                    assert forall|i: int| 0 <= i < picker.items().len() implies generated_moves(base, true).contains(
                        (#[trigger] picker.items()[i]).0,
                    ) by {
                        if i == h {
                            assert(picker.items()[i] == items_before[k]);
                        } else if i == k {
                            assert(picker.items()[i] == items_before[h]);
                        } else {
                            assert(picker.items()[i] == items_before[i]);
                        }
                    }
                    assert(picker.items()[h].0 == mv);
                    assert forall|j: int| 0 <= j < h implies picker.items()[j] == items_before[j] by {}
                }
                let skip = match tt_move {
                    Some(t) => mv.equals(&t),
                    None => false,
                };
                proof {
                    if exact && skip {
                        lemma_same_move_generated(start, mv, tt_move->0);
                    }
                }
                if !skip {
                    let _from = mv.from.index();
                    let _to = mv.to.index();
                    let ghost pre = *pos;
                    proof {
                        lemma_generated_sound(base, true, mv);
                        lemma_generated_fits(base, mv);
                    }
                    pos.do_move(&mv);
                    let ghost child = *pos;
                    proof {
                        assert(moved_fields(base, mv, child));
                        lemma_move_keeps_sound(base, mv, child);
                        lemma_one_king(child.board, colour);
                        lemma_one_king(child.board, colour.opposite());
                        crate::colour::lemma_flip_involutive(colour);
                    }
                    let ghost mid = Position { en_passant_square: child.en_passant_square, ..*pos };
                    proof {
                        assert(moved_fields(pre, mv, mid));
                        assert(did_move(pre, mv, mid));
                    }
                    let illegal = is_in_check(colour, &pos.board);
                    proof {
                        if mate_case {
                            lemma_moved_same(base, mv, child);
                            assert(!legal_move(base, mv));
                        }
                        if exact {
                            assert(kept(start, pre));
                            lemma_child_exact(start, pre, mv, child, ply + 1);
                        }
                        lemma_moved_same(base, mv, child);
                        assert(moved(base, mv).board == moved(start, mv).board);
                        assert(legal_move(start, mv) == !illegal);
                    }
                    if illegal {
                        pos.undo_move(&mv);
                        proof {
                            assert(undid_move(mid, mv, *pos));
                            lemma_undo_restores(pre, mv, mid, *pos);
                        }
                    } else {
                        if move_number < 255 {
                            move_number = move_number + 1;
                        }
                        let gives_check = is_in_check(pos.colour_to_move, &pos.board);
                        let quiet = mv.is_quiet();
                        let late_pruned = search_depth <= 4 && !in_check && !gives_check && quiet
                            && move_number >= lmp_threshold(search_depth);
                        let futile = !gives_check && quiet && match futility_base_eval {
                            Some(e) => e + search_depth as i32 * 100 <= best,
                            None => false,
                        };
                        if late_pruned || futile {
                            pos.undo_move(&mv);
                            proof {
                                assert(undid_move(mid, mv, *pos));
                                lemma_undo_restores(pre, mv, mid, *pos);
                            }
                        } else {
                            let reduction: u8 = if has_searched_one && !is_pv_node && search_depth >= 3
                                && move_number >= 4 && !in_check && !gives_check && quiet
                                && !ss.killers.is_killer(ply, &mv) && ss.history.probe(
                                mv.piece,
                                mv.to,
                            ) < LMR_HISTORY_THRESHOLD {
                                let ld = log2(search_depth);
                                let lm = log2(move_number);
                                proof {
                                    assert((ld as int) * (lm as int) <= 49) by (nonlinear_arith)
                                        requires
                                            ld <= 7,
                                            lm <= 7,
                                    ;
                                }
                                let scaled = ld * lm / 3;
                                let most = search_depth - 2;
                                if scaled < most {
                                    scaled
                                } else {
                                    most
                                }
                            } else {
                                0
                            };
                            proof {
                                assert(playable(child));
                            }
                            let value = search_child(
                                ss,
                                tt,
                                stopper,
                                pos,
                                search_depth,
                                best,
                                beta,
                                ply,
                                reduction,
                                !has_searched_one,
                            );
                            proof {
                                if exact {
                                    let v = reply_value(start, mv, ply as int);
                                    assert(value == v || value == clamp(v, best as int, beta as int));
                                    lemma_reply_at_most(start, ply as int, mv);
                                    acc = match acc {
                                        Some(a) => if a >= v {
                                            Some(a)
                                        } else {
                                            Some(v)
                                        },
                                        None => Some(v),
                                    };
                                }
                            }
                            let ghost mid2 = Position { en_passant_square: child.en_passant_square, ..*pos };
                            proof {
                                assert(moved_fields(pre, mv, mid2));
                                assert(did_move(pre, mv, mid2));
                            }
                            pos.undo_move(&mv);
                            proof {
                                assert(undid_move(mid2, mv, *pos));
                                lemma_undo_restores(pre, mv, mid2, *pos);
                            }
                            if value >= beta {
                                if quiet {
                                    reward_quiet_cut(ss, ply, &mv, search_depth, &searched_quiets);
                                }
                                store_result(tt, key, search_depth, value, Bound::Lower, Some(mv), ply);
                                return beta;
                            }
                            if quiet {
                                searched_quiets.push((mv.piece, mv.to));
                            }
                            if value > best {
                                best = value;
                                tt_bound = Bound::Exact;
                                tt_move = Some(mv);
                                ss.pv.update(ply, mv);
                            }
                            has_searched_one = true;
                        }
                    }
                }
                proof {
                    if move_number == 0 {
                        assert forall|j: int| 0 <= j < h + 1 implies !legal_move(start, (#[trigger] picker.items()[j]).0) by {
                            if j < h {
                                assert(picker.items()[j] == items_before[j]);
                            }
                        }
                    }
                    if exact {
                        assert forall|j: int|
                            0 <= j < h + 1 && legal_move(start, (#[trigger] picker.items()[j]).0) implies (acc matches Some(a)
                            && reply_value(start, picker.items()[j].0, ply as int) <= a) by {
                            if j < h {
                                assert(picker.items()[j] == items_before[j]);
                            }
                        }
                    }
                }
            },
        }
    }
    proof {
        if exact {
            lemma_value_found(start, ply as int, picker.items(), first_items, acc);
        }
        if move_number == 0 {
            lemma_none_legal(start, base, picker.items(), first_items);
        }
    }
    if move_number == 0 {
        return if in_check {
            -EVAL_MATE + ply as i32
        } else {
            EVAL_DRAW
        };
    }
    store_result(tt, key, search_depth, best, tt_bound, tt_move, ply);
    best
}

} // verus!
