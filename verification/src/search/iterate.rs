use super::quiescence::clamp;
use super::shallow::{lemma_kept_shallow, shallow_node, shallow_value};
use super::alphabeta::{
    self, backed, drawn_at, lemma_kept_alike, no_legal_move, no_legal_move_but_en_passant, node_ready,
    ready, SearchState, MAX_SEARCH_DEPTH,
};
use super::report::Report;
use super::stopper::Stopper;
use super::tt::TranspositionTable;

use crate::collections::{key_items, list_limit, move_items, MoveList};
use crate::eval::{EVAL_DRAW, EVAL_MATE, EVAL_MATE_THRESHOLD, EVAL_MAX, EVAL_MIN};
use crate::movegen::attacks::is_in_check;
use crate::movegen::moves::Move;
use crate::movegen::perft::{
    kept, lemma_generated_fits, lemma_move_keeps_sound, lemma_moved_same, lemma_one_king,
    legal_move, playable,
};
use crate::movegen::{
    generate_all_moves, generated, generated_moves, in_check, lemma_generated_sound,
};
use crate::position::{
    did_move, lemma_undo_restores, moved_fields, repetition_draw, undid_move, Position,
};
use vstd::prelude::*;

verus! {

/// Iterations from this depth on search a window around the last evaluation.
pub const ASP_MIN_DEPTH: u8 = 4;

/// The first distance of the window's bounds from the last evaluation: a quarter pawn.
pub const ASP_BASE_DELTA: i32 = 25;

/// How much a bound's distance grows when the search falls outside it.
pub const ASP_EXPANSION_FACTOR: i32 = 2;

/// How often the window is widened before the full window is searched.
pub const ASP_MAX_RETRIES: u8 = 3;

/// The legal moves among the first `n` the generator lists, in its order.
pub open spec fn legal_prefix(pos: Position, n: int) -> Seq<Move>
    decreases n,
{
    if n <= 0 {
        Seq::empty()
    } else {
        let m = generated_moves(pos, true)[n - 1];
        legal_prefix(pos, n - 1) + if legal_move(pos, m) {
            seq![m]
        } else {
            Seq::<Move>::empty()
        }
    }
}

/// The legal moves of the position, in the generator's order.
pub open spec fn legal_moves(pos: Position) -> Seq<Move> {
    legal_prefix(pos, generated_moves(pos, true).len() as int)
}

/// The only legal move of the position, if it has exactly one.
pub open spec fn forced_move(pos: Position) -> Option<Move> {
    if legal_moves(pos).len() == 1 {
        Some(legal_moves(pos)[0])
    } else {
        None
    }
}

/// More moves give no fewer legal ones.
proof fn lemma_legal_prefix_grows(pos: Position, a: int, b: int)
    requires
        0 <= a <= b,
    ensures
        legal_prefix(pos, a).len() <= legal_prefix(pos, b).len(),
        legal_prefix(pos, a).len() >= 1 ==> legal_prefix(pos, b)[0] == legal_prefix(pos, a)[0],
    decreases b - a,
{
    if a < b {
        lemma_legal_prefix_grows(pos, a, b - 1);
    }
}

/// Finds the only legal move of the position, if it has exactly one, trying each move on
/// the position, which is left as it was.
pub fn get_forced_move(pos: &mut Position) -> (r: Option<Move>)
    requires
        playable(*old(pos)),
        old(pos).half_move_clock < 255,
        old(pos).full_move_counter < 255,
        key_items(old(pos).key_history).len() + 1 < list_limit(),
    ensures
        r == forced_move(*old(pos)),
        kept(*old(pos), *final(pos)),
        final(pos).en_passant_square == old(pos).en_passant_square,
        playable(*final(pos)),
{
    let ghost start = *pos;
    let ep = pos.en_passant_square;
    let colour = pos.colour_to_move;
    let moves = generate_all_moves(pos);
    let n = moves.len();
    let mut forced: Option<Move> = None;
    let mut i: usize = 0;
    while i < n
        invariant
            i <= n,
            start == *old(pos),
            n == generated_moves(start, true).len(),
            move_items(moves) == generated_moves(start, true),
            playable(start),
            start.half_move_clock < 255,
            start.full_move_counter < 255,
            key_items(start.key_history).len() + 1 < list_limit(),
            kept(start, *pos),
            playable(*pos),
            ep == start.en_passant_square,
            colour == start.colour_to_move,
            legal_prefix(start, i as int).len() <= 1,
            forced == if legal_prefix(start, i as int).len() == 1 {
                Some(legal_prefix(start, i as int)[0])
            } else {
                None
            },
        decreases n - i,
    {
        let m = moves.get(i);
        let _from = m.from.index();
        let _to = m.to.index();
        let ghost pre = *pos;
        proof {
            assert(generated_moves(start, true)[i as int] == m);
            assert(generated_moves(start, true).contains(m));
            lemma_generated_sound(start, true, m);
            lemma_generated_fits(start, m);
        }
        pos.do_move(&m);
        let ghost child = *pos;
        proof {
            assert(moved_fields(start, m, child));
            lemma_move_keeps_sound(start, m, child);
            lemma_one_king(child.board, colour);
            lemma_moved_same(start, m, child);
        }
        let illegal = is_in_check(colour, &pos.board);
        let ghost mid = Position { en_passant_square: child.en_passant_square, ..*pos };
        proof {
            assert(moved_fields(pre, m, mid));
            assert(did_move(pre, m, mid));
        }
        pos.undo_move(&m);
        proof {
            assert(undid_move(mid, m, *pos));
            lemma_undo_restores(pre, m, mid, *pos);
        }
        if !illegal {
            if forced.is_some() {
                proof {
                    assert(legal_prefix(start, i + 1).len() == 2);
                    lemma_legal_prefix_grows(start, i + 1, n as int);
                }
                pos.en_passant_square = ep;
                return None;
            }
            forced = Some(m);
        }
        i = i + 1;
    }
    pos.en_passant_square = ep;
    forced
}

/// The search counts a position as drawn after a move of a principal variation: by the
/// fifty-move rule, or by repetition.
pub open spec fn drawn(pos: Position) -> bool {
    pos.half_move_clock >= 100 || repetition_draw(pos, 0)
}

/// What `sanitise_pv` gives for a line from a position and its evaluation: the first `k`
/// moves of the line, each a legal move of the position it is played from, none leading to
/// a drawn position before the last; the value is `EVAL_DRAW` where the last of them leads
/// to a drawn position, and otherwise the evaluation, the walk having stopped at the end of
/// the line, before a move that is not a legal move, or where a move counter is at its
/// limit.
pub open spec fn sanitised(pos: Position, line: Seq<Move>, eval: i32, kept: Seq<Move>, value: i32) -> bool {
    let k = kept.len();
    &&& k <= line.len()
    &&& kept == line.take(k as int)
    &&& exists|ps: Seq<Position>|
        {
            &&& ps.len() == k + 1
            &&& ps[0].board == pos.board
            &&& ps[0].colour_to_move == pos.colour_to_move
            &&& ps[0].castling_rights == pos.castling_rights
            &&& ps[0].en_passant_square == pos.en_passant_square
            &&& ps[0].half_move_clock == pos.half_move_clock
            &&& ps[0].full_move_counter == pos.full_move_counter
            &&& key_items(ps[0].key_history) == key_items(pos.key_history)
            &&& ps[0].table() == pos.table()
            &&& forall|j: int|
                0 <= j < k ==> #[trigger] did_move(ps[j], line[j], ps[j + 1]) && generated(
                    ps[j],
                    line[j],
                    true,
                ) && legal_move(ps[j], line[j])
            &&& forall|j: int| 1 <= j < k ==> !drawn(#[trigger] ps[j])
            &&& if k >= 1 && drawn(ps[k as int]) {
                value == EVAL_DRAW
            } else {
                &&& value == eval
                &&& k < line.len() ==> !generated_moves(ps[k as int], true).contains(line[k as int])
                    || !legal_move(ps[k as int], line[k as int]) || ps[k as int].half_move_clock
                    == 255 || ps[k as int].full_move_counter == 255
            }
        }
}

/// Walks a principal variation from the position and cuts it after the first move that
/// leads to a drawn position (see `drawn`), whose evaluation is then `EVAL_DRAW`. The
/// walk also stops before a move that is not a legal move of the position it reaches, or
/// where a move counter is at its limit; the moves walked are kept.
pub fn sanitise_pv(pos: &Position, moves: &MoveList, eval: i32) -> (r: (MoveList, i32))
    requires
        playable(*pos),
        key_items(pos.key_history).len() + move_items(*moves).len() + 1 < list_limit(),
    ensures
        sanitised(*pos, move_items(*moves), eval, move_items(r.0), r.1),
{
    let mut p = pos.duplicate();
    let line = moves.as_slice();
    let n = moves.len();
    let mut kept_moves = MoveList::new();
    let ghost mut ps: Seq<Position> = seq![p];
    let mut i: usize = 0;
    while i < n
        invariant
            i <= n,
            n == move_items(*moves).len(),
            line@ == move_items(*moves),
            ps.len() == i + 1,
            ps[i as int] == p,
            playable(p),
            key_items(p.key_history).len() == key_items(pos.key_history).len() + i,
            key_items(pos.key_history).len() + move_items(*moves).len() + 1 < list_limit(),
            move_items(kept_moves) == move_items(*moves).take(i as int),
            ps[0].board == pos.board,
            ps[0].colour_to_move == pos.colour_to_move,
            ps[0].castling_rights == pos.castling_rights,
            ps[0].en_passant_square == pos.en_passant_square,
            ps[0].half_move_clock == pos.half_move_clock,
            ps[0].full_move_counter == pos.full_move_counter,
            key_items(ps[0].key_history) == key_items(pos.key_history),
            ps[0].table() == pos.table(),
            forall|j: int|
                0 <= j < i ==> #[trigger] did_move(ps[j], move_items(*moves)[j], ps[j + 1])
                    && generated(ps[j], move_items(*moves)[j], true) && legal_move(
                    ps[j],
                    move_items(*moves)[j],
                ),
            forall|j: int| 1 <= j <= i ==> !drawn(#[trigger] ps[j]),
        decreases n - i,
    {
        let mv = line[i];
        if p.half_move_clock == 255 || p.full_move_counter == 255 {
            proof {
                assert(move_items(kept_moves).len() == i);
            }
            return (kept_moves, eval);
        }
        let listed = generate_all_moves(&p);
        let mut found = false;
        let mut k: usize = 0;
        while k < listed.len()
            invariant
                k <= move_items(listed).len(),
                move_items(listed) == generated_moves(p, true),
                found ==> generated_moves(p, true).contains(mv),
                !found ==> forall|j: int| 0 <= j < k ==> move_items(listed)[j] != mv,
            decreases move_items(listed).len() - k,
        {
            if listed.get(k) == mv {
                proof {
                    assert(generated_moves(p, true)[k as int] == mv);
                }
                found = true;
            }
            k = k + 1;
        }
        if !found {
            proof {
                assert(!generated_moves(p, true).contains(mv));
                assert(move_items(kept_moves).len() == i);
            }
            return (kept_moves, eval);
        }
        let _from = mv.from.index();
        let _to = mv.to.index();
        let ghost before = p;
        proof {
            lemma_generated_sound(p, true, mv);
            lemma_generated_fits(p, mv);
        }
        let colour = p.colour_to_move;
        p.do_move(&mv);
        proof {
            assert(moved_fields(before, mv, p));
            lemma_move_keeps_sound(before, mv, p);
            lemma_one_king(p.board, colour);
            lemma_moved_same(before, mv, p);
        }
        if is_in_check(colour, &p.board) {
            proof {
                assert(!legal_move(before, mv));
                assert(move_items(kept_moves).len() == i);
            }
            return (kept_moves, eval);
        }
        kept_moves.push(mv);
        proof {
            assert(move_items(kept_moves) =~= move_items(*moves).take(i + 1));
            assert(legal_move(before, mv));
            assert(did_move(before, mv, p));
            let old_ps = ps;
            ps = ps.push(p);
            assert(mv == move_items(*moves)[i as int]);
            assert forall|j: int|
                0 <= j < i + 1 implies #[trigger] did_move(ps[j], move_items(*moves)[j], ps[j + 1])
                    && generated(ps[j], move_items(*moves)[j], true) && legal_move(
                    ps[j],
                    move_items(*moves)[j],
                ) by {
                if j < i {
                    assert(ps[j] == old_ps[j]);
                    assert(ps[j + 1] == old_ps[j + 1]);
                } else {
                    assert(ps[j] == before);
                    assert(ps[j + 1] == p);
                }
            }
            assert forall|j: int| 1 <= j <= i + 1 implies !drawn(#[trigger] ps[j]) || j == i + 1 by {
                if j <= i {
                    assert(ps[j] == old_ps[j]);
                }
            }
        }
        if p.is_fifty_move_draw() || p.is_repetition_draw(0) {
            proof {
                assert(drawn(ps[i + 1]));
                assert(move_items(kept_moves).len() == i + 1);
                assert(ps.len() == move_items(kept_moves).len() + 1);
                assert(forall|j: int| 1 <= j < i + 1 ==> !drawn(#[trigger] ps[j]));
            }
            return (kept_moves, EVAL_DRAW);
        }
        i = i + 1;
    }
    (kept_moves, eval)
}

/// One iteration of the deepening search, at `depth`: from `ASP_MIN_DEPTH` on, and where
/// the last evaluation is no mate, a window around it, which is widened on the side the
/// search falls out of, by doubling steps, and after `ASP_MAX_RETRIES` widenings made the
/// full window. The result stands where it falls inside the window, where the search is
/// told to stop, or where the full window has been searched after the widenings; it is
/// the one the table holds for the position searched (see `backed`), but for a stop, a
/// draw, or the mate or draw of a position without a legal move.
pub fn search_iteration(
    ss: &mut SearchState,
    tt: &mut TranspositionTable,
    stopper: &Stopper,
    pos: &mut Position,
    depth: u8,
    last_eval: i32,
) -> (r: i32)
    requires
        ready(*old(ss), *old(tt)),
        node_ready(*old(pos), 0),
        1 <= depth <= MAX_SEARCH_DEPTH,
        EVAL_MIN <= last_eval <= EVAL_MAX,
    ensures
        EVAL_MIN <= r <= EVAL_MAX,
        ready(*final(ss), *final(tt)),
        kept(*old(pos), *final(pos)),
        playable(*final(pos)),
        stopper.unlimited() && old(pos).en_passant_square is None && drawn(*old(pos)) ==> r
            == EVAL_DRAW,
        stopper.unlimited() && old(pos).en_passant_square is None && !drawn(*old(pos)) && in_check(
            old(pos).board,
            old(pos).colour_to_move,
        ) && no_legal_move(*old(pos)) && old(pos).full_move_counter < 255 ==> r == -EVAL_MATE,
        stopper.unlimited() && old(pos).en_passant_square is None && !drawn(*old(pos)) && !in_check(
            old(pos).board,
            old(pos).colour_to_move,
        ) && depth <= 2 && no_legal_move(*old(pos)) && old(pos).full_move_counter < 255 ==> r
            == EVAL_DRAW,
        stopper.unlimited() && old(pos).en_passant_square is None && !drawn(*old(pos)) && in_check(
            old(pos).board,
            old(pos).colour_to_move,
        ) && depth == 1 && shallow_node(*old(pos)) && old(pos).full_move_counter < 255 ==> (shallow_value(
            *old(pos),
            0,
        ) matches Some(v) ==> r == clamp(v, EVAL_MIN as int, EVAL_MAX as int)),
        old(pos).full_move_counter < 255 ==> exists|p: Position|
            #[trigger] kept(*old(pos), p) && {
                ||| drawn(p) && r == EVAL_DRAW
                ||| no_legal_move_but_en_passant(p) && (if in_check(p.board, p.colour_to_move) {
                    r == -EVAL_MATE
                } else {
                    r == EVAL_DRAW
                })
                ||| backed(*final(tt), p.key(), depth as int, 0, EVAL_MIN as int, EVAL_MAX as int, r as int)
                ||| !stopper.unlimited() && (r == 0 || exists|a: int, b: int|
                    EVAL_MIN <= a < b <= EVAL_MAX && #[trigger] backed(
                        *final(tt),
                        p.key(),
                        depth as int,
                        0,
                        a,
                        b,
                        r as int,
                    ))
            },
{
    let ghost start = *pos;
    let do_aspiration_search = depth >= ASP_MIN_DEPTH && -EVAL_MATE_THRESHOLD < last_eval
        && last_eval < EVAL_MATE_THRESHOLD;
    let mut delta_low: i32 = ASP_BASE_DELTA;
    let mut delta_high: i32 = ASP_BASE_DELTA;
    let mut alpha: i32 = EVAL_MIN;
    let mut beta: i32 = EVAL_MAX;
    if do_aspiration_search {
        alpha = if last_eval - delta_low > EVAL_MIN {
            last_eval - delta_low
        } else {
            EVAL_MIN
        };
        beta = if last_eval + delta_high < EVAL_MAX {
            last_eval + delta_high
        } else {
            EVAL_MAX
        };
    }
    let mut retries: u8 = 0;
    loop
        invariant
            ready(*ss, *tt),
            start == *old(pos),
            node_ready(start, 0),
            kept(start, *pos),
            playable(*pos),
            1 <= depth <= MAX_SEARCH_DEPTH,
            EVAL_MIN <= alpha < beta <= EVAL_MAX,
            retries <= ASP_MAX_RETRIES + 1,
            retries > ASP_MAX_RETRIES ==> alpha == EVAL_MIN && beta == EVAL_MAX,
            ASP_BASE_DELTA <= delta_low <= 200,
            ASP_BASE_DELTA <= delta_high <= 200,
            EVAL_MIN <= last_eval <= EVAL_MAX,
            alpha <= (if last_eval - 25 > EVAL_MIN {
                last_eval - 25
            } else {
                EVAL_MIN as int
            }),
            beta >= (if last_eval + 25 < EVAL_MAX {
                last_eval + 25
            } else {
                EVAL_MAX as int
            }),
            retries == 0 ==> delta_low <= 25 && delta_high <= 25,
            retries == 1 ==> delta_low <= 50 && delta_high <= 50,
            retries == 2 ==> delta_low <= 100 && delta_high <= 100,
        decreases ASP_MAX_RETRIES + 1 - retries,
    {
        proof {
            if start.en_passant_square is None {
                lemma_kept_alike(start, *pos);
                lemma_kept_shallow(start, *pos, 0);
                assert(drawn_at(*pos, 0) == drawn(start));
            }
        }
        let ghost searched = *pos;
        let eval = alphabeta::search(ss, tt, stopper, pos, depth, alpha, beta, 0);
        proof {
            assert(kept(start, searched));
            assert(drawn_at(searched, 0) == drawn(searched));
        }
        if (eval > alpha && eval < beta) || stopper.should_stop(&ss.report) {
            proof {
                assert(kept(*old(pos), searched));
            }
            return eval;
        }
        if retries > ASP_MAX_RETRIES {
            proof {
                assert(kept(*old(pos), searched));
            }
            return eval;
        }
        retries = retries + 1;
        if retries > ASP_MAX_RETRIES {
            alpha = EVAL_MIN;
            beta = EVAL_MAX;
        } else if eval <= alpha {
            delta_low = delta_low * ASP_EXPANSION_FACTOR;
            alpha = if last_eval - delta_low > EVAL_MIN {
                last_eval - delta_low
            } else {
                EVAL_MIN
            };
        } else if eval >= beta {
            delta_high = delta_high * ASP_EXPANSION_FACTOR;
            beta = if last_eval + delta_high < EVAL_MAX {
                last_eval + delta_high
            } else {
                EVAL_MAX
            };
        }
    }
}

/// Records a finished iteration in the report: its depth, the principal variation from the
/// root with its evaluation, cut after a draw (see `sanitise_pv`), and how full the table
/// is.
pub fn record_iteration(ss: &mut SearchState, tt: &TranspositionTable, pos: &Position, depth: u8, eval: i32)
    requires
        ready(*old(ss), *tt),
        playable(*pos),
        key_items(pos.key_history).len() + 512 < list_limit(),
    ensures
        ready(*final(ss), *tt),
        final(ss).report.depth == depth,
        final(ss).report.pv matches Some((moves, value)) && sanitised(
            *pos,
            old(ss).pv.line(0),
            eval,
            move_items(moves),
            value,
        ),
        final(ss).report.tt_usage == super::tt::current_count(
            tt.slots(),
            tt.current_age(),
            super::tt::min_int(1000, tt.size()),
        ),
        final(ss).report.nodes == old(ss).report.nodes,
        final(ss).pv == old(ss).pv,
{
    let line = ss.pv.root();
    proof {
        assert(super::alphabeta::pv_bounded(ss.pv));
        assert(ss.pv.line(0).len() <= 256);
    }
    let (moves, value) = sanitise_pv(pos, line, eval);
    ss.report.depth = depth;
    ss.report.pv = Some((moves, value));
    ss.report.tt_usage = tt.usage();
}

/// The report of a search that found the position's only legal move: that move as the
/// principal variation, with an evaluation of 0, and nothing searched.
pub fn forced_report(mv: Move) -> (r: Report)
    ensures
        r.depth == 0,
        r.nodes == 0,
        r.tt_usage == 0,
        r.pv matches Some((moves, e)) && move_items(moves) == seq![mv] && e == 0,
{
    let mut moves = MoveList::new();
    moves.push(mv);
    proof {
        assert(move_items(moves) =~= seq![mv]);
    }
    let mut report = Report::new();
    report.pv = Some((moves, 0));
    report
}

} // verus!
