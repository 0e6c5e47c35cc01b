use super::movepicker::{MovePicker, MovePickerMode};
use super::report::Report;
use super::SCORE_LIMIT;
use crate::bitboard::{
    has_bit, lemma_square_sum_ext, lemma_square_sum_nonneg, lemma_square_sum_zero_at, square_sum,
    zero_at,
};
use crate::collections::{key_items, list_limit};
use crate::eval::{eval, eval_value};
use crate::movegen::attacks::is_in_check;
use crate::movegen::moves::{capture_index, Move};
use crate::movegen::perft::{
    kept, lemma_capture_facts, lemma_generated_fits, lemma_move_keeps_sound, lemma_moved_same,
    lemma_one_king, legal_move, moved, playable, sound_position,
};
use crate::movegen::{
    generated, generated_moves, lemma_generated_moves_same, lemma_generated_sound, move_targets,
    on_back_rank, same_state,
};
use crate::piece::{kind_of, Piece};
use crate::position::{
    board_after, castle_move, did_move, lemma_undo_restores, moved_fields, undid_move, Board,
    Position,
};
use crate::square::advanced;
use vstd::prelude::*;

verus! {

/// What a square counts towards the progress of captures and promotions: a pawn three, any
/// other piece two.
pub open spec fn square_weight(sq: Option<Piece>) -> int {
    match sq {
        None => 0,
        Some(p) => if kind_of(p) == 0 {
            3
        } else {
            2
        },
    }
}

/// The weight of the pieces on a board (see `square_weight`); every capture and every
/// promotion lowers it.
pub open spec fn board_weight(b: Board) -> int {
    square_sum(|i: int| square_weight(b.at(i)), 64)
}

/// A board's weight is not negative.
pub proof fn lemma_board_weight_nonneg(b: Board)
    ensures
        0 <= board_weight(b),
{
    lemma_square_sum_nonneg(|i: int| square_weight(b.at(i)), 64);
}

/// A capture or promotion the generator lists in a sound position is a pseudo-legal move
/// too, and it captures or promotes.
pub proof fn lemma_non_quiet_move(pos: Position, m: Move)
    requires
        sound_position(pos),
        generated(pos, m, false),
    ensures
        generated(pos, m, true),
        m.captured_piece is Some || m.promotion_piece is Some,
{
    let board = pos.board;
    let c = pos.colour_to_move;
    let to = m.to.idx();
    if !m.is_en_passant {
        if crate::movegen::attacks::attacks_on(board, m.piece, m.from.idx(), to) && has_bit(
            board.colour_bb(c.opposite()),
            to,
        ) {
            assert(board.at(to) is Some && board.at(to)->0.colour_of() == c.opposite());
            crate::colour::lemma_flip_involutive(c);
            assert(!has_bit(board.colour_bb(c), to));
        }
        assert(move_targets(pos, m.piece, m.from.idx(), true, to));
    }
}

/// A capture or promotion the generator lists in a sound position lowers the weight of the
/// board it leads to.
pub proof fn lemma_non_quiet_lightens(pos: Position, m: Move, b2: Board)
    requires
        sound_position(pos),
        generated(pos, m, false),
        0 <= m.from.idx() < 64,
        0 <= m.to.idx() < 64,
        forall|i: int|
            0 <= i < 64 ==> #[trigger] b2.at(i) == board_after(pos.board, m, pos.colour_to_move, i),
    ensures
        board_weight(b2) < board_weight(pos.board),
{
    let board = pos.board;
    let c = pos.colour_to_move;
    let from = m.from.idx();
    let to = m.to.idx();
    lemma_non_quiet_move(pos, m);
    lemma_generated_fits(pos, m);
    crate::piece::lemma_piece_of_colour_and_kind(m.piece);
    crate::piece::lemma_of_has_colour_and_kind(c, 0);
    crate::piece::lemma_of_has_colour_and_kind(c.opposite(), 0);
    if let Some(p) = m.promotion_piece {
        crate::piece::lemma_piece_of_colour_and_kind(p);
    }
    let f = |i: int| square_weight(board.at(i));
    let g = |i: int| square_weight(b2.at(i));
    assert(from != to);
    lemma_square_sum_zero_at(f, 64, from);
    lemma_square_sum_zero_at(g, 64, from);
    let f1 = zero_at(f, from);
    let g1 = zero_at(g, from);
    lemma_square_sum_zero_at(f1, 64, to);
    lemma_square_sum_zero_at(g1, 64, to);
    let f2 = zero_at(f1, to);
    let g2 = zero_at(g1, to);
    if m.is_en_passant {
        let k = advanced(to, c.opposite());
        assert(capture_index(m) == Some(k));
        assert(!castle_move(m));
        assert(k != from && k != to);
        assert(0 <= k < 64);
        lemma_square_sum_zero_at(f2, 64, k);
        lemma_square_sum_zero_at(g2, 64, k);
        let f3 = zero_at(f2, k);
        let g3 = zero_at(g2, k);
        assert forall|i: int| 0 <= i < 64 implies #[trigger] f3(i) == g3(i) by {
            if i != from && i != to && i != k {
                assert(b2.at(i) == board_after(board, m, c, i));
            }
        }
        lemma_square_sum_ext(f3, g3, 64);
        assert(b2.at(from) == board_after(board, m, c, from));
        assert(b2.at(to) == board_after(board, m, c, to));
        assert(b2.at(k) == board_after(board, m, c, k));
    } else {
        lemma_capture_facts(pos, m);
        if crate::movegen::moves::castles(m) {
            crate::movegen::perft::lemma_castling_target_facts(pos, to);
            assert(false);
        }
        assert(!castle_move(m));
        assert forall|i: int| 0 <= i < 64 implies #[trigger] f2(i) == g2(i) by {
            if i != from && i != to {
                assert(b2.at(i) == board_after(board, m, c, i));
            }
        }
        lemma_square_sum_ext(f2, g2, 64);
        assert(b2.at(from) == board_after(board, m, c, from));
        assert(b2.at(to) == board_after(board, m, c, to));
        if m.promotion_piece is Some {
            assert(kind_of(m.piece) == 0 && on_back_rank(to));
        }
    }
}

/// `v` brought into the window from `lo` to `hi`.
pub open spec fn clamp(v: int, lo: int, hi: int) -> int {
    if v < lo {
        lo
    } else if v > hi {
        hi
    } else {
        v
    }
}

/// The quiet value of a position for the side to move: the better of its static
/// evaluation and the negated quiet value of the position each legal capture or promotion
/// leads to.
pub open spec fn qvalue(pos: Position) -> int
    decreases board_weight(pos.board), 1int, 0int,
{
    let moves = generated_moves(pos, false);
    qbest(pos, moves, moves.len() as int)
}

/// The best of the static evaluation of a position and of what the first `k` moves of `s`
/// give, where they are legal and lower the weight of the board.
pub open spec fn qbest(pos: Position, s: Seq<Move>, k: int) -> int
    decreases board_weight(pos.board), 0int, k,
{
    if k <= 0 {
        eval_value(pos)
    } else {
        let m = s[k - 1];
        let child = moved(pos, m);
        let rest = qbest(pos, s, k - 1);
        if legal_move(pos, m) && 0 <= board_weight(child.board) < board_weight(pos.board) {
            let v = -qvalue(child);
            if v > rest {
                v
            } else {
                rest
            }
        } else {
            rest
        }
    }
}

/// A move of `s` counts towards `qbest`: it is legal and lowers the weight of the board.
pub open spec fn counts(pos: Position, m: Move) -> bool {
    legal_move(pos, m) && 0 <= board_weight(moved(pos, m).board) < board_weight(pos.board)
}

/// `qbest` is at least the static evaluation and what each counted move gives.
pub proof fn lemma_qbest_lower(pos: Position, s: Seq<Move>, k: int)
    ensures
        qbest(pos, s, k) >= eval_value(pos),
        forall|j: int|
            0 <= j < k && counts(pos, #[trigger] s[j]) ==> qbest(pos, s, k) >= -qvalue(
                moved(pos, s[j]),
            ),
    decreases k,
{
    if k > 0 {
        lemma_qbest_lower(pos, s, k - 1);
    }
}

/// `qbest` is at most any bound on the static evaluation and on what each counted move
/// gives.
pub proof fn lemma_qbest_upper(pos: Position, s: Seq<Move>, k: int, x: int)
    requires
        eval_value(pos) <= x,
        forall|j: int|
            0 <= j < k && counts(pos, #[trigger] s[j]) ==> -qvalue(moved(pos, s[j])) <= x,
    ensures
        qbest(pos, s, k) <= x,
    decreases k,
{
    if k > 0 {
        lemma_qbest_upper(pos, s, k - 1, x);
        assert(counts(pos, s[k - 1]) ==> -qvalue(moved(pos, s[k - 1])) <= x);
    }
}

/// Positions that agree on what the generator reads have the same quiet value.
pub proof fn lemma_qvalue_same(p: Position, q: Position)
    requires
        same_state(p, q),
    ensures
        qvalue(p) == qvalue(q),
    decreases board_weight(p.board), 1int, 0int,
{
    lemma_generated_moves_same(p, q, false);
    let moves = generated_moves(p, false);
    lemma_qbest_same(p, q, moves, moves.len() as int);
}

/// Positions that agree on what the generator reads have the same `qbest`.
pub proof fn lemma_qbest_same(p: Position, q: Position, s: Seq<Move>, k: int)
    requires
        same_state(p, q),
    ensures
        qbest(p, s, k) == qbest(q, s, k),
    decreases board_weight(p.board), 0int, k,
{
    if k > 0 {
        lemma_qbest_same(p, q, s, k - 1);
        let m = s[k - 1];
        let cp = moved(p, m);
        let cq = moved(q, m);
        assert(same_state(cp, cq));
        if legal_move(p, m) && 0 <= board_weight(cp.board) < board_weight(p.board) {
            lemma_qvalue_same(cp, cq);
        }
    }
}

/// A move handed out by a picker over a list is one of the list's moves.
proof fn lemma_picked_listed(items: Seq<(Move, i32)>, initial: Seq<(Move, i32)>, moves: Seq<Move>, j: int) -> (i: int)
    requires
        items.to_multiset() == initial.to_multiset(),
        initial.len() == moves.len(),
        forall|k: int| 0 <= k < moves.len() ==> (#[trigger] initial[k]).0 == moves[k],
        0 <= j < items.len(),
    ensures
        0 <= i < moves.len(),
        moves[i] == items[j].0,
{
    broadcast use vstd::seq_lib::group_to_multiset_ensures;

    assert(items.contains(items[j]));
    assert(initial.to_multiset().count(items[j]) > 0);
    assert(initial.contains(items[j]));
    let i = choose|i: int| 0 <= i < initial.len() && initial[i] == items[j];
    assert(initial[i].0 == moves[i]);
    i
}

/// Each move of the list stands among the items of a picker over it.
proof fn lemma_listed_picked(items: Seq<(Move, i32)>, initial: Seq<(Move, i32)>, moves: Seq<Move>, i: int) -> (j: int)
    requires
        items.to_multiset() == initial.to_multiset(),
        initial.len() == moves.len(),
        forall|k: int| 0 <= k < moves.len() ==> (#[trigger] initial[k]).0 == moves[k],
        0 <= i < moves.len(),
    ensures
        0 <= j < items.len(),
        items[j].0 == moves[i],
{
    broadcast use vstd::seq_lib::group_to_multiset_ensures;

    assert(initial.contains(initial[i]));
    assert(items.to_multiset().count(initial[i]) > 0);
    assert(items.contains(initial[i]));
    let j = choose|j: int| 0 <= j < items.len() && items[j] == initial[i];
    assert(initial[i].0 == moves[i]);
    j
}

/// The search can go on from the position, counting the weight of the board as the plies
/// still possible: both move counters stay below their limit for that many plies.
pub open spec fn counters_allow(pos: Position) -> bool {
    &&& pos.half_move_clock + board_weight(pos.board) < 255
    &&& pos.full_move_counter + board_weight(pos.board) < 255
}

/// Searches the captures and promotions of a position with the window from `alpha` to
/// `beta`, standing pat on the static evaluation, and gives the quiet value of the
/// position brought into the window (see `qvalue`), wherever the move counters leave room
/// for the whole search. Each position visited counts as a node of the report. The
/// position is left as it was, but perhaps for its en passant square; a position whose
/// move counters are at their limit is not searched past.
#[verifier::rlimit(100)]
pub fn search(pos: &mut Position, alpha: i32, beta: i32, report: &mut Report) -> (r: i32)
    requires
        playable(*old(pos)),
        -SCORE_LIMIT <= alpha < beta <= SCORE_LIMIT,
        key_items(old(pos).key_history).len() + board_weight(old(pos).board) + 1 < list_limit(),
    ensures
        alpha <= r <= beta,
        kept(*old(pos), *final(pos)),
        playable(*final(pos)),
        final(report).depth == old(report).depth,
        final(report).pv == old(report).pv,
        final(report).tt_usage == old(report).tt_usage,
        counters_allow(*old(pos)) ==> r == clamp(qvalue(*old(pos)), alpha as int, beta as int),
    decreases board_weight(old(pos).board),
{
    report.count_node();
    let ghost start = *pos;
    let ghost exact = counters_allow(start);
    let ghost moves = generated_moves(start, false);
    proof {
        lemma_board_weight_nonneg(start.board);
        lemma_one_king(start.board, crate::colour::Colour::White);
        lemma_one_king(start.board, crate::colour::Colour::Black);
        crate::piece::lemma_of_has_colour_and_kind(crate::colour::Colour::White, 5);
        crate::piece::lemma_of_has_colour_and_kind(crate::colour::Colour::Black, 5);
        assert(Piece::of(crate::colour::Colour::White, 5) == Piece::WK);
        assert(Piece::of(crate::colour::Colour::Black, 5) == Piece::BK);
        lemma_qbest_lower(start, moves, moves.len() as int);
    }
    let stand_pat = eval(pos);
    if stand_pat >= beta {
        return beta;
    }
    let mut a = if stand_pat > alpha {
        stand_pat
    } else {
        alpha
    };
    if pos.half_move_clock == 255 || pos.full_move_counter == 255 {
        return a;
    }
    let colour = pos.colour_to_move;
    let mut picker = MovePicker::new(pos, MovePickerMode::NonQuiets);
    let ghost initial = picker.items();
    let mut done = false;
    while !done
        invariant
            start == *old(pos),
            exact == counters_allow(start),
            moves == generated_moves(start, false),
            picker.wf(),
            picker.items().to_multiset() == initial.to_multiset(),
            initial.len() == moves.len(),
            forall|k: int| 0 <= k < moves.len() ==> (#[trigger] initial[k]).0 == moves[k],
            done ==> picker.handed_out() >= picker.items().len(),
            playable(start),
            kept(start, *pos),
            playable(*pos),
            colour == start.colour_to_move,
            start.half_move_clock < 255,
            start.full_move_counter < 255,
            key_items(start.key_history).len() + board_weight(start.board) + 1 < list_limit(),
            0 <= board_weight(start.board),
            -SCORE_LIMIT <= alpha < beta <= SCORE_LIMIT,
            alpha <= a < beta,
            stand_pat == eval_value(start),
            a >= stand_pat,
            report.depth == old(report).depth,
            report.pv == old(report).pv,
            report.tt_usage == old(report).tt_usage,
            forall|j: int|
                0 <= j < picker.handed_out() && legal_move(start, #[trigger] picker.items()[j].0)
                    ==> counts(start, picker.items()[j].0) && (exact ==> a >= -qvalue(
                    moved(start, picker.items()[j].0),
                )),
            exact ==> (a == alpha || a == stand_pat || exists|j: int|
                0 <= j < picker.handed_out() && legal_move(start, #[trigger] picker.items()[j].0)
                    && a == -qvalue(moved(start, picker.items()[j].0))),
        decreases picker.items().len() - picker.handed_out() + if done {
            0int
        } else {
            1int
        },
    {
        let ghost before = picker.items();
        let ghost h = picker.handed_out();
        let ghost old_a = a;
        let next = picker.pick();
        match next {
            None => {
                done = true;
            },
            Some(mv) => {
                proof {
                    let k = super::movepicker::first_min(before, h, before.len() as int);
                    super::movepicker::lemma_first_min(before, h, before.len() as int);
                    super::movepicker::lemma_swap_multiset(before, h, k);
                    assert(picker.items()[h].0 == mv);
                    let i = lemma_picked_listed(picker.items(), initial, moves, h);
                    assert(moves[i] == mv);
                    assert(generated_moves(start, false).contains(mv));
                    lemma_generated_sound(start, false, mv);
                    lemma_non_quiet_move(start, mv);
                }
                let _from = mv.from.index();
                let _to = mv.to.index();
                let ghost pre = *pos;
                proof {
                    lemma_generated_fits(start, mv);
                }
                pos.do_move(&mv);
                let ghost child = *pos;
                proof {
                    assert(moved_fields(start, mv, child));
                    lemma_move_keeps_sound(start, mv, child);
                    lemma_one_king(child.board, start.colour_to_move);
                    lemma_moved_same(start, mv, child);
                    lemma_non_quiet_lightens(start, mv, child.board);
                    lemma_board_weight_nonneg(child.board);
                    assert(moved(start, mv).board == child.board);
                    assert(counts(start, mv) == legal_move(start, mv));
                }
                let illegal = is_in_check(colour, &pos.board);
                if !illegal {
                    proof {
                        assert(playable(child));
                        lemma_qvalue_same(child, moved(start, mv));
                        assert(exact ==> counters_allow(child));
                    }
                    let reply = search(pos, -beta, -a, report);
                    let e = -reply;
                    let ghost after_child = *pos;
                    let ghost mid = Position { en_passant_square: child.en_passant_square, ..*pos };
                    proof {
                        assert(moved_fields(pre, mv, mid));
                        assert(did_move(pre, mv, mid));
                    }
                    pos.undo_move(&mv);
                    proof {
                        assert(undid_move(mid, mv, *pos));
                        lemma_undo_restores(pre, mv, mid, *pos);
                    }
                    if e >= beta {
                        proof {
                            if exact {
                                let i = lemma_picked_listed(picker.items(), initial, moves, h);
                                lemma_qbest_lower(start, moves, moves.len() as int);
                                assert(counts(start, moves[i]));
                                assert(qvalue(start) >= -qvalue(moved(start, moves[i])));
                            }
                        }
                        return beta;
                    }
                    if e > a {
                        a = e;
                    }
                    proof {
                        assert(picker.items()[h].0 == mv);
                        assert(legal_move(start, mv));
                        if exact {
                            if a != old_a {
                                assert(reply == qvalue(moved(start, mv)));
                                assert(legal_move(start, picker.items()[h].0) && a == -qvalue(
                                    moved(start, picker.items()[h].0),
                                ));
                            } else if old_a != alpha && old_a != stand_pat {
                                let j = choose|j: int|
                                    0 <= j < h && legal_move(start, #[trigger] before[j].0)
                                        && old_a == -qvalue(moved(start, before[j].0));
                                assert(picker.items()[j] == before[j]);
                                assert(legal_move(start, picker.items()[j].0) && a == -qvalue(
                                    moved(start, picker.items()[j].0),
                                ));
                            }
                        }
                    }
                } else {
                    let ghost mid = Position { en_passant_square: child.en_passant_square, ..*pos };
                    proof {
                        assert(moved_fields(pre, mv, mid));
                        assert(did_move(pre, mv, mid));
                    }
                    pos.undo_move(&mv);
                    proof {
                        assert(undid_move(mid, mv, *pos));
                        lemma_undo_restores(pre, mv, mid, *pos);
                        assert(!legal_move(start, mv));
                        assert(picker.items()[h].0 == mv);
                        if exact && old_a != alpha && old_a != stand_pat {
                            let j = choose|j: int|
                                0 <= j < h && legal_move(start, #[trigger] before[j].0) && old_a
                                    == -qvalue(moved(start, before[j].0));
                            assert(picker.items()[j] == before[j]);
                            assert(legal_move(start, picker.items()[j].0) && a == -qvalue(
                                moved(start, picker.items()[j].0),
                            ));
                        }
                    }
                }
            },
        }
    }
    proof {
        if exact {
            let items = picker.items();
            assert(picker.handed_out() == items.len());
            assert forall|i: int|
                0 <= i < moves.len() && counts(start, #[trigger] moves[i]) implies -qvalue(
                moved(start, moves[i]),
            ) <= a by {
                let j = lemma_listed_picked(items, initial, moves, i);
                assert(legal_move(start, items[j].0));
            }
            lemma_qbest_upper(start, moves, moves.len() as int, a as int);
            lemma_qbest_lower(start, moves, moves.len() as int);
            if a != alpha && a != stand_pat {
                let j = choose|j: int|
                    0 <= j < picker.handed_out() && legal_move(start, #[trigger] items[j].0) && a
                        == -qvalue(moved(start, items[j].0));
                let i = lemma_picked_listed(items, initial, moves, j);
                assert(counts(start, moves[i]));
            }
        }
    }
    a
}

} // verus!
