use super::alphabeta::drawn_at;
use super::killers::same_move;
use super::quiescence::{board_weight, counters_allow, lemma_qvalue_same, qvalue};
use crate::collections::key_items;
use crate::eval::EVAL_DRAW;
use crate::movegen::moves::Move;
use crate::movegen::perft::{kept, legal_move, lemma_moved_same, moved};
use crate::movegen::{generated, generated_moves, in_check, lemma_generated_sound, same_state};
use crate::position::{did_move, double_pawn_advance, recent_repetition, repetitions, Position};
use crate::square::advanced;
use vstd::prelude::*;

verus! {

/// The position after `m` is drawn for the search, `ply` plies below its root: by the
/// fifty-move rule, or by repetition of the positions before it, whose keys are those of
/// the position's history and the position itself.
pub open spec fn drawn_after(pos: Position, m: Move, ply: int) -> bool {
    let c = moved(pos, m);
    let keys = key_items(pos.key_history).push(pos.key());
    let back = if keys.len() < c.half_move_clock {
        keys.len() as int
    } else {
        c.half_move_clock as int
    };
    c.half_move_clock >= 100 || recent_repetition(keys, c.key(), back, ply) || repetitions(
        keys,
        c.key(),
        back,
        2,
    ) >= 2
}

/// What a move is worth to the side that makes it, seen one ply ahead: a draw where the
/// position it leads to is drawn, else the negated quiet value of that position.
pub open spec fn reply_value(pos: Position, m: Move, ply: int) -> int {
    if drawn_after(pos, m, ply + 1) {
        EVAL_DRAW as int
    } else {
        -qvalue(moved(pos, m))
    }
}

/// The best value of the legal moves among the first `k` of `s`, if there is one.
pub open spec fn best_reply(pos: Position, ply: int, s: Seq<Move>, k: int) -> Option<int>
    decreases k,
{
    if k <= 0 {
        None
    } else {
        let rest = best_reply(pos, ply, s, k - 1);
        let m = s[k - 1];
        if legal_move(pos, m) {
            let v = reply_value(pos, m, ply);
            match rest {
                Some(b) => if b >= v {
                    Some(b)
                } else {
                    Some(v)
                },
                None => Some(v),
            }
        } else {
            rest
        }
    }
}

/// The value of a position `ply` plies below the root, looking one ply ahead: the best
/// value of its legal moves (see `reply_value`), if it has one.
pub open spec fn shallow_value(pos: Position, ply: int) -> Option<int> {
    let s = generated_moves(pos, true);
    best_reply(pos, ply, s, s.len() as int)
}

/// Every legal move of the position leads to a position the search settles at once: the
/// move gives no check and advances no pawn two squares, and the move counters leave room
/// for the whole search of captures and promotions below it.
pub open spec fn shallow_node(pos: Position) -> bool {
    forall|m: Move|
        #[trigger] generated_moves(pos, true).contains(m) && legal_move(pos, m) ==> {
            let c = moved(pos, m);
            &&& !double_pawn_advance(m)
            &&& !in_check(c.board, c.colour_to_move)
            &&& c.half_move_clock + board_weight(c.board) < 255
            &&& pos.full_move_counter + 1 + board_weight(c.board) < 255
        }
}

/// `best_reply` is absent exactly where no move counted is legal; otherwise it is the value
/// of one legal move counted and at least that of each.
pub proof fn lemma_best_reply(pos: Position, ply: int, s: Seq<Move>, k: int)
    requires
        0 <= k <= s.len(),
    ensures
        best_reply(pos, ply, s, k) is None <==> forall|j: int| 0 <= j < k ==> !legal_move(pos, #[trigger] s[j]),
        best_reply(pos, ply, s, k) matches Some(b) ==> {
            &&& forall|j: int|
                0 <= j < k && legal_move(pos, #[trigger] s[j]) ==> reply_value(pos, s[j], ply) <= b
            &&& exists|j: int| 0 <= j < k && legal_move(pos, #[trigger] s[j]) && reply_value(pos, s[j], ply) == b
        },
    decreases k,
{
    if k > 0 {
        lemma_best_reply(pos, ply, s, k - 1);
        let m = s[k - 1];
        if legal_move(pos, m) {
            assert(s[k - 1] == m);
        }
        if best_reply(pos, ply, s, k - 1) is Some && !legal_move(pos, m) {
            let j = choose|j: int| 0 <= j < k - 1 && legal_move(pos, #[trigger] s[j]);
            assert(0 <= j < k - 1 && legal_move(pos, s[j]));
        }
    }
}

/// A legal move of the position is worth no more than the position's value.
pub proof fn lemma_reply_at_most(pos: Position, ply: int, m: Move)
    requires
        generated_moves(pos, true).contains(m),
        legal_move(pos, m),
    ensures
        (shallow_value(pos, ply) matches Some(b) && reply_value(pos, m, ply) <= b),
{
    let s = generated_moves(pos, true);
    let j = choose|j: int| 0 <= j < s.len() && s[j] == m;
    lemma_best_reply(pos, ply, s, s.len() as int);
    assert(legal_move(pos, s[j]));
}

/// Once every move of a picker's list, which holds the position's moves, has been handed
/// out, a value at least that of each legal one and equal to that of one of them is the
/// position's value; with no legal move, the position has none.
pub proof fn lemma_value_found(
    pos: Position,
    ply: int,
    items: Seq<(Move, i32)>,
    first: Seq<(Move, i32)>,
    acc: Option<int>,
)
    requires
        items.to_multiset() == first.to_multiset(),
        first.len() == generated_moves(pos, true).len(),
        forall|i: int| 0 <= i < first.len() ==> (#[trigger] first[i]).0 == generated_moves(pos, true)[i],
        forall|j: int|
            0 <= j < items.len() && legal_move(pos, (#[trigger] items[j]).0) ==> (acc matches Some(a)
                && reply_value(pos, items[j].0, ply) <= a),
        acc matches Some(a) ==> exists|m: Move|
            generated_moves(pos, true).contains(m) && legal_move(pos, m) && reply_value(pos, m, ply) == a,
    ensures
        shallow_value(pos, ply) == acc,
{
    let s = generated_moves(pos, true);
    lemma_best_reply(pos, ply, s, s.len() as int);
    assert forall|i: int| 0 <= i < s.len() && legal_move(pos, #[trigger] s[i]) implies (acc matches Some(a)
        && reply_value(pos, s[i], ply) <= a) by {
        assert(first[i].0 == s[i]);
        assert(first.contains(first[i]));
        first.to_multiset_ensures();
        items.to_multiset_ensures();
        assert(first.to_multiset().count(first[i]) > 0);
        assert(items.to_multiset().count(first[i]) > 0);
        assert(items.contains(first[i]));
        let j = choose|j: int| 0 <= j < items.len() && items[j] == first[i];
        assert(items[j].0 == s[i]);
    }
    match acc {
        Some(a) => {
            let m = choose|m: Move|
                generated_moves(pos, true).contains(m) && legal_move(pos, m) && reply_value(pos, m, ply) == a;
            let j = choose|j: int| 0 <= j < s.len() && s[j] == m;
            assert(legal_move(pos, s[j]));
        },
        None => {},
    }
}

/// Two moves the generator lists for a position without an en passant square, going from
/// and to the same squares with the same promotion, are the same move.
pub proof fn lemma_same_move_generated(pos: Position, a: Move, b: Move)
    requires
        pos.en_passant_square is None,
        generated_moves(pos, true).contains(a),
        generated_moves(pos, true).contains(b),
        same_move(a, b),
    ensures
        a == b,
{
    lemma_generated_sound(pos, true, a);
    lemma_generated_sound(pos, true, b);
}

/// The position a move makes from one kept from `start`, where `start` has no en passant
/// square, is the one `moved` gives from `start` as far as the search reads it; where the
/// move is legal and `start` a shallow node, the search settles it at once.
pub proof fn lemma_child_exact(start: Position, pre: Position, mv: Move, child: Position, ply: int)
    requires
        kept(start, pre),
        start.en_passant_square is None,
        start.half_move_clock < 100,
        did_move(pre, mv, child),
        child.board.wf(),
        double_pawn_advance(mv) ==> 0 <= advanced(mv.from.idx(), pre.colour_to_move) < 64,
    ensures
        same_state(child, moved(start, mv)),
        legal_move(start, mv) == !in_check(child.board, start.colour_to_move),
        drawn_at(child, ply) == drawn_after(start, mv, ply),
        qvalue(child) == qvalue(moved(start, mv)),
        generated_moves(start, true).contains(mv) && legal_move(start, mv) && shallow_node(start)
            ==> child.en_passant_square is None && !in_check(child.board, child.colour_to_move)
            && counters_allow(child),
{
    lemma_moved_same(pre, mv, child);
    assert(moved(pre, mv).board == moved(start, mv).board);
    assert(moved(pre, mv).castling_rights == moved(start, mv).castling_rights);
    assert(same_state(child, moved(start, mv)));
    lemma_qvalue_same(child, moved(start, mv));
    assert(pre.key() == start.key());
    assert(child.key() == moved(start, mv).key());
    assert(key_items(child.key_history) == key_items(start.key_history).push(start.key()));
}

/// A position kept from one without an en passant square has the same shallow value and
/// is a shallow node exactly when that one is.
pub proof fn lemma_kept_shallow(p: Position, q: Position, ply: int)
    requires
        kept(p, q),
        p.en_passant_square is None,
    ensures
        shallow_node(q) == shallow_node(p),
        shallow_value(q, ply) == shallow_value(p, ply),
{
    crate::movegen::lemma_generated_moves_same(p, q, true);
    assert forall|m: Move| #[trigger] legal_move(q, m) == legal_move(p, m) && reply_value(q, m, ply)
        == reply_value(p, m, ply) && moved(q, m).board == moved(p, m).board && moved(q, m).half_move_clock
        == moved(p, m).half_move_clock by {
        assert(moved(q, m).board == moved(p, m).board);
        assert(moved(q, m).castling_rights == moved(p, m).castling_rights);
        assert(same_state(moved(q, m), moved(p, m)));
        lemma_qvalue_same(moved(q, m), moved(p, m));
        assert(q.key() == p.key());
        assert(moved(q, m).key() == moved(p, m).key());
    }
    let s = generated_moves(p, true);
    lemma_best_reply_same(p, q, ply, s, s.len() as int);
}

/// Positions whose moves are legal alike and worth the same have the same `best_reply`.
proof fn lemma_best_reply_same(p: Position, q: Position, ply: int, s: Seq<Move>, k: int)
    requires
        forall|m: Move| #[trigger] legal_move(q, m) == legal_move(p, m) && reply_value(q, m, ply)
            == reply_value(p, m, ply),
    ensures
        best_reply(q, ply, s, k) == best_reply(p, ply, s, k),
    decreases k,
{
    if k > 0 {
        lemma_best_reply_same(p, q, ply, s, k - 1);
        assert(legal_move(q, s[k - 1]) == legal_move(p, s[k - 1]));
    }
}

} // verus!
