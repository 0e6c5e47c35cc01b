use super::history::{HistoryTable, HISTORY_SCORE_MAX};
use super::killers::{same_move, KillerMoves};
use crate::collections::{scored_items, SmallList};
use crate::eval::material::{piece_weight, weight_of};
use crate::eval::MAX_DEPTH;
use crate::movegen::moves::Move;
use crate::movegen::{generate_all_moves, generate_non_quiet_moves, generated_moves, pawns_in_range};
use crate::piece::Piece;
use crate::position::Position;
use vstd::prelude::*;

verus! {

/// Score of a capture; captures come first, the most valuable victim first and, among
/// those, the least valuable attacker first.
pub const SCORE_CAPTURE: i32 = 0;

/// Score of a promotion that captures nothing.
pub const SCORE_PROMOTION: i32 = 1;

/// Score of the first killer move of the ply.
pub const SCORE_KILLER_1: i32 = 2;

/// Score of the second killer move of the ply.
pub const SCORE_KILLER_2: i32 = 3;

/// Score of other quiet moves, less their history score.
pub const SCORE_QUIET: i32 = SCORE_KILLER_2 + HISTORY_SCORE_MAX + 1;

/// Which moves a picker hands out, and what it orders the quiet moves by.
pub enum MovePickerMode<'a> {
    AllMoves { killers: &'a KillerMoves, history: &'a HistoryTable, ply: u8 },
    NonQuiets,
}

/// Hands out the moves of a position, lowest score first.
pub struct MovePicker {
    moves: SmallList<(Move, i32)>,
    current_index: usize,
}

/// The score of capturing `victim` with `attacker`.
pub open spec fn capture_score(victim: Piece, attacker: Piece) -> int {
    SCORE_CAPTURE - weight_of(victim) * 100 + weight_of(attacker)
}

/// The score of a move among all moves, with the ply's two killer moves and the history
/// score of the move's piece and target square.
pub open spec fn all_moves_score(m: Move, k1: Option<Move>, k2: Option<Move>, history: int) -> int {
    match m.captured_piece {
        Some(victim) => capture_score(victim, m.piece),
        None => if m.promotion_piece is Some {
            SCORE_PROMOTION as int
        } else if k1 matches Some(k) && same_move(m, k) {
            SCORE_KILLER_1 as int
        } else if k2 matches Some(k) && same_move(m, k) {
            SCORE_KILLER_2 as int
        } else {
            SCORE_QUIET - history
        },
    }
}

/// The score of a capture or promotion: a promotion without capture counts as taking a
/// pawn, and a promoting pawn as the piece it becomes.
pub open spec fn non_quiet_score(m: Move) -> int {
    let victim = match m.captured_piece {
        Some(v) => v,
        None => Piece::of(m.piece.colour_of(), 0),
    };
    let attacker = match m.promotion_piece {
        Some(p) => p,
        None => m.piece,
    };
    capture_score(victim, attacker)
}

/// The index of the first lowest score among the items from `lo` up to `hi`.
pub open spec fn first_min(s: Seq<(Move, i32)>, lo: int, hi: int) -> int
    decreases hi - lo,
{
    if hi <= lo + 1 {
        lo
    } else {
        let k = first_min(s, lo, hi - 1);
        if s[hi - 1].1 < s[k].1 {
            hi - 1
        } else {
            k
        }
    }
}

/// The first lowest score lies in its range, no score there is lower, and none before it
/// is as low.
pub proof fn lemma_first_min(s: Seq<(Move, i32)>, lo: int, hi: int)
    requires
        lo < hi,
    ensures
        lo <= first_min(s, lo, hi) < hi,
        forall|j: int| lo <= j < hi ==> s[first_min(s, lo, hi)].1 <= #[trigger] s[j].1,
        forall|j: int| lo <= j < first_min(s, lo, hi) ==> s[first_min(s, lo, hi)].1 < #[trigger] s[j].1,
    decreases hi - lo,
{
    if hi > lo + 1 {
        lemma_first_min(s, lo, hi - 1);
    }
}

/// Swapping two items keeps the items a list holds.
pub proof fn lemma_swap_multiset(s: Seq<(Move, i32)>, a: int, b: int)
    requires
        0 <= a < s.len(),
        0 <= b < s.len(),
    ensures
        s.update(a, s[b]).update(b, s[a]).to_multiset() == s.to_multiset(),
{
    broadcast use vstd::seq_lib::to_multiset_update;
    broadcast use vstd::seq_lib::group_to_multiset_ensures;
    broadcast use vstd::multiset::group_multiset_axioms;

    assert(s.contains(s[a]));
    assert(s.to_multiset().count(s[a]) > 0);
    let t = s.update(a, s[b]);
    assert(t.to_multiset() == s.to_multiset().insert(s[b]).remove(s[a]));
    assert(t[b] == s[b]);
    assert(t.update(b, s[a]).to_multiset() == t.to_multiset().insert(s[a]).remove(t[b]));
    assert(t.update(b, s[a]).to_multiset() =~= s.to_multiset());
}

/// The picker hands out its moves lowest score first: the move handed out after another
/// has a score no lower than it.
pub proof fn lemma_picks_in_order(s: Seq<(Move, i32)>, i: int)
    requires
        0 <= i,
        i + 1 < s.len(),
    ensures
        ({
            let k = first_min(s, i, s.len() as int);
            let t = s.update(i, s[k]).update(k, s[i]);
            t[first_min(t, i + 1, t.len() as int)].1 >= s[k].1
        }),
{
    let k = first_min(s, i, s.len() as int);
    lemma_first_min(s, i, s.len() as int);
    let t = s.update(i, s[k]).update(k, s[i]);
    lemma_first_min(t, i + 1, t.len() as int);
    let k2 = first_min(t, i + 1, t.len() as int);
    if k2 == k {
        assert(t[k2] == s[i]);
    } else {
        assert(t[k2] == s[k2]);
    }
}

/// A run of picks hands out every move once, by non-decreasing score: a picker that has
/// kept its order and its moves since it was made (as `new` and `pick` ensure), once it has
/// handed out all its moves, holds them (the moves in the order handed out, see `pick`)
/// as a reordering of the list it was made with, sorted by score.
pub proof fn lemma_run_in_order(p: MovePicker, made: Seq<(Move, i32)>)
    requires
        p.in_order(),
        p.items().to_multiset() == made.to_multiset(),
        p.handed_out() == p.items().len(),
    ensures
        p.items().len() == made.len(),
        forall|x: (Move, i32)| p.items().contains(x) <==> made.contains(x),
        forall|i: int, j: int|
            0 <= i < j < p.items().len() ==> #[trigger] p.items()[i].1 <= #[trigger] p.items()[j].1,
{
    p.items().to_multiset_ensures();
    made.to_multiset_ensures();
    assert forall|x: (Move, i32)| p.items().contains(x) <==> made.contains(x) by {
        assert(p.items().contains(x) <==> p.items().to_multiset().count(x) > 0);
        assert(made.contains(x) <==> made.to_multiset().count(x) > 0);
    }
}

impl MovePicker {
    /// The moves with their scores, in the order they now stand.
    pub closed spec fn items(self) -> Seq<(Move, i32)> {
        scored_items(self.moves)
    }

    /// How many moves have been handed out: they are the first items.
    pub closed spec fn handed_out(self) -> int {
        self.current_index as int
    }

    /// No more moves are handed out than there are.
    pub open spec fn wf(self) -> bool {
        0 <= self.handed_out() <= self.items().len()
    }

    /// The moves handed out came in order of their scores, and none left has a lower score
    /// than one handed out.
    pub open spec fn in_order(self) -> bool {
        &&& forall|i: int, j: int|
            0 <= i < j < self.handed_out() ==> #[trigger] self.items()[i].1
                <= #[trigger] self.items()[j].1
        &&& forall|i: int, j: int|
            0 <= i < self.handed_out() <= j < self.items().len() ==> #[trigger] self.items()[i].1
                <= #[trigger] self.items()[j].1
    }

    /// A picker over the moves of the position: all pseudo-legal moves, scored with the
    /// killers and history of the mode, or the captures and promotions.
    pub fn new(pos: &Position, mode: MovePickerMode) -> (r: MovePicker)
        requires
            pos.board.wf(),
            pawns_in_range(pos.board, pos.colour_to_move),
            mode matches MovePickerMode::AllMoves { killers, history, ply } ==> killers.wf()
                && history.wf() && history.bounded() && ply < MAX_DEPTH,
        ensures
            r.wf(),
            r.handed_out() == 0,
            r.in_order(),
            match mode {
                MovePickerMode::AllMoves { killers, history, ply } => {
                    let moves = generated_moves(*pos, true);
                    &&& r.items().len() == moves.len()
                    &&& forall|i: int|
                        0 <= i < moves.len() ==> (#[trigger] r.items()[i]).0 == moves[i]
                            && r.items()[i].1 == all_moves_score(
                            moves[i],
                            killers.killers(ply as int)@[0],
                            killers.killers(ply as int)@[1],
                            history.score(moves[i].piece, moves[i].to.idx()),
                        )
                },
                MovePickerMode::NonQuiets => {
                    let moves = generated_moves(*pos, false);
                    &&& r.items().len() == moves.len()
                    &&& forall|i: int|
                        0 <= i < moves.len() ==> (#[trigger] r.items()[i]).0 == moves[i]
                            && r.items()[i].1 == non_quiet_score(moves[i])
                },
            },
    {
        let mut scored: SmallList<(Move, i32)> = SmallList::<(Move, i32)>::new();
        match mode {
            MovePickerMode::AllMoves { killers, history, ply } => {
                let killer1 = killers.probe(ply, 0);
                let killer2 = killers.probe(ply, 1);
                let moves = generate_all_moves(pos);
                let n = moves.len();
                proof {
                    crate::movegen::lemma_generated_moves_len(*pos, true);
                }
                let mut i: usize = 0;
                while i < n
                    invariant
                        i <= n,
                        n == generated_moves(*pos, true).len(),
                        n <= 16384 * 6 + 64,
                        crate::collections::move_items(moves) == generated_moves(*pos, true),
                        history.wf(),
                        history.bounded(),
                        killer1 == killers.killers(ply as int)@[0],
                        killer2 == killers.killers(ply as int)@[1],
                        scored_items(scored).len() == i,
                        forall|k: int|
                            0 <= k < i ==> (#[trigger] scored_items(scored)[k]).0
                                == generated_moves(*pos, true)[k] && scored_items(scored)[k].1
                                == all_moves_score(
                                generated_moves(*pos, true)[k],
                                killer1,
                                killer2,
                                history.score(
                                    generated_moves(*pos, true)[k].piece,
                                    generated_moves(*pos, true)[k].to.idx(),
                                ),
                            ),
                    decreases n - i,
                {
                    let mv = moves.get(i);
                    let score: i32 = match mv.captured_piece {
                        Some(victim) => SCORE_CAPTURE - piece_weight(victim) * 100 + piece_weight(
                            mv.piece,
                        ),
                        None => {
                            if mv.promotion_piece.is_some() {
                                SCORE_PROMOTION
                            } else if match killer1 {
                                Some(k) => mv.equals(&k),
                                None => false,
                            } {
                                SCORE_KILLER_1
                            } else if match killer2 {
                                Some(k) => mv.equals(&k),
                                None => false,
                            } {
                                SCORE_KILLER_2
                            } else {
                                let h = history.probe(mv.piece, mv.to);
                                proof {
                                    let _ = mv.to.idx();
                                }
                                let _to = mv.to.index();
                                SCORE_QUIET - h
                            }
                        },
                    };
                    scored.push((mv, score));
                    i = i + 1;
                }
            },
            MovePickerMode::NonQuiets => {
                let moves = generate_non_quiet_moves(pos);
                let n = moves.len();
                proof {
                    crate::movegen::lemma_generated_moves_len(*pos, false);
                }
                let mut i: usize = 0;
                while i < n
                    invariant
                        i <= n,
                        n == generated_moves(*pos, false).len(),
                        n <= 16384 * 6 + 64,
                        crate::collections::move_items(moves) == generated_moves(*pos, false),
                        scored_items(scored).len() == i,
                        forall|k: int|
                            0 <= k < i ==> (#[trigger] scored_items(scored)[k]).0
                                == generated_moves(*pos, false)[k] && scored_items(scored)[k].1
                                == non_quiet_score(generated_moves(*pos, false)[k]),
                    decreases n - i,
                {
                    let mv = moves.get(i);
                    let victim = match mv.captured_piece {
                        Some(v) => v,
                        None => Piece::pawn(mv.piece.colour()),
                    };
                    let attacker = match mv.promotion_piece {
                        Some(p) => p,
                        None => mv.piece,
                    };
                    let score = SCORE_CAPTURE - piece_weight(victim) * 100 + piece_weight(attacker);
                    scored.push((mv, score));
                    i = i + 1;
                }
            },
        }
        MovePicker { moves: scored, current_index: 0 }
    }

    /// Hands out the next move: the one with the lowest score among those not handed out
    /// (the first such), which is swapped into place behind the moves handed out before.
    /// The picker keeps its moves, so that a run of picks hands out each of them once, and
    /// keeps them in order, so that the run hands them out by non-decreasing score.
    pub fn pick(&mut self) -> (r: Option<Move>)
        requires
            old(self).wf(),
        ensures
            final(self).wf(),
            final(self).items().to_multiset() == old(self).items().to_multiset(),
            old(self).in_order() ==> final(self).in_order(),
            old(self).handed_out() >= old(self).items().len() ==> r is None && final(self).items()
                == old(self).items() && final(self).handed_out() == old(self).handed_out(),
            old(self).handed_out() < old(self).items().len() ==> {
                let s = old(self).items();
                let i = old(self).handed_out();
                let k = first_min(s, i, s.len() as int);
                &&& r == Some(s[k].0)
                &&& final(self).items() == s.update(i, s[k]).update(k, s[i])
                &&& final(self).handed_out() == i + 1
            },
    {
        let n = self.moves.len();
        let start = self.current_index;
        if start >= n {
            return None;
        }
        let ghost s = scored_items(self.moves);
        let mut best = start;
        let mut best_score = self.moves.get(start).1;
        let mut j = start + 1;
        while j < n
            invariant
                start < j <= n,
                n == s.len(),
                s == scored_items(self.moves),
                best == first_min(s, start as int, j as int),
                best_score == s[best as int].1,
                start <= best < j,
            decreases n - j,
        {
            let score = self.moves.get(j).1;
            if score < best_score {
                best = j;
                best_score = score;
            }
            j = j + 1;
        }
        let next_move = self.moves.get(best).0;
        self.moves.swap(start, best);
        self.current_index = start + 1;
        proof {
            lemma_swap_multiset(s, start as int, best as int);
            lemma_first_min(s, start as int, n as int);
            let t = self.items();
            if old(self).in_order() {
                assert forall|a: int, b: int| 0 <= a < b < start + 1 implies #[trigger] t[a].1
                    <= #[trigger] t[b].1 by {
                    assert(s[a].1 <= s[best as int].1);
                }
                assert forall|a: int, b: int| 0 <= a < start + 1 <= b < t.len() implies #[trigger] t[a].1
                    <= #[trigger] t[b].1 by {
                    if a < start {
                        assert(s[a].1 <= s[b].1);
                        assert(s[a].1 <= s[start as int].1);
                    }
                }
            }
        }
        Some(next_move)
    }
}

} // verus!
