use crate::eval::trunc_div;
use crate::piece::Piece;
use crate::square::Square;
use vstd::prelude::*;

verus! {

/// The size history scores are pulled towards: a bonus no larger than this keeps scores
/// within it.
pub const HISTORY_SCORE_MAX: i32 = 16384;

/// How often a quiet move of a piece to a square caused a cutoff, as a score per piece and
/// target square.
pub struct HistoryTable {
    table: Vec<i32>,
}

/// The size of a number.
pub open spec fn abs_int(x: int) -> int {
    if x < 0 {
        -x
    } else {
        x
    }
}

/// A score after a bonus (or, negative, a malus): the bonus is added, less the score in
/// proportion to the size of the bonus, so that scores stay within `HISTORY_SCORE_MAX`.
pub open spec fn history_update(score: int, bonus: int) -> int {
    score + (bonus - trunc_div(score * abs_int(bonus), HISTORY_SCORE_MAX as int))
}

/// The update of a score by a bonus stays within `i32` at every step.
pub open spec fn history_update_fits(score: int, bonus: int) -> bool {
    &&& i32::MIN < bonus
    &&& i32::MIN <= score * abs_int(bonus) <= i32::MAX
    &&& i32::MIN <= bonus - trunc_div(score * abs_int(bonus), HISTORY_SCORE_MAX as int)
        <= i32::MAX
    &&& i32::MIN <= history_update(score, bonus) <= i32::MAX
}

impl HistoryTable {
    /// The score of moving piece `p` to square `to`.
    pub closed spec fn score(self, p: Piece, to: int) -> int {
        self.table@[p.idx() * 64 + to] as int
    }

    /// The table holds a score for each piece and square.
    pub closed spec fn wf(self) -> bool {
        self.table@.len() == 12 * 64
    }

    /// A table of zero scores.
    pub fn new() -> (r: HistoryTable)
        ensures
            r.wf(),
            forall|p: Piece, to: int| 0 <= to < 64 ==> #[trigger] r.score(p, to) == 0,
    {
        let mut table: Vec<i32> = Vec::new();
        let mut i: usize = 0;
        while i < 12 * 64
            invariant
                i <= 12 * 64,
                table@.len() == i,
                forall|k: int| 0 <= k < i ==> #[trigger] table@[k] == 0,
            decreases 12 * 64 - i,
        {
            table.push(0);
            i = i + 1;
        }
        let r = HistoryTable { table };
        proof {
            assert forall|p: Piece, to: int| 0 <= to < 64 implies #[trigger] r.score(p, to) == 0 by {
                crate::piece::lemma_piece_of_colour_and_kind(p);
            }
        }
        r
    }

    /// The score of moving `piece` to `to`.
    pub fn probe(&self, piece: Piece, to: Square) -> (r: i32)
        requires
            self.wf(),
        ensures
            r == self.score(piece, to.idx()),
    {
        proof {
            crate::piece::lemma_piece_of_colour_and_kind(piece);
        }
        self.table[piece.index() * 64 + to.index() as usize]
    }

    /// Adds a bonus (or a malus) to the score of moving `piece` to `to` (see
    /// `history_update`); the other scores stay. A table within the bounds stays within
    /// them under a bonus within them.
    pub fn store(&mut self, bonus: i32, piece: Piece, to: Square)
        requires
            old(self).wf(),
            history_update_fits(old(self).score(piece, to.idx()), bonus as int),
        ensures
            final(self).wf(),
            final(self).score(piece, to.idx()) == history_update(
                old(self).score(piece, to.idx()),
                bonus as int,
            ),
            forall|p: Piece, t: int|
                0 <= t < 64 && (p != piece || t != to.idx()) ==> #[trigger] final(self).score(p, t)
                    == old(self).score(p, t),
            old(self).bounded() && -HISTORY_SCORE_MAX <= bonus <= HISTORY_SCORE_MAX
                ==> final(self).bounded(),
    {
        proof {
            crate::piece::lemma_piece_of_colour_and_kind(piece);
        }
        let index = piece.index() * 64 + to.index() as usize;
        proof {
            if old(self).bounded() && -HISTORY_SCORE_MAX <= bonus <= HISTORY_SCORE_MAX {
                assert(-HISTORY_SCORE_MAX <= old(self).score(piece, to.idx()) <= HISTORY_SCORE_MAX);
                lemma_update_bounded(old(self).score(piece, to.idx()), bonus as int);
            }
        }
        let entry = self.table[index];
        let size = if bonus < 0 {
            -bonus
        } else {
            bonus
        };
        let updated = entry + (bonus - entry * size / HISTORY_SCORE_MAX);
        self.table.set(index, updated);
        proof {
            assert forall|p: Piece, t: int|
                0 <= t < 64 && (p != piece || t != to.idx()) implies #[trigger] self.score(p, t)
                    == old(self).score(p, t) by {
                crate::piece::lemma_piece_of_colour_and_kind(p);
                if p.idx() == piece.idx() {
                    assert(p == piece);
                }
            }
        }
    }
}

/// A history update keeps a score within the bounds when both it and the bonus are: the
/// update moves the score towards the bonus's side by a share of the distance left.
pub proof fn lemma_update_bounded(score: int, bonus: int)
    requires
        -HISTORY_SCORE_MAX <= score <= HISTORY_SCORE_MAX,
        -HISTORY_SCORE_MAX <= bonus <= HISTORY_SCORE_MAX,
    ensures
        history_update_fits(score, bonus),
        -HISTORY_SCORE_MAX <= history_update(score, bonus) <= HISTORY_SCORE_MAX,
{
    let m = HISTORY_SCORE_MAX as int;
    let a = abs_int(bonus);
    let p = score * a;
    assert(0 <= a <= m);
    assert(-m * m <= p <= m * m) by (nonlinear_arith)
        requires
            -m <= score <= m,
            0 <= a <= m,
            p == score * a,
    ;
    assert(m * m == 268435456);
    let q = trunc_div(p, m);
    if p >= 0 {
        assert(q == p / m);
        assert(p - m < q * m <= p) by (nonlinear_arith)
            requires
                p >= 0,
                m > 0,
                q == p / m,
        ;
    } else {
        assert(q == -((-p) / m));
        assert(p <= q * m < p + m) by (nonlinear_arith)
            requires
                p < 0,
                m > 0,
                q == -((-p) / m),
        ;
    }
    assert(p - m < q * m < p + m);
    assert(q * m < (m + 1) * m);
    assert(q * m > (-m - 1) * m);
    assert(q < m + 1) by (nonlinear_arith)
        requires
            q * m < (m + 1) * m,
            m > 0,
    ;
    assert(q > -m - 1) by (nonlinear_arith)
        requires
            q * m > (-m - 1) * m,
            m > 0,
    ;
    let r = score + (bonus - q);
    // score * (m - a) / m + bonus lies within [-m, m]; the rounding of q moves it by less
    // than one.
    assert(-m * m <= score * (m - a) + bonus * m <= m * m) by (nonlinear_arith)
        requires
            -m <= score <= m,
            0 <= a <= m,
            a == bonus || a == -bonus,
            -m <= bonus <= m,
    ;
    assert(r * m == score * (m - a) + bonus * m + (p - q * m)) by (nonlinear_arith)
        requires
            r == score + (bonus - q),
            p == score * a,
    ;
    assert(-m <= r <= m) by (nonlinear_arith)
        requires
            r * m == score * (m - a) + bonus * m + (p - q * m),
            -m * m <= score * (m - a) + bonus * m <= m * m,
            -m < p - q * m < m,
            m > 0,
    ;
}

impl HistoryTable {
    /// Every score lies within the bounds.
    pub open spec fn bounded(self) -> bool {
        forall|p: Piece, to: int|
            0 <= to < 64 ==> -HISTORY_SCORE_MAX <= #[trigger] self.score(p, to) <= HISTORY_SCORE_MAX
    }
}

} // verus!
