use crate::eval::MAX_DEPTH;
use crate::movegen::Move;
use vstd::prelude::*;

verus! {

/// Two quiet moves per ply that caused a cutoff, most recent first.
pub struct KillerMoves {
    moves: Vec<[Option<Move>; 2]>,
}

/// The moves are the same move on the board (see `Move::equals`).
pub open spec fn same_move(a: Move, b: Move) -> bool {
    a.from == b.from && a.to == b.to && a.promotion_piece == b.promotion_piece
}

/// The move is one of the two killers, as the same move on the board.
pub open spec fn killer_matches(pair: Seq<Option<Move>>, mv: Move) -> bool {
    (pair[0] is Some && same_move(mv, pair[0]->0)) || (pair[1] is Some && same_move(mv, pair[1]->0))
}

impl KillerMoves {
    /// The killer moves of a ply, most recent first.
    pub closed spec fn killers(self, ply: int) -> [Option<Move>; 2] {
        self.moves@[ply]
    }

    /// The table has a pair of moves for each ply below `MAX_DEPTH`.
    pub closed spec fn wf(self) -> bool {
        self.moves@.len() == MAX_DEPTH
    }

    /// No killer moves yet.
    pub fn new() -> (r: KillerMoves)
        ensures
            r.wf(),
            forall|ply: int| 0 <= ply < MAX_DEPTH ==> #[trigger] r.killers(ply)@ == seq![None::<Move>, None::<Move>],
    {
        let mut moves: Vec<[Option<Move>; 2]> = Vec::new();
        let mut i: usize = 0;
        while i < MAX_DEPTH as usize
            invariant
                i <= MAX_DEPTH,
                moves@.len() == i,
                forall|k: int| 0 <= k < i ==> (#[trigger] moves@[k])@ == seq![None::<Move>, None::<Move>],
            decreases MAX_DEPTH - i,
        {
            let pair: [Option<Move>; 2] = [None, None];
            proof {
                assert(pair@ =~= seq![None::<Move>, None::<Move>]);
            }
            moves.push(pair);
            i = i + 1;
        }
        KillerMoves { moves }
    }

    /// The killer move `index` (0 for the most recent) of a ply.
    pub fn probe(&self, ply: u8, index: usize) -> (r: Option<Move>)
        requires
            self.wf(),
            ply < MAX_DEPTH,
            index < 2,
        ensures
            r == self.killers(ply as int)@[index as int],
    {
        self.moves[ply as usize][index]
    }

    /// The move is one of the killer moves of the ply.
    pub fn is_killer(&self, ply: u8, mv: &Move) -> (r: bool)
        requires
            self.wf(),
            ply < MAX_DEPTH,
        ensures
            r == killer_matches(self.killers(ply as int)@, *mv),
    {
        let pair = self.moves[ply as usize];
        let first = match pair[0] {
            Some(k) => mv.equals(&k),
            None => false,
        };
        let second = match pair[1] {
            Some(k) => mv.equals(&k),
            None => false,
        };
        first || second
    }

    /// Remembers a move that caused a cutoff at a ply: unless it is the most recent killer
    /// already, it becomes the most recent and the most recent becomes the other.
    pub fn store(&mut self, ply: u8, mv: &Move)
        requires
            old(self).wf(),
            ply < MAX_DEPTH,
        ensures
            final(self).wf(),
            final(self).killers(ply as int)@ == {
                let old_pair = old(self).killers(ply as int)@;
                if old_pair[0] is None || !same_move(*mv, old_pair[0]->0) {
                    seq![Some(*mv), old_pair[0]]
                } else {
                    old_pair
                }
            },
            forall|p: int| 0 <= p < MAX_DEPTH && p != ply ==> #[trigger] final(self).killers(p) == old(self).killers(p),
    {
        let pair = self.moves[ply as usize];
        let replace = match pair[0] {
            None => true,
            Some(first) => !mv.equals(&first),
        };
        if replace {
            let updated: [Option<Move>; 2] = [Some(*mv), pair[0]];
            proof {
                assert(updated@ =~= seq![Some(*mv), pair@[0]]);
            }
            self.moves.set(ply as usize, updated);
        }
    }
}

/// A move stored as a killer of a ply is then a killer of that ply.
pub proof fn lemma_stored_is_killer(before: Seq<Option<Move>>, mv: Move)
    requires
        before.len() == 2,
    ensures
        killer_matches(
            if before[0] is None || !same_move(mv, before[0]->0) {
                seq![Some(mv), before[0]]
            } else {
                before
            },
            mv,
        ),
{
}

} // verus!
