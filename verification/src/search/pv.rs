use crate::collections::{list_limit, move_items};
use crate::eval::MAX_DEPTH;
use crate::movegen::{Move, MoveList};
use vstd::prelude::*;

verus! {

/// The principal variation found from each ply on: the best line of moves.
pub struct PvTable {
    table: Vec<MoveList>,
}

impl PvTable {
    /// The line from ply `ply` on.
    pub closed spec fn line(self, ply: int) -> Seq<Move> {
        move_items(self.table@[ply])
    }

    /// The table has a line for each ply up to `MAX_DEPTH`.
    pub closed spec fn wf(self) -> bool {
        self.table@.len() == MAX_DEPTH + 1
    }

    /// Empty lines.
    pub fn new() -> (r: PvTable)
        ensures
            r.wf(),
            forall|ply: int| 0 <= ply <= MAX_DEPTH ==> #[trigger] r.line(ply) == Seq::<Move>::empty(),
    {
        let mut table: Vec<MoveList> = Vec::new();
        let mut i: usize = 0;
        while i <= MAX_DEPTH as usize
            invariant
                i <= MAX_DEPTH + 1,
                table@.len() == i,
                forall|k: int| 0 <= k < i ==> move_items(#[trigger] table@[k]) == Seq::<Move>::empty(),
            decreases MAX_DEPTH + 1 - i,
        {
            table.push(MoveList::new());
            i = i + 1;
        }
        PvTable { table }
    }

    /// The line from the root.
    pub fn root(&self) -> (r: &MoveList)
        requires
            self.wf(),
        ensures
            move_items(*r) == self.line(0),
    {
        &self.table[0]
    }

    /// Empties the line of a ply.
    pub fn clear(&mut self, ply: u8)
        requires
            old(self).wf(),
        ensures
            final(self).wf(),
            final(self).line(ply as int) == Seq::<Move>::empty(),
            forall|p: int| 0 <= p <= MAX_DEPTH && p != ply ==> #[trigger] final(self).line(p) == old(self).line(p),
    {
        self.table.set(ply as usize, MoveList::new());
    }

    /// A move becomes best at a ply: the ply's line is the move followed by the line of the
    /// next ply, which is emptied.
    pub fn update(&mut self, ply: u8, mv: Move)
        requires
            old(self).wf(),
            ply < MAX_DEPTH,
            old(self).line(ply + 1).len() + 1 < list_limit(),
        ensures
            final(self).wf(),
            final(self).line(ply as int) == seq![mv] + old(self).line(ply + 1),
            final(self).line(ply + 1) == Seq::<Move>::empty(),
            forall|p: int|
                0 <= p <= MAX_DEPTH && p != ply && p != ply + 1 ==> #[trigger] final(self).line(p)
                    == old(self).line(p),
    {
        let next = ply as usize + 1;
        let mut child = self.table[next].duplicate();
        let mut pv = MoveList::new();
        pv.push(mv);
        pv.append(&mut child);
        self.table.set(next, MoveList::new());
        self.table.set(ply as usize, pv);
        proof {
            assert(seq![mv] =~= Seq::<Move>::empty().push(mv));
        }
    }
}

} // verus!
