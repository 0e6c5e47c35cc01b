use crate::movegen::moves::Move;
use crate::piece::Piece;
use crate::square::Square;
use smallvec::SmallVec;
use vstd::prelude::*;

verus! {

/// Most items a list is expected to hold; a bound on lengths that keeps every push
/// clear of capacity overflow.
pub open spec fn list_limit() -> nat {
    0x1000_0000
}

/// A short list kept inline, on the `smallvec` crate.
#[verifier::external_body]
#[verifier::reject_recursive_types(T)]
#[derive(Debug)]
pub struct SmallList<T> {
    items: SmallVec<[T; 128]>,
}

/// The moves a move list holds, in order.
pub uninterp spec fn move_items(list: SmallList<Move>) -> Seq<Move>;

/// The scored moves a list holds, in order.
pub uninterp spec fn scored_items(list: SmallList<(Move, i32)>) -> Seq<(Move, i32)>;

/// The piece and target pairs a list holds, in order.
pub uninterp spec fn quiet_items(list: SmallList<(Piece, Square)>) -> Seq<(Piece, Square)>;

/// The position keys kept to detect repetitions.
#[verifier::external_body]
#[derive(Debug)]
pub struct KeyHistory {
    keys: SmallVec<[u64; 256]>,
}

/// The keys a key history holds, oldest first.
pub uninterp spec fn key_items(history: KeyHistory) -> Seq<u64>;

impl SmallList<Move> {
    /// Calls `SmallVec::new`: an empty list.
    #[verifier::external_body]
    pub fn new() -> (r: Self)
        ensures
            move_items(r) == Seq::<Move>::empty(),
    {
        SmallList { items: SmallVec::new() }
    }

    /// Calls `SmallVec::push`: the move is added at the end.
    #[verifier::external_body]
    pub fn push(&mut self, mv: Move)
        requires
            move_items(*old(self)).len() < list_limit(),
        ensures
            move_items(*final(self)) == move_items(*old(self)).push(mv),
    {
        self.items.push(mv)
    }

    /// Calls `SmallVec::len`.
    #[verifier::external_body]
    pub fn len(&self) -> (r: usize)
        ensures
            r == move_items(*self).len(),
    {
        self.items.len()
    }

    /// Reads the move at a position, through the slice `SmallVec` derefs to.
    #[verifier::external_body]
    pub fn get(&self, index: usize) -> (r: Move)
        requires
            index < move_items(*self).len(),
        ensures
            r == move_items(*self)[index as int],
    {
        self.items[index]
    }

    /// Calls `SmallVec::as_slice`.
    #[verifier::external_body]
    pub fn as_slice(&self) -> (r: &[Move])
        ensures
            r@ == move_items(*self),
    {
        self.items.as_slice()
    }

    /// Calls `SmallVec::append`: the other list's moves follow, and it is left empty.
    #[verifier::external_body]
    pub fn append(&mut self, other: &mut Self)
        requires
            move_items(*old(self)).len() + move_items(*old(other)).len() < list_limit(),
        ensures
            move_items(*final(self)) == move_items(*old(self)) + move_items(*old(other)),
            move_items(*final(other)) == Seq::<Move>::empty(),
    {
        self.items.append(&mut other.items)
    }

    /// Calls `SmallVec::clone`: a list with the same moves.
    #[verifier::external_body]
    pub fn duplicate(&self) -> (r: Self)
        ensures
            move_items(r) == move_items(*self),
    {
        SmallList { items: self.items.clone() }
    }
}

impl SmallList<(Move, i32)> {
    /// Calls `SmallVec::new`: an empty list.
    #[verifier::external_body]
    pub fn new() -> (r: Self)
        ensures
            scored_items(r) == Seq::<(Move, i32)>::empty(),
    {
        SmallList { items: SmallVec::new() }
    }

    /// Calls `SmallVec::push`: the item is added at the end.
    #[verifier::external_body]
    pub fn push(&mut self, item: (Move, i32))
        requires
            scored_items(*old(self)).len() < list_limit(),
        ensures
            scored_items(*final(self)) == scored_items(*old(self)).push(item),
    {
        self.items.push(item)
    }

    /// Calls `SmallVec::len`.
    #[verifier::external_body]
    pub fn len(&self) -> (r: usize)
        ensures
            r == scored_items(*self).len(),
    {
        self.items.len()
    }

    /// Reads the item at a position, through the slice `SmallVec` derefs to.
    #[verifier::external_body]
    pub fn get(&self, index: usize) -> (r: (Move, i32))
        requires
            index < scored_items(*self).len(),
        ensures
            r == scored_items(*self)[index as int],
    {
        self.items[index]
    }

    /// Swaps two items, through the slice `SmallVec` derefs to.
    #[verifier::external_body]
    pub fn swap(&mut self, a: usize, b: usize)
        requires
            a < scored_items(*old(self)).len(),
            b < scored_items(*old(self)).len(),
        ensures
            scored_items(*final(self)) == scored_items(*old(self)).update(
                a as int,
                scored_items(*old(self))[b as int],
            ).update(b as int, scored_items(*old(self))[a as int]),
    {
        self.items.swap(a, b)
    }
}

impl SmallList<(Piece, Square)> {
    /// Calls `SmallVec::new`: an empty list.
    #[verifier::external_body]
    pub fn new() -> (r: Self)
        ensures
            quiet_items(r) == Seq::<(Piece, Square)>::empty(),
    {
        SmallList { items: SmallVec::new() }
    }

    /// Calls `SmallVec::push`: the item is added at the end.
    #[verifier::external_body]
    pub fn push(&mut self, item: (Piece, Square))
        requires
            quiet_items(*old(self)).len() < list_limit(),
        ensures
            quiet_items(*final(self)) == quiet_items(*old(self)).push(item),
    {
        self.items.push(item)
    }

    /// Calls `SmallVec::len`.
    #[verifier::external_body]
    pub fn len(&self) -> (r: usize)
        ensures
            r == quiet_items(*self).len(),
    {
        self.items.len()
    }

    /// Reads the item at a position, through the slice `SmallVec` derefs to.
    #[verifier::external_body]
    pub fn get(&self, index: usize) -> (r: (Piece, Square))
        requires
            index < quiet_items(*self).len(),
        ensures
            r == quiet_items(*self)[index as int],
    {
        self.items[index]
    }
}

impl KeyHistory {
    /// Calls `SmallVec::new`: no key yet.
    #[verifier::external_body]
    pub fn new() -> (r: Self)
        ensures
            key_items(r) == Seq::<u64>::empty(),
    {
        KeyHistory { keys: SmallVec::new() }
    }

    /// Calls `SmallVec::push`: the key is added at the end.
    #[verifier::external_body]
    pub fn push(&mut self, key: u64)
        requires
            key_items(*old(self)).len() < list_limit(),
        ensures
            key_items(*final(self)) == key_items(*old(self)).push(key),
    {
        self.keys.push(key)
    }

    /// Calls `SmallVec::pop`: the last key, taken off.
    #[verifier::external_body]
    pub fn pop(&mut self) -> (r: Option<u64>)
        ensures
            key_items(*old(self)).len() == 0 ==> r is None && key_items(*final(self)) == key_items(
                *old(self),
            ),
            key_items(*old(self)).len() > 0 ==> r == Some(key_items(*old(self)).last())
                && key_items(*final(self)) == key_items(*old(self)).drop_last(),
    {
        self.keys.pop()
    }

    /// Calls `SmallVec::len`.
    #[verifier::external_body]
    pub fn len(&self) -> (r: usize)
        ensures
            r == key_items(*self).len(),
    {
        self.keys.len()
    }

    /// Reads the key at a position, through the slice `SmallVec` derefs to.
    #[verifier::external_body]
    pub fn get(&self, index: usize) -> (r: u64)
        requires
            index < key_items(*self).len(),
        ensures
            r == key_items(*self)[index as int],
    {
        self.keys[index]
    }

    /// Calls `SmallVec::clone`: a history with the same keys.
    #[verifier::external_body]
    pub fn duplicate(&self) -> (r: Self)
        ensures
            key_items(r) == key_items(*self),
    {
        KeyHistory { keys: self.keys.clone() }
    }
}

/// A list of moves, kept inline up to a hundred and twenty-eight.
pub type MoveList = SmallList<Move>;

} // verus!
