use crate::eval::EVAL_MATE_THRESHOLD;
use crate::movegen::Move;
use vstd::prelude::*;

verus! {

/// Smallest table size, in megabytes.
pub const MIN_SIZE_MB: usize = 1;

/// Largest table size, in megabytes.
pub const MAX_SIZE_MB: usize = 4096;

/// Table size when none is asked for, in megabytes.
pub const DEFAULT_SIZE_MB: usize = 64;

/// What a stored evaluation says of the true one.
#[derive(Debug, Clone, Copy, PartialEq, Eq, Structural)]
pub enum Bound {
    Exact,
    Lower,
    Upper,
}

/// An entry of the table: the key of the position, the depth searched, the evaluation and
/// its bound, the best move found, and the search (age) that wrote it.
#[derive(Debug, Clone, Copy)]
pub struct Entry {
    pub key: u64,
    pub depth: u8,
    pub eval: i32,
    pub bound: Bound,
    pub mv: Option<Move>,
    pub age: u8,
}

impl Entry {
    /// An entry as the table is filled with: key 0, depth 0, evaluation 0, exact, no move,
    /// age 0.
    pub open spec fn is_blank(self) -> bool {
        &&& self.key == 0
        &&& self.depth == 0
        &&& self.eval == 0
        &&& self.bound == Bound::Exact
        &&& self.mv is None
        &&& self.age == 0
    }

    fn blank() -> (r: Entry)
        ensures
            r.is_blank(),
    {
        Entry { key: 0, depth: 0, eval: 0, bound: Bound::Exact, mv: None, age: 0 }
    }
}

/// A hash table of search results, indexed by the low bits of the position key.
pub struct TranspositionTable {
    entries: Vec<Entry>,
    capacity: usize,
    age: u8,
}

/// The number is a power of two.
pub open spec fn is_pow2(n: int) -> bool
    decreases n,
{
    if n <= 0 {
        false
    } else if n == 1 {
        true
    } else {
        n % 2 == 0 && is_pow2(n / 2)
    }
}

/// Bytes an entry takes in memory (a test holds this to `size_of::<Entry>()`).
pub const ENTRY_BYTES: usize = 24;

/// The number of entries that fit in `size_mb` megabytes (as many bytes as `usize` holds,
/// at most).
pub open spec fn entries_in(size_mb: int) -> int {
    let bytes = if size_mb * 0x100000 <= usize::MAX {
        size_mb * 0x100000
    } else {
        usize::MAX as int
    };
    bytes / (ENTRY_BYTES as int)
}

/// The largest power of two below `n`, for `n` at least 2.
fn pow2_below(n: usize) -> (r: usize)
    requires
        n >= 2,
    ensures
        is_pow2(r as int),
        r < n <= 2 * r,
{
    let mut p: usize = 1;
    while p < n / 2 || (p == n / 2 && n % 2 == 1)
        invariant
            is_pow2(p as int),
            1 <= p < n,
        decreases n - p,
    {
        p = p * 2;
    }
    p
}

impl TranspositionTable {
    /// A table of `size_mb` megabytes: the largest power of two of entries below the number
    /// that fit, all blank, at age 0.
    pub fn new(size_mb: usize) -> (r: TranspositionTable)
        requires
            MIN_SIZE_MB <= size_mb <= MAX_SIZE_MB,
        ensures
            r.wf(),
            is_pow2(r.size()),
            r.size() < entries_in(size_mb as int) <= 2 * r.size(),
            forall|i: int| 0 <= i < r.size() ==> (#[trigger] r.slots()[i]).is_blank(),
            r.current_age() == 0,
    {
        let size_bytes = match size_mb.checked_mul(0x100000) {
            Some(bytes) => bytes,
            None => usize::MAX,
        };
        let capacity = size_bytes / ENTRY_BYTES;
        let pow2 = pow2_below(capacity);
        let mut entries: Vec<Entry> = Vec::new();
        let mut i: usize = 0;
        while i < pow2
            invariant
                i <= pow2,
                entries@.len() == i,
                forall|k: int| 0 <= k < i ==> (#[trigger] entries@[k]).is_blank(),
            decreases pow2 - i,
        {
            entries.push(Entry::blank());
            i = i + 1;
        }
        TranspositionTable { entries, capacity: pow2, age: 0 }
    }

    /// The slot of a key: its low bits.
    fn index(&self, key: u64) -> (r: usize)
        requires
            self.wf(),
        ensures
            r == self.slot_of(key),
            r < self.size(),
    {
        proof {
            self.lemma_slot_in_range(key);
        }
        (key as usize) & (self.capacity - 1)
    }

    /// The entry of the slot of `key`, if it holds that key.
    pub fn probe(&self, key: u64) -> (r: Option<&Entry>)
        requires
            self.wf(),
        ensures
            r == if self.slots()[self.slot_of(key)].key == key {
                Some(&self.slots()[self.slot_of(key)])
            } else {
                None
            },
    {
        let entry = &self.entries[self.index(key)];
        if entry.key == key {
            Some(entry)
        } else {
            None
        }
    }

    /// Stores a search result in the slot of `key`, unless that slot holds a deeper result
    /// of the current search.
    pub fn store(&mut self, key: u64, depth: u8, eval: i32, bound: Bound, mv: Option<Move>)
        requires
            old(self).wf(),
        ensures
            final(self).wf(),
            final(self).size() == old(self).size(),
            final(self).current_age() == old(self).current_age(),
            forall|k: u64| #[trigger] final(self).slot_of(k) == old(self).slot_of(k),
            final(self).slots() == {
                let i = old(self).slot_of(key);
                let e = old(self).slots()[i];
                if depth >= e.depth || e.age != old(self).current_age() {
                    old(self).slots().update(
                        i,
                        Entry { key, depth, eval, bound, mv, age: old(self).current_age() },
                    )
                } else {
                    old(self).slots()
                }
            },
    {
        let index = self.index(key);
        let entry = self.entries[index];
        if depth >= entry.depth || entry.age != self.age {
            self.entries.set(index, Entry { key, depth, eval, bound, mv, age: self.age });
        }
    }

    /// How many of the first thousand entries (or all, if fewer) the current search wrote:
    /// a sample of how full the table is.
    pub fn usage(&self) -> (r: usize)
        requires
            self.wf(),
        ensures
            r == current_count(self.slots(), self.current_age(), min_int(1000, self.size())),
    {
        let n: usize = if self.capacity < 1000 {
            self.capacity
        } else {
            1000
        };
        let mut count: usize = 0;
        let mut i: usize = 0;
        while i < n
            invariant
                i <= n,
                n == min_int(1000, self.size()),
                self.wf(),
                count == current_count(self.slots(), self.current_age(), i as int),
                count <= i,
            decreases n - i,
        {
            if self.entries[i].age == self.age {
                count = count + 1;
            }
            i = i + 1;
        }
        count
    }

    /// Blanks every entry and sets the age back to 0.
    pub fn clear(&mut self)
        requires
            old(self).wf(),
        ensures
            final(self).wf(),
            final(self).size() == old(self).size(),
            forall|i: int| 0 <= i < final(self).size() ==> (#[trigger] final(self).slots()[i]).is_blank(),
            final(self).current_age() == 0,
            forall|k: u64| #[trigger] final(self).slot_of(k) == old(self).slot_of(k),
    {
        let n = self.entries.len();
        let mut i: usize = 0;
        while i < n
            invariant
                i <= n,
                n == self.entries@.len(),
                n == self.capacity,
                self.capacity >= 1,
                forall|k: int| 0 <= k < i ==> (#[trigger] self.entries@[k]).is_blank(),
            decreases n - i,
        {
            self.entries.set(i, Entry::blank());
            i = i + 1;
        }
        self.age = 0;
    }

    /// Starts a new search: the age goes up by one, wrapping.
    pub fn age(&mut self)
        requires
            old(self).wf(),
        ensures
            final(self).wf(),
            final(self).slots() == old(self).slots(),
            final(self).size() == old(self).size(),
            final(self).current_age() == (old(self).current_age() + 1) % 256,
            forall|k: u64| #[trigger] final(self).slot_of(k) == old(self).slot_of(k),
    {
        self.age = self.age.wrapping_add(1);
    }

    /// The entries, slot by slot.
    pub closed spec fn slots(self) -> Seq<Entry> {
        self.entries@
    }

    /// The age of the current search.
    pub closed spec fn current_age(self) -> u8 {
        self.age
    }

    /// The number of slots.
    pub closed spec fn size(self) -> int {
        self.capacity as int
    }

    /// The slot of a key: its low bits.
    pub closed spec fn slot_of(self, key: u64) -> int {
        ((key as usize) & ((self.capacity - 1) as usize)) as int
    }

    /// The table has as many entries as slots, a power of two of them.
    pub closed spec fn wf(self) -> bool {
        &&& self.entries@.len() == self.capacity
        &&& self.capacity >= 1
    }

    /// The slot of a key lies in the table.
    pub proof fn lemma_slot_in_range(self, key: u64)
        requires
            self.wf(),
        ensures
            0 <= self.slot_of(key) < self.size(),
            self.slots().len() == self.size(),
    {
        bv_low_bits_usize(key as usize, (self.capacity - 1) as usize);
    }
}

/// The smaller of two numbers.
pub open spec fn min_int(a: int, b: int) -> int {
    if a < b {
        a
    } else {
        b
    }
}

/// How many of the first `n` entries were written at `age`.
pub open spec fn current_count(entries: Seq<Entry>, age: u8, n: int) -> int
    decreases n,
{
    if n <= 0 {
        0
    } else {
        current_count(entries, age, n - 1) + if entries[n - 1].age == age {
            1int
        } else {
            0int
        }
    }
}

/// Normalizes an evaluation before it is stored: a mate score is counted from the root
/// rather than from the node, `ply` plies below it.
pub fn eval_in(eval: i32, ply: u8) -> (r: i32)
    requires
        -EVAL_MAX_STORED <= eval <= EVAL_MAX_STORED,
    ensures
        r == eval_in_spec(eval as int, ply as int),
{
    if eval >= EVAL_MATE_THRESHOLD {
        eval + ply as i32
    } else if eval <= -EVAL_MATE_THRESHOLD {
        eval - ply as i32
    } else {
        eval
    }
}

/// Reverses `eval_in`: a stored mate score is counted from the node again.
pub fn eval_out(eval: i32, ply: u8) -> (r: i32)
    requires
        -EVAL_MAX_STORED <= eval <= EVAL_MAX_STORED,
    ensures
        r == eval_out_spec(eval as int, ply as int),
{
    if eval >= EVAL_MATE_THRESHOLD {
        eval - ply as i32
    } else if eval <= -EVAL_MATE_THRESHOLD {
        eval + ply as i32
    } else {
        eval
    }
}

/// The size of evaluations the normalizations take without overflow.
pub const EVAL_MAX_STORED: i32 = 0x4000_0000;

/// What `eval_in` computes.
pub open spec fn eval_in_spec(eval: int, ply: int) -> int {
    if eval >= EVAL_MATE_THRESHOLD {
        eval + ply
    } else if eval <= -EVAL_MATE_THRESHOLD {
        eval - ply
    } else {
        eval
    }
}

/// What `eval_out` computes.
pub open spec fn eval_out_spec(eval: int, ply: int) -> int {
    if eval >= EVAL_MATE_THRESHOLD {
        eval - ply
    } else if eval <= -EVAL_MATE_THRESHOLD {
        eval + ply
    } else {
        eval
    }
}

/// Reading back an evaluation stored at the same ply gives the evaluation that was stored.
pub proof fn lemma_eval_out_in(eval: int, ply: int)
    requires
        0 <= ply,
    ensures
        eval_out_spec(eval_in_spec(eval, ply), ply) == eval,
{
}

proof fn bv_low_bits_usize(key: usize, mask: usize)
    by (bit_vector)
    ensures
        key & mask <= mask,
{
}

/// What a read gives back of a write: after a result is stored for a key, and unless a
/// deeper result of the current search kept its slot, the slot of the key holds that
/// result, written by the current search (so `probe` of the key gives it).
pub proof fn lemma_read_after_write(
    before: TranspositionTable,
    after: TranspositionTable,
    key: u64,
    depth: u8,
    eval: i32,
    bound: Bound,
    mv: Option<Move>,
)
    requires
        before.wf(),
        after.size() == before.size(),
        after.current_age() == before.current_age(),
        after.slots() == {
            let i = before.slot_of(key);
            let e = before.slots()[i];
            if depth >= e.depth || e.age != before.current_age() {
                before.slots().update(
                    i,
                    Entry { key, depth, eval, bound, mv, age: before.current_age() },
                )
            } else {
                before.slots()
            }
        },
        depth >= before.slots()[before.slot_of(key)].depth || before.slots()[before.slot_of(
            key,
        )].age != before.current_age(),
    ensures
        after.slots()[after.slot_of(key)] == (Entry {
            key,
            depth,
            eval,
            bound,
            mv,
            age: after.current_age(),
        }),
{
    before.lemma_slot_in_range(key);
}

} // verus!
