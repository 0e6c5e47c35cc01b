use crate::rng::{xorshift_nth, XorShift64};
use vstd::prelude::*;

verus! {

/// Seed of the generator that fills the table (Fibonacci hashing constant).
pub const RNG_SEED: u64 = 0x9E3779B97F4A7C15u64;

/// Random numbers, one per piece on a square, one for black to move, one per set of
/// castling rights and one per en passant file, whose exclusive or identifies a position.
#[derive(Debug)]
pub struct Zobrist {
    pub piece_square: [[u64; 64]; 12],
    pub colour_to_move: u64,
    pub castling_rights: [u64; 16],
    pub en_passant_files: [u64; 8],
}

/// The `n`-th number drawn from the generator (the first draw is number 1).
pub open spec fn draw(n: nat) -> u64 {
    xorshift_nth(RNG_SEED, n)
}

impl Zobrist {
    /// The table is filled from the generator in order: the pieces one after another,
    /// for each the squares file by file, then black to move, the castling rights and the
    /// en passant files.
    pub open spec fn filled(self) -> bool {
        &&& forall|p: int, s: int|
            0 <= p < 12 && 0 <= s < 64 ==> #[trigger] self.piece_square@[p]@[s] == draw(
                (p * 64 + (s % 8) * 8 + s / 8 + 1) as nat,
            )
        &&& self.colour_to_move == draw(12 * 64 + 1)
        &&& forall|i: int|
            0 <= i < 16 ==> #[trigger] self.castling_rights@[i] == draw((12 * 64 + 2 + i) as nat)
        &&& forall|f: int|
            0 <= f < 8 ==> #[trigger] self.en_passant_files@[f] == draw((12 * 64 + 18 + f) as nat)
    }

    pub fn new() -> (r: Zobrist)
        ensures
            r.filled(),
    {
        let mut rand = XorShift64::new(RNG_SEED);
        let ghost mut drawn: nat = 0;
        let mut piece_square = [[0u64; 64]; 12];
        let mut piece: usize = 0;
        while piece < 12
            invariant
                piece <= 12,
                drawn == piece * 64,
                rand.state() == draw(drawn),
                forall|p: int, s: int|
                    0 <= p < piece && 0 <= s < 64 ==> #[trigger] piece_square@[p]@[s] == draw(
                        (p * 64 + (s % 8) * 8 + s / 8 + 1) as nat,
                    ),
            decreases 12 - piece,
        {
            let mut row = [0u64; 64];
            let mut file: usize = 0;
            while file < 8
                invariant
                    piece < 12,
                    file <= 8,
                    drawn == piece * 64 + file * 8,
                    rand.state() == draw(drawn),
                    forall|s: int|
                        0 <= s < 64 && s % 8 < file ==> #[trigger] row@[s] == draw(
                            (piece * 64 + (s % 8) * 8 + s / 8 + 1) as nat,
                        ),
                decreases 8 - file,
            {
                let mut rank: usize = 0;
                while rank < 8
                    invariant
                        piece < 12,
                        file < 8,
                        rank <= 8,
                        drawn == piece * 64 + file * 8 + rank,
                        rand.state() == draw(drawn),
                        forall|s: int|
                            0 <= s < 64 && (s % 8 < file || (s % 8 == file && s / 8 < rank))
                                ==> #[trigger] row@[s] == draw(
                                (piece * 64 + (s % 8) * 8 + s / 8 + 1) as nat,
                            ),
                    decreases 8 - rank,
                {
                    let v = rand.next();
                    proof {
                        drawn = drawn + 1;
                    }
                    let value = match v {
                        Some(x) => x,
                        None => 0,
                    };
                    row[rank * 8 + file] = value;
                    rank = rank + 1;
                }
                file = file + 1;
            }
            piece_square[piece] = row;
            piece = piece + 1;
        }
        let colour_to_move = match rand.next() {
            Some(x) => x,
            None => 0,
        };
        proof {
            drawn = drawn + 1;
        }
        let mut castling_rights = [0u64; 16];
        let mut i: usize = 0;
        while i < 16
            invariant
                i <= 16,
                drawn == 12 * 64 + 1 + i,
                rand.state() == draw(drawn),
                forall|k: int|
                    0 <= k < i ==> #[trigger] castling_rights@[k] == draw((12 * 64 + 2 + k) as nat),
            decreases 16 - i,
        {
            let v = rand.next();
            proof {
                drawn = drawn + 1;
            }
            castling_rights[i] = match v {
                Some(x) => x,
                None => 0,
            };
            i = i + 1;
        }
        let mut en_passant_files = [0u64; 8];
        let mut f: usize = 0;
        while f < 8
            invariant
                f <= 8,
                drawn == 12 * 64 + 17 + f,
                rand.state() == draw(drawn),
                forall|k: int|
                    0 <= k < f ==> #[trigger] en_passant_files@[k] == draw((12 * 64 + 18 + k) as nat),
            decreases 8 - f,
        {
            let v = rand.next();
            proof {
                drawn = drawn + 1;
            }
            en_passant_files[f] = match v {
                Some(x) => x,
                None => 0,
            };
            f = f + 1;
        }
        Zobrist { piece_square, colour_to_move, castling_rights, en_passant_files }
    }
}

} // verus!
