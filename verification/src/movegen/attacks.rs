use crate::bitboard::{group_bitboard, has_bit};
use crate::colour::Colour;
use crate::piece::{kind_of, Piece};
use crate::position::Board;
use crate::square::{dist, file_of, rank_of, Square};
use vstd::prelude::*;

verus! {

broadcast use group_bitboard;

/// The file and rank lie on the board.
pub open spec fn on_board(f: int, r: int) -> bool {
    0 <= f < 8 && 0 <= r < 8
}

/// The index of the square on file `f` and rank `r`.
pub open spec fn square_at(f: int, r: int) -> int {
    r * 8 + f
}

/// File and rank of a square on the board, and back.
pub proof fn lemma_square_at(f: int, r: int)
    requires
        on_board(f, r),
    ensures
        file_of(square_at(f, r)) == f,
        rank_of(square_at(f, r)) == r,
        0 <= square_at(f, r) < 64,
{
}

/// Every square index is the square of its file and rank.
pub proof fn lemma_coords_of(j: int)
    requires
        0 <= j < 64,
    ensures
        j == square_at(file_of(j), rank_of(j)),
        on_board(file_of(j), rank_of(j)),
{
}

/// Square `j` is `df`, `dr` away from the square on (`f`, `r`) exactly when its file and
/// rank are.
proof fn lemma_offset(f: int, r: int, df: int, dr: int, j: int)
    requires
        0 <= j < 64,
    ensures
        (on_board(f + df, r + dr) && j == square_at(f + df, r + dr)) <==> (file_of(j) == f + df
            && rank_of(j) == r + dr),
{
    lemma_coords_of(j);
    if on_board(f + df, r + dr) {
        lemma_square_at(f + df, r + dr);
    }
}

/// A knight on square `i` attacks square `j`.
pub open spec fn knight_attack(i: int, j: int) -> bool {
    0 <= j < 64 && ((dist(file_of(i), file_of(j)) == 1 && dist(rank_of(i), rank_of(j)) == 2) || (
    dist(file_of(i), file_of(j)) == 2 && dist(rank_of(i), rank_of(j)) == 1))
}

/// A king on square `i` attacks square `j`.
pub open spec fn king_attack(i: int, j: int) -> bool {
    0 <= j < 64 && j != i && dist(file_of(i), file_of(j)) <= 1 && dist(rank_of(i), rank_of(j))
        <= 1
}

/// A pawn of `colour` on square `i` attacks square `j` (one rank forward, one file aside).
pub open spec fn pawn_attack(i: int, colour: Colour, j: int) -> bool {
    0 <= j < 64 && dist(file_of(i), file_of(j)) == 1 && rank_of(j) == rank_of(i) + match colour {
        Colour::White => 1int,
        Colour::Black => -1int,
    }
}

/// Square `j` lies on the ray that starts next to (`f`, `r`) and goes in the direction
/// (`df`, `dr`), at most `n` steps, up to and including the first occupied square.
pub open spec fn ray_hit(f: int, r: int, df: int, dr: int, occ: u64, n: nat, j: int) -> bool
    decreases n,
{
    if n == 0 || !on_board(f + df, r + dr) {
        false
    } else {
        j == square_at(f + df, r + dr) || (!has_bit(occ, square_at(f + df, r + dr)) && ray_hit(
            f + df,
            r + dr,
            df,
            dr,
            occ,
            (n - 1) as nat,
            j,
        ))
    }
}

/// Square `j` is reached from square `i` in the direction (`df`, `dr`) when the squares
/// set in `occ` block the way.
pub open spec fn ray_attack(i: int, df: int, dr: int, occ: u64, j: int) -> bool {
    ray_hit(file_of(i), rank_of(i), df, dr, occ, 7, j)
}

/// A bishop on square `i` attacks square `j`, with the squares of `occ` blocking.
pub open spec fn bishop_attack(i: int, occ: u64, j: int) -> bool {
    ray_attack(i, 1, 1, occ, j) || ray_attack(i, -1, 1, occ, j) || ray_attack(i, 1, -1, occ, j)
        || ray_attack(i, -1, -1, occ, j)
}

/// A rook on square `i` attacks square `j`, with the squares of `occ` blocking.
pub open spec fn rook_attack(i: int, occ: u64, j: int) -> bool {
    ray_attack(i, 0, 1, occ, j) || ray_attack(i, 0, -1, occ, j) || ray_attack(i, 1, 0, occ, j)
        || ray_attack(i, -1, 0, occ, j)
}

/// A piece `p` on square `i` attacks square `j`, with the squares of `occ` blocking.
/// Pawns attack diagonally forward, whatever stands there.
pub open spec fn piece_attack(p: Piece, i: int, occ: u64, j: int) -> bool {
    let k = kind_of(p);
    if k == 0 {
        pawn_attack(i, p.colour_of(), j)
    } else if k == 1 {
        knight_attack(i, j)
    } else if k == 2 {
        bishop_attack(i, occ, j)
    } else if k == 3 {
        rook_attack(i, occ, j)
    } else if k == 4 {
        bishop_attack(i, occ, j) || rook_attack(i, occ, j)
    } else {
        king_attack(i, j)
    }
}

/// The bitboard `bb` with the square `df`, `dr` away from (`f`, `r`) added when that square
/// is on the board.
fn add_target(bb: u64, f: i8, r: i8, df: i8, dr: i8) -> (res: u64)
    requires
        0 <= f < 8,
        0 <= r < 8,
        -2 <= df <= 2,
        -2 <= dr <= 2,
    ensures
        forall|j: int|
            #![trigger has_bit(res, j)]
            has_bit(res, j) == (has_bit(bb, j) || (on_board(f + df, r + dr) && j == square_at(
                f + df,
                r + dr,
            ))),
{
    let nf = f + df;
    let nr = r + dr;
    if 0 <= nf && nf < 8 && 0 <= nr && nr < 8 {
        let sq = Square::from_file_and_rank(nf as u8, nr as u8);
        bb | sq.u64()
    } else {
        bb
    }
}

/// File and rank of a square as small signed numbers.
fn coords(square: Square) -> (res: (i8, i8))
    ensures
        res.0 == file_of(square.idx()),
        res.1 == rank_of(square.idx()),
        0 <= res.0 < 8,
        0 <= res.1 < 8,
        square.idx() == square_at(res.0 as int, res.1 as int),
{
    let f = square.file();
    let r = square.rank();
    (f as i8, r as i8)
}

/// The squares a knight on `square` attacks.
pub fn get_knight_attacks(square: Square) -> (res: u64)
    ensures
        forall|j: int| #[trigger] has_bit(res, j) == knight_attack(square.idx(), j),
{
    let (f, r) = coords(square);
    let mut bb: u64 = 0;
    bb = add_target(bb, f, r, -2, 1);
    bb = add_target(bb, f, r, 2, 1);
    bb = add_target(bb, f, r, -1, 2);
    bb = add_target(bb, f, r, 1, 2);
    bb = add_target(bb, f, r, 2, -1);
    bb = add_target(bb, f, r, -2, -1);
    bb = add_target(bb, f, r, 1, -2);
    bb = add_target(bb, f, r, -1, -2);
    proof {
        assert forall|j: int| #[trigger] has_bit(bb, j) == knight_attack(square.idx(), j) by {
            if 0 <= j < 64 {
                lemma_offset(f as int, r as int, -2, 1, j);
                lemma_offset(f as int, r as int, 2, 1, j);
                lemma_offset(f as int, r as int, -1, 2, j);
                lemma_offset(f as int, r as int, 1, 2, j);
                lemma_offset(f as int, r as int, 2, -1, j);
                lemma_offset(f as int, r as int, -2, -1, j);
                lemma_offset(f as int, r as int, 1, -2, j);
                lemma_offset(f as int, r as int, -1, -2, j);
            }
        }
    }
    bb
}

/// The squares a king on `square` attacks.
pub fn get_king_attacks(square: Square) -> (res: u64)
    ensures
        forall|j: int| #[trigger] has_bit(res, j) == king_attack(square.idx(), j),
{
    let (f, r) = coords(square);
    let mut bb: u64 = 0;
    bb = add_target(bb, f, r, 1, 0);
    bb = add_target(bb, f, r, -1, 0);
    bb = add_target(bb, f, r, 0, 1);
    bb = add_target(bb, f, r, -1, 1);
    bb = add_target(bb, f, r, 1, 1);
    bb = add_target(bb, f, r, 0, -1);
    bb = add_target(bb, f, r, 1, -1);
    bb = add_target(bb, f, r, -1, -1);
    proof {
        assert forall|j: int| #[trigger] has_bit(bb, j) == king_attack(square.idx(), j) by {
            if 0 <= j < 64 {
                lemma_offset(f as int, r as int, 1, 0, j);
                lemma_offset(f as int, r as int, -1, 0, j);
                lemma_offset(f as int, r as int, 0, 1, j);
                lemma_offset(f as int, r as int, -1, 1, j);
                lemma_offset(f as int, r as int, 1, 1, j);
                lemma_offset(f as int, r as int, 0, -1, j);
                lemma_offset(f as int, r as int, 1, -1, j);
                lemma_offset(f as int, r as int, -1, -1, j);
                lemma_coords_of(square.idx());
            }
        }
    }
    bb
}

/// The squares a pawn of `colour` on `square` attacks, whatever stands on them.
fn pawn_targets(square: Square, colour: Colour) -> (res: u64)
    ensures
        forall|j: int| #[trigger] has_bit(res, j) == pawn_attack(square.idx(), colour, j),
{
    let (f, r) = coords(square);
    let dr: i8 = match colour {
        Colour::White => 1,
        Colour::Black => -1,
    };
    let mut bb: u64 = 0;
    bb = add_target(bb, f, r, -1, dr);
    bb = add_target(bb, f, r, 1, dr);
    proof {
        assert forall|j: int| #[trigger] has_bit(bb, j) == pawn_attack(square.idx(), colour, j) by {
            if 0 <= j < 64 {
                lemma_offset(f as int, r as int, -1, dr as int, j);
                lemma_offset(f as int, r as int, 1, dr as int, j);
            }
        }
    }
    bb
}

/// The squares holding a piece of the other colour that a pawn of `colour` on `square`
/// attacks.
pub fn get_pawn_attacks(square: Square, colour: Colour, board: &Board) -> (res: u64)
    ensures
        forall|j: int|
            #[trigger] has_bit(res, j) == (pawn_attack(square.idx(), colour, j) && has_bit(
                board.colour_bb(colour.opposite()),
                j,
            )),
{
    let t = pawn_targets(square, colour);
    t & board.pieces_by_colour(colour.flip())
}

/// The squares along one direction from `square`, up to and including the first
/// occupied square.
fn ray_attacks(square: Square, df: i8, dr: i8, occ: u64) -> (res: u64)
    requires
        -1 <= df <= 1,
        -1 <= dr <= 1,
    ensures
        forall|j: int|
            #[trigger] has_bit(res, j) == ray_attack(square.idx(), df as int, dr as int, occ, j),
{
    let (f0, r0) = coords(square);
    let mut f = f0;
    let mut r = r0;
    let mut n: u8 = 7;
    let mut bb: u64 = 0;
    while n > 0
        invariant
            0 <= f < 8,
            0 <= r < 8,
            n <= 7,
            -1 <= df <= 1,
            -1 <= dr <= 1,
            forall|j: int|
                #![trigger has_bit(bb, j)]
                ray_attack(square.idx(), df as int, dr as int, occ, j) == (has_bit(bb, j)
                    || ray_hit(f as int, r as int, df as int, dr as int, occ, n as nat, j)),
        decreases n,
    {
        let ghost old_bb = bb;
        let nf = f + df;
        let nr = r + dr;
        if !(0 <= nf && nf < 8 && 0 <= nr && nr < 8) {
            proof {
                assert forall|j: int|
                    #[trigger] has_bit(bb, j) == ray_attack(
                        square.idx(),
                        df as int,
                        dr as int,
                        occ,
                        j,
                    ) by {
                    assert(has_bit(old_bb, j) == has_bit(old_bb, j));
                    assert(!ray_hit(f as int, r as int, df as int, dr as int, occ, n as nat, j));
                }
            }
            return bb;
        }
        let next = Square::from_file_and_rank(nf as u8, nr as u8);
        let bit = next.u64();
        let blocked = occ & bit != 0;
        proof {
            if blocked {
                crate::bitboard::lemma_no_bits_zero_contra(occ & bit);
                let k = choose|k: int| 0 <= k < 64 && #[trigger] has_bit(occ & bit, k);
                assert(k == next.idx());
            } else {
                assert(!has_bit(occ & bit, next.idx()));
            }
            assert(blocked == has_bit(occ, next.idx()));
        }
        bb = bb | bit;
        if blocked {
            proof {
                assert forall|j: int|
                    #[trigger] has_bit(bb, j) == ray_attack(
                        square.idx(),
                        df as int,
                        dr as int,
                        occ,
                        j,
                    ) by {
                    assert(has_bit(old_bb, j) == has_bit(old_bb, j));
                    assert(ray_hit(f as int, r as int, df as int, dr as int, occ, n as nat, j)
                        == (j == next.idx()));
                }
            }
            return bb;
        }
        let ghost (of, or, on) = (f, r, n);
        f = nf;
        r = nr;
        n = n - 1;
        proof {
            assert forall|j: int|
                #![trigger has_bit(bb, j)]
                ray_attack(square.idx(), df as int, dr as int, occ, j) == (has_bit(bb, j)
                    || ray_hit(f as int, r as int, df as int, dr as int, occ, n as nat, j)) by {
                assert(has_bit(old_bb, j) == has_bit(old_bb, j));
                assert(ray_hit(of as int, or as int, df as int, dr as int, occ, on as nat, j) == (j
                    == next.idx() || ray_hit(f as int, r as int, df as int, dr as int, occ, n as nat, j)));
            }
        }
    }
    proof {
        assert forall|j: int|
            #[trigger] has_bit(bb, j) == ray_attack(square.idx(), df as int, dr as int, occ, j) by {
            assert(!ray_hit(f as int, r as int, df as int, dr as int, occ, 0, j));
        }
    }
    bb
}

/// `k` steps in a direction component that is -1, 0 or 1.
pub open spec fn steps(k: int, d: int) -> int {
    if d == 1 {
        k
    } else if d == -1 {
        -k
    } else {
        0
    }
}

/// None of the first `k - 1` squares along the direction from (`f`, `r`) is set in `occ`.
pub open spec fn path_clear(f: int, r: int, df: int, dr: int, occ: u64, k: int) -> bool {
    forall|m: int|
        1 <= m < k ==> !#[trigger] has_bit(occ, square_at(f + steps(m, df), r + steps(m, dr)))
}

/// Square `j` lies `k` steps away in the direction, on the board, with the way there clear.
pub open spec fn reached_in(f: int, r: int, df: int, dr: int, occ: u64, k: int, j: int) -> bool {
    &&& on_board(f + steps(k, df), r + steps(k, dr))
    &&& j == square_at(f + steps(k, df), r + steps(k, dr))
    &&& path_clear(f, r, df, dr, occ, k)
}

/// A ray reaches square `j` exactly when `j` lies some number of steps away, within the
/// ray's length, with no occupied square before it.
#[verifier::rlimit(40)]
pub proof fn lemma_ray_hit_reached(f: int, r: int, df: int, dr: int, occ: u64, n: nat, j: int)
    requires
        on_board(f, r),
        -1 <= df <= 1,
        -1 <= dr <= 1,
    ensures
        ray_hit(f, r, df, dr, occ, n, j) <==> exists|k: int|
            1 <= k <= n && #[trigger] reached_in(f, r, df, dr, occ, k, j),
    decreases n,
{
    if n == 0 {
    } else if !on_board(f + df, r + dr) {
        assert forall|k: int| 1 <= k <= n implies !#[trigger] reached_in(
            f,
            r,
            df,
            dr,
            occ,
            k,
            j,
        ) by {
            if reached_in(f, r, df, dr, occ, k, j) {
                // a square the ray reaches lies beyond the first step, which is off the board
                assert(on_board(f + steps(k, df), r + steps(k, dr)));
            }
        }
    } else {
        let f1 = f + df;
        let r1 = r + dr;
        lemma_ray_hit_reached(f1, r1, df, dr, occ, (n - 1) as nat, j);
        if ray_hit(f, r, df, dr, occ, n, j) {
            if j == square_at(f1, r1) {
                assert(reached_in(f, r, df, dr, occ, 1, j));
            } else {
                let k1 = choose|k: int|
                    1 <= k <= n - 1 && #[trigger] reached_in(f1, r1, df, dr, occ, k, j);
                assert forall|m: int| 1 <= m < k1 + 1 implies !#[trigger] has_bit(
                    occ,
                    square_at(f + steps(m, df), r + steps(m, dr)),
                ) by {
                    if m > 1 {
                        assert(square_at(f + steps(m, df), r + steps(m, dr)) == square_at(
                            f1 + steps(m - 1, df),
                            r1 + steps(m - 1, dr),
                        ));
                    }
                }
                assert(reached_in(f, r, df, dr, occ, k1 + 1, j));
            }
        }
        if exists|k: int| 1 <= k <= n && #[trigger] reached_in(f, r, df, dr, occ, k, j) {
            let k = choose|k: int| 1 <= k <= n && #[trigger] reached_in(f, r, df, dr, occ, k, j);
            if k > 1 {
                assert(!has_bit(occ, square_at(f + steps(1, df), r + steps(1, dr))));
                assert forall|m: int| 1 <= m < k - 1 implies !#[trigger] has_bit(
                    occ,
                    square_at(f1 + steps(m, df), r1 + steps(m, dr)),
                ) by {
                    assert(square_at(f1 + steps(m, df), r1 + steps(m, dr)) == square_at(
                        f + steps(m + 1, df),
                        r + steps(m + 1, dr),
                    ));
                }
                assert(reached_in(f1, r1, df, dr, occ, k - 1, j));
            }
        }
    }
}

/// A ray never comes back to the square it starts from.
proof fn lemma_ray_attack_irreflexive(i: int, df: int, dr: int, occ: u64)
    requires
        0 <= i < 64,
        -1 <= df <= 1,
        -1 <= dr <= 1,
        df != 0 || dr != 0,
    ensures
        !ray_attack(i, df, dr, occ, i),
{
    lemma_coords_of(i);
    lemma_ray_hit_reached(file_of(i), rank_of(i), df, dr, occ, 7, i);
    if ray_attack(i, df, dr, occ, i) {
        let k = choose|k: int| 1 <= k <= 7 && #[trigger] reached_in(file_of(i), rank_of(i), df, dr, occ, k, i);
        let f2 = file_of(i) + steps(k, df);
        let r2 = rank_of(i) + steps(k, dr);
        lemma_square_at(f2, r2);
    }
}

/// No piece attacks the square it stands on.
pub proof fn lemma_piece_attack_irreflexive(p: Piece, i: int, occ: u64)
    requires
        0 <= i < 64,
    ensures
        !piece_attack(p, i, occ, i),
{
    lemma_ray_attack_irreflexive(i, 1, 1, occ);
    lemma_ray_attack_irreflexive(i, -1, 1, occ);
    lemma_ray_attack_irreflexive(i, 1, -1, occ);
    lemma_ray_attack_irreflexive(i, -1, -1, occ);
    lemma_ray_attack_irreflexive(i, 0, 1, occ);
    lemma_ray_attack_irreflexive(i, 0, -1, occ);
    lemma_ray_attack_irreflexive(i, 1, 0, occ);
    lemma_ray_attack_irreflexive(i, -1, 0, occ);
}

/// If square `j` is reached from square `i` along a direction, square `i` is reached from
/// square `j` along the opposite direction.
pub proof fn lemma_ray_attack_symmetric(i: int, df: int, dr: int, occ: u64, j: int)
    requires
        0 <= i < 64,
        -1 <= df <= 1,
        -1 <= dr <= 1,
        df != 0 || dr != 0,
        ray_attack(i, df, dr, occ, j),
    ensures
        ray_attack(j, -df, -dr, occ, i),
{
    let f = file_of(i);
    let r = rank_of(i);
    lemma_coords_of(i);
    lemma_ray_hit_reached(f, r, df, dr, occ, 7, j);
    let k = choose|k: int| 1 <= k <= 7 && #[trigger] reached_in(f, r, df, dr, occ, k, j);
    let fj = f + steps(k, df);
    let rj = r + steps(k, dr);
    lemma_square_at(fj, rj);
    lemma_coords_of(i);
    assert(file_of(j) == fj && rank_of(j) == rj);
    assert(reached_in(fj, rj, -df, -dr, occ, k, i)) by {
        assert forall|m: int| 1 <= m < k implies !#[trigger] has_bit(
            occ,
            square_at(fj + steps(m, -df), rj + steps(m, -dr)),
        ) by {
            assert(square_at(fj + steps(m, -df), rj + steps(m, -dr)) == square_at(
                f + steps(k - m, df),
                r + steps(k - m, dr),
            ));
        }
    }
    lemma_ray_hit_reached(fj, rj, -df, -dr, occ, 7, i);
}

/// Bishops attack both ways: a bishop on `i` attacks `j` exactly when one on `j` attacks `i`.
pub proof fn lemma_bishop_attack_symmetric(i: int, occ: u64, j: int)
    requires
        0 <= i < 64,
        0 <= j < 64,
    ensures
        bishop_attack(i, occ, j) == bishop_attack(j, occ, i),
{
    if ray_attack(i, 1, 1, occ, j) {
        lemma_ray_attack_symmetric(i, 1, 1, occ, j);
    }
    if ray_attack(i, -1, 1, occ, j) {
        lemma_ray_attack_symmetric(i, -1, 1, occ, j);
    }
    if ray_attack(i, 1, -1, occ, j) {
        lemma_ray_attack_symmetric(i, 1, -1, occ, j);
    }
    if ray_attack(i, -1, -1, occ, j) {
        lemma_ray_attack_symmetric(i, -1, -1, occ, j);
    }
    if ray_attack(j, 1, 1, occ, i) {
        lemma_ray_attack_symmetric(j, 1, 1, occ, i);
    }
    if ray_attack(j, -1, 1, occ, i) {
        lemma_ray_attack_symmetric(j, -1, 1, occ, i);
    }
    if ray_attack(j, 1, -1, occ, i) {
        lemma_ray_attack_symmetric(j, 1, -1, occ, i);
    }
    if ray_attack(j, -1, -1, occ, i) {
        lemma_ray_attack_symmetric(j, -1, -1, occ, i);
    }
}

/// Rooks attack both ways: a rook on `i` attacks `j` exactly when one on `j` attacks `i`.
pub proof fn lemma_rook_attack_symmetric(i: int, occ: u64, j: int)
    requires
        0 <= i < 64,
        0 <= j < 64,
    ensures
        rook_attack(i, occ, j) == rook_attack(j, occ, i),
{
    if ray_attack(i, 0, 1, occ, j) {
        lemma_ray_attack_symmetric(i, 0, 1, occ, j);
    }
    if ray_attack(i, 0, -1, occ, j) {
        lemma_ray_attack_symmetric(i, 0, -1, occ, j);
    }
    if ray_attack(i, 1, 0, occ, j) {
        lemma_ray_attack_symmetric(i, 1, 0, occ, j);
    }
    if ray_attack(i, -1, 0, occ, j) {
        lemma_ray_attack_symmetric(i, -1, 0, occ, j);
    }
    if ray_attack(j, 0, 1, occ, i) {
        lemma_ray_attack_symmetric(j, 0, 1, occ, i);
    }
    if ray_attack(j, 0, -1, occ, i) {
        lemma_ray_attack_symmetric(j, 0, -1, occ, i);
    }
    if ray_attack(j, 1, 0, occ, i) {
        lemma_ray_attack_symmetric(j, 1, 0, occ, i);
    }
    if ray_attack(j, -1, 0, occ, i) {
        lemma_ray_attack_symmetric(j, -1, 0, occ, i);
    }
}

/// The squares that hold a piece on the board.
pub open spec fn occupied_bb(board: Board) -> u64 {
    board.colour_bb(Colour::White) | board.colour_bb(Colour::Black)
}

/// The squares a piece `p` on square `i` attacks on the board; a pawn only counts the
/// squares that hold a piece of the other colour.
pub open spec fn attacks_on(board: Board, p: Piece, i: int, j: int) -> bool {
    if kind_of(p) == 0 {
        pawn_attack(i, p.colour_of(), j) && has_bit(board.colour_bb(p.colour_of().opposite()), j)
    } else {
        piece_attack(p, i, occupied_bb(board), j)
    }
}

/// Square `i` is attacked by the piece of `colour` that stands on square `j`.
pub open spec fn attacker_at(board: Board, colour: Colour, i: int, j: int) -> bool {
    &&& 0 <= j < 64
    &&& board.at(j) is Some
    &&& board.at(j)->0.colour_of() == colour
    &&& piece_attack(board.at(j)->0, j, occupied_bb(board), i)
}

/// The squares a bishop on `square` attacks, the pieces on the board blocking.
pub fn get_bishop_attacks(square: Square, board: &Board) -> (res: u64)
    ensures
        forall|j: int|
            #[trigger] has_bit(res, j) == bishop_attack(square.idx(), occupied_bb(*board), j),
{
    let occ = board.occupancy();
    let a = ray_attacks(square, 1, 1, occ);
    let b = ray_attacks(square, -1, 1, occ);
    let c = ray_attacks(square, 1, -1, occ);
    let d = ray_attacks(square, -1, -1, occ);
    a | b | c | d
}

/// The squares a rook on `square` attacks, the pieces on the board blocking.
pub fn get_rook_attacks(square: Square, board: &Board) -> (res: u64)
    ensures
        forall|j: int|
            #[trigger] has_bit(res, j) == rook_attack(square.idx(), occupied_bb(*board), j),
{
    let occ = board.occupancy();
    let a = ray_attacks(square, 0, 1, occ);
    let b = ray_attacks(square, 0, -1, occ);
    let c = ray_attacks(square, 1, 0, occ);
    let d = ray_attacks(square, -1, 0, occ);
    a | b | c | d
}

/// The squares `piece` attacks from `square`.
pub fn get_attacks(piece: Piece, square: Square, board: &Board) -> (res: u64)
    ensures
        forall|j: int| #[trigger] has_bit(res, j) == attacks_on(*board, piece, square.idx(), j),
{
    match piece {
        Piece::WP | Piece::BP => get_pawn_attacks(square, piece.colour(), board),
        Piece::WN | Piece::BN => get_knight_attacks(square),
        Piece::WB | Piece::BB => get_bishop_attacks(square, board),
        Piece::WR | Piece::BR => get_rook_attacks(square, board),
        Piece::WQ | Piece::BQ => get_bishop_attacks(square, board) | get_rook_attacks(square, board),
        Piece::WK | Piece::BK => get_king_attacks(square),
    }
}

/// The squares holding a piece of `colour` that attacks `square`.
pub fn get_attackers(square: Square, colour: Colour, board: &Board) -> (res: u64)
    requires
        board.wf(),
    ensures
        forall|j: int| #[trigger] has_bit(res, j) == attacker_at(*board, colour, square.idx(), j),
{
    let pawn_attacks = get_pawn_attacks(square, colour.flip(), board);
    let knight_attacks = get_knight_attacks(square);
    let bishop_attacks = get_bishop_attacks(square, board);
    let rook_attacks = get_rook_attacks(square, board);
    let queen_attacks = bishop_attacks | rook_attacks;
    let king_attacks = get_king_attacks(square);
    let _index = square.index();
    let res = (board.pieces(Piece::pawn(colour)) & pawn_attacks) | (board.pieces(
        Piece::knight(colour),
    ) & knight_attacks) | (board.pieces(Piece::bishop(colour)) & bishop_attacks) | (
    board.pieces(Piece::rook(colour)) & rook_attacks) | (board.pieces(Piece::queen(colour))
        & queen_attacks) | (board.pieces(Piece::king(colour)) & king_attacks);
    proof {
        let i = square.idx();
        let occ = occupied_bb(*board);
        assert forall|j: int| #[trigger] has_bit(res, j) == attacker_at(*board, colour, i, j) by {
            if 0 <= j < 64 {
                lemma_bishop_attack_symmetric(i, occ, j);
                lemma_rook_attack_symmetric(i, occ, j);
                crate::piece::lemma_of_has_colour_and_kind(colour, 0);
                crate::piece::lemma_of_has_colour_and_kind(colour, 1);
                crate::piece::lemma_of_has_colour_and_kind(colour, 2);
                crate::piece::lemma_of_has_colour_and_kind(colour, 3);
                crate::piece::lemma_of_has_colour_and_kind(colour, 4);
                crate::piece::lemma_of_has_colour_and_kind(colour, 5);
                assert(has_bit(board.piece_bb(Piece::of(colour, 0)), j) == (board.at(j) == Some(Piece::of(colour, 0))));
                assert(has_bit(board.piece_bb(Piece::of(colour, 1)), j) == (board.at(j) == Some(Piece::of(colour, 1))));
                assert(has_bit(board.piece_bb(Piece::of(colour, 2)), j) == (board.at(j) == Some(Piece::of(colour, 2))));
                assert(has_bit(board.piece_bb(Piece::of(colour, 3)), j) == (board.at(j) == Some(Piece::of(colour, 3))));
                assert(has_bit(board.piece_bb(Piece::of(colour, 4)), j) == (board.at(j) == Some(Piece::of(colour, 4))));
                assert(has_bit(board.piece_bb(Piece::of(colour, 5)), j) == (board.at(j) == Some(Piece::of(colour, 5))));
                assert(has_bit(board.colour_bb(colour), j) == (board.at(j) is Some && board.at(j)->0.colour_of() == colour));
                if board.at(j) is Some && board.at(j)->0.colour_of() == colour {
                    crate::piece::lemma_piece_of_colour_and_kind(board.at(j)->0);
                }
            }
        }
    }
    res
}

/// Whether a piece of `colour` attacks `square`.
pub fn is_attacked(square: Square, colour: Colour, board: &Board) -> (res: bool)
    requires
        board.wf(),
    ensures
        res == exists|j: int| #[trigger] attacker_at(*board, colour, square.idx(), j),
{
    let a = get_attackers(square, colour, board);
    proof {
        if a != 0 {
            crate::bitboard::lemma_no_bits_zero_contra(a);
        } else {
            assert forall|j: int| !#[trigger] attacker_at(*board, colour, square.idx(), j) by {
                assert(!has_bit(a, j));
            }
        }
    }
    a != 0
}

/// Whether the king of `colour` is attacked. Where the side has several kings, the one on
/// the lowest square counts.
pub fn is_in_check(colour: Colour, board: &Board) -> (res: bool)
    requires
        board.wf(),
        board.piece_bb(Piece::of(colour, 5)) != 0,
    ensures
        res == exists|j: int|
            #[trigger] attacker_at(*board, colour.opposite(), king_square(*board, colour), j),
{
    let ksq = Square::first(board.pieces(Piece::king(colour)));
    let _index = ksq.index();
    proof {
        crate::bitboard::lemma_lowest_unique(board.piece_bb(Piece::of(colour, 5)), ksq.idx());
        assert(king_square(*board, colour) == ksq.idx());
    }
    let opponent = colour.flip();
    is_attacked(ksq, opponent, board)
}

/// The square of the king of `colour` (the lowest one, should there be several).
pub open spec fn king_square(board: Board, colour: Colour) -> int {
    crate::bitboard::lowest(board.piece_bb(Piece::of(colour, 5)))
}

/// The pawns of `colour` that could capture en passant onto `en_passant_square`.
pub fn get_en_passant_attacks(en_passant_square: Square, colour: Colour, board: &Board) -> (res:
    u64)
    ensures
        forall|j: int|
            #[trigger] has_bit(res, j) == (pawn_attack(en_passant_square.idx(), colour.opposite(), j)
                && has_bit(board.piece_bb(Piece::of(colour, 0)), j)),
{
    let t = pawn_targets(en_passant_square, colour.flip());
    t & board.pieces(Piece::pawn(colour))
}

} // verus!
