use vstd::prelude::*;

verus! {

broadcast use vstd::std_specs::bits::axiom_u64_trailing_zeros;

/// Bit `i` of the bitboard `b` is set (bit 0 is square a1, bit 63 is h8).
pub open spec fn has_bit(b: u64, i: int) -> bool {
    0 <= i < 64 && (b >> (i as u64)) & 1u64 == 1u64
}

/// The squares (as indices 0..64) whose bits are set in `b`.
pub open spec fn bits(b: u64) -> Set<int> {
    Set::new(|i: int| has_bit(b, i))
}

/// Number of set bits among the lowest `n` bits of `b`.
pub open spec fn count_below(b: u64, n: nat) -> nat
    decreases n,
{
    if n == 0 {
        0
    } else {
        count_below(b, (n - 1) as nat) + if has_bit(b, n - 1) {
            1nat
        } else {
            0nat
        }
    }
}

/// Number of set bits of `b`.
pub open spec fn popcount(b: u64) -> nat {
    count_below(b, 64)
}

/// The bitboard with only bit `i` set.
pub open spec fn single(i: int) -> u64 {
    1u64 << (i as u64)
}

proof fn bv_or(a: u64, b: u64, i: u64)
    by (bit_vector)
    requires
        i < 64,
    ensures
        ((a | b) >> i) & 1u64 == 1u64 <==> ((a >> i) & 1u64 == 1u64 || (b >> i) & 1u64 == 1u64),
{
}

proof fn bv_and(a: u64, b: u64, i: u64)
    by (bit_vector)
    requires
        i < 64,
    ensures
        ((a & b) >> i) & 1u64 == 1u64 <==> ((a >> i) & 1u64 == 1u64 && (b >> i) & 1u64 == 1u64),
{
}

proof fn bv_not(a: u64, i: u64)
    by (bit_vector)
    requires
        i < 64,
    ensures
        ((!a) >> i) & 1u64 == 1u64 <==> !((a >> i) & 1u64 == 1u64),
{
}

proof fn bv_xor(a: u64, b: u64, i: u64)
    by (bit_vector)
    requires
        i < 64,
    ensures
        ((a ^ b) >> i) & 1u64 == 1u64 <==> (((a >> i) & 1u64 == 1u64) != ((b >> i) & 1u64
            == 1u64)),
{
}

proof fn bv_single(j: u64, i: u64)
    by (bit_vector)
    requires
        i < 64,
        j < 64,
    ensures
        ((1u64 << j) >> i) & 1u64 == 1u64 <==> i == j,
{
}

proof fn bv_zero(i: u64)
    by (bit_vector)
    ensures
        (0u64 >> i) & 1u64 != 1u64,
{
}

proof fn bv_xor_zero(a: u64, b: u64)
    by (bit_vector)
    requires
        a ^ b == 0,
    ensures
        a == b,
{
}

pub broadcast proof fn lemma_has_bit_or(a: u64, b: u64, i: int)
    ensures
        #[trigger] has_bit(a | b, i) <==> has_bit(a, i) || has_bit(b, i),
{
    if 0 <= i < 64 {
        bv_or(a, b, i as u64);
    }
}

pub broadcast proof fn lemma_has_bit_and(a: u64, b: u64, i: int)
    ensures
        #[trigger] has_bit(a & b, i) <==> has_bit(a, i) && has_bit(b, i),
{
    if 0 <= i < 64 {
        bv_and(a, b, i as u64);
    }
}

pub broadcast proof fn lemma_has_bit_not(a: u64, i: int)
    ensures
        #[trigger] has_bit(!a, i) <==> 0 <= i < 64 && !has_bit(a, i),
{
    if 0 <= i < 64 {
        bv_not(a, i as u64);
    }
}

pub broadcast proof fn lemma_has_bit_xor(a: u64, b: u64, i: int)
    ensures
        #[trigger] has_bit(a ^ b, i) <==> (has_bit(a, i) != has_bit(b, i)),
{
    if 0 <= i < 64 {
        bv_xor(a, b, i as u64);
    }
}

pub broadcast proof fn lemma_has_bit_single(j: int, i: int)
    requires
        0 <= j < 64,
    ensures
        #[trigger] has_bit(single(j), i) <==> i == j,
{
    if 0 <= i < 64 {
        bv_single(j as u64, i as u64);
    }
}

pub broadcast proof fn lemma_has_bit_zero(i: int)
    ensures
        !#[trigger] has_bit(0u64, i),
{
    if 0 <= i < 64 {
        bv_zero(i as u64);
    }
}

pub broadcast group group_bitboard {
    lemma_has_bit_or,
    lemma_has_bit_and,
    lemma_has_bit_not,
    lemma_has_bit_xor,
    lemma_has_bit_single,
    lemma_has_bit_zero,
}

/// A bitboard with no bit set is zero.
pub proof fn lemma_no_bits_zero(x: u64)
    requires
        forall|i: int| 0 <= i < 64 ==> !#[trigger] has_bit(x, i),
    ensures
        x == 0,
{
    let t = x.trailing_zeros();
    if x != 0 {
        assert(has_bit(x, t as int));
    }
}

/// A bitboard that is not zero has a set bit.
pub proof fn lemma_no_bits_zero_contra(x: u64)
    requires
        x != 0,
    ensures
        exists|i: int| 0 <= i < 64 && #[trigger] has_bit(x, i),
{
    let t = x.trailing_zeros();
    assert(has_bit(x, t as int));
}

/// The lowest set bit of a bitboard (64 when there is none).
pub open spec fn lowest(b: u64) -> int {
    if exists|i: int| 0 <= i < 64 && #[trigger] has_bit(b, i) {
        choose|i: int|
            0 <= i < 64 && has_bit(b, i) && forall|j: int| 0 <= j < i ==> !#[trigger] has_bit(b, j)
    } else {
        64
    }
}

/// A set bit with no set bit below it is the lowest bit.
pub proof fn lemma_lowest_unique(b: u64, i: int)
    requires
        0 <= i < 64,
        has_bit(b, i),
        forall|j: int| 0 <= j < i ==> !#[trigger] has_bit(b, j),
    ensures
        lowest(b) == i,
{
    let k = choose|k: int|
        0 <= k < 64 && has_bit(b, k) && forall|j: int| 0 <= j < k ==> !#[trigger] has_bit(b, j);
    assert(has_bit(b, k));
    if k < i {
        assert(!has_bit(b, k));
    }
    if i < k {
        assert(!has_bit(b, i));
    }
}

/// Two bitboards with the same bits are equal.
pub proof fn lemma_bits_ext(a: u64, b: u64)
    requires
        forall|i: int| 0 <= i < 64 ==> #[trigger] has_bit(a, i) == has_bit(b, i),
    ensures
        a == b,
{
    broadcast use group_bitboard;

    assert forall|i: int| 0 <= i < 64 implies !#[trigger] has_bit(a ^ b, i) by {
        assert(has_bit(a, i) == has_bit(b, i));
    }
    lemma_no_bits_zero(a ^ b);
    bv_xor_zero(a, b);
}

/// Counts the set bits of `b`.
pub fn count_ones(b: u64) -> (r: u32)
    ensures
        r == popcount(b),
        r <= 64,
{
    let mut n: u32 = 0;
    let mut i: u64 = 0;
    while i < 64
        invariant
            i <= 64,
            n == count_below(b, i as nat),
            n <= i,
        decreases 64 - i,
    {
        if (b >> i) & 1 == 1 {
            n = n + 1;
        }
        i = i + 1;
    }
    n
}

/// The sum of `f` over the squares below `n`.
pub open spec fn square_sum(f: spec_fn(int) -> int, n: int) -> int
    decreases n,
{
    if n <= 0 {
        0
    } else {
        square_sum(f, n - 1) + f(n - 1)
    }
}

/// Squares where `f` is zero add nothing to the sum.
pub proof fn lemma_square_sum_gap(f: spec_fn(int) -> int, a: int, b: int)
    requires
        0 <= a <= b,
        forall|i: int| a <= i < b ==> #[trigger] f(i) == 0,
    ensures
        square_sum(f, b) == square_sum(f, a),
    decreases b - a,
{
    if b > a {
        lemma_square_sum_gap(f, a, b - 1);
    }
}

/// A sum of `n` terms each at most `m` in size is at most `m * n` in size.
pub proof fn lemma_square_sum_bound(f: spec_fn(int) -> int, n: int, m: int)
    requires
        0 <= n,
        0 <= m,
        forall|i: int| 0 <= i < n ==> -m <= #[trigger] f(i) <= m,
    ensures
        -m * n <= square_sum(f, n) <= m * n,
    decreases n,
{
    if n > 0 {
        lemma_square_sum_bound(f, n - 1, m);
        assert(-m <= f(n - 1) <= m);
        assert(m * (n - 1) + m == m * n) by (nonlinear_arith);
        assert(-m * (n - 1) - m == -m * n) by (nonlinear_arith);
    }
}

/// 1 where `p` holds, else 0.
pub open spec fn indicator(p: spec_fn(int) -> bool) -> spec_fn(int) -> int {
    |i: int|
        if p(i) {
            1int
        } else {
            0int
        }
}

/// The set bits of a bitboard whose bits are those where `p` holds are counted by the sum
/// of the indicator of `p`.
pub proof fn lemma_popcount_count(b: u64, p: spec_fn(int) -> bool, n: nat)
    requires
        n <= 64,
        forall|j: int| 0 <= j < 64 ==> #[trigger] has_bit(b, j) == p(j),
    ensures
        count_below(b, n) == square_sum(indicator(p), n as int),
    decreases n,
{
    if n > 0 {
        lemma_popcount_count(b, p, (n - 1) as nat);
        assert(has_bit(b, n - 1) == p(n - 1));
    }
}

/// Sums of functions that agree below `n` agree.
pub proof fn lemma_square_sum_ext(f: spec_fn(int) -> int, g: spec_fn(int) -> int, n: int)
    requires
        forall|i: int| 0 <= i < n ==> #[trigger] f(i) == g(i),
    ensures
        square_sum(f, n) == square_sum(g, n),
    decreases n,
{
    if n > 0 {
        lemma_square_sum_ext(f, g, n - 1);
        assert(f(n - 1) == g(n - 1));
    }
}

/// A sum of terms that are not negative is not negative.
pub proof fn lemma_square_sum_nonneg(f: spec_fn(int) -> int, n: int)
    requires
        forall|i: int| 0 <= i < n ==> 0 <= #[trigger] f(i),
    ensures
        0 <= square_sum(f, n),
    decreases n,
{
    if n > 0 {
        lemma_square_sum_nonneg(f, n - 1);
        assert(0 <= f(n - 1));
    }
}

/// `f` with its term at `k` set to zero.
pub open spec fn zero_at(f: spec_fn(int) -> int, k: int) -> spec_fn(int) -> int {
    |i: int|
        if i == k {
            0
        } else {
            f(i)
        }
}

/// A sum is the sum without one of its terms, plus that term.
pub proof fn lemma_square_sum_zero_at(f: spec_fn(int) -> int, n: int, k: int)
    requires
        0 <= k < n,
    ensures
        square_sum(f, n) == square_sum(zero_at(f, k), n) + f(k),
    decreases n,
{
    if k == n - 1 {
        lemma_square_sum_ext(f, zero_at(f, k), n - 1);
    } else {
        lemma_square_sum_zero_at(f, n - 1, k);
    }
}

} // verus!
