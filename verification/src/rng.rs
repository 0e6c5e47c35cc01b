use vstd::prelude::*;

verus! {

/// One step of the xorshift generator.
pub open spec fn xorshift_step(x: u64) -> u64 {
    let a = x ^ (x << 13u64);
    let b = a ^ (a >> 7u64);
    b ^ (b << 17u64)
}

/// The state of the generator after `n` steps from `seed`.
pub open spec fn xorshift_nth(seed: u64, n: nat) -> u64
    decreases n,
{
    if n == 0 {
        seed
    } else {
        xorshift_step(xorshift_nth(seed, (n - 1) as nat))
    }
}

/// A xorshift random number generator, used to fill tables deterministically.
pub struct XorShift64(u64);

impl XorShift64 {
    /// The state of the generator.
    pub closed spec fn state(self) -> u64 {
        self.0
    }

    pub fn new(seed: u64) -> (r: XorShift64)
        ensures
            r.state() == seed,
    {
        XorShift64(seed)
    }

    /// Steps the generator and returns its new state; there is always a next number.
    pub fn next(&mut self) -> (r: Option<u64>)
        ensures
            final(self).state() == xorshift_step(old(self).state()),
            r == Some(final(self).state()),
    {
        let mut x = self.0;
        x = x ^ (x << 13);
        x = x ^ (x >> 7);
        x = x ^ (x << 17);
        self.0 = x;
        Some(x)
    }
}

proof fn bv_shift_xor_left(x: u64, k: u64)
    by (bit_vector)
    requires
        1 <= k < 64,
        x != 0,
    ensures
        x ^ (x << k) != 0,
{
}

proof fn bv_shift_xor_right(x: u64, k: u64)
    by (bit_vector)
    requires
        1 <= k < 64,
        x != 0,
    ensures
        x ^ (x >> k) != 0,
{
}

/// A generator started from a seed other than zero never reaches zero, where it would
/// stay: every step maps only zero to zero.
pub proof fn lemma_never_zero(seed: u64, n: nat)
    requires
        seed != 0,
    ensures
        xorshift_nth(seed, n) != 0,
    decreases n,
{
    if n > 0 {
        lemma_never_zero(seed, (n - 1) as nat);
        let x = xorshift_nth(seed, (n - 1) as nat);
        bv_shift_xor_left(x, 13);
        let a = x ^ (x << 13u64);
        bv_shift_xor_right(a, 7);
        let b = a ^ (a >> 7u64);
        bv_shift_xor_left(b, 17);
    }
}

} // verus!
