//! The linear congruential stream that paces floor ripple effects.

use vstd::prelude::*;

verus! {

/// One step of the 64-bit linear congruential generator: multiply by
/// 6364136223846793005, add 1, modulo `2^64`.
pub open spec fn lcg_step(seed: u64) -> u64 {
    ((seed as int * 6364136223846793005int + 1) % 0x1_0000_0000_0000_0000int) as u64
}

/// Advances `seed` one step of the generator and returns the new state.
pub fn next_random_u64(seed: &mut u64) -> (r: u64)
    ensures
        *final(seed) == lcg_step(*old(seed)),
        r == *final(seed),
{
    let s = *seed;
    let m = s.wrapping_mul(6364136223846793005u64);
    let n = m.wrapping_add(1);
    proof {
        let p = s as int * 6364136223846793005int;
        let q = 0x1_0000_0000_0000_0000int;
        assert(m as int == p % q);
        assert(n as int == (m as int + 1) % q);
        assert((p % q + 1) % q == (p + 1) % q) by {
            vstd::arithmetic::div_mod::lemma_add_mod_noop(p, 1, q);
            vstd::arithmetic::div_mod::lemma_small_mod(1, q as nat);
        }
    }
    *seed = n;
    n
}

} // verus!
