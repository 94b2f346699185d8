//! The deterministic pseudo-random generator that producers draw priorities from.

use vstd::prelude::*;

verus! {

/// One step of the xorshift64 generator (shifts 13, 7, 17), on 64-bit words.
pub open spec fn xorshift64_step(x: u64) -> u64 {
    let a = x ^ (x << 13u64);
    let b = a ^ (a >> 7u64);
    b ^ (b << 17u64)
}

/// Advances `state` by one xorshift64 step and returns the new state.
pub fn xorshift64(state: &mut u64) -> (r: u64)
    ensures
        r == xorshift64_step(*old(state)),
        *final(state) == r,
{
    let mut x = *state;
    x ^= x << 13u64;
    x ^= x >> 7u64;
    x ^= x << 17u64;
    *state = x;
    x
}

} // verus!
