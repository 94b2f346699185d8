//! The plan of the benchmark workload: how many operations each producer
//! makes, the seeds it draws priorities from, the priorities it picks, the byte
//! pattern it writes, and how many payload slots a producer's pool has.

use crate::{HIGH, LOW, NUM_PRIOS, PRODUCERS};
use vstd::prelude::*;

verus! {

/// Slots per producer pool for a payload of `payload_size` bytes.
pub open spec fn slots_for_size(payload_size: int) -> int {
    if payload_size <= 4 * 1024 {
        64
    } else if payload_size <= 64 * 1024 {
        16
    } else if payload_size <= 1024 * 1024 {
        8
    } else {
        4
    }
}

/// Slots per producer pool: 64 up to 4 KiB payloads, 16 up to 64 KiB, 8 up to
/// 1 MiB, 4 beyond.
pub fn slots_per_producer_for_size(payload_size: usize) -> (r: usize)
    ensures
        r == slots_for_size(payload_size as int),
{
    if payload_size <= 4 * 1024 {
        64
    } else if payload_size <= 64 * 1024 {
        16
    } else if payload_size <= 1024 * 1024 {
        8
    } else {
        4
    }
}

/// Operations producer `producer` makes out of `total_ops`: an equal share,
/// the first `total_ops % PRODUCERS` producers one more.
pub open spec fn share_of(total_ops: int, producer: int) -> int {
    total_ops / (PRODUCERS as int) + (if producer < total_ops % (PRODUCERS as int) {
        1int
    } else {
        0int
    })
}

/// Operations producer `producer` makes out of `total_ops`.
pub fn producer_share(total_ops: u64, producer: usize) -> (r: u64)
    requires
        producer < PRODUCERS,
    ensures
        r == share_of(total_ops as int, producer as int),
{
    let base = total_ops / (PRODUCERS as u64);
    let rem = total_ops % (PRODUCERS as u64);
    base + if (producer as u64) < rem {
        1
    } else {
        0
    }
}

/// Sum of the shares of producers `0` to `k - 1`.
pub open spec fn shares_below(total_ops: int, k: int) -> int
    decreases k,
{
    if k <= 0 {
        0
    } else {
        shares_below(total_ops, k - 1) + share_of(total_ops, k - 1)
    }
}

proof fn lemma_shares_below(total_ops: int, k: int)
    requires
        0 <= total_ops,
        0 <= k <= PRODUCERS,
    ensures
        shares_below(total_ops, k) == k * (total_ops / (PRODUCERS as int)) + (if k < total_ops % (
        PRODUCERS as int) {
            k
        } else {
            total_ops % (PRODUCERS as int)
        }),
    decreases k,
{
    let p = PRODUCERS as int;
    assert(p == 20);
    if k > 0 {
        lemma_shares_below(total_ops, k - 1);
        let b = total_ops / p;
        let r = total_ops % p;
        assert(0 <= r < p);
        assert(k * b == (k - 1) * b + b) by (nonlinear_arith);
        assert(share_of(total_ops, k - 1) == b + (if k - 1 < r {
            1int
        } else {
            0int
        }));
        assert(shares_below(total_ops, k) == shares_below(total_ops, k - 1) + share_of(
            total_ops,
            k - 1,
        ));
        if k - 1 < r {
            assert(shares_below(total_ops, k) == k * b + k);
        } else {
            assert(shares_below(total_ops, k) == k * b + r);
        }
    } else {
        assert(0 * (total_ops / p) == 0);
    }
}

/// Law: the producers' shares add up to exactly `total_ops`, so the consumer,
/// which waits for `total_ops` messages, receives every one of them.
pub proof fn lemma_shares_cover_total(total_ops: u64)
    ensures
        shares_below(total_ops as int, PRODUCERS as int) == total_ops,
{
    lemma_shares_below(total_ops as int, PRODUCERS as int);
    let t = total_ops as int;
    assert(t == 20 * (t / 20) + t % 20) by (nonlinear_arith);
}

/// The 64-bit product `a * b` with the high bits dropped.
pub open spec fn mul_low64(a: int, b: int) -> u64 {
    ((a * b) % 0x1_0000_0000_0000_0000) as u64
}

/// Generator seed of producer `producer` in the two-class workload.
pub fn dual_producer_seed(producer: usize) -> (r: u64)
    requires
        producer < PRODUCERS,
    ensures
        r == 0x9E3779B97F4A7C15u64 ^ mul_low64(producer + 1, 0xD1B54A32D192ED03),
{
    0x9E3779B97F4A7C15u64 ^ (producer as u64 + 1).wrapping_mul(0xD1B54A32D192ED03u64)
}

/// Generator seed of producer `producer` in the many-level workload.
pub fn prio101_producer_seed(producer: usize) -> (r: u64)
    requires
        producer < PRODUCERS,
    ensures
        r == 0xC2B2AE3D27D4EB4Fu64 ^ mul_low64(producer + 1, 0x165667B19E3779F9),
{
    0xC2B2AE3D27D4EB4Fu64 ^ (producer as u64 + 1).wrapping_mul(0x165667B19E3779F9u64)
}

/// Class of a two-class message from a generator output: HIGH when its lowest
/// bit is 0, LOW otherwise.
pub fn dual_priority_from(r: u64) -> (p: u8)
    ensures
        p == (if r % 2 == 0 {
            HIGH
        } else {
            LOW
        }),
{
    proof {
        assert((r & 1u64) == 0u64 <==> r % 2 == 0) by (bit_vector);
    }
    if (r & 1) == 0 {
        HIGH
    } else {
        LOW
    }
}

/// Level of a many-level message from a generator output: the output modulo
/// the number of levels.
pub fn prio101_priority_from(r: u64) -> (p: u8)
    ensures
        p == r % (NUM_PRIOS as u64),
        p < NUM_PRIOS,
{
    (r % (NUM_PRIOS as u64)) as u8
}

/// Byte pattern producer `producer` writes for its `n`-th message: both
/// numbers' low bytes added with wrap-around.
pub fn payload_pattern(n: u64, producer: usize) -> (b: u8)
    ensures
        b == ((n % 256) + (producer % 256)) % 256,
{
    let a = n as u8;
    let c = producer as u8;
    proof {
        assert(a == n % 256) by (bit_vector)
            requires
                a == n as u8,
        ;
        assert(c == producer % 256) by (bit_vector)
            requires
                c == producer as u8,
        ;
    }
    a.wrapping_add(c)
}

} // verus!
