//! Producer-owned payload pools: fixed-size byte slots that a producer fills
//! and the consumer reads, each slot free or in use.

use vstd::arithmetic::div_mod::{
    lemma_fundamental_div_mod, lemma_fundamental_div_mod_converse_mod, lemma_mod_bound,
    lemma_small_mod,
};
use vstd::prelude::*;

verus! {

/// Stepping cyclically: the slot after `(h + t) % n` is `(h + t + 1) % n`.
proof fn lemma_cyclic_next(h: int, t: int, n: int)
    requires
        0 <= h < n,
        0 <= t,
    ensures
        0 <= (h + t) % n < n,
        (if (h + t) % n + 1 == n {
            0
        } else {
            (h + t) % n + 1
        }) == (h + t + 1) % n,
{
    let x = h + t;
    lemma_fundamental_div_mod(x, n);
    lemma_mod_bound(x, n);
    let q = x / n;
    let s = x % n;
    if s + 1 == n {
        assert(x + 1 == (q + 1) * n + 0) by (nonlinear_arith)
            requires
                x == n * q + s,
                s + 1 == n,
        ;
        lemma_fundamental_div_mod_converse_mod(x + 1, n, q + 1, 0);
    } else {
        assert(x + 1 == q * n + (s + 1)) by (nonlinear_arith)
            requires
                x == n * q + s,
        ;
        lemma_fundamental_div_mod_converse_mod(x + 1, n, q, s + 1);
    }
}

/// Slot `slot` of `n` slots of `ps` bytes each occupies bytes `slot * ps` up to
/// `slot * ps + ps`, inside the `n * ps` bytes of the pool.
proof fn lemma_slot_range(slot: int, n: int, ps: int)
    requires
        0 <= slot < n,
        ps > 0,
    ensures
        0 <= slot * ps,
        (slot + 1) * ps == slot * ps + ps,
        (slot + 1) * ps <= n * ps,
{
    assert((slot + 1) * ps <= n * ps) by (nonlinear_arith)
        requires
            slot + 1 <= n,
            ps > 0,
    ;
    assert((slot + 1) * ps == slot * ps + ps) by (nonlinear_arith);
    assert(0 <= slot * ps) by (nonlinear_arith)
        requires
            slot >= 0,
            ps > 0,
    ;
}

/// Slot `(h + t) % n` lies `t` steps after `h` going round the slots.
proof fn lemma_cyclic_dist(h: int, t: int, n: int)
    requires
        0 <= h < n,
        0 <= t < n,
    ensures
        0 <= (h + t) % n < n,
        ((h + t) % n - h + n) % n == t,
{
    if h + t < n {
        lemma_fundamental_div_mod_converse_mod(h + t, n, 0, h + t);
        lemma_fundamental_div_mod_converse_mod(h + t - h + n, n, 1, t);
    } else {
        lemma_fundamental_div_mod_converse_mod(h + t, n, 1, h + t - n);
        lemma_fundamental_div_mod_converse_mod(h + t - n - h + n, n, 0, t);
    }
}

/// Slot `i` is reached from `h` after `(i - h + n) % n` steps going round.
proof fn lemma_dist_back(h: int, i: int, n: int)
    requires
        0 <= h < n,
        0 <= i < n,
    ensures
        0 <= (i - h + n) % n < n,
        (h + (i - h + n) % n) % n == i,
{
    if i >= h {
        lemma_fundamental_div_mod_converse_mod(i - h + n, n, 1, i - h);
        lemma_fundamental_div_mod_converse_mod(i, n, 0, i);
    } else {
        lemma_fundamental_div_mod_converse_mod(i - h + n, n, 0, i - h + n);
        lemma_fundamental_div_mod_converse_mod(i + n, n, 1, i);
    }
}

/// The slot found by scanning cyclically from `start`, trying offsets `k`,
/// `k + 1`, ... below `free.len()`: the first free one, or `None`.
pub open spec fn first_free_from(free: Seq<bool>, start: int, k: nat) -> Option<int>
    decreases free.len() - k,
{
    if k >= free.len() {
        None
    } else if free[(start + k) % (free.len() as int)] {
        Some((start + k) % (free.len() as int))
    } else {
        first_free_from(free, start, k + 1)
    }
}

/// XOR of the first byte of each of the first `k` 64-byte lines of `b`.
pub open spec fn lines_xor(b: Seq<u8>, k: nat) -> u64
    decreases k,
{
    if k == 0 {
        0
    } else {
        lines_xor(b, (k - 1) as nat) ^ (b[64 * (k - 1)] as u64)
    }
}

/// What reading a slot's bytes `b` yields: the XOR of the first byte of every
/// 64-byte line, then of the last byte.
pub open spec fn touch_value(b: Seq<u8>) -> u64 {
    lines_xor(b, ((b.len() + 63) / 64) as nat) ^ (b[b.len() - 1] as u64)
}

/// Producer-owned pool of `slots` payload buffers of `payload_size` bytes each,
/// stored one after the other, with a free flag per slot.
pub struct ProducerPool {
    payload_size: usize,
    slots: usize,
    storage: Vec<u8>,
    free: Vec<bool>,
}

impl ProducerPool {
    /// Number of slots.
    pub closed spec fn slot_count(&self) -> nat {
        self.slots as nat
    }

    /// Bytes per slot.
    pub closed spec fn payload_len(&self) -> nat {
        self.payload_size as nat
    }

    /// Per slot: free (`true`) or in use (`false`).
    pub closed spec fn free_flags(&self) -> Seq<bool> {
        self.free@
    }

    /// All payload bytes, slot after slot.
    pub closed spec fn bytes(&self) -> Seq<u8> {
        self.storage@
    }

    /// The bytes of slot `slot`.
    pub open spec fn slot_bytes(&self, slot: int) -> Seq<u8> {
        self.bytes().subrange(slot * self.payload_len(), (slot + 1) * self.payload_len())
    }

    /// The pool's sizes agree with one another.
    pub closed spec fn wf(&self) -> bool {
        &&& self.payload_size > 0
        &&& self.slots > 0
        &&& self.free@.len() == self.slots
        &&& self.slots * self.payload_size <= usize::MAX
        &&& self.storage@.len() == self.slots * self.payload_size
    }

    /// The sizes a well-formed pool keeps: at least one slot of at least one
    /// byte, one free flag per slot and `payload_len()` bytes per slot.
    pub proof fn lemma_sizes(&self)
        requires
            self.wf(),
        ensures
            self.slot_count() > 0,
            self.payload_len() > 0,
            self.free_flags().len() == self.slot_count(),
            self.bytes().len() == self.slot_count() * self.payload_len(),
            self.slot_count() * self.payload_len() <= usize::MAX,
    {
    }

    /// Number of slots.
    pub fn slots(&self) -> (n: usize)
        ensures
            n == self.slot_count(),
    {
        self.slots
    }

    /// A pool of `slots` free slots of `payload_size` zero bytes each.
    pub fn new(slots: usize, payload_size: usize) -> (p: Self)
        requires
            payload_size > 0,
            slots > 0,
            slots * payload_size <= usize::MAX,
        ensures
            p.wf(),
            p.slot_count() == slots,
            p.payload_len() == payload_size,
            p.free_flags() == Seq::new(slots as nat, |i: int| true),
            p.bytes() == Seq::new((slots * payload_size) as nat, |i: int| 0u8),
    {
        let total = slots * payload_size;
        let mut storage: Vec<u8> = Vec::new();
        let mut i: usize = 0;
        while i < total
            invariant
                i <= total,
                storage@ == Seq::new(i as nat, |j: int| 0u8),
            decreases total - i,
        {
            storage.push(0u8);
            i = i + 1;
            assert(storage@ =~= Seq::new(i as nat, |j: int| 0u8));
        }
        let mut free: Vec<bool> = Vec::new();
        let mut j: usize = 0;
        while j < slots
            invariant
                j <= slots,
                free@ == Seq::new(j as nat, |k: int| true),
            decreases slots - j,
        {
            free.push(true);
            j = j + 1;
            assert(free@ =~= Seq::new(j as nat, |k: int| true));
        }
        ProducerPool { payload_size, slots, storage, free }
    }

    /// One round over all slots, starting at `*rr_hint`: takes the first free
    /// slot it meets, marks it in use and returns it; `*rr_hint` moves to the
    /// slot after it. With no free slot, returns `None` and changes nothing.
    pub fn try_acquire_slot(&mut self, rr_hint: &mut usize) -> (r: Option<u16>)
        requires
            old(self).wf(),
            *old(rr_hint) < old(self).slot_count(),
        ensures
            final(self).wf(),
            final(self).slot_count() == old(self).slot_count(),
            final(self).payload_len() == old(self).payload_len(),
            final(self).bytes() == old(self).bytes(),
            match first_free_from(old(self).free_flags(), *old(rr_hint) as int, 0) {
                None => {
                    &&& r is None
                    &&& final(self).free_flags() == old(self).free_flags()
                    &&& *final(rr_hint) == *old(rr_hint)
                },
                Some(s) => {
                    &&& r == Some(s as u16)
                    &&& final(self).free_flags() == old(self).free_flags().update(s, false)
                    &&& *final(rr_hint) == (if s + 1 == old(self).slot_count() {
                        0
                    } else {
                        s + 1
                    })
                },
            },
            ({
                let n = old(self).slot_count() as int;
                let h = *old(rr_hint) as int;
                &&& r is None ==> forall|i: int| 0 <= i < n ==> !#[trigger] old(self).free_flags()[i]
                &&& r matches Some(v) ==> exists|s: int|
                    0 <= s < n && #[trigger] old(self).free_flags()[s] && v == s as u16 && (forall|i: int|
                        0 <= i < n && (i - h + n) % n < (s - h + n) % n ==> !#[trigger] old(
                            self,
                        ).free_flags()[i]) && final(self).free_flags() == old(self).free_flags().update(
                        s,
                        false,
                    ) && *final(rr_hint) == (if s + 1 == n {
                        0
                    } else {
                        s + 1
                    })
            }),
    {
        let n = self.slots;
        let ghost h = *rr_hint as int;
        let mut tries: usize = 0;
        proof {
            lemma_small_mod(h as nat, n as nat);
        }
        while tries < n
            invariant
                *self == *old(self),
                self.wf(),
                n == self.slots,
                h == *old(rr_hint) as int,
                0 <= h < n,
                tries <= n,
                *rr_hint as int == (h + tries) % (n as int),
                first_free_from(self.free@, h, 0) == first_free_from(self.free@, h, tries as nat),
                forall|i: int|
                    0 <= i < n && (i - h + n) % (n as int) < tries ==> !#[trigger] self.free@[i],
            decreases n - tries,
        {
            let s = *rr_hint;
            *rr_hint = *rr_hint + 1;
            if *rr_hint == n {
                *rr_hint = 0;
            }
            proof {
                lemma_cyclic_next(h, tries as int, n as int);
            }
            proof {
                lemma_cyclic_dist(h, tries as int, n as int);
            }
            if self.free[s] {
                assert(first_free_from(self.free@, h, tries as nat) == Some(s as int));
                self.free.set(s, false);
                return Some(s as u16);
            }
            proof {
                assert forall|i: int|
                    0 <= i < n && (i - h + n) % (n as int) < tries + 1 implies !#[trigger] self.free@[i] by {
                    lemma_dist_back(h, i, n as int);
                }
            }
            tries = tries + 1;
        }
        proof {
            lemma_fundamental_div_mod_converse_mod(h + n, n as int, 1, h);
            assert forall|i: int| 0 <= i < n implies !#[trigger] self.free@[i] by {
                lemma_dist_back(h, i, n as int);
            }
        }
        None
    }

    /// Takes a free slot, as one round of [`Self::try_acquire_slot`] does;
    /// some slot must be free.
    pub fn acquire_slot(&mut self, rr_hint: &mut usize) -> (r: u16)
        requires
            old(self).wf(),
            *old(rr_hint) < old(self).slot_count(),
            exists|i: int| 0 <= i < old(self).slot_count() && #[trigger] old(self).free_flags()[i],
        ensures
            final(self).wf(),
            final(self).slot_count() == old(self).slot_count(),
            final(self).payload_len() == old(self).payload_len(),
            final(self).bytes() == old(self).bytes(),
            first_free_from(old(self).free_flags(), *old(rr_hint) as int, 0) matches Some(s) && {
                &&& r == s as u16
                &&& final(self).free_flags() == old(self).free_flags().update(s, false)
                &&& *final(rr_hint) == (if s + 1 == old(self).slot_count() {
                        0
                    } else {
                        s + 1
                    })
            },
            ({
                let n = old(self).slot_count() as int;
                let h = *old(rr_hint) as int;
                exists|s: int|
                    0 <= s < n && #[trigger] old(self).free_flags()[s] && r == s as u16 && (forall|i: int|
                        0 <= i < n && (i - h + n) % n < (s - h + n) % n ==> !#[trigger] old(
                            self,
                        ).free_flags()[i]) && final(self).free_flags() == old(self).free_flags().update(
                        s,
                        false,
                    ) && *final(rr_hint) == (if s + 1 == n {
                        0
                    } else {
                        s + 1
                    })
            }),
    {
        proof {
            let i = choose|i: int| 0 <= i < old(self).slot_count() && #[trigger] old(self).free_flags()[i];
            lemma_scan_finds_free(old(self).free_flags(), *old(rr_hint) as int, i);
        }
        match self.try_acquire_slot(rr_hint) {
            Some(s) => s,
            // Unreachable: a slot is free, so the round finds one.
            None => 0,
        }
    }

    /// Marks slot `slot` free.
    pub fn release_slot(&mut self, slot: u16)
        requires
            old(self).wf(),
            slot < old(self).slot_count(),
        ensures
            final(self).wf(),
            final(self).slot_count() == old(self).slot_count(),
            final(self).payload_len() == old(self).payload_len(),
            final(self).bytes() == old(self).bytes(),
            final(self).free_flags() == old(self).free_flags().update(slot as int, true),
    {
        self.free.set(slot as usize, true);
    }

    /// Fills every byte of slot `slot` with `pattern`.
    pub fn write_payload(&mut self, slot: u16, pattern: u8)
        requires
            old(self).wf(),
            slot < old(self).slot_count(),
        ensures
            final(self).wf(),
            final(self).slot_count() == old(self).slot_count(),
            final(self).payload_len() == old(self).payload_len(),
            final(self).free_flags() == old(self).free_flags(),
            final(self).slot_bytes(slot as int).len() == old(self).payload_len(),
            forall|i: int|
                0 <= i < old(self).payload_len() ==> #[trigger] final(self).slot_bytes(slot as int)[i]
                    == pattern,
            final(self).bytes() == Seq::new(
                old(self).bytes().len(),
                |i: int|
                    if slot * old(self).payload_len() <= i < (slot + 1) * old(self).payload_len() {
                        pattern
                    } else {
                        old(self).bytes()[i]
                    },
            ),
    {
        let ps = self.payload_size;
        let ghost n = self.slots as int;
        proof {
            lemma_slot_range(slot as int, n, ps as int);
        }
        let off = slot as usize * ps;
        let ghost lo = off as int;
        let ghost target = Seq::new(
            old(self).bytes().len(),
            |i: int| if lo <= i < lo + ps { pattern } else { old(self).bytes()[i] },
        );
        let mut i: usize = 0;
        while i < ps
            invariant
                self.wf(),
                self.slots == old(self).slots,
                self.payload_size == ps,
                self.free@ == old(self).free@,
                lo == off,
                lo + ps <= self.storage@.len(),
                i <= ps,
                self.storage@.len() == old(self).bytes().len(),
                forall|j: int|
                    0 <= j < self.storage@.len() ==> #[trigger] self.storage@[j] == (if lo <= j < lo + i {
                        pattern
                    } else {
                        old(self).bytes()[j]
                    }),
            decreases ps - i,
        {
            self.storage.set(off + i, pattern);
            i = i + 1;
        }
        assert(self.storage@ =~= target);
        assert forall|j: int| 0 <= j < ps implies #[trigger] self.slot_bytes(slot as int)[j] == pattern by {
            assert(self.slot_bytes(slot as int)[j] == self.storage@[lo + j]);
        }
    }

    /// Reads slot `slot`: the XOR of one byte per 64-byte line (offsets 0, 64,
    /// 128, ...) and of the slot's last byte.
    pub fn touch_payload(&self, slot: u16) -> (r: u64)
        requires
            self.wf(),
            slot < self.slot_count(),
        ensures
            r == touch_value(self.slot_bytes(slot as int)),
    {
        let ps = self.payload_size;
        let ghost n = self.slots as int;
        proof {
            lemma_slot_range(slot as int, n, ps as int);
        }
        let off = slot as usize * ps;
        let ghost b = self.slot_bytes(slot as int);
        assert(b.len() == ps);
        let mut acc: u64 = 0;
        let mut i: usize = 0;
        let ghost mut k: nat = 0;
        while i < ps
            invariant
                b == self.storage@.subrange(off as int, off + ps),
                off + ps <= self.storage@.len(),
                self.storage@.len() <= usize::MAX,
                b.len() == ps,
                i <= ps,
                i < ps ==> i == 64 * k,
                i == ps ==> k == (ps + 63) / 64,
                acc == lines_xor(b, k),
            decreases ps - i,
        {
            acc = acc ^ (self.storage[off + i] as u64);
            proof {
                assert(b[64 * k as int] == self.storage@[off + i]);
                k = k + 1;
            }
            if ps - i > 64 {
                i = i + 64;
            } else {
                proof {
                    assert(k == (ps + 63) / 64) by (nonlinear_arith)
                        requires
                            i == 64 * (k - 1),
                            ps - i <= 64,
                            i < ps,
                            k >= 1,
                    ;
                }
                i = ps;
            }
        }
        acc = acc ^ (self.storage[off + ps - 1] as u64);
        acc
    }
}

proof fn lemma_scan_finds_free_from(free: Seq<bool>, start: int, k: nat, i: int)
    requires
        0 <= start < free.len(),
        k <= free.len(),
        0 <= i < free.len(),
        free[i],
        forall|j: nat| j < k ==> !#[trigger] free[(start + j) % (free.len() as int)],
    ensures
        first_free_from(free, start, k) is Some,
    decreases free.len() - k,
{
    let n = free.len() as int;
    if k < n {
        if !free[(start + k) % n] {
            lemma_scan_finds_free_from(free, start, k + 1, i);
        }
    } else {
        // Every offset was tried, so slot i was too.
        let off: nat = (if i >= start { i - start } else { i - start + n }) as nat;
        assert((start + off) % n == i) by (nonlinear_arith)
            requires
                off == (if i >= start { i - start } else { i - start + n }),
                0 <= i < n,
                0 <= start < n,
        ;
        assert(!free[(start + off) % n]);
    }
}

/// Law: a scan from any start finds a slot exactly when some slot is free,
/// and the slot it finds is a free one.
pub proof fn lemma_scan_finds_free(free: Seq<bool>, start: int, i: int)
    requires
        0 <= start < free.len(),
        0 <= i < free.len(),
        free[i],
    ensures
        first_free_from(free, start, 0) is Some,
{
    lemma_scan_finds_free_from(free, start, 0, i);
}

proof fn lemma_scan_from_result(free: Seq<bool>, start: int, k: nat)
    requires
        free.len() > 0,
    ensures
        first_free_from(free, start, k) matches Some(s) ==> 0 <= s < free.len() && free[s],
    decreases free.len() - k,
{
    if k < free.len() {
        lemma_mod_bound(start + k, free.len() as int);
        lemma_scan_from_result(free, start, k + 1);
    }
}

/// Law: a scan only ever hands out a slot that exists and is free, so an
/// acquired slot is never one already in use.
pub proof fn lemma_scan_result_free(free: Seq<bool>, start: int)
    requires
        free.len() > 0,
    ensures
        first_free_from(free, start, 0) matches Some(s) ==> 0 <= s < free.len() && free[s],
{
    lemma_scan_from_result(free, start, 0);
}

/// Law: releasing the slot that an acquire took gives back the free flags the
/// pool had before the acquire.
pub proof fn lemma_release_undoes_acquire(free: Seq<bool>, start: int)
    requires
        free.len() > 0,
        first_free_from(free, start, 0) is Some,
    ensures
        ({
            let s = first_free_from(free, start, 0)->0;
            free.update(s, false).update(s, true) == free
        }),
{
    lemma_scan_result_free(free, start);
    let s = first_free_from(free, start, 0)->0;
    assert(free.update(s, false).update(s, true) =~= free);
}

/// Law: when `s` is the only free slot, an acquire from any start takes `s`;
/// a released slot is acquirable again.
pub proof fn lemma_only_free_slot(free: Seq<bool>, start: int, s: int)
    requires
        0 <= start < free.len(),
        0 <= s < free.len(),
        free[s],
        forall|i: int| 0 <= i < free.len() && i != s ==> !#[trigger] free[i],
    ensures
        first_free_from(free, start, 0) == Some(s),
{
    lemma_scan_finds_free(free, start, s);
    lemma_scan_result_free(free, start);
}

proof fn lemma_xor_self_zero(x: u64)
    by (bit_vector)
    ensures
        x ^ x == 0u64,
        0u64 ^ x == x,
{
}

proof fn lemma_lines_xor_uniform(b: Seq<u8>, k: nat, pattern: u8)
    requires
        64 * k <= b.len() + 63,
        forall|i: int| 0 <= i < b.len() ==> #[trigger] b[i] == pattern,
    ensures
        lines_xor(b, k) == (if k % 2 == 1 {
            pattern as u64
        } else {
            0u64
        }),
    decreases k,
{
    if k > 0 {
        lemma_lines_xor_uniform(b, (k - 1) as nat, pattern);
        lemma_xor_self_zero(pattern as u64);
        assert(b[64 * (k - 1)] == pattern);
    }
}

/// Law: two acquires never hand out the same slot without a release between
/// them: after an acquire takes slot `s`, the next scan, from any start, finds
/// another slot or none.
pub proof fn lemma_acquired_slot_held(free: Seq<bool>, start: int, next_start: int)
    requires
        free.len() > 0,
        first_free_from(free, start, 0) is Some,
    ensures
        ({
            let s = first_free_from(free, start, 0)->0;
            first_free_from(free.update(s, false), next_start, 0) matches Some(t) ==> t != s
        }),
{
    lemma_scan_result_free(free, start);
    let s = first_free_from(free, start, 0)->0;
    lemma_scan_result_free(free.update(s, false), next_start);
}

/// Law: reading a slot whose bytes all hold `pattern` yields `pattern` when it
/// touches an odd number of bytes (one per started 64-byte line, plus the last
/// byte) and 0 when it touches an even number.
pub proof fn lemma_touch_uniform(b: Seq<u8>, pattern: u8)
    requires
        b.len() > 0,
        forall|i: int| 0 <= i < b.len() ==> #[trigger] b[i] == pattern,
    ensures
        touch_value(b) == (if ((b.len() + 63) / 64 + 1) % 2 == 1 {
            pattern as u64
        } else {
            0u64
        }),
{
    let k = ((b.len() + 63) / 64) as nat;
    lemma_lines_xor_uniform(b, k, pattern);
    lemma_xor_self_zero(pattern as u64);
    assert(b[b.len() - 1] == pattern);
}

/// Law: after `write_payload(slot, pattern)`, reading that slot yields
/// `pattern` when it touches an odd number of bytes (one per started 64-byte
/// line, plus the last byte) and 0 otherwise.
pub proof fn lemma_write_then_touch(pool: &ProducerPool, slot: int, pattern: u8)
    requires
        pool.wf(),
        0 <= slot < pool.slot_count(),
        forall|i: int| 0 <= i < pool.payload_len() ==> #[trigger] pool.slot_bytes(slot)[i] == pattern,
    ensures
        touch_value(pool.slot_bytes(slot)) == (if ((pool.payload_len() + 63) / 64 + 1) % 2 == 1 {
            pattern as u64
        } else {
            0u64
        }),
{
    pool.lemma_sizes();
    let n = pool.slot_count() as int;
    let ps = pool.payload_len() as int;
    lemma_slot_range(slot, n, ps);
    let b = pool.slot_bytes(slot);
    assert(b.len() == ps);
    lemma_touch_uniform(b, pattern);
}

proof fn lemma_scan_from_first_free(free: Seq<bool>, h: int, k: nat)
    requires
        0 <= h < free.len(),
    ensures
        ({
            let n = free.len() as int;
            match first_free_from(free, h, k) {
                Some(s) => {
                    &&& 0 <= s < n
                    &&& free[s]
                    &&& k <= (s - h + n) % n
                    &&& forall|i: int|
                        0 <= i < n && k <= (i - h + n) % n < (s - h + n) % n ==> !#[trigger] free[i]
                },
                None => forall|i: int| 0 <= i < n && k <= (i - h + n) % n ==> !#[trigger] free[i],
            }
        }),
    decreases free.len() - k,
{
    let n = free.len() as int;
    if k < n {
        lemma_cyclic_dist(h, k as int, n);
        lemma_scan_from_first_free(free, h, k + 1);
        assert forall|i: int| 0 <= i < n && (i - h + n) % n == k implies #[trigger] free[i] == free[(h
            + k) % n] by {
            lemma_dist_back(h, i, n);
        }
    } else {
        assert forall|i: int| 0 <= i < n && k <= (i - h + n) % n implies !#[trigger] free[i] by {
            lemma_dist_back(h, i, n);
        }
    }
}

/// Law: the round that `try_acquire_slot` and `acquire_slot` make from hint
/// `h` takes the free slot nearest after `h` going round (the hinted slot
/// itself first): every slot met before it is in use. It takes nothing
/// exactly when every slot is in use.
pub proof fn lemma_scan_takes_nearest_free(free: Seq<bool>, h: int)
    requires
        0 <= h < free.len(),
    ensures
        ({
            let n = free.len() as int;
            match first_free_from(free, h, 0) {
                Some(s) => {
                    &&& 0 <= s < n
                    &&& free[s]
                    &&& forall|i: int|
                        0 <= i < n && (i - h + n) % n < (s - h + n) % n ==> !#[trigger] free[i]
                },
                None => forall|i: int| 0 <= i < n ==> !#[trigger] free[i],
            }
        }),
{
    let n = free.len() as int;
    lemma_scan_from_first_free(free, h, 0);
    assert forall|i: int| 0 <= i < n implies 0 <= #[trigger] ((i - h + n) % n) by {
        lemma_dist_back(h, i, n);
    }
}

proof fn lemma_lines_xor_same(b1: Seq<u8>, b2: Seq<u8>, k: nat)
    requires
        forall|j: int| 0 <= j < k ==> #[trigger] b1[64 * j] == b2[64 * j],
    ensures
        lines_xor(b1, k) == lines_xor(b2, k),
    decreases k,
{
    if k > 0 {
        lemma_lines_xor_same(b1, b2, (k - 1) as nat);
        assert(b1[64 * (k - 1)] == b2[64 * (k - 1)]);
    }
}

/// Law: reading a slot looks only at the first byte of each 64-byte line and
/// at the last byte: two slots that agree on those bytes read the same.
pub proof fn lemma_touch_reads_line_starts(b1: Seq<u8>, b2: Seq<u8>)
    requires
        b1.len() == b2.len(),
        b1.len() > 0,
        forall|j: int| 0 <= 64 * j < b1.len() ==> #[trigger] b1[64 * j] == b2[64 * j],
        b1[b1.len() - 1] == b2[b2.len() - 1],
    ensures
        touch_value(b1) == touch_value(b2),
{
    let k = ((b1.len() + 63) / 64) as nat;
    assert forall|j: int| 0 <= j < k implies #[trigger] b1[64 * j] == b2[64 * j] by {
        assert(64 * j < b1.len());
    }
    lemma_lines_xor_same(b1, b2, k);
}

proof fn lemma_xor_swap(a: u64, x: u64, y: u64)
    by (bit_vector)
    ensures
        (a ^ x) == ((a ^ y) ^ y) ^ x,
{
}

proof fn lemma_lines_xor_update(b: Seq<u8>, k: nat, j: int, v: u8)
    requires
        0 <= j < k,
        64 * k <= b.len() + 63,
        0 <= 64 * j < b.len(),
    ensures
        lines_xor(b.update(64 * j, v), k) == (lines_xor(b, k) ^ (b[64 * j] as u64)) ^ (v as u64),
    decreases k,
{
    let b2 = b.update(64 * j, v);
    if k - 1 == j {
        assert forall|i: int| 0 <= i < k - 1 implies #[trigger] b2[64 * i] == b[64 * i] by {}
        lemma_lines_xor_same(b2, b, (k - 1) as nat);
        let a = lines_xor(b, (k - 1) as nat);
        lemma_xor_swap(a, v as u64, b[64 * j] as u64);
    } else {
        lemma_lines_xor_update(b, (k - 1) as nat, j, v);
        assert(b2[64 * (k - 1)] == b[64 * (k - 1)]);
        let a = lines_xor(b, (k - 1) as nat);
        let c = b[64 * (k - 1)] as u64;
        let x = b[64 * j] as u64;
        assert(((a ^ x) ^ (v as u64)) ^ c == ((a ^ c) ^ x) ^ (v as u64)) by (bit_vector);
    }
}

/// Law: changing the first byte of one 64-byte line (other than the last
/// byte) from `b[64 * j]` to `v` changes what reading the slot yields by
/// exactly `b[64 * j] ^ v`: every line start is read, once.
pub proof fn lemma_touch_line_start(b: Seq<u8>, j: int, v: u8)
    requires
        0 <= 64 * j < b.len() - 1,
    ensures
        touch_value(b.update(64 * j, v)) == (touch_value(b) ^ (b[64 * j] as u64)) ^ (v as u64),
{
    let k = ((b.len() + 63) / 64) as nat;
    assert(j < k);
    lemma_lines_xor_update(b, k, j, v);
    let b2 = b.update(64 * j, v);
    assert(b2[b2.len() - 1] == b[b.len() - 1]);
    let a = lines_xor(b, k);
    let l = b[b.len() - 1] as u64;
    let x = b[64 * j] as u64;
    assert(((a ^ x) ^ (v as u64)) ^ l == ((a ^ l) ^ x) ^ (v as u64)) by (bit_vector);
}

} // verus!
